//! The raster and the two tables of a map, and the one step that changes them
//! together: writing a pixel.
use vstd::prelude::*;
use std::collections::HashMap;
use std::collections::HashSet;
use std::sync::Arc;
use crate::shared::{make_mut, share};
use crate::color::{Color, KEY_LIMIT, color_key, key_of};
use crate::model::{MapView, all_keys, lemma_sums_fit, settled, settled_provinces, size_fits};
use crate::province::{ConnectionData, ConnectionView, ProvinceData, ProvinceView};
use crate::tables::{keys_u32, keys_u64};
use crate::kinds::{ConnectionKind, ProvinceKind};
use crate::extents::{Extents, Pos};
use crate::model::{is_remap, lemma_remap_wf, relabel_key, relabel_link, coastal, coastal_before, land_sea, lemma_coastal_all, lemma_coastal_step, with_coasts, lemma_toggled_wf, lemma_with_province_wf, painted, toggled, back_key, forth_key, lemma_back_forth, lemma_forth_back, lemma_renamed_wf, renamed, renamed_connections, renamed_link, joined_connections, touches, back, adjacent, bounds, connected, flooded, lemma_bounds_more, lemma_bounds_one, lemma_closed_holds_connected, lemma_connected_self, lemma_connected_step, lemma_settled_same, lemma_settled_twice, lemma_settled_wf};
use crate::tally::{column, count_of, lemma_count_positive, lemma_place, lemma_place_of, lemma_weight_update, place, row, sum_x_of, sum_y_of, unit};
use crate::uord::{PAIR_BASE, is_pair_key, lemma_pair_key, lemma_pair_key_halves, pair_high, pair_key_halves, pair_key_of, pair_low};
use crate::color::key_color;
use crate::tally::{one_to_one, recolored, relabeled};
use crate::color::BLACK_KEY;

verus! {

/// The entries of a province table as values.
pub open spec fn province_views(m: Map<u32, ProvinceData>) -> Map<u32, ProvinceView> {
    m.map_values(|d: ProvinceData| d@)
}

/// The entries of a connection table as values.
pub open spec fn connection_views(m: Map<u64, ConnectionData>) -> Map<u64, ConnectionView> {
    m.map_values(|c: ConnectionData| c@)
}

/// An entry with more pixels.
pub open spec fn grown(v: ProvinceView, n: nat, sx: nat, sy: nat) -> ProvinceView {
    v.with_pixels(v.pixel_count + n, v.sum_x + sx, v.sum_y + sy)
}

/// An entry with fewer pixels.
pub open spec fn shrunk(v: ProvinceView, n: nat, sx: nat, sy: nat) -> ProvinceView {
    v.with_pixels((v.pixel_count - n) as nat, (v.sum_x - sx) as nat, (v.sum_y - sy) as nat)
}

/// The entry of a key, or that of a province that nothing is known of.
pub open spec fn entry_or_fresh(m: Map<u32, ProvinceView>, k: u32) -> ProvinceView {
    if m.contains_key(k) {
        m[k]
    } else {
        ProvinceView::fresh()
    }
}

/// A connection's entry without the province in between, if that is `gone`.
pub open spec fn forgetting(c: ConnectionView, gone: u32) -> ConnectionView {
    ConnectionView {
        through: if c.through == Some(gone) {
            None
        } else {
            c.through
        },
        ..c
    }
}

/// The connections that do not touch `gone`, none of them through it.
pub open spec fn purged(m: Map<u64, ConnectionView>, gone: u32) -> Map<u64, ConnectionView> {
    Map::new(
        |key: u64| m.contains_key(key) && pair_low(key) != gone && pair_high(key) != gone,
        |key: u64| forgetting(m[key], gone),
    )
}

/// Gives the province of key `k` more pixels; a province that the table
/// does not hold is entered first, with nothing known of it.
pub(crate) fn credit(provinces: &mut HashMap<u32, ProvinceData>, k: u32, n: u64, sx: u64, sy: u64)
    requires
        entry_or_fresh(province_views(old(provinces)@), k).pixel_count + n <= u64::MAX,
        entry_or_fresh(province_views(old(provinces)@), k).sum_x + sx <= u64::MAX,
        entry_or_fresh(province_views(old(provinces)@), k).sum_y + sy <= u64::MAX,
    ensures
        province_views(final(provinces)@) == province_views(old(provinces)@).insert(
            k,
            grown(entry_or_fresh(province_views(old(provinces)@), k), n as nat, sx as nat, sy as nat),
        ),
{
    broadcast use vstd::std_specs::hash::group_hash_axioms;

    let mut d = match provinces.remove(&k) {
        Some(d) => d,
        None => ProvinceData::default(),
    };
    d.pixel_count = d.pixel_count + n;
    d.pixel_sum = [d.pixel_sum[0] + sx, d.pixel_sum[1] + sy];
    provinces.insert(k, d);
    assert(province_views(provinces@) =~= province_views(old(provinces)@).insert(
        k,
        grown(entry_or_fresh(province_views(old(provinces)@), k), n as nat, sx as nat, sy as nat),
    ));
}

/// Takes pixels from the province of key `k`, and the province from the
/// table when none is left. Says whether the province is gone.
pub(crate) fn debit(provinces: &mut HashMap<u32, ProvinceData>, k: u32, n: u64, sx: u64, sy: u64)
    -> (gone: bool)
    requires
        province_views(old(provinces)@).contains_key(k),
        province_views(old(provinces)@)[k].pixel_count >= n,
        province_views(old(provinces)@)[k].sum_x >= sx,
        province_views(old(provinces)@)[k].sum_y >= sy,
    ensures
        gone == (province_views(old(provinces)@)[k].pixel_count == n),
        gone ==> province_views(final(provinces)@) == province_views(old(provinces)@).remove(k),
        !gone ==> province_views(final(provinces)@) == province_views(old(provinces)@).insert(
            k,
            shrunk(province_views(old(provinces)@)[k], n as nat, sx as nat, sy as nat),
        ),
{
    broadcast use vstd::std_specs::hash::group_hash_axioms;

    assert(old(provinces)@.contains_key(k));

    let mut d = match provinces.remove(&k) {
        Some(d) => d,
        None => ProvinceData::default(),
    };
    d.pixel_count = d.pixel_count - n;
    d.pixel_sum = [d.pixel_sum[0] - sx, d.pixel_sum[1] - sy];
    if d.pixel_count == 0 {
        assert(province_views(provinces@) =~= province_views(old(provinces)@).remove(k));
        true
    } else {
        provinces.insert(k, d);
        assert(province_views(provinces@) =~= province_views(old(provinces)@).insert(
            k,
            shrunk(province_views(old(provinces)@)[k], n as nat, sx as nat, sy as nat),
        ));
        false
    }
}

/// Removes the connections that touch the province of key `gone`, and
/// makes those that pass through it pass through none.
pub(crate) fn purge(connections: &mut HashMap<u64, ConnectionData>, gone: u32)
    ensures
        connection_views(final(connections)@) == purged(connection_views(old(connections)@), gone),
{
    broadcast use vstd::std_specs::hash::group_hash_axioms;

    let keys = keys_u64(connections);
    let ghost before = connections@;
    let mut i: usize = 0;
    while i < keys.len()
        invariant
            i <= keys@.len(),
            keys@.no_duplicates(),
            keys@.to_set() == before.dom(),
            forall|key: u64| #[trigger]
                connections@.contains_key(key) <==> before.contains_key(key) && !(keys@.take(
                    i as int,
                ).contains(key) && (pair_low(key) == gone || pair_high(key) == gone)),
            forall|key: u64| #[trigger]
                connections@.contains_key(key) ==> connections@[key]@ == if keys@.take(
                    i as int,
                ).contains(key) {
                    forgetting(before[key]@, gone)
                } else {
                    before[key]@
                },
        decreases keys@.len() - i,
    {
        let key = keys[i];
        proof {
            assert(keys@.to_set().contains(keys@[i as int]));
            assert(before.contains_key(key));
            assert(!keys@.take(i as int).contains(key)) by {
                if keys@.take(i as int).contains(key) {
                    let j = choose|j: int| 0 <= j < i && keys@.take(i as int)[j] == key;
                    assert(keys@[j] == keys@[i as int]);
                }
            }
            assert(keys@.take(i as int + 1) =~= keys@.take(i as int).push(key));
            assert forall|other: u64|
                keys@.take(i as int + 1).contains(other) <==> keys@.take(i as int).contains(other)
                    || other == key by {
                if keys@.take(i as int).contains(other) {
                    let j = choose|j: int| 0 <= j < i && keys@.take(i as int)[j] == other;
                    assert(keys@.take(i as int + 1)[j] == other);
                }
                if other == key {
                    assert(keys@.take(i as int + 1)[i as int] == key);
                }
            }
        }
        let low = #[verifier::truncate] ((key / PAIR_BASE) as u32);
        let high = (key % PAIR_BASE) as u32;
        if low == gone || high == gone {
            connections.remove(&key);
        } else {
            let through_gone = match connections.get(&key) {
                Some(c) => match c.through {
                    Some(t) => color_key(t) == gone,
                    None => false,
                },
                None => false,
            };
            if through_gone {
                let mut c = match connections.remove(&key) {
                    Some(c) => c,
                    None => ConnectionData::new(crate::kinds::ConnectionKind::Strait),
                };
                c.through = None;
                connections.insert(key, c);
            }
        }
        i += 1;
    }
    proof {
        assert(keys@.take(keys@.len() as int) =~= keys@);
        assert forall|key: u64| before.contains_key(key) implies keys@.contains(key) by {
            assert(keys@.to_set().contains(key));
        }
        assert(connection_views(connections@) =~= purged(connection_views(before), gone));
    }
}

/// Takes out the connections of the province of key `which`, and lets the
/// others pass through `k` where they passed through `which`.
pub(crate) fn part_connections(connections: &mut HashMap<u64, ConnectionData>, which: u32, k: u32) -> (moved:
    Vec<(u64, ConnectionData)>)
    requires
        which != k,
        k < KEY_LIMIT,
        forall|key: u64| #[trigger] old(connections)@.contains_key(key) ==> is_pair_key(key),
    ensures
        forall|key: u64| #[trigger]
            final(connections)@.contains_key(key) <==> old(connections)@.contains_key(key)
                && !touches(key, which),
        forall|key: u64| #[trigger]
            final(connections)@.contains_key(key) ==> final(connections)@[key]@ == renamed_link(
                old(connections)@[key]@,
                which,
                k,
            ),
        forall|m: int|
            0 <= m < moved@.len() ==> old(connections)@.contains_key((#[trigger] moved@[m]).0)
                && touches(moved@[m].0, which) && moved@[m].1@ == old(connections)@[moved@[m].0]@,
        forall|key: u64| #[trigger]
            old(connections)@.contains_key(key) && touches(key, which) ==> exists|m: int|
                0 <= m < moved@.len() && (#[trigger] moved@[m]).0 == key,
{
    broadcast use vstd::std_specs::hash::group_hash_axioms;

    let keys = keys_u64(connections);
    let ghost before = connections@;
    let to = key_color(k);
    let mut moved: Vec<(u64, ConnectionData)> = Vec::new();
    let mut i: usize = 0;
    while i < keys.len()
        invariant
            i <= keys@.len(),
            which != k,
            key_of(to) == k,
            keys@.no_duplicates(),
            keys@.to_set() == before.dom(),
            forall|key: u64| #[trigger] before.contains_key(key) ==> is_pair_key(key),
            forall|key: u64| #[trigger]
                connections@.contains_key(key) <==> before.contains_key(key) && !(keys@.take(
                    i as int,
                ).contains(key) && touches(key, which)),
            forall|key: u64| #[trigger]
                connections@.contains_key(key) ==> connections@[key]@ == if keys@.take(
                    i as int,
                ).contains(key) {
                    renamed_link(before[key]@, which, k)
                } else {
                    before[key]@
                },
            forall|m: int|
                0 <= m < moved@.len() ==> before.contains_key((#[trigger] moved@[m]).0) && touches(
                    moved@[m].0,
                    which,
                ) && moved@[m].1@ == before[moved@[m].0]@,
            forall|key: u64| #[trigger]
                keys@.take(i as int).contains(key) && touches(key, which) ==> exists|m: int|
                    0 <= m < moved@.len() && (#[trigger] moved@[m]).0 == key,
        decreases keys@.len() - i,
    {
        let key = keys[i];
        let ghost done = keys@.take(i as int);
        let ghost more = keys@.take(i as int + 1);
        let ghost had = moved@;
        proof {
            assert(keys@.to_set().contains(keys@[i as int]));
            assert(before.contains_key(key));
            assert(!done.contains(key)) by {
                if done.contains(key) {
                    let j = choose|j: int| 0 <= j < i && done[j] == key;
                    assert(keys@[j] == keys@[i as int]);
                }
            }
            assert(more =~= done.push(key));
            assert forall|other: u64| more.contains(other) <==> done.contains(other) || other
                == key by {
                if done.contains(other) {
                    let j = choose|j: int| 0 <= j < i && done[j] == other;
                    assert(more[j] == other);
                }
                if other == key {
                    assert(more[i as int] == key);
                }
            }
        }
        let (low, high) = pair_key_halves(key);
        let mut c = match connections.remove(&key) {
            Some(c) => c,
            None => ConnectionData::new(ConnectionKind::Strait),
        };
        if low == which || high == which {
            moved.push((key, c));
            proof {
                let n = had.len() as int;
                assert(moved@[n].0 == key);
                assert forall|m: int| 0 <= m < moved@.len() implies before.contains_key(
                    (#[trigger] moved@[m]).0,
                ) && touches(moved@[m].0, which) && moved@[m].1@ == before[moved@[m].0]@ by {
                    if m < n {
                        assert(moved@[m] == had[m]);
                    }
                }
                assert forall|other: u64| #[trigger]
                    more.contains(other) && touches(other, which) implies exists|m: int|
                    0 <= m < moved@.len() && (#[trigger] moved@[m]).0 == other by {
                    if other == key {
                        assert(moved@[n].0 == other);
                    } else {
                        let m = choose|m: int| 0 <= m < had.len() && (#[trigger] had[m]).0 == other;
                        assert(moved@[m] == had[m]);
                    }
                }
            }
        } else {
            let through_which = match c.through {
                Some(t) => color_key(t) == which,
                None => false,
            };
            if through_which {
                c.through = Some(to);
            }
            connections.insert(key, c);
        }
        i += 1;
    }
    proof {
        assert(keys@.take(keys@.len() as int) =~= keys@);
        assert forall|key: u64| before.contains_key(key) implies keys@.contains(key) by {
            assert(keys@.to_set().contains(key));
        }
    }
    moved
}

/// Whether `now` is the table `before` without the connections of the
/// province of key `which`, and with those of them in `s` entered again
/// under the keys that they have after the province went into that of key
/// `k`.
pub open spec fn joined_so_far(
    before: Map<u64, ConnectionView>,
    now: Map<u64, ConnectionView>,
    s: Set<u64>,
    which: u32,
    k: u32,
) -> bool {
    &&& forall|key: u64| #[trigger]
        now.contains_key(key) <==> is_pair_key(key) && !touches(key, which) && (
        before.contains_key(key) || s.contains(back_key(key, which, k)))
    &&& forall|key: u64| #[trigger]
        now.contains_key(key) ==> now[key] == renamed_link(
            if before.contains_key(key) {
                before[key]
            } else {
                before[back_key(key, which, k)]
            },
            which,
            k,
        )
}

/// Enters one connection that was taken out of a table under the key that
/// it has after the province of key `which` went into that of key `k`:
/// not the one between the two, and not where the table holds a connection
/// between the same two provinces already.
#[verifier::spinoff_prover]
fn join_one(
    connections: &mut HashMap<u64, ConnectionData>,
    key: u64,
    c: ConnectionData,
    which: u32,
    k: u32,
    Ghost(before): Ghost<Map<u64, ConnectionView>>,
    Ghost(s): Ghost<Set<u64>>,
)
    requires
        which != k,
        which < KEY_LIMIT,
        k < KEY_LIMIT,
        is_pair_key(key),
        before.contains_key(key),
        touches(key, which),
        c@ == before[key],
        s.subset_of(before.dom()),
        joined_so_far(before, connection_views(old(connections)@), s, which, k),
    ensures
        joined_so_far(before, connection_views(final(connections)@), s.insert(key), which, k),
{
    broadcast use vstd::std_specs::hash::group_hash_axioms;

    let ghost was = connection_views(connections@);
    let to = key_color(k);
    proof {
        lemma_pair_key_halves(key);
    }
    let (low, high) = pair_key_halves(key);
    if low != k && high != k {
        let new_low = if low == which { k } else { low };
        let new_high = if high == which { k } else { high };
        let new_key = pair_key_of(new_low, new_high);
        proof {
            lemma_back_forth(key, which, k);
            assert(new_key == forth_key(key, which, k));
            assert(back_key(new_key, which, k) == key);
            assert(!touches(new_key, which));
        }
        let ghost held = connections@.contains_key(new_key);
        if !connections.contains_key(&new_key) {
            let mut c = c;
            let through_which = match c.through {
                Some(t) => color_key(t) == which,
                None => false,
            };
            if through_which {
                c.through = Some(to);
            }
            proof {
                assert(c@ == renamed_link(before[key], which, k));
                assert(!was.contains_key(new_key));
                assert(!before.contains_key(new_key));
            }
            connections.insert(new_key, c);
        }
        proof {
            let now = connection_views(connections@);
            assert(held == was.contains_key(new_key));
            assert forall|other: u64| #[trigger] now.contains_key(other) <==> is_pair_key(other)
                && !touches(other, which) && (before.contains_key(other) || s.insert(key).contains(
                back_key(other, which, k),
            )) by {
                assert(now.contains_key(other) <==> was.contains_key(other) || other == new_key);
                if is_pair_key(other) && !touches(other, which) {
                    lemma_forth_back(other, which, k);
                }
            }
            assert forall|other: u64| #[trigger] now.contains_key(other) implies now[other]
                == renamed_link(
                if before.contains_key(other) {
                    before[other]
                } else {
                    before[back_key(other, which, k)]
                },
                which,
                k,
            ) by {
                if other != new_key || held {
                    assert(was.contains_key(other));
                    assert(now[other] == was[other]);
                }
            }
        }
    } else {
        proof {
            let now = connection_views(connections@);
            assert(now == was);
            assert forall|other: u64| #[trigger] now.contains_key(other) <==> is_pair_key(other)
                && !touches(other, which) && (before.contains_key(other) || s.insert(key).contains(
                back_key(other, which, k),
            )) by {
                if is_pair_key(other) && !touches(other, which) {
                    lemma_forth_back(other, which, k);
                    lemma_pair_key_halves(other);
                    lemma_pair_key(
                        back(pair_low(other), which, k),
                        back(pair_high(other), which, k),
                    );
                    assert(back_key(other, which, k) != key);
                }
            }
        }
    }
}

/// Enters the connections that were taken out of a table under the keys
/// that they have after the province of key `which` went into that of key
/// `k`: not the one between the two, and not where the table holds a
/// connection between the same two provinces already.
pub(crate) fn join_connections(
    connections: &mut HashMap<u64, ConnectionData>,
    moved: Vec<(u64, ConnectionData)>,
    which: u32,
    k: u32,
    Ghost(before): Ghost<Map<u64, ConnectionView>>,
)
    requires
        which != k,
        which < KEY_LIMIT,
        k < KEY_LIMIT,
        forall|key: u64| #[trigger] before.contains_key(key) ==> is_pair_key(key),
        forall|key: u64| #[trigger]
            old(connections)@.contains_key(key) <==> before.contains_key(key) && !touches(key, which),
        forall|key: u64| #[trigger]
            old(connections)@.contains_key(key) ==> old(connections)@[key]@ == renamed_link(
                before[key],
                which,
                k,
            ),
        forall|m: int|
            0 <= m < moved@.len() ==> before.contains_key((#[trigger] moved@[m]).0) && touches(
                moved@[m].0,
                which,
            ) && moved@[m].1@ == before[moved@[m].0],
        forall|key: u64| #[trigger]
            before.contains_key(key) && touches(key, which) ==> exists|m: int|
                0 <= m < moved@.len() && (#[trigger] moved@[m]).0 == key,
    ensures
        connection_views(final(connections)@) == joined_connections(before, which, k),
{
    let ghost all = moved@;
    let mut moved = moved;
    let ghost mut s: Set<u64> = Set::empty();
    proof {
        let now = connection_views(connections@);
        assert forall|key: u64| #[trigger] now.contains_key(key) implies is_pair_key(key) && !touches(
            key,
            which,
        ) && before.contains_key(key) by {
            assert(connections@.contains_key(key));
        }
        assert forall|key: u64|
            is_pair_key(key) && !touches(key, which) && before.contains_key(
                key,
            ) implies #[trigger] now.contains_key(key) by {
            assert(connections@.contains_key(key));
        }
        assert forall|key: u64| #[trigger] now.contains_key(key) implies now[key] == renamed_link(
            before[key],
            which,
            k,
        ) by {
            assert(connections@.contains_key(key));
        }
        assert(joined_so_far(before, now, s, which, k));
    }
    while moved.len() > 0
        invariant
            which != k,
            which < KEY_LIMIT,
            k < KEY_LIMIT,
            moved@.len() <= all.len(),
            moved@ == all.take(moved@.len() as int),
            forall|key: u64| #[trigger] before.contains_key(key) ==> is_pair_key(key),
            forall|m: int|
                0 <= m < all.len() ==> before.contains_key((#[trigger] all[m]).0) && touches(
                    all[m].0,
                    which,
                ) && all[m].1@ == before[all[m].0],
            s.subset_of(before.dom()),
            forall|m: int| moved@.len() <= m < all.len() ==> s.contains((#[trigger] all[m]).0),
            joined_so_far(before, connection_views(connections@), s, which, k),
        decreases moved@.len(),
    {
        let ghost n = moved@.len() as int;
        let (key, c) = match moved.pop() {
            Some(pair) => pair,
            None => vstd::pervasive::unreached(),
        };
        proof {
            assert(all.take(n)[n - 1] == all[n - 1]);
            assert(moved@ =~= all.take(n - 1));
            assert(all[n - 1].0 == key);
            assert(before.contains_key(key) && touches(key, which));
        }
        join_one(connections, key, c, which, k, Ghost(before), Ghost(s));
        proof {
            s = s.insert(key);
        }
    }
    proof {
        let now = connection_views(connections@);
        let target = joined_connections(before, which, k);
        assert forall|key: u64| now.contains_key(key) == target.contains_key(key) by {
            if is_pair_key(key) && !touches(key, which) && !before.contains_key(key)
                && before.contains_key(back_key(key, which, k)) {
                let w = back_key(key, which, k);
                assert(touches(w, which)) by {
                    if !touches(w, which) {
                        lemma_pair_key_halves(key);
                        lemma_pair_key(
                            back(pair_low(key), which, k),
                            back(pair_high(key), which, k),
                        );
                        assert(w == key);
                    }
                }
                let m = choose|m: int| 0 <= m < all.len() && (#[trigger] all[m]).0 == w;
                assert(s.contains(all[m].0));
            }
        }
        assert(now =~= target);
    }
}

/// Holds every connection under the key that it has after the province of
/// key `which` got the key `k`.
#[verifier::rlimit(60)]
#[verifier::spinoff_prover]
pub(crate) fn rekey(connections: &mut HashMap<u64, ConnectionData>, which: u32, k: u32)
    requires
        which != k,
        which < KEY_LIMIT,
        k < KEY_LIMIT,
        forall|key: u64| #[trigger]
            old(connections)@.contains_key(key) ==> is_pair_key(key) && pair_low(key) != k
                && pair_high(key) != k,
    ensures
        connection_views(final(connections)@) == renamed_connections(
            connection_views(old(connections)@),
            which,
            k,
        ),
{
    broadcast use vstd::std_specs::hash::group_hash_axioms;

    let keys = keys_u64(connections);
    let ghost before = connections@;
    let to = key_color(k);
    let mut i: usize = 0;
    while i < keys.len()
        invariant
            i <= keys@.len(),
            which != k,
            which < KEY_LIMIT,
            k < KEY_LIMIT,
            key_of(to) == k,
            keys@.no_duplicates(),
            keys@.to_set() == before.dom(),
            forall|key: u64| #[trigger]
                before.contains_key(key) ==> is_pair_key(key) && pair_low(key) != k && pair_high(
                    key,
                ) != k,
            forall|key: u64| #[trigger]
                connections@.contains_key(key) <==> (before.contains_key(key) && !keys@.take(
                    i as int,
                ).contains(key)) || (is_pair_key(key) && pair_low(key) != which && pair_high(key)
                    != which && before.contains_key(back_key(key, which, k)) && keys@.take(
                    i as int,
                ).contains(back_key(key, which, k))),
            forall|key: u64| #[trigger]
                connections@.contains_key(key) ==> connections@[key]@ == if before.contains_key(key)
                    && !keys@.take(i as int).contains(key) {
                    before[key]@
                } else {
                    renamed_link(before[back_key(key, which, k)]@, which, k)
                },
        decreases keys@.len() - i,
    {
        let key = keys[i];
        let ghost done = keys@.take(i as int);
        let ghost more = keys@.take(i as int + 1);
        proof {
            assert(keys@.to_set().contains(keys@[i as int]));
            assert(before.contains_key(key));
            assert(!done.contains(key)) by {
                if done.contains(key) {
                    let j = choose|j: int| 0 <= j < i && done[j] == key;
                    assert(keys@[j] == keys@[i as int]);
                }
            }
            assert(more =~= done.push(key));
            assert forall|other: u64| more.contains(other) <==> done.contains(other) || other
                == key by {
                if done.contains(other) {
                    let j = choose|j: int| 0 <= j < i && done[j] == other;
                    assert(more[j] == other);
                }
                if other == key {
                    assert(more[i as int] == key);
                }
            }
            lemma_back_forth(key, which, k);
        }
        let (low, high) = pair_key_halves(key);
        let new_low = if low == which { k } else { low };
        let new_high = if high == which { k } else { high };
        let new_key = pair_key_of(new_low, new_high);
        let mut c = match connections.remove(&key) {
            Some(c) => c,
            None => ConnectionData::new(crate::kinds::ConnectionKind::Strait),
        };
        let through_which = match c.through {
            Some(t) => color_key(t) == which,
            None => false,
        };
        if through_which {
            c.through = Some(to);
        }
        connections.insert(new_key, c);
        proof {
            assert(new_key == forth_key(key, which, k));
            assert forall|other: u64| #[trigger]
                connections@.contains_key(other) <==> (before.contains_key(other)
                    && !more.contains(other)) || (is_pair_key(other) && pair_low(other) != which
                    && pair_high(other) != which && before.contains_key(
                    back_key(other, which, k),
                ) && more.contains(back_key(other, which, k))) by {
                if is_pair_key(other) && pair_low(other) != which && pair_high(other) != which {
                    lemma_forth_back(other, which, k);
                }
                if before.contains_key(other) {
                    lemma_back_forth(other, which, k);
                }
            }
            assert forall|other: u64| #[trigger]
                connections@.contains_key(other) implies connections@[other]@
                == if before.contains_key(other) && !more.contains(other) {
                before[other]@
            } else {
                renamed_link(before[back_key(other, which, k)]@, which, k)
            } by {
                if is_pair_key(other) && pair_low(other) != which && pair_high(other) != which {
                    lemma_forth_back(other, which, k);
                }
                if before.contains_key(other) {
                    lemma_back_forth(other, which, k);
                }
            }
        }
        i += 1;
    }
    proof {
        assert(keys@.take(keys@.len() as int) =~= keys@);
        assert forall|key: u64| before.contains_key(key) implies keys@.contains(key) by {
            assert(keys@.to_set().contains(key));
        }
        assert forall|key: u64|
            connection_views(connections@).contains_key(key) == renamed_connections(
                connection_views(before),
                which,
                k,
            ).contains_key(key) by {
            if before.contains_key(key) {
                lemma_back_forth(key, which, k);
            }
        }
        assert(connection_views(connections@) =~= renamed_connections(
            connection_views(before),
            which,
            k,
        ));
    }
}

/// The keys of the colours of a list that can be given to provinces: all
/// but black.
pub open spec fn usable(candidates: Seq<Color>) -> Set<u32> {
    keys_of(candidates).to_set().remove(BLACK_KEY)
}

/// One more candidate adds its key to the usable ones, unless it is black.
pub proof fn lemma_usable_step(candidates: Seq<Color>, n: int)
    requires
        0 <= n < candidates.len(),
    ensures
        usable(candidates.take(n + 1)) == if key_of(candidates[n]) == BLACK_KEY {
            usable(candidates.take(n))
        } else {
            usable(candidates.take(n)).insert(key_of(candidates[n]))
        },
        usable(candidates.take(n)).finite(),
{
    let a = keys_of(candidates.take(n));
    let b = keys_of(candidates.take(n + 1));
    assert(b =~= a.push(key_of(candidates[n])));
    vstd::seq_lib::seq_to_set_is_finite(a);
    assert(b.to_set() =~= a.to_set().insert(key_of(candidates[n]))) by {
        assert forall|k: u32| b.to_set().contains(k) <==> a.to_set().insert(
            key_of(candidates[n]),
        ).contains(k) by {
            if a.contains(k) {
                let i = choose|i: int| 0 <= i < a.len() && a[i] == k;
                assert(b[i] == k);
            }
            if k == key_of(candidates[n]) {
                assert(b[n] == k);
            }
            if b.contains(k) {
                let i = choose|i: int| 0 <= i < b.len() && b[i] == k;
                if i < n {
                    assert(a[i] == k);
                }
            }
        }
    }
    assert(usable(candidates.take(n + 1)) =~= if key_of(candidates[n]) == BLACK_KEY {
        usable(candidates.take(n))
    } else {
        usable(candidates.take(n)).insert(key_of(candidates[n]))
    });
}

/// Writing the key `c` at the place `i` moves one pixel, with its column
/// and row, from the key that was there to `c`.
pub proof fn lemma_paint_counts(s: Seq<u32>, width: int, i: int, c: u32)
    requires
        0 <= i < s.len(),
    ensures
        forall|k: u32|
            (#[trigger] count_of(s.update(i, c), k)) + (if s[i] == k { 1nat } else { 0 })
                == count_of(s, k) + (if c == k { 1nat } else { 0 }),
        forall|k: u32|
            (#[trigger] sum_x_of(s.update(i, c), width, k)) + (if s[i] == k {
                column(width)(i)
            } else {
                0
            }) == sum_x_of(s, width, k) + (if c == k { column(width)(i) } else { 0 }),
        forall|k: u32|
            (#[trigger] sum_y_of(s.update(i, c), width, k)) + (if s[i] == k {
                row(width)(i)
            } else {
                0
            }) == sum_y_of(s, width, k) + (if c == k { row(width)(i) } else { 0 }),
{
    assert forall|k: u32|
        (#[trigger] count_of(s.update(i, c), k)) + (if s[i] == k { 1nat } else { 0 }) == count_of(
            s,
            k,
        ) + (if c == k { 1nat } else { 0 }) by {
        lemma_weight_update(s, i, c, k, unit());
        assert(unit()(i) == 1);
    }
    assert forall|k: u32|
        (#[trigger] sum_x_of(s.update(i, c), width, k)) + (if s[i] == k {
            column(width)(i)
        } else {
            0
        }) == sum_x_of(s, width, k) + (if c == k { column(width)(i) } else { 0 }) by {
        lemma_weight_update(s, i, c, k, column(width));
    }
    assert forall|k: u32|
        (#[trigger] sum_y_of(s.update(i, c), width, k)) + (if s[i] == k {
            row(width)(i)
        } else {
            0
        }) == sum_y_of(s, width, k) + (if c == k { row(width)(i) } else { 0 }) by {
        lemma_weight_update(s, i, c, k, row(width));
    }
}

/// The raster of a map with its province table and its connection table.
pub struct MapBase {
    width: u32,
    height: u32,
    pixels: Arc<Vec<u32>>,
    provinces: Arc<HashMap<u32, ProvinceData>>,
    connections: Arc<HashMap<u64, ConnectionData>>,
}

impl View for MapBase {
    type V = MapView;

    closed spec fn view(&self) -> MapView {
        MapView {
            width: self.width,
            height: self.height,
            pixels: self.pixels@,
            provinces: province_views(self.provinces@),
            connections: connection_views(self.connections@),
        }
    }
}

/// The keys of a sequence of colours.
pub open spec fn keys_of(colors: Seq<Color>) -> Seq<u32> {
    Seq::new(colors.len(), |i: int| key_of(colors[i]))
}

/// A raster of the given size with no province and no connection known.
pub open spec fn bare_view(width: u32, height: u32, pixels: Seq<u32>) -> MapView {
    MapView { width, height, pixels, provinces: Map::empty(), connections: Map::empty() }
}

/// Whether a raster of this size can be held.
pub fn size_ok(width: u32, height: u32) -> (r: bool)
    ensures
        r == size_fits(width, height),
{
    if width == 0 || height == 0 {
        return false;
    }
    let w = width as u128;
    let h = height as u128;
    assert(w * h <= 0xffff_ffff * 0xffff_ffff) by (nonlinear_arith)
        requires
            w <= 0xffff_ffff,
            h <= 0xffff_ffff,
    ;
    let area = w * h;
    assert(area * w <= 0xffff_ffff * 0xffff_ffff * 0xffff_ffff && area * h <= 0xffff_ffff
        * 0xffff_ffff * 0xffff_ffff) by (nonlinear_arith)
        requires
            area <= 0xffff_ffff * 0xffff_ffff,
            w <= 0xffff_ffff,
            h <= 0xffff_ffff,
    ;
    area * w <= u64::MAX as u128 && area * h <= u64::MAX as u128
}

impl MapBase {
    /// The tables agree with the raster.
    pub open spec fn wf(&self) -> bool {
        self@.wf()
    }

    /// The map of a raster, given row by row, with a province for each of
    /// its colours, of which nothing is known yet, and no connection. There
    /// is none where the raster is empty or too large for the counters, or
    /// where the colours are not as many as the size asks.
    pub fn new(width: u32, height: u32, colors: &Vec<Color>) -> (r: Option<MapBase>)
        ensures
            r is Some <==> size_fits(width, height) && colors@.len() == width * height,
            r is Some ==> r.unwrap().wf() && r.unwrap()@ == settled(
                bare_view(width, height, keys_of(colors@)),
                keys_of(colors@),
            ),
    {
        if !size_ok(width, height) {
            return None;
        }
        assert(width * height <= u64::MAX) by (nonlinear_arith)
            requires
                width * height * width <= u64::MAX,
                width > 0,
                height > 0,
        ;
        if colors.len() as u64 != width as u64 * height as u64 {
            return None;
        }
        let ghost s = keys_of(colors@);
        let ghost w = width as int;
        let mut pixels: Vec<u32> = Vec::new();
        let mut provinces: HashMap<u32, ProvinceData> = HashMap::new();
        let mut i: usize = 0;
        assert(province_views(provinces@) =~= settled_provinces(Map::empty(), s.take(0), w));
        while i < colors.len()
            invariant
                i <= colors@.len(),
                s == keys_of(colors@),
                w == width as int,
                size_fits(width, height),
                colors@.len() == width * height,
                pixels@ == s.take(i as int),
                province_views(provinces@) == settled_provinces(
                    Map::empty(),
                    s.take(i as int),
                    w,
                ),
            decreases colors@.len() - i,
        {
            let k = color_key(colors[i]);
            let x = (i as u64 % width as u64) as u32;
            let y = (i as u64 / width as u64) as u32;
            proof {
                let a = s.take(i as int);
                let b = s.take(i as int + 1);
                assert(b.drop_last() =~= a);
                assert(b.last() == k);
                assert(unit()(i as int) == 1);
                lemma_place_of(i as int, w, height as int);
                assert(column(w)(i as int) == x);
                assert(row(w)(i as int) == y);
                lemma_sums_fit(b, width, height, k);
                lemma_sums_fit(a, width, height, k);
                if !(count_of(a, k) > 0) {
                    crate::tally::lemma_uncounted_weighs_nothing(a, k, column(w));
                    crate::tally::lemma_uncounted_weighs_nothing(a, k, row(w));
                }
            }
            pixels.push(k);
            credit(&mut provinces, k, 1, x as u64, y as u64);
            proof {
                let a = s.take(i as int);
                let b = s.take(i as int + 1);
                assert forall|j: u32| count_of(b, j) == count_of(a, j) + (if j == k {
                    1nat
                } else {
                    0
                }) && sum_x_of(b, w, j) == sum_x_of(a, w, j) + (if j == k {
                    x as nat
                } else {
                    0
                }) && sum_y_of(b, w, j) == sum_y_of(a, w, j) + (if j == k {
                    y as nat
                } else {
                    0
                }) by {
                    assert(b.drop_last() =~= a);
                }
                assert(province_views(provinces@) =~= settled_provinces(Map::empty(), b, w));
                assert(pixels@ =~= b);
            }
            i += 1;
        }
        proof {
            assert(s.take(s.len() as int) =~= s);
        }
        let base = MapBase {
            width,
            height,
            pixels: Arc::new(pixels),
            provinces: Arc::new(provinces),
            connections: Arc::new(HashMap::new()),
        };
        proof {
            let n = settled(bare_view(width, height, s), s);
            assert(base@.connections =~= n.connections);
            assert(base@ == n);
            assert(all_keys(s)) by {
                assert forall|j: int| 0 <= j < s.len() implies #[trigger] s[j] < KEY_LIMIT by {
                    crate::color::lemma_key_round_trip(colors@[j]);
                }
            }
        }
        Some(base)
    }

    /// Another handle to the raster and the tables, which shares them
    /// until one of the two is changed.
    pub fn copy(&self) -> (r: MapBase)
        ensures
            r@ == self@,
    {
        MapBase {
            width: self.width,
            height: self.height,
            pixels: share(&self.pixels),
            provinces: share(&self.provinces),
            connections: share(&self.connections),
        }
    }

    pub fn width(&self) -> (w: u32)
        ensures
            w == self@.width,
    {
        self.width
    }

    pub fn height(&self) -> (h: u32)
        ensures
            h == self@.height,
    {
        self.height
    }

    /// The place of a position in the raster.
    pub fn index(&self, pos: Pos) -> (i: usize)
        requires
            self.wf(),
            self@.has(pos[0] as int, pos[1] as int),
        ensures
            i == place(pos[0] as int, pos[1] as int, self@.width as int),
            i < self@.pixels.len(),
    {
        proof {
            let area: usize = self.pixels.len();
            assert(area == self.pixels@.len());
            lemma_place(pos[0] as int, pos[1] as int, self.width as int, self.height as int);
            assert(pos[1] as int * self.width as int >= 0) by (nonlinear_arith)
                requires
                    pos[1] as int >= 0,
                    self.width as int >= 0,
            ;
            assert(self.pixels@.len() == self.width * self.height);
            assert(place(pos[0] as int, pos[1] as int, self.width as int) < self.pixels@.len());
        }
        pos[1] as usize * self.width as usize + pos[0] as usize
    }

    /// The key of the pixel at a position.
    pub fn key_at(&self, pos: Pos) -> (k: u32)
        requires
            self.wf(),
            self@.has(pos[0] as int, pos[1] as int),
        ensures
            k == self@.at(pos[0] as int, pos[1] as int),
            k < KEY_LIMIT,
            self@.provinces.contains_key(k),
    {
        let i = self.index(pos);
        proof {
            lemma_count_positive(self.pixels@, self.pixels@[i as int], i as int);
        }
        self.pixels[i]
    }

    /// Writes one pixel and brings the tables in line: the province of the
    /// new key gains the pixel, and is entered if it was not there; the
    /// province of the old key loses it, and leaves with its connections
    /// when it has no pixel left.
    pub fn paint(&mut self, pos: Pos, k: u32)
        requires
            old(self).wf(),
            old(self)@.has(pos[0] as int, pos[1] as int),
            k < KEY_LIMIT,
        ensures
            final(self)@ == settled(
                old(self)@,
                old(self)@.pixels.update(
                    place(pos[0] as int, pos[1] as int, old(self)@.width as int),
                    k,
                ),
            ),
            final(self).wf(),
    {
        broadcast use vstd::std_specs::hash::group_hash_axioms;

        let i = self.index(pos);
        let prev = self.pixels[i];
        let ghost v = self@;
        let ghost s = self.pixels@;
        let ghost w = self.width as int;
        let ghost t = s.update(i as int, k);
        if prev == k {
            proof {
                assert(t =~= s);
                lemma_settled_same(v);
            }
            return ;
        }
        proof {
            lemma_paint_counts(s, w, i as int, k);
            lemma_place(pos[0] as int, pos[1] as int, w, self.height as int);
            lemma_sums_fit(t, self.width, self.height, k);
            lemma_count_positive(s, prev, i as int);
            assert(count_of(t, k) == count_of(s, k) + 1);
            assert(sum_x_of(t, w, k) == sum_x_of(s, w, k) + pos[0]);
            assert(sum_y_of(t, w, k) == sum_y_of(s, w, k) + pos[1]);
            assert(count_of(t, prev) + 1 == count_of(s, prev));
            assert(sum_x_of(t, w, prev) + pos[0] == sum_x_of(s, w, prev));
            assert(sum_y_of(t, w, prev) + pos[1] == sum_y_of(s, w, prev));
            assert(v.provinces.contains_key(prev));
            assert(v.provinces.contains_key(k) <==> count_of(s, k) > 0);
            assert(entry_or_fresh(v.provinces, k).pixel_count == count_of(s, k));
            assert(entry_or_fresh(v.provinces, k).sum_x == sum_x_of(s, w, k)) by {
                if !v.provinces.contains_key(k) {
                    crate::tally::lemma_uncounted_weighs_nothing(s, k, column(w));
                }
            }
            assert(entry_or_fresh(v.provinces, k).sum_y == sum_y_of(s, w, k)) by {
                if !v.provinces.contains_key(k) {
                    crate::tally::lemma_uncounted_weighs_nothing(s, k, row(w));
                }
            }
            let area: usize = self.pixels.len();
            assert(t.len() == area);
        }
        let pixels = make_mut(&mut self.pixels);
        pixels[i] = k;
        let provinces = make_mut(&mut self.provinces);
        credit(provinces, k, 1, pos[0] as u64, pos[1] as u64);
        assert(province_views(provinces@).contains_key(prev));
        assert(province_views(provinces@)[prev] == v.provinces[prev]);
        let gone = debit(provinces, prev, 1, pos[0] as u64, pos[1] as u64);
        if gone {
            purge(make_mut(&mut self.connections), prev);
        }
        proof {
            assert(all_keys(t));
            let n = settled(v, t);
            assert(self.pixels@ =~= t);
            assert forall|j: u32| self@.provinces.contains_key(j) == n.provinces.contains_key(
                j,
            ) by {
                if j != k && j != prev {
                    assert(count_of(t, j) == count_of(s, j));
                    assert(v.provinces.contains_key(j) <==> count_of(s, j) > 0);
                }
            }
            assert forall|j: u32| self@.provinces.contains_key(j) implies self@.provinces[j]
                == n.provinces[j] by {
                if j != k && j != prev {
                    assert(count_of(t, j) == count_of(s, j));
                    assert(sum_x_of(t, w, j) == sum_x_of(s, w, j));
                    assert(sum_y_of(t, w, j) == sum_y_of(s, w, j));
                    assert(v.provinces.contains_key(j));
                }
            }
            assert(self@.provinces =~= n.provinces);
            assert forall|key: u64| v.connections.contains_key(key) implies {
                &&& n.connections.contains_key(key) == self@.connections.contains_key(key)
                &&& n.connections.contains_key(key) ==> n.connections[key]
                    == self@.connections[key]
            } by {
                let lo = pair_low(key);
                let hi = pair_high(key);
                assert(v.provinces.contains_key(lo));
                assert(v.provinces.contains_key(hi));
                assert(count_of(t, lo) > 0 <==> !(gone && lo == prev));
                assert(count_of(t, hi) > 0 <==> !(gone && hi == prev));
                if v.connections[key].through is Some {
                    let th = v.connections[key].through.unwrap();
                    assert(v.provinces.contains_key(th));
                    assert(count_of(t, th) > 0 <==> !(gone && th == prev));
                }
            }
            assert(self@.connections =~= n.connections);
            lemma_settled_wf(v, t);
        }
    }
    /// The places of the pixels of a key.
    pub open spec fn places_of(s: Seq<u32>, k: u32) -> Set<int> {
        Set::new(|i: int| 0 <= i < s.len() && s[i] == k)
    }

    /// The smallest box that holds the pixels of a province.
    pub fn key_bounds(&self, which: u32) -> (e: Extents)
        requires
            self.wf(),
            self@.provinces.contains_key(which),
        ensures
            bounds(e, self@.width as int, MapBase::places_of(self@.pixels, which)),
    {
        let ghost s = self.pixels@;
        let ghost w = self.width as int;
        let mut found: Option<Extents> = None;
        let mut i: usize = 0;
        while i < self.pixels.len()
            invariant
                self.wf(),
                s == self.pixels@,
                w == self.width as int,
                i <= s.len(),
                match found {
                    Some(b) => bounds(b, w, MapBase::places_of(s.take(i as int), which)),
                    None => forall|j: int| 0 <= j < i ==> s[j] != which,
                },
            decreases s.len() - i,
        {
            if self.pixels[i] == which {
                let pos = self.position(i);
                proof {
                    let a = MapBase::places_of(s.take(i as int), which);
                    let b = MapBase::places_of(s.take(i as int + 1), which);
                    assert(b =~= a.insert(i as int));
                    match found {
                        Some(e) => {
                            lemma_bounds_more(e, pos[0], pos[1], w, a, i as int);
                        },
                        None => {
                            assert(a =~= Set::empty());
                            assert(b =~= set![i as int]);
                            lemma_bounds_one(pos[0], pos[1], w, i as int);
                        },
                    }
                }
                found = Some(
                    match found {
                        Some(e) => e.join_point(pos),
                        None => Extents::new_point(pos),
                    },
                );
            } else {
                proof {
                    assert(MapBase::places_of(s.take(i as int + 1), which)
                        =~= MapBase::places_of(s.take(i as int), which));
                }
            }
            i += 1;
        }
        proof {
            assert(s.take(s.len() as int) =~= s);
            if found is None {
                let j = crate::tally::lemma_count_witness(s, which);
            }
        }
        match found {
            Some(e) => e,
            None => Extents::new_point([0, 0]),
        }
    }

    /// Gives every pixel of the province of key `which` the key `k`, which
    /// no province has, and holds the province and its connections under
    /// the new key. Returns the smallest box that holds those pixels.
    pub(crate) fn recolor(&mut self, which: u32, k: u32) -> (e: Extents)
        requires
            old(self).wf(),
            old(self)@.provinces.contains_key(which),
            !old(self)@.provinces.contains_key(k),
            k < KEY_LIMIT,
        ensures
            final(self).wf(),
            final(self)@ == renamed(old(self)@, which, k),
            bounds(e, old(self)@.width as int, MapBase::places_of(old(self)@.pixels, which)),
    {
        broadcast use vstd::std_specs::hash::group_hash_axioms;

        let ghost v = self@;
        let ghost s = self.pixels@;
        let e = self.key_bounds(which);
        proof {
            let j = crate::tally::lemma_count_witness(s, which);
            assert forall|key: u64| #[trigger] self.connections@.contains_key(key) implies is_pair_key(
                key,
            ) && pair_low(key) != k && pair_high(key) != k by {
                assert(v.connections.contains_key(key));
            }
        }
        let pixels = make_mut(&mut self.pixels);
        let mut i: usize = 0;
        while i < pixels.len()
            invariant
                i <= s.len(),
                pixels@.len() == s.len(),
                forall|j: int| 0 <= j < i ==> pixels@[j] == recolored(s, which, k)[j],
                forall|j: int| i <= j < s.len() ==> pixels@[j] == s[j],
            decreases s.len() - i,
        {
            if pixels[i] == which {
                pixels[i] = k;
            }
            i += 1;
        }
        let provinces = make_mut(&mut self.provinces);
        let d = match provinces.remove(&which) {
            Some(d) => d,
            None => ProvinceData::default(),
        };
        provinces.insert(k, d);
        rekey(make_mut(&mut self.connections), which, k);
        proof {
            let n = renamed(v, which, k);
            assert(self.pixels@ =~= n.pixels);
            assert(self@.provinces =~= n.provinces);
            assert(self@.connections == n.connections);
            lemma_renamed_wf(v, which, k);
        }
        e
    }

    /// How many provinces the map has.
    pub fn provinces_count(&self) -> (n: usize)
        ensures
            n == self@.provinces.len(),
    {
        broadcast use vstd::std_specs::hash::group_hash_axioms;

        proof {
            assert(self@.provinces.dom() =~= self.provinces@.dom());
        }
        self.provinces.len()
    }

    /// How many connections the map has.
    pub fn connections_count(&self) -> (n: usize)
        ensures
            n == self@.connections.len(),
    {
        broadcast use vstd::std_specs::hash::group_hash_axioms;

        proof {
            assert(self@.connections.dom() =~= self.connections@.dom());
        }
        self.connections.len()
    }

    /// Whether a province has this key.
    pub fn has_province(&self, k: u32) -> (r: bool)
        ensures
            r == self@.provinces.contains_key(k),
    {
        broadcast use vstd::std_specs::hash::group_hash_axioms;

        self.provinces.contains_key(&k)
    }

    /// The province of a key.
    pub fn province(&self, k: u32) -> (d: &ProvinceData)
        requires
            self@.provinces.contains_key(k),
        ensures
            d@ == self@.provinces[k],
    {
        broadcast use vstd::std_specs::hash::group_hash_axioms;

        assert(self.provinces@.contains_key(k));
        match self.provinces.get(&k) {
            Some(d) => d,
            None => vstd::pervasive::unreached(),
        }
    }

    /// Whether a connection is held under this pair key.
    pub fn has_connection(&self, key: u64) -> (r: bool)
        ensures
            r == self@.connections.contains_key(key),
    {
        broadcast use vstd::std_specs::hash::group_hash_axioms;

        self.connections.contains_key(&key)
    }

    /// The connection of a pair key.
    pub fn connection(&self, key: u64) -> (c: &ConnectionData)
        requires
            self@.connections.contains_key(key),
        ensures
            c@ == self@.connections[key],
    {
        broadcast use vstd::std_specs::hash::group_hash_axioms;

        assert(self.connections@.contains_key(key));
        match self.connections.get(&key) {
            Some(c) => c,
            None => vstd::pervasive::unreached(),
        }
    }

    /// The keys of the provinces, each once, in no particular order.
    pub fn province_keys(&self) -> (keys: Vec<u32>)
        ensures
            keys@.no_duplicates(),
            keys@.to_set() == self@.provinces.dom(),
    {
        let keys = keys_u32(&self.provinces);
        proof {
            assert(self@.provinces.dom() =~= self.provinces@.dom());
        }
        keys
    }

    /// The keys of the connections, each once, in no particular order.
    pub fn connection_keys(&self) -> (keys: Vec<u64>)
        ensures
            keys@.no_duplicates(),
            keys@.to_set() == self@.connections.dom(),
    {
        let keys = keys_u64(&self.connections);
        proof {
            assert(self@.connections.dom() =~= self.connections@.dom());
        }
        keys
    }

    /// The key of the pixel at a place.
    pub fn key_at_place(&self, i: usize) -> (k: u32)
        requires
            self.wf(),
            i < self@.pixels.len(),
        ensures
            k == self@.pixels[i as int],
            k < KEY_LIMIT,
            self@.provinces.contains_key(k),
    {
        proof {
            lemma_count_positive(self.pixels@, self.pixels@[i as int], i as int);
        }
        self.pixels[i]
    }

    /// How many pixels the raster has.
    pub fn area(&self) -> (n: usize)
        requires
            self.wf(),
        ensures
            n == self@.pixels.len(),
            n == self@.width * self@.height,
    {
        self.pixels.len()
    }

    /// Gives a province another kind, terrain and continent.
    pub fn set_meta(&mut self, k: u32, kind: ProvinceKind, terrain: String, continent: u16)
        requires
            old(self).wf(),
            old(self)@.provinces.contains_key(k),
        ensures
            final(self).wf(),
            final(self)@ == old(self)@.with_province(
                k,
                (ProvinceView { kind, terrain: terrain@, continent, ..old(self)@.provinces[k] }),
            ),
    {
        broadcast use vstd::std_specs::hash::group_hash_axioms;

        let ghost v = self@;
        assert(self.provinces@.contains_key(k));
        let provinces = make_mut(&mut self.provinces);
        let mut d = match provinces.remove(&k) {
            Some(d) => d,
            None => ProvinceData::default(),
        };
        d.set_meta(kind, terrain, continent);
        let ghost p = d@;
        provinces.insert(k, d);
        proof {
            assert(self@.provinces =~= v.provinces.insert(k, p));
            lemma_with_province_wf(v, k, p);
        }
    }

    /// Gives a province another continent.
    pub fn set_continent(&mut self, k: u32, continent: u16)
        requires
            old(self).wf(),
            old(self)@.provinces.contains_key(k),
        ensures
            final(self).wf(),
            final(self)@ == old(self)@.with_province(
                k,
                (ProvinceView { continent, ..old(self)@.provinces[k] }),
            ),
    {
        broadcast use vstd::std_specs::hash::group_hash_axioms;

        let ghost v = self@;
        assert(self.provinces@.contains_key(k));
        let provinces = make_mut(&mut self.provinces);
        let mut d = match provinces.remove(&k) {
            Some(d) => d,
            None => ProvinceData::default(),
        };
        d.continent = continent;
        let ghost p = d@;
        provinces.insert(k, d);
        proof {
            assert(self@.provinces =~= v.provinces.insert(k, p));
            lemma_with_province_wf(v, k, p);
        }
    }

    /// Says of a province whether it is coastal.
    pub fn set_coastal(&mut self, k: u32, coastal: Option<bool>)
        requires
            old(self).wf(),
            old(self)@.provinces.contains_key(k),
        ensures
            final(self).wf(),
            final(self)@ == old(self)@.with_province(
                k,
                (ProvinceView { coastal, ..old(self)@.provinces[k] }),
            ),
    {
        broadcast use vstd::std_specs::hash::group_hash_axioms;

        let ghost v = self@;
        assert(self.provinces@.contains_key(k));
        let provinces = make_mut(&mut self.provinces);
        let mut d = match provinces.remove(&k) {
            Some(d) => d,
            None => ProvinceData::default(),
        };
        d.coastal = coastal;
        let ghost p = d@;
        provinces.insert(k, d);
        proof {
            assert(self@.provinces =~= v.provinces.insert(k, p));
            lemma_with_province_wf(v, k, p);
        }
    }

    /// Gives a province the id under which it is saved.
    pub fn set_preserved_id(&mut self, k: u32, id: Option<u32>)
        requires
            old(self).wf(),
            old(self)@.provinces.contains_key(k),
        ensures
            final(self).wf(),
            final(self)@ == old(self)@.with_province(
                k,
                (ProvinceView { preserved_id: id, ..old(self)@.provinces[k] }),
            ),
    {
        broadcast use vstd::std_specs::hash::group_hash_axioms;

        let ghost v = self@;
        assert(self.provinces@.contains_key(k));
        let provinces = make_mut(&mut self.provinces);
        let mut d = match provinces.remove(&k) {
            Some(d) => d,
            None => ProvinceData::default(),
        };
        d.preserved_id = id;
        let ghost p = d@;
        provinces.insert(k, d);
        proof {
            assert(self@.provinces =~= v.provinces.insert(k, p));
            lemma_with_province_wf(v, k, p);
        }
    }

    /// Enters a connection of a kind between two provinces, changes the
    /// kind of the one that is there, or removes it if it is of this kind.
    pub fn toggle_connection(&mut self, key: u64, kind: ConnectionKind)
        requires
            old(self).wf(),
            is_pair_key(key),
            old(self)@.provinces.contains_key(pair_low(key)),
            old(self)@.provinces.contains_key(pair_high(key)),
        ensures
            final(self).wf(),
            final(self)@ == old(self)@.with_connections(toggled(old(self)@.connections, key, kind)),
    {
        broadcast use vstd::std_specs::hash::group_hash_axioms;

        let ghost v = self@;
        let connections = make_mut(&mut self.connections);
        match connections.remove(&key) {
            None => {
                connections.insert(key, ConnectionData::new(kind));
            },
            Some(c) => {
                if c.kind != kind {
                    let mut c = c;
                    c.kind = kind;
                    connections.insert(key, c);
                }
            },
        }
        proof {
            assert(self@.connections =~= toggled(v.connections, key, kind));
            lemma_toggled_wf(v, key, kind);
        }
    }

    /// Enters a connection between two provinces, in place of the one that
    /// may be there.
    pub fn put_connection(&mut self, key: u64, c: ConnectionData)
        requires
            old(self).wf(),
            is_pair_key(key),
            old(self)@.provinces.contains_key(pair_low(key)),
            old(self)@.provinces.contains_key(pair_high(key)),
            c@.through is Some ==> old(self)@.provinces.contains_key(c@.through.unwrap()),
        ensures
            final(self).wf(),
            final(self)@ == old(self)@.with_connections(old(self)@.connections.insert(key, c@)),
    {
        broadcast use vstd::std_specs::hash::group_hash_axioms;

        let ghost v = self@;
        let ghost cv = c@;
        make_mut(&mut self.connections).insert(key, c);
        proof {
            let n = v.with_connections(v.connections.insert(key, cv));
            assert(self@.connections =~= n.connections);
            assert forall|other: u64| #[trigger] n.connections.contains_key(other) implies {
                &&& is_pair_key(other)
                &&& n.provinces.contains_key(pair_low(other))
                &&& n.provinces.contains_key(pair_high(other))
                &&& n.connections[other].through is Some ==> n.provinces.contains_key(
                    n.connections[other].through.unwrap(),
                )
            } by {
                if other != key {
                    assert(v.connections.contains_key(other));
                }
            }
        }
    }

    /// Writes the key `k` at each of the positions and brings the tables in
    /// line with the raster that results: a province is in the table
    /// afterwards exactly when it has a pixel then, with the attributes
    /// that it had before.
    pub fn paint_many(&mut self, positions: &Vec<Pos>, k: u32)
        requires
            old(self).wf(),
            k < KEY_LIMIT,
            forall|n: int|
                0 <= n < positions@.len() ==> old(self)@.has(
                    (#[trigger] positions@[n])[0] as int,
                    positions@[n][1] as int,
                ),
        ensures
            final(self).wf(),
            final(self)@ == settled(
                old(self)@,
                painted(old(self)@.pixels, old(self)@.width as int, positions@, k),
            ),
    {
        let ghost v = self@;
        let ghost s = v.pixels;
        let ghost w = v.width as int;
        proof {
            lemma_settled_same(v);
            assert(positions@.take(0).len() == 0);
        }
        let mut n: usize = 0;
        while n < positions.len()
            invariant
                n <= positions@.len(),
                v.wf(),
                s == v.pixels,
                w == v.width as int,
                k < KEY_LIMIT,
                self.wf(),
                self@.width == v.width,
                self@.height == v.height,
                self@ == settled(v, self@.pixels),
                self@.pixels == painted(s, w, positions@.take(n as int), k),
                self@.pixels.len() == s.len(),
                v.provinces.contains_key(k) ==> count_of(self@.pixels, k) > 0,
                forall|m: int|
                    0 <= m < positions@.len() ==> v.has(
                        (#[trigger] positions@[m])[0] as int,
                        positions@[m][1] as int,
                    ),
            decreases positions@.len() - n,
        {
            let pos = positions[n];
            let ghost cur = self@.pixels;
            let ghost i = place(pos[0] as int, pos[1] as int, w);
            proof {
                assert(v.has(positions@[n as int][0] as int, positions@[n as int][1] as int));
                lemma_place(pos[0] as int, pos[1] as int, w, v.height as int);
                lemma_paint_counts(cur, w, i, k);
                let next = cur.update(i, k);
                assert forall|key: u32|
                    v.provinces.contains_key(key) && #[trigger] count_of(next, key)
                        > 0 implies count_of(cur, key) > 0 by {}
                lemma_settled_twice(v, cur, next);
                assert(positions@.take(n as int + 1).drop_last() =~= positions@.take(n as int));
            }
            self.paint(pos, k);
            n += 1;
        }
        proof {
            assert(positions@.take(positions@.len() as int) =~= positions@);
        }
    }

    /// Counts the pixels of each colour anew and holds the counts of the
    /// province table against them.
    pub fn validate_pixel_counts(&self) -> (r: bool)
        ensures
            r == self@.counts_valid(),
    {
        broadcast use vstd::std_specs::hash::group_hash_axioms;

        let ghost s = self.pixels@;
        let mut tally: HashMap<u32, u64> = HashMap::new();
        let mut i: usize = 0;
        while i < self.pixels.len()
            invariant
                i <= s.len(),
                s == self.pixels@,
                forall|k: u32| #[trigger] tally@.contains_key(k) <==> count_of(s.take(i as int), k) > 0,
                forall|k: u32| #[trigger]
                    tally@.contains_key(k) ==> tally@[k] == count_of(s.take(i as int), k),
            decreases s.len() - i,
        {
            let k = self.pixels[i];
            proof {
                let a = s.take(i as int);
                let b = s.take(i as int + 1);
                assert(b.drop_last() =~= a);
                assert(unit()(i as int) == 1);
                crate::tally::lemma_weight_bound(a, k, unit(), 1);
                assert forall|j: u32| count_of(b, j) == count_of(a, j) + (if j == k {
                    1nat
                } else {
                    0
                }) by {}
            }
            let n: u64 = match tally.get(&k) {
                Some(n) => *n,
                None => 0,
            };
            tally.insert(k, n + 1);
            i += 1;
        }
        proof {
            assert(s.take(s.len() as int) =~= s);
        }
        let keys = keys_u32(&self.provinces);
        let mut j: usize = 0;
        while j < keys.len()
            invariant
                j <= keys@.len(),
                s == self.pixels@,
                keys@.to_set() == self.provinces@.dom(),
                forall|k: u32| #[trigger] tally@.contains_key(k) <==> count_of(s, k) > 0,
                forall|k: u32| #[trigger] tally@.contains_key(k) ==> tally@[k] == count_of(s, k),
                forall|m: int|
                    0 <= m < j ==> count_of(s, #[trigger] keys@[m]) > 0
                        && self.provinces@[keys@[m]].pixel_count == count_of(s, keys@[m]),
            decreases keys@.len() - j,
        {
            let k = keys[j];
            proof {
                assert(keys@.to_set().contains(keys@[j as int]));
                assert(self@.provinces.contains_key(k));
            }
            let counted = match tally.get(&k) {
                Some(n) => *n,
                None => 0,
            };
            let held = match self.provinces.get(&k) {
                Some(d) => d.pixel_count,
                None => 0,
            };
            if counted == 0 || counted != held {
                return false;
            }
            j += 1;
        }
        proof {
            assert forall|k: u32| #[trigger] self@.provinces.contains_key(k) implies count_of(s, k)
                > 0 && self@.provinces[k].pixel_count == count_of(s, k) by {
                assert(keys@.to_set().contains(k));
                let m = choose|m: int| 0 <= m < keys@.len() && keys@[m] == k;
                assert(keys@[m] == k);
            }
        }
        true
    }

    /// Whether of the pixels at two places one belongs to a land province
    /// and the other to a sea province.
    fn is_coast(&self, i: usize, j: usize) -> (r: bool)
        requires
            self.wf(),
            i < self@.pixels.len(),
            j < self@.pixels.len(),
        ensures
            r == land_sea(
                self@.provinces[self@.pixels[i as int]].kind,
                self@.provinces[self@.pixels[j as int]].kind,
            ),
    {
        let a = self.province(self.key_at_place(i)).kind;
        let c = self.province(self.key_at_place(j)).kind;
        (a == ProvinceKind::Land && c == ProvinceKind::Sea) || (a == ProvinceKind::Sea && c
            == ProvinceKind::Land)
    }

    /// Says of each province whether it is coastal: whether one of its
    /// pixels lies next to a pixel of another province, of the two
    /// provinces one being land and the other sea. The result holds every
    /// province by its key.
    pub fn calculate_coastal_provinces(&self) -> (r: HashMap<u32, Option<bool>>)
        requires
            self.wf(),
        ensures
            r@.dom() == self@.provinces.dom(),
            forall|k: u32| #[trigger] r@.contains_key(k) ==> r@[k] == Some(coastal(self@, k)),
    {
        broadcast use vstd::std_specs::hash::group_hash_axioms;

        let ghost v = self@;
        let mut r: HashMap<u32, Option<bool>> = HashMap::new();
        let keys = self.province_keys();
        let mut n: usize = 0;
        while n < keys.len()
            invariant
                n <= keys@.len(),
                keys@.to_set() == v.provinces.dom(),
                forall|k: u32| #[trigger] r@.contains_key(k) <==> keys@.take(n as int).contains(k),
                forall|k: u32| #[trigger] r@.contains_key(k) ==> r@[k] == Some(false),
            decreases keys@.len() - n,
        {
            let key = keys[n];
            r.insert(key, Some(false));
            proof {
                let done = keys@.take(n as int);
                let more = keys@.take(n as int + 1);
                assert(more =~= done.push(key));
                assert forall|k: u32| more.contains(k) <==> done.contains(k) || k == key by {
                    if done.contains(k) {
                        let j = choose|j: int| 0 <= j < done.len() && done[j] == k;
                        assert(more[j] == k);
                    }
                    if k == key {
                        assert(more[n as int] == key);
                    }
                }
            }
            n += 1;
        }
        proof {
            assert(keys@.take(keys@.len() as int) =~= keys@);
            assert(r@.dom() =~= v.provinces.dom()) by {
                assert forall|k: u32| r@.dom().contains(k) == v.provinces.dom().contains(k) by {
                    assert(keys@.to_set().contains(k) == keys@.contains(k));
                }
            }
            assert forall|k: u32| #[trigger] r@.contains_key(k) implies r@[k] == Some(
                coastal_before(v, k, 0),
            ) by {}
        }
        let len = self.pixels.len();
        let w = self.width as usize;
        let mut p: usize = 0;
        while p < len
            invariant
                p <= len,
                len == v.pixels.len(),
                w == v.width,
                self@ == v,
                self.wf(),
                r@.dom() == v.provinces.dom(),
                forall|k: u32| #[trigger]
                    r@.contains_key(k) ==> r@[k] == Some(coastal_before(v, k, p as int)),
            decreases len - p,
        {
            let a = self.key_at_place(p);
            let ghost r0 = r@;
            let mut right = false;
            let mut down = false;
            if len - p > 1 && (p + 1) % w != 0 {
                right = self.is_coast(p, p + 1);
            }
            if len - p > w {
                down = self.is_coast(p, p + w);
            }
            if right {
                let c = self.key_at_place(p + 1);
                r.insert(a, Some(true));
                r.insert(c, Some(true));
            }
            if down {
                let c = self.key_at_place(p + w);
                r.insert(a, Some(true));
                r.insert(c, Some(true));
            }
            proof {
                assert(r@.dom() =~= v.provinces.dom());
                assert forall|k: u32| #[trigger] r@.contains_key(k) implies r@[k] == Some(
                    coastal_before(v, k, p as int + 1),
                ) by {
                    lemma_coastal_step(v, k, p as int);
                    assert(r0.contains_key(k));
                }
            }
            p += 1;
        }
        proof {
            assert forall|k: u32| #[trigger] r@.contains_key(k) implies r@[k] == Some(
                coastal(v, k),
            ) by {
                lemma_coastal_all(v, k);
            }
        }
        r
    }

    /// Says of every province whether it is coastal, as the table that
    /// `calculate_coastal_provinces` made says.
    pub fn apply_coastal(&mut self, table: &HashMap<u32, Option<bool>>)
        requires
            old(self).wf(),
            table@.dom() == old(self)@.provinces.dom(),
            forall|k: u32| #[trigger]
                table@.contains_key(k) ==> table@[k] == Some(coastal(old(self)@, k)),
        ensures
            final(self).wf(),
            final(self)@ == (MapView { provinces: with_coasts(old(self)@), ..old(self)@ }),
    {
        broadcast use vstd::std_specs::hash::group_hash_axioms;

        let ghost v = self@;
        let keys = self.province_keys();
        let mut n: usize = 0;
        while n < keys.len()
            invariant
                n <= keys@.len(),
                keys@.no_duplicates(),
                keys@.to_set() == v.provinces.dom(),
                table@.dom() == v.provinces.dom(),
                forall|k: u32| #[trigger]
                    table@.contains_key(k) ==> table@[k] == Some(coastal(v, k)),
                self.wf(),
                self@.pixels == v.pixels,
                self@.width == v.width,
                self@.height == v.height,
                self@.connections == v.connections,
                self@.provinces.dom() == v.provinces.dom(),
                forall|k: u32| #[trigger]
                    v.provinces.contains_key(k) ==> self@.provinces[k] == if keys@.take(
                        n as int,
                    ).contains(k) {
                        with_coasts(v)[k]
                    } else {
                        v.provinces[k]
                    },
            decreases keys@.len() - n,
        {
            let key = keys[n];
            proof {
                assert(keys@.to_set().contains(keys@[n as int]));
                assert(v.provinces.contains_key(key));
                assert(table@.contains_key(key));
                assert(self@.provinces.dom().contains(key));
            }
            let flag = match table.get(&key) {
                Some(f) => *f,
                None => None,
            };
            let ghost before = self@;
            self.set_coastal(key, flag);
            proof {
                let done = keys@.take(n as int);
                let more = keys@.take(n as int + 1);
                assert(more =~= done.push(key));
                assert(!done.contains(key)) by {
                    if done.contains(key) {
                        let j = choose|j: int| 0 <= j < done.len() && done[j] == key;
                        assert(keys@[j] == keys@[n as int]);
                    }
                }
                assert forall|k: u32| more.contains(k) <==> done.contains(k) || k == key by {
                    if done.contains(k) {
                        let j = choose|j: int| 0 <= j < done.len() && done[j] == k;
                        assert(more[j] == k);
                    }
                    if k == key {
                        assert(more[n as int] == key);
                    }
                }
                assert(self@.provinces.dom() =~= v.provinces.dom());
            }
            n += 1;
        }
        proof {
            assert(keys@.take(keys@.len() as int) =~= keys@);
            assert forall|k: u32| v.provinces.contains_key(k) implies keys@.contains(k) by {
                assert(keys@.to_set().contains(k));
            }
            assert(self@.provinces =~= with_coasts(v));
        }
    }

    /// Whether the kind of some province is unknown.
    pub fn has_unknown_provinces(&self) -> (r: bool)
        ensures
            r == exists|k: u32| #[trigger]
                self@.provinces.contains_key(k) && self@.provinces[k].kind
                    == ProvinceKind::Unknown,
    {
        broadcast use vstd::std_specs::hash::group_hash_axioms;

        let keys = self.province_keys();
        let mut n: usize = 0;
        while n < keys.len()
            invariant
                n <= keys@.len(),
                keys@.to_set() == self@.provinces.dom(),
                forall|m: int|
                    0 <= m < n ==> self@.provinces[#[trigger] keys@[m]].kind
                        != ProvinceKind::Unknown,
            decreases keys@.len() - n,
        {
            proof {
                assert(keys@.to_set().contains(keys@[n as int]));
            }
            if self.province(keys[n]).kind == ProvinceKind::Unknown {
                return true;
            }
            n += 1;
        }
        proof {
            assert forall|k: u32| #[trigger] self@.provinces.contains_key(k) implies self@.provinces[k].kind
                != ProvinceKind::Unknown by {
                assert(keys@.to_set().contains(k));
                let m = choose|m: int| 0 <= m < keys@.len() && keys@[m] == k;
                assert(keys@[m] == k);
            }
        }
        false
    }

    /// Joins the connections of the province of key `which` to those of
    /// the province of key `k`, as `joined_connections` says.
    pub(crate) fn merge_connections(&mut self, which: u32, k: u32)
        requires
            old(self).wf(),
            old(self)@.provinces.contains_key(which),
            old(self)@.provinces.contains_key(k),
            which != k,
        ensures
            final(self).wf(),
            final(self)@ == old(self)@.with_connections(
                joined_connections(old(self)@.connections, which, k),
            ),
    {
        let ghost v = self@;
        proof {
            crate::model::lemma_province_key(v, which);
            crate::model::lemma_province_key(v, k);
            assert forall|key: u64| #[trigger] self.connections@.contains_key(key) implies is_pair_key(
                key,
            ) by {
                assert(v.connections.contains_key(key));
            }
        }
        let connections = make_mut(&mut self.connections);
        let ghost before = connections@;
        let moved = part_connections(connections, which, k);
        join_connections(connections, moved, which, k, Ghost(connection_views(before)));
        proof {
            assert(connection_views(before) =~= v.connections);
            crate::model::lemma_joined_wf(v, which, k);
        }
    }

    /// Gives every province the key that `replacement` holds for its key,
    /// no two the same: the pixels get the new keys, and the two tables
    /// hold under the new keys what they held.
    pub(crate) fn relabel(&mut self, replacement: &HashMap<u32, u32>)
        requires
            old(self).wf(),
            replacement@.dom() == old(self)@.provinces.dom(),
            one_to_one(replacement@),
            forall|k: u32| #[trigger] replacement@.contains_key(k) ==> replacement@[k] < KEY_LIMIT,
        ensures
            final(self).wf(),
            is_remap(old(self)@, final(self)@, replacement@),
    {
        broadcast use vstd::std_specs::hash::group_hash_axioms;

        let ghost v = self@;
        let keys = self.province_keys();
        let ghost f = replacement@;
        proof {
            assert forall|i: int| 0 <= i < v.pixels.len() implies f.contains_key(
                #[trigger] v.pixels[i],
            ) by {
                lemma_count_positive(v.pixels, v.pixels[i], i);
                assert(v.provinces.contains_key(v.pixels[i]));
            }
        }
        let mut pixels: Vec<u32> = Vec::new();
        let mut i: usize = 0;
        while i < self.pixels.len()
            invariant
                i <= v.pixels.len(),
                *self == *old(self),
                self.pixels@ == v.pixels,
                f == replacement@,
                forall|n: int| 0 <= n < v.pixels.len() ==> f.contains_key(#[trigger] v.pixels[n]),
                pixels@ == relabeled(v.pixels, f).take(i as int),
            decreases v.pixels.len() - i,
        {
            let new_key = match replacement.get(&self.pixels[i]) {
                Some(k) => *k,
                None => 0,
            };
            proof {
                assert(f.contains_key(v.pixels[i as int]));
                assert(relabeled(v.pixels, f).take(i as int + 1) =~= relabeled(v.pixels, f).take(
                    i as int,
                ).push(f[v.pixels[i as int]]));
            }
            pixels.push(new_key);
            i += 1;
        }
        proof {
            assert(relabeled(v.pixels, f).take(v.pixels.len() as int) =~= relabeled(v.pixels, f));
        }
        let mut provinces: HashMap<u32, ProvinceData> = HashMap::new();
        let mut n: usize = 0;
        while n < keys.len()
            invariant
                n <= keys@.len(),
                self.width == v.width,
                self.height == v.height,
                self.connections@ == old(self).connections@,
                keys@.no_duplicates(),
                keys@.to_set() == v.provinces.dom(),
                f == replacement@,
                f.dom() == v.provinces.dom(),
                one_to_one(f),
                forall|k: u32| #[trigger]
                    self.provinces@.contains_key(k) <==> v.provinces.contains_key(k)
                        && !keys@.take(n as int).contains(k),
                forall|k: u32| #[trigger]
                    self.provinces@.contains_key(k) ==> self.provinces@[k]@ == v.provinces[k],
                forall|m: int|
                    0 <= m < n ==> provinces@.contains_key(f[#[trigger] keys@[m]])
                        && provinces@[f[keys@[m]]]@ == v.provinces[keys@[m]],
                forall|k: u32| #[trigger]
                    provinces@.contains_key(k) ==> exists|m: int|
                        0 <= m < n && f[#[trigger] keys@[m]] == k,
            decreases keys@.len() - n,
        {
            let key = keys[n];
            proof {
                assert(keys@.to_set().contains(keys@[n as int]));
                assert(v.provinces.contains_key(key));
                assert(f.contains_key(key));
                let done = keys@.take(n as int);
                let more = keys@.take(n as int + 1);
                assert(more =~= done.push(key));
                assert(!done.contains(key)) by {
                    if done.contains(key) {
                        let q = choose|q: int| 0 <= q < done.len() && done[q] == key;
                        assert(keys@[q] == keys@[n as int]);
                    }
                }
                assert forall|k: u32| more.contains(k) <==> done.contains(k) || k == key by {
                    if done.contains(k) {
                        let q = choose|q: int| 0 <= q < done.len() && done[q] == k;
                        assert(more[q] == k);
                    }
                    if k == key {
                        assert(more[n as int] == key);
                    }
                }
                assert forall|m: int| 0 <= m < n implies f[#[trigger] keys@[m]] != f[key] by {
                    assert(keys@.to_set().contains(keys@[m]));
                    assert(f.contains_key(keys@[m]));
                    assert(keys@[m] != keys@[n as int]);
                }
            }
            let new_key = match replacement.get(&key) {
                Some(k) => *k,
                None => 0,
            };
            let d = match make_mut(&mut self.provinces).remove(&key) {
                Some(d) => d,
                None => ProvinceData::default(),
            };
            provinces.insert(new_key, d);
            proof {
                assert forall|k: u32| #[trigger] provinces@.contains_key(k) implies exists|m: int|
                    0 <= m < n + 1 && f[#[trigger] keys@[m]] == k by {
                    if k == new_key {
                        assert(f[keys@[n as int]] == k);
                    } else {
                        let m = choose|m: int| 0 <= m < n && f[#[trigger] keys@[m]] == k;
                        assert(f[keys@[m]] == k);
                    }
                }
            }
            n += 1;
        }
        let conn_keys = keys_u64(&self.connections);
        let ghost links = self.connections@;
        let mut connections: HashMap<u64, ConnectionData> = HashMap::new();
        let mut c: usize = 0;
        while c < conn_keys.len()
            invariant
                c <= conn_keys@.len(),
                self.width == v.width,
                self.height == v.height,
                conn_keys@.no_duplicates(),
                conn_keys@.to_set() == links.dom(),
                connection_views(links) == v.connections,
                v.wf(),
                f == replacement@,
                f.dom() == v.provinces.dom(),
                one_to_one(f),
                forall|k: u32| #[trigger] f.contains_key(k) ==> f[k] < KEY_LIMIT,
                forall|key: u64| #[trigger]
                    self.connections@.contains_key(key) <==> links.contains_key(key)
                        && !conn_keys@.take(c as int).contains(key),
                forall|key: u64| #[trigger]
                    self.connections@.contains_key(key) ==> self.connections@[key] == links[key],
                forall|m: int|
                    0 <= m < c ==> connections@.contains_key(relabel_key(#[trigger] conn_keys@[m], f))
                        && connections@[relabel_key(conn_keys@[m], f)]@ == relabel_link(
                        links[conn_keys@[m]]@,
                        f,
                    ),
                forall|key: u64| #[trigger]
                    connections@.contains_key(key) ==> exists|m: int|
                        0 <= m < c && relabel_key(#[trigger] conn_keys@[m], f) == key,
            decreases conn_keys@.len() - c,
        {
            let key = conn_keys[c];
            proof {
                assert(conn_keys@.to_set().contains(conn_keys@[c as int]));
                assert(links.contains_key(key));
                assert(v.connections.contains_key(key));
                let done = conn_keys@.take(c as int);
                let more = conn_keys@.take(c as int + 1);
                assert(more =~= done.push(key));
                assert(!done.contains(key)) by {
                    if done.contains(key) {
                        let q = choose|q: int| 0 <= q < done.len() && done[q] == key;
                        assert(conn_keys@[q] == conn_keys@[c as int]);
                    }
                }
                assert forall|k: u64| more.contains(k) <==> done.contains(k) || k == key by {
                    if done.contains(k) {
                        let q = choose|q: int| 0 <= q < done.len() && done[q] == k;
                        assert(more[q] == k);
                    }
                    if k == key {
                        assert(more[c as int] == key);
                    }
                }
                assert(v.provinces.contains_key(pair_low(key)));
                assert(v.provinces.contains_key(pair_high(key)));
                assert(f.contains_key(pair_low(key)) && f.contains_key(pair_high(key)));
                assert forall|m: int| 0 <= m < c implies relabel_key(#[trigger] conn_keys@[m], f)
                    != relabel_key(key, f) by {
                    let other = conn_keys@[m];
                    assert(conn_keys@.to_set().contains(other));
                    assert(v.connections.contains_key(other));
                    assert(other != conn_keys@[c as int]);
                    assert(v.provinces.contains_key(pair_low(other)));
                    assert(v.provinces.contains_key(pair_high(other)));
                    assert(f.contains_key(pair_low(other)) && f.contains_key(pair_high(other)));
                    crate::uord::lemma_pair_key(f[pair_low(other)], f[pair_high(other)]);
                    crate::uord::lemma_pair_key(f[pair_low(key)], f[pair_high(key)]);
                    crate::uord::lemma_pair_key_halves(other);
                    crate::uord::lemma_pair_key_halves(key);
                }
            }
            let (low, high) = pair_key_halves(key);
            let new_low = match replacement.get(&low) {
                Some(k) => *k,
                None => 0,
            };
            let new_high = match replacement.get(&high) {
                Some(k) => *k,
                None => 0,
            };
            let mut link = match make_mut(&mut self.connections).remove(&key) {
                Some(link) => link,
                None => ConnectionData::new(ConnectionKind::Strait),
            };
            proof {
                if link@.through is Some {
                    assert(v.provinces.contains_key(link@.through.unwrap()));
                    assert(f.contains_key(link@.through.unwrap()));
                }
            }
            link.through = match link.through {
                Some(t) => match replacement.get(&color_key(t)) {
                    Some(k) => Some(key_color(*k)),
                    None => None,
                },
                None => None,
            };
            let new_key = pair_key_of(new_low, new_high);
            connections.insert(new_key, link);
            proof {
                assert forall|k: u64| #[trigger] connections@.contains_key(k) implies exists|m: int|
                    0 <= m < c + 1 && relabel_key(#[trigger] conn_keys@[m], f) == k by {
                    if k == new_key {
                        assert(relabel_key(conn_keys@[c as int], f) == k);
                    } else {
                        let m = choose|m: int|
                            0 <= m < c && relabel_key(#[trigger] conn_keys@[m], f) == k;
                        assert(relabel_key(conn_keys@[m], f) == k);
                    }
                }
            }
            c += 1;
        }
        self.pixels = Arc::new(pixels);
        self.provinces = Arc::new(provinces);
        self.connections = Arc::new(connections);
        proof {
            let after = self@;
            assert forall|k: u32| #[trigger] v.provinces.contains_key(k) implies after.provinces.contains_key(
                f[k],
            ) && after.provinces[f[k]] == v.provinces[k] by {
                assert(keys@.to_set().contains(k));
                let m = choose|m: int| 0 <= m < keys@.len() && keys@[m] == k;
                assert(keys@[m] == k);
            }
            assert forall|k: u32| #[trigger] after.provinces.contains_key(k) implies exists|o: u32| #[trigger]
                v.provinces.contains_key(o) && f[o] == k by {
                let m = choose|m: int| 0 <= m < keys@.len() && f[#[trigger] keys@[m]] == k;
                assert(keys@.to_set().contains(keys@[m]));
                assert(v.provinces.contains_key(keys@[m]));
            }
            assert forall|key: u64| #[trigger] v.connections.contains_key(key) implies after.connections.contains_key(
                relabel_key(key, f),
            ) && after.connections[relabel_key(key, f)] == relabel_link(v.connections[key], f) by {
                assert(links.contains_key(key));
                assert(conn_keys@.to_set().contains(key));
                let m = choose|m: int| 0 <= m < conn_keys@.len() && conn_keys@[m] == key;
                assert(conn_keys@[m] == key);
            }
            assert forall|key: u64| #[trigger] after.connections.contains_key(key) implies exists|o: u64| #[trigger]
                v.connections.contains_key(o) && relabel_key(o, f) == key by {
                let m = choose|m: int|
                    0 <= m < conn_keys@.len() && relabel_key(#[trigger] conn_keys@[m], f) == key;
                assert(conn_keys@.to_set().contains(conn_keys@[m]));
                assert(links.contains_key(conn_keys@[m]));
                assert(v.connections.contains_key(conn_keys@[m]));
            }
            assert(is_remap(v, after, f));
            lemma_remap_wf(v, after, f);
        }
    }

    /// Gives a province the attributes of another entry; its pixels stay.
    pub fn set_attributes(&mut self, k: u32, attributes: ProvinceData)
        requires
            old(self).wf(),
            old(self)@.provinces.contains_key(k),
        ensures
            final(self).wf(),
            final(self)@ == old(self)@.with_province(
                k,
                attributes@.with_pixels(
                    old(self)@.provinces[k].pixel_count,
                    old(self)@.provinces[k].sum_x,
                    old(self)@.provinces[k].sum_y,
                ),
            ),
    {
        broadcast use vstd::std_specs::hash::group_hash_axioms;

        let ghost v = self@;
        assert(self.provinces@.contains_key(k));
        let provinces = make_mut(&mut self.provinces);
        let d = match provinces.remove(&k) {
            Some(d) => d,
            None => ProvinceData::default(),
        };
        let mut attributes = attributes;
        attributes.pixel_count = d.pixel_count;
        attributes.pixel_sum = d.pixel_sum;
        let ghost p = attributes@;
        provinces.insert(k, attributes);
        proof {
            assert(self@.provinces =~= v.provinces.insert(k, p));
            lemma_with_province_wf(v, k, p);
        }
    }

    /// The position of a place of the raster.
    pub fn position(&self, i: usize) -> (pos: Pos)
        requires
            self.wf(),
            i < self@.pixels.len(),
        ensures
            pos[0] == i as int % self@.width as int,
            pos[1] == i as int / self@.width as int,
            self@.has(pos[0] as int, pos[1] as int),
            place(pos[0] as int, pos[1] as int, self@.width as int) == i,
    {
        proof {
            lemma_place_of(i as int, self.width as int, self.height as int);
        }
        let w = self.width as usize;
        [(i % w) as u32, (i / w) as u32]
    }

    /// What holds while a fill from the place `a` with the key `k` goes on:
    /// the tables are in line with the raster; every pixel is as it was, or
    /// is filled and connected to `a`; the places on the stack are filled,
    /// and the box bounds what is filled.
    #[verifier::opaque]
    pub closed spec fn filling(
        &self,
        v: MapView,
        a: int,
        k: u32,
        stack: Seq<usize>,
        e: Extents,
    ) -> bool {
        let s = v.pixels;
        let cur = self@.pixels;
        &&& v.wf()
        &&& self.wf()
        &&& 0 <= a < s.len()
        &&& s[a] != k
        &&& k < KEY_LIMIT
        &&& self@ == settled(v, cur)
        &&& cur.len() == s.len()
        &&& cur[a] == k
        &&& forall|i: int|
            0 <= i < s.len() ==> #[trigger] cur[i] == s[i] || (s[i] == s[a] && cur[i] == k
                && connected(s, v.width as int, a, i))
        &&& forall|n: int|
            0 <= n < stack.len() ==> (#[trigger] stack[n]) < s.len() && cur[stack[n] as int]
                != s[stack[n] as int]
        &&& bounds(e, v.width as int, filled_places(s, cur))
    }

    /// Fills the place `j`, a neighbour of the filled place `i`, if it still
    /// has the key `which` that is being replaced, and puts it on the stack.
    fn spread(
        &mut self,
        j: usize,
        which: u32,
        k: u32,
        stack: &mut Vec<usize>,
        e: &mut Extents,
        Ghost(v): Ghost<MapView>,
        Ghost(a): Ghost<int>,
        Ghost(i): Ghost<int>,
    )
        requires
            old(self).filling(v, a, k, old(stack)@, *old(e)),
            which == v.pixels[a],
            0 <= i < v.pixels.len(),
            old(self)@.pixels[i] != v.pixels[i],
            adjacent(v.width as int, v.pixels.len() as int, i, j as int),
        ensures
            final(self).filling(v, a, k, final(stack)@, *final(e)),
            final(stack)@ == old(stack)@ || final(stack)@ == old(stack)@.push(j),
            forall|x: int|
                0 <= x < v.pixels.len() && old(self)@.pixels[x] != v.pixels[x] ==> #[trigger] final(self)@.pixels[x] != v.pixels[x],
            forall|x: int|
                0 <= x < v.pixels.len() && #[trigger] final(self)@.pixels[x] != v.pixels[x] && old(self)@.pixels[x] == v.pixels[x] ==> x == j && final(stack)@ == old(stack)@.push(j),
            v.pixels[j as int] == which ==> final(self)@.pixels[j as int] != v.pixels[j as int],
            final(stack)@ == old(stack)@ ==> count_of(final(self)@.pixels, which) == count_of(
                old(self)@.pixels,
                which,
            ),
            final(stack)@ != old(stack)@ ==> count_of(final(self)@.pixels, which) + 1 == count_of(
                old(self)@.pixels,
                which,
            ),
    {
        reveal(MapBase::filling);
        let ghost s = v.pixels;
        let ghost w = v.width as int;
        let ghost cur = self@.pixels;
        assert(self@.width == v.width && self@.height == v.height);
        let pos = self.position(j);
        let found = self.key_at(pos);
        assert(cur[j as int] == s[j as int] || cur[j as int] == k);
        if found != which {
            return ;
        }
        proof {
            assert(cur[i] == s[i] || connected(s, w, a, i));
            lemma_connected_step(s, w, a, i, j as int);
            let next = cur.update(j as int, k);
            lemma_paint_counts(cur, w, j as int, k);
            lemma_count_positive(cur, k, a);
            assert forall|key: u32|
                v.provinces.contains_key(key) && #[trigger] count_of(next, key) > 0 implies count_of(
                cur,
                key,
            ) > 0 by {}
            lemma_settled_twice(v, cur, next);
            assert(filled_places(s, next) =~= filled_places(s, cur).insert(j as int));
            lemma_bounds_more(*e, pos[0], pos[1], w, filled_places(s, cur), j as int);
        }
        self.paint(pos, k);
        *e = e.join_point(pos);
        stack.push(j);
        proof {
            let st = stack@;
            assert forall|n: int| 0 <= n < st.len() implies (#[trigger] st[n]) < s.len()
                && self@.pixels[st[n] as int] != s[st[n] as int] by {
                if n < st.len() - 1 {
                    assert(st[n] == old(stack)@[n]);
                }
            }
            assert(old(stack)@.push(j).len() != old(stack)@.len());
        }
    }

    proof fn lemma_filling_pop(&self, v: MapView, a: int, k: u32, stack: Seq<usize>, e: Extents)
        requires
            self.filling(v, a, k, stack, e),
            stack.len() > 0,
        ensures
            self.filling(v, a, k, stack.drop_last(), e),
            stack.last() < v.pixels.len(),
            self@.pixels[stack.last() as int] != v.pixels[stack.last() as int],
            self@.pixels.len() == v.pixels.len(),
            self@.width == v.width,
            v.wf(),
    {
        reveal(MapBase::filling);
        let st = stack.drop_last();
        assert forall|n: int| 0 <= n < st.len() implies (#[trigger] st[n]) < v.pixels.len()
            && self@.pixels[st[n] as int] != v.pixels[st[n] as int] by {
            assert(st[n] == stack[n]);
        }
        assert(stack[stack.len() - 1] == stack.last());
    }

    /// Fills the neighbours of the filled place `i` that still have the
    /// key `which`, and puts them on the stack.
    #[verifier::rlimit(60)]
    #[verifier::spinoff_prover]
    fn expand(
        &mut self,
        i: usize,
        which: u32,
        k: u32,
        stack: &mut Vec<usize>,
        e: &mut Extents,
        Ghost(v): Ghost<MapView>,
        Ghost(a): Ghost<int>,
    )
        requires
            old(self).filling(v, a, k, old(stack)@, *old(e)),
            which == v.pixels[a],
            i < v.pixels.len(),
            old(self)@.pixels.len() == v.pixels.len(),
            old(self)@.width == v.width,
            v.wf(),
            old(self)@.pixels[i as int] != v.pixels[i as int],
        ensures
            final(self).filling(v, a, k, final(stack)@, *final(e)),
            forall|x: int| on_stack(old(stack)@, x) ==> on_stack(final(stack)@, x),
            forall|x: int|
                0 <= x < v.pixels.len() && old(self)@.pixels[x] != v.pixels[x] ==> #[trigger] final(self)@.pixels[x]
                    != v.pixels[x],
            forall|x: int|
                0 <= x < v.pixels.len() && #[trigger] final(self)@.pixels[x] != v.pixels[x] && old(self)@.pixels[x]
                    == v.pixels[x] ==> on_stack(final(stack)@, x),
            forall|y: int| #[trigger]
                adjacent(v.width as int, v.pixels.len() as int, i as int, y) && v.pixels[y] == which
                    ==> final(self)@.pixels[y] != v.pixels[y],
            4 * count_of(final(self)@.pixels, which) + final(stack)@.len() <= 4 * count_of(
                old(self)@.pixels,
                which,
            ) + old(stack)@.len(),
    {
        let len = self.pixels.len();
        let w = self.width as usize;
        let ghost s = v.pixels;
        let ghost st1 = stack@;
        let ghost c1 = self@.pixels;
        if len - i > 1 && (i + 1) % w != 0 {
            self.spread(i + 1, which, k, stack, e, Ghost(v), Ghost(a), Ghost(i as int));
        }
        let ghost st2 = stack@;
        let ghost c2 = self@.pixels;
        if i >= 1 && i % w != 0 {
            self.spread((i - 1) as usize, which, k, stack, e, Ghost(v), Ghost(a), Ghost(i as int));
        }
        let ghost st3 = stack@;
        let ghost c3 = self@.pixels;
        if len - i > w {
            self.spread(i + w, which, k, stack, e, Ghost(v), Ghost(a), Ghost(i as int));
        }
        let ghost st4 = stack@;
        let ghost c4 = self@.pixels;
        if i >= w {
            self.spread((i - w) as usize, which, k, stack, e, Ghost(v), Ghost(a), Ghost(i as int));
        }
        proof {
            let st5 = stack@;
            let c5 = self@.pixels;
            lemma_on_stack_grows(st1, st2, (i + 1) as usize);
            lemma_on_stack_grows(st2, st3, (i - 1) as usize);
            lemma_on_stack_grows(st3, st4, (i + w) as usize);
            lemma_on_stack_grows(st4, st5, (i - w) as usize);
            assert forall|x: int|
                0 <= x < s.len() && #[trigger] c5[x] != s[x] && c1[x] == s[x] implies on_stack(
                st5,
                x,
            ) by {
                if c2[x] != s[x] {
                    assert(st2[st2.len() - 1] == x);
                    assert(on_stack(st2, x));
                } else if c3[x] != s[x] {
                    assert(st3[st3.len() - 1] == x);
                    assert(on_stack(st3, x));
                } else if c4[x] != s[x] {
                    assert(st4[st4.len() - 1] == x);
                    assert(on_stack(st4, x));
                } else {
                    assert(st5[st5.len() - 1] == x);
                    assert(on_stack(st5, x));
                }
            }
            assert forall|y: int| #[trigger]
                adjacent(v.width as int, s.len() as int, i as int, y) && s[y]
                    == which implies c5[y] != s[y] by {
                let wd = v.width as int;
                if y == i + 1 && y % wd != 0 {
                    assert(c2[y] != s[y]);
                    assert(c3[y] != s[y]);
                    assert(c4[y] != s[y]);
                } else if i == y + 1 && i as int % wd != 0 {
                    assert(c3[y] != s[y]);
                    assert(c4[y] != s[y]);
                } else if y == i + wd {
                    assert(c4[y] != s[y]);
                } else {
                    assert(y == i - wd);
                }
            }
        }
    }

    /// Gives the pixels connected to a position another key, and brings
    /// the tables in line. Returns the smallest box that holds them.
    pub fn flood(&mut self, pos: Pos, k: u32) -> (e: Extents)
        requires
            old(self).wf(),
            old(self)@.has(pos[0] as int, pos[1] as int),
            k < KEY_LIMIT,
            old(self)@.at(pos[0] as int, pos[1] as int) != k,
        ensures
            final(self).wf(),
            final(self)@ == settled(
                old(self)@,
                flooded(
                    old(self)@.pixels,
                    old(self)@.width as int,
                    place(pos[0] as int, pos[1] as int, old(self)@.width as int),
                    k,
                ),
            ),
            bounds(
                e,
                old(self)@.width as int,
                Set::new(
                    |i: int|
                        0 <= i < old(self)@.pixels.len() && connected(
                            old(self)@.pixels,
                            old(self)@.width as int,
                            place(pos[0] as int, pos[1] as int, old(self)@.width as int),
                            i,
                        ),
                ),
            ),
    {
        let ghost v = self@;
        let ghost s = v.pixels;
        let ghost wd = v.width as int;
        let a = self.index(pos);
        let which = self.pixels[a];
        let len = self.pixels.len();
        let w = self.width as usize;
        proof {
            lemma_place(pos[0] as int, pos[1] as int, wd, self.height as int);
        }
        self.paint(pos, k);
        let mut e = Extents::new_point(pos);
        let mut stack: Vec<usize> = Vec::new();
        stack.push(a);
        proof {
            reveal(MapBase::filling);
            let cur = self@.pixels;
            lemma_connected_self(s, wd, a as int);
            assert(filled_places(s, cur) =~= set![a as int]);
            lemma_bounds_one(pos[0], pos[1], wd, a as int);
            assert(on_stack(stack@, a as int)) by {
                assert(stack@[0] == a);
            }
        }
        while stack.len() > 0
            invariant
                self.filling(v, a as int, k, stack@, e),
                which == s[a as int],
                s == v.pixels,
                wd == v.width as int,
                len == s.len(),
                forall|i: int, j: int|
                    0 <= i < len && self@.pixels[i] != s[i] && !on_stack(stack@, i)
                        && #[trigger] adjacent(wd, len as int, i, j) && s[j] == which
                        ==> self@.pixels[j] != s[j],
            decreases 4 * count_of(self@.pixels, which) + stack@.len(),
        {
            let ghost st0 = stack@;
            let ghost c0 = self@.pixels;
            let i = match stack.pop() {
                Some(i) => i,
                None => 0,
            };
            let ghost st1 = stack@;
            proof {
                self.lemma_filling_pop(v, a as int, k, st0, e);
            }
            self.expand(i, which, k, &mut stack, &mut e, Ghost(v), Ghost(a as int));
            proof {
                let st5 = stack@;
                let c5 = self@.pixels;
                assert forall|x: int, y: int|
                    0 <= x < len && c5[x] != s[x] && !on_stack(st5, x) && #[trigger] adjacent(
                        wd,
                        len as int,
                        x,
                        y,
                    ) && s[y] == which implies c5[y] != s[y] by {
                    if x != i as int {
                        assert(c0[x] != s[x]);
                        if on_stack(st0, x) {
                            let n = choose|n: int| 0 <= n < st0.len() && st0[n] == x;
                            assert(st1[n] == x);
                            assert(on_stack(st1, x));
                        }
                        assert(c0[y] != s[y]);
                    }
                }
            }
        }
        proof {
            reveal(MapBase::filling);
            let cur = self@.pixels;
            let reached = filled_places(s, cur);
            assert forall|x: int, y: int|
                reached.contains(x) && #[trigger] adjacent(wd, s.len() as int, x, y) && s[y]
                    == s[a as int] implies reached.contains(y) by {
                assert(!on_stack(stack@, x));
            }
            assert forall|b: int| 0 <= b < s.len() implies cur[b] == flooded(s, wd, a as int, k)[b] by {
                if connected(s, wd, a as int, b) {
                    lemma_closed_holds_connected(s, wd, a as int, reached, b);
                }
            }
            assert(cur =~= flooded(s, wd, a as int, k));
            assert(reached =~= Set::new(|i: int| 0 <= i < s.len() && connected(s, wd, a as int, i)))
                by {
                assert forall|b: int| 0 <= b < s.len() && connected(s, wd, a as int, b) implies reached.contains(b) by {
                    lemma_closed_holds_connected(s, wd, a as int, reached, b);
                }
            }
        }
        e
    }
}

/// The places at which a raster differs from the one it was made of.
pub open spec fn filled_places(s: Seq<u32>, cur: Seq<u32>) -> Set<int> {
    Set::new(|i: int| 0 <= i < s.len() && cur[i] != s[i])
}

/// Whether a place is on a stack of places.
pub open spec fn on_stack(stack: Seq<usize>, i: int) -> bool {
    exists|n: int| 0 <= n < stack.len() && stack[n] == i
}

proof fn lemma_on_stack_grows(before: Seq<usize>, after: Seq<usize>, j: usize)
    requires
        after == before || after == before.push(j),
    ensures
        forall|x: int| on_stack(before, x) ==> on_stack(after, x),
{
    assert forall|x: int| on_stack(before, x) implies on_stack(after, x) by {
        let n = choose|n: int| 0 <= n < before.len() && before[n] == x;
        assert(after[n] == x);
    }
}

} // verus!