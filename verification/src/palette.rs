//! The colours from which provinces get new colours: for each kind of
//! province a list of its own.
use vstd::prelude::*;
use std::collections::{HashMap, HashSet};
use crate::base::{keys_of, lemma_usable_step, usable, MapBase};
use crate::color::{color_key, key_of, Color, BLACK_KEY, KEY_LIMIT};
use crate::kinds::ProvinceKind;
use crate::model::MapView;
use crate::tally::one_to_one;

verus! {

/// Colours to give to provinces, for each kind those that suit it.
#[derive(Debug, Clone)]
pub struct KindColors {
    pub land: Vec<Color>,
    pub sea: Vec<Color>,
    pub lake: Vec<Color>,
    pub unknown: Vec<Color>,
}

/// The keys of the provinces of a kind.
pub open spec fn provinces_of_kind(v: MapView, kind: ProvinceKind) -> Set<u32> {
    Set::new(|k: u32| v.provinces.contains_key(k) && v.provinces[k].kind == kind)
}

impl KindColors {
    /// The colours for a kind.
    pub open spec fn of(&self, kind: ProvinceKind) -> Seq<Color> {
        match kind {
            ProvinceKind::Land => self.land@,
            ProvinceKind::Sea => self.sea@,
            ProvinceKind::Lake => self.lake@,
            ProvinceKind::Unknown => self.unknown@,
        }
    }

    /// The keys that stand in the list of another kind.
    pub open spec fn barred(&self, kind: ProvinceKind) -> Set<u32> {
        Set::new(
            |k: u32|
                exists|other: ProvinceKind|
                    other != kind && #[trigger] keys_of(self.of(other)).contains(k),
        )
    }

    /// The keys that a province of a kind can get: those of the colours
    /// for the kind that are not black and stand in the list of no other
    /// kind.
    pub open spec fn eligible(&self, kind: ProvinceKind) -> Set<u32> {
        usable(self.of(kind)).difference(self.barred(kind))
    }

    /// Whether there are as many colours for each kind as a map has
    /// provinces of the kind.
    pub open spec fn enough_for(&self, v: MapView) -> bool {
        forall|kind: ProvinceKind| (#[trigger] self.eligible(kind)).len() >= provinces_of_kind(v, kind).len()
    }

    /// The colours for a kind.
    pub fn list(&self, kind: ProvinceKind) -> (l: &Vec<Color>)
        ensures
            l@ == self.of(kind),
    {
        match kind {
            ProvinceKind::Land => &self.land,
            ProvinceKind::Sea => &self.sea,
            ProvinceKind::Lake => &self.lake,
            ProvinceKind::Unknown => &self.unknown,
        }
    }
}

/// Whether `f` gives every province of a map a new key, no two the same,
/// each of a colour that its kind can get.
pub open spec fn picked_from(v: MapView, f: Map<u32, u32>, colors: KindColors) -> bool {
    &&& f.dom() == v.provinces.dom()
    &&& one_to_one(f)
    &&& forall|k: u32| #[trigger]
        f.contains_key(k) ==> colors.eligible(v.provinces[k].kind).contains(f[k]) && f[k] < KEY_LIMIT
}

/// The keys of a list of colours, as a set to look keys up in.
fn key_set(list: &Vec<Color>) -> (set: HashSet<u32>)
    ensures
        forall|k: u32| set@.contains(k) <==> keys_of(list@).contains(k),
{
    broadcast use vstd::std_specs::hash::group_hash_axioms;

    let mut set: HashSet<u32> = HashSet::new();
    let mut i: usize = 0;
    while i < list.len()
        invariant
            i <= list@.len(),
            forall|k: u32|
                set@.contains(k) <==> exists|n: int| 0 <= n < i && #[trigger] keys_of(list@)[n] == k,
        decreases list@.len() - i,
    {
        let key = color_key(list[i]);
        set.insert(key);
        proof {
            assert(keys_of(list@)[i as int] == key);
        }
        i += 1;
    }
    set
}

/// The keys of the four lists.
struct KeySets {
    land: HashSet<u32>,
    sea: HashSet<u32>,
    lake: HashSet<u32>,
    unknown: HashSet<u32>,
}

impl KeySets {
    spec fn of(&self, kind: ProvinceKind) -> Set<u32> {
        match kind {
            ProvinceKind::Land => self.land@,
            ProvinceKind::Sea => self.sea@,
            ProvinceKind::Lake => self.lake@,
            ProvinceKind::Unknown => self.unknown@,
        }
    }

    spec fn holds(&self, colors: KindColors) -> bool {
        forall|kind: ProvinceKind, k: u32| #[trigger]
            self.of(kind).contains(k) <==> keys_of(colors.of(kind)).contains(k)
    }

    fn new(colors: &KindColors) -> (sets: KeySets)
        ensures
            sets.holds(*colors),
    {
        KeySets {
            land: key_set(&colors.land),
            sea: key_set(&colors.sea),
            lake: key_set(&colors.lake),
            unknown: key_set(&colors.unknown),
        }
    }

    /// Whether a key stands in the list of another kind.
    fn barred(&self, kind: ProvinceKind, k: u32, Ghost(colors): Ghost<KindColors>) -> (r: bool)
        requires
            self.holds(colors),
        ensures
            r == colors.barred(kind).contains(k),
    {
        broadcast use vstd::std_specs::hash::group_hash_axioms;

        proof {
            assert(self.of(ProvinceKind::Land).contains(k) <==> keys_of(
                colors.of(ProvinceKind::Land),
            ).contains(k));
            assert(self.of(ProvinceKind::Sea).contains(k) <==> keys_of(
                colors.of(ProvinceKind::Sea),
            ).contains(k));
            assert(self.of(ProvinceKind::Lake).contains(k) <==> keys_of(
                colors.of(ProvinceKind::Lake),
            ).contains(k));
            assert(self.of(ProvinceKind::Unknown).contains(k) <==> keys_of(
                colors.of(ProvinceKind::Unknown),
            ).contains(k));
        }
        match kind {
            ProvinceKind::Land => self.sea.contains(&k) || self.lake.contains(&k)
                || self.unknown.contains(&k),
            ProvinceKind::Sea => self.land.contains(&k) || self.lake.contains(&k)
                || self.unknown.contains(&k),
            ProvinceKind::Lake => self.land.contains(&k) || self.sea.contains(&k)
                || self.unknown.contains(&k),
            ProvinceKind::Unknown => self.land.contains(&k) || self.sea.contains(&k)
                || self.lake.contains(&k),
        }
    }
}

/// Gives each province of one kind the next colour for the kind that no
/// province before it took. Says whether there were enough.
fn pick_kind(
    base: &MapBase,
    keys: &Vec<u32>,
    colors: &KindColors,
    sets: &KeySets,
    kind: ProvinceKind,
    replacement: &mut HashMap<u32, u32>,
) -> (ok: bool)
    requires
        base.wf(),
        keys@.no_duplicates(),
        keys@.to_set() == base@.provinces.dom(),
        sets.holds(*colors),
        forall|k: u32| #[trigger]
            old(replacement)@.contains_key(k) ==> base@.provinces.contains_key(k)
                && base@.provinces[k].kind != kind,
    ensures
        ok <==> colors.eligible(kind).len() >= provinces_of_kind(base@, kind).len(),
        ok ==> final(replacement)@.dom() == old(replacement)@.dom().union(
            provinces_of_kind(base@, kind),
        ),
        ok ==> forall|k: u32| #[trigger]
            old(replacement)@.contains_key(k) ==> final(replacement)@[k] == old(replacement)@[k],
        ok ==> forall|k: u32| #[trigger]
            provinces_of_kind(base@, kind).contains(k) ==> colors.eligible(kind).contains(
                final(replacement)@[k],
            ) && final(replacement)@[k] < KEY_LIMIT,
        ok ==> forall|a: u32, b: u32|
            #![trigger final(replacement)@[a], final(replacement)@[b]]
            provinces_of_kind(base@, kind).contains(a) && provinces_of_kind(base@, kind).contains(b)
                && final(replacement)@[a] == final(replacement)@[b] ==> a == b,
{
    broadcast use vstd::std_specs::hash::group_hash_axioms;

    let ghost v = base@;
    let ghost mine = provinces_of_kind(v, kind);
    let ghost bar = colors.barred(kind);
    let ghost first = replacement@;
    let list = colors.list(kind);
    let mut used: HashSet<u32> = HashSet::new();
    let mut ci: usize = 0;
    let mut j: usize = 0;
    let ghost mut done: Set<u32> = Set::empty();
    proof {
        assert(keys_of(list@.take(0)) =~= Seq::empty());
        assert(usable(list@.take(0)).difference(bar) =~= Set::empty());
        vstd::seq_lib::seq_to_set_is_finite(keys@);
        assert(mine.subset_of(v.provinces.dom()));
        vstd::set_lib::lemma_len_subset(mine, v.provinces.dom());
        assert(replacement@.dom() =~= first.dom().union(done));
    }
    while j < keys.len()
        invariant
            j <= keys@.len(),
            ci <= list@.len(),
            base.wf(),
            v == base@,
            mine == provinces_of_kind(v, kind),
            bar == colors.barred(kind),
            list@ == colors.of(kind),
            sets.holds(*colors),
            keys@.no_duplicates(),
            keys@.to_set() == v.provinces.dom(),
            mine.finite(),
            first == old(replacement)@,
            forall|k: u32| #[trigger]
                first.contains_key(k) ==> v.provinces.contains_key(k) && v.provinces[k].kind != kind,
            used@ == usable(list@.take(ci as int)).difference(bar),
            used@.finite(),
            done.finite(),
            used@.len() == done.len(),
            forall|k: u32| done.contains(k) <==> keys@.take(j as int).contains(k) && mine.contains(k),
            replacement@.dom() == first.dom().union(done),
            forall|k: u32| #[trigger] first.contains_key(k) ==> replacement@[k] == first[k],
            forall|k: u32| #[trigger]
                done.contains(k) ==> used@.contains(replacement@[k]) && replacement@[k] < KEY_LIMIT,
            forall|a: u32, b: u32|
                #![trigger replacement@[a], replacement@[b]]
                done.contains(a) && done.contains(b) && replacement@[a] == replacement@[b] ==> a
                    == b,
        decreases keys@.len() - j,
    {
        let key = keys[j];
        proof {
            assert(keys@.to_set().contains(keys@[j as int]));
            assert(v.provinces.contains_key(key));
            let before = keys@.take(j as int);
            let after = keys@.take(j as int + 1);
            assert(after =~= before.push(key));
            assert(!before.contains(key)) by {
                if before.contains(key) {
                    let q = choose|q: int| 0 <= q < before.len() && before[q] == key;
                    assert(keys@[q] == keys@[j as int]);
                }
            }
            assert forall|k: u32| after.contains(k) <==> before.contains(k) || k == key by {
                if before.contains(k) {
                    let q = choose|q: int| 0 <= q < before.len() && before[q] == k;
                    assert(after[q] == k);
                }
                if k == key {
                    assert(after[j as int] == key);
                }
            }
        }
        if base.province(key).kind == kind {
            let mut found: Option<u32> = None;
            while ci < list.len() && found.is_none()
                invariant
                    ci <= list@.len(),
                    bar == colors.barred(kind),
                    list@ == colors.of(kind),
                    sets.holds(*colors),
                    used@.finite(),
                    match found {
                        None => used@ == usable(list@.take(ci as int)).difference(bar) && used@.len()
                            == done.len(),
                        Some(k) => used@ == usable(list@.take(ci as int)).difference(bar)
                            && used@.len() == done.len() + 1 && used@.contains(k) && k < KEY_LIMIT
                            && forall|o: u32| #[trigger]
                            done.contains(o) ==> replacement@[o] != k,
                    },
                    forall|k: u32| #[trigger] done.contains(k) ==> used@.contains(replacement@[k]),
                decreases list@.len() - ci, if found is None { 1int } else { 0int },
            {
                let k = color_key(list[ci]);
                proof {
                    lemma_usable_step(list@, ci as int);
                }
                let ghost was = used@;
                if k != BLACK_KEY && !used.contains(&k) && !sets.barred(kind, k, Ghost(*colors)) {
                    used.insert(k);
                    found = Some(k);
                    proof {
                        assert(used@ =~= usable(list@.take(ci as int + 1)).difference(bar));
                    }
                } else {
                    proof {
                        assert(was =~= usable(list@.take(ci as int + 1)).difference(bar));
                    }
                }
                ci += 1;
            }
            match found {
                None => {
                    proof {
                        assert(list@.take(ci as int) =~= list@);
                        assert(used@ == colors.eligible(kind));
                        let more = done.insert(key);
                        assert(!done.contains(key));
                        assert(more.subset_of(mine));
                        vstd::set_lib::lemma_len_subset(more, mine);
                    }
                    return false;
                },
                Some(k) => {
                    replacement.insert(key, k);
                    proof {
                        assert(!first.contains_key(key));
                        assert(!done.contains(key));
                        done = done.insert(key);
                        assert(replacement@.dom() =~= first.dom().union(done));
                    }
                },
            }
        }
        j += 1;
    }
    proof {
        assert(keys@.take(keys@.len() as int) =~= keys@);
        assert(done =~= mine) by {
            assert forall|k: u32| mine.contains(k) implies done.contains(k) by {
                assert(keys@.to_set().contains(k));
            }
        }
        vstd::seq_lib::seq_to_set_is_finite(keys_of(list@));
        assert(used@.subset_of(colors.eligible(kind))) by {
            assert forall|k: u32| used@.contains(k) implies colors.eligible(kind).contains(k) by {
                let a = keys_of(list@.take(ci as int));
                assert(a.contains(k));
                let i = choose|i: int| 0 <= i < a.len() && a[i] == k;
                assert(keys_of(list@)[i] == k);
            }
        }
        vstd::set_lib::lemma_len_subset(used@, colors.eligible(kind));
    }
    true
}

/// Picks a new colour for every province of a map: for each the next of
/// the colours for its kind that is not black, stands in the list of no
/// other kind and was not taken by a province before it. There is none
/// where the colours for a kind are fewer than its provinces.
pub fn pick_colors(base: &MapBase, colors: &KindColors) -> (r: Option<HashMap<u32, u32>>)
    requires
        base.wf(),
    ensures
        r is Some <==> colors.enough_for(base@),
        r is Some ==> picked_from(base@, r.unwrap()@, *colors),
{
    broadcast use vstd::std_specs::hash::group_hash_axioms;

    let ghost v = base@;
    let keys = base.province_keys();
    let sets = KeySets::new(colors);
    let mut replacement: HashMap<u32, u32> = HashMap::new();
    if !pick_kind(base, &keys, colors, &sets, ProvinceKind::Land, &mut replacement) {
        return None;
    }
    let ghost f1 = replacement@;
    proof {
        assert(f1.dom() =~= provinces_of_kind(v, ProvinceKind::Land));
    }
    if !pick_kind(base, &keys, colors, &sets, ProvinceKind::Sea, &mut replacement) {
        return None;
    }
    let ghost f2 = replacement@;
    if !pick_kind(base, &keys, colors, &sets, ProvinceKind::Lake, &mut replacement) {
        return None;
    }
    let ghost f3 = replacement@;
    if !pick_kind(base, &keys, colors, &sets, ProvinceKind::Unknown, &mut replacement) {
        return None;
    }
    let ghost f = replacement@;
    proof {
        assert forall|kind: ProvinceKind| (#[trigger] colors.eligible(kind)).len()
            >= provinces_of_kind(v, kind).len() by {
            match kind {
                ProvinceKind::Land => {},
                ProvinceKind::Sea => {},
                ProvinceKind::Lake => {},
                ProvinceKind::Unknown => {},
            }
        }
        assert forall|k: u32| #[trigger] f.contains_key(k) implies v.provinces.contains_key(k)
            && colors.eligible(v.provinces[k].kind).contains(f[k]) && f[k] < KEY_LIMIT by {
            lemma_kept(v, f1, f2, f3, f, k);
        }
        assert(f.dom() =~= v.provinces.dom()) by {
            assert forall|k: u32| v.provinces.contains_key(k) implies f.contains_key(k) by {
                match v.provinces[k].kind {
                    ProvinceKind::Land => {
                        assert(provinces_of_kind(v, ProvinceKind::Land).contains(k));
                    },
                    ProvinceKind::Sea => {
                        assert(provinces_of_kind(v, ProvinceKind::Sea).contains(k));
                    },
                    ProvinceKind::Lake => {
                        assert(provinces_of_kind(v, ProvinceKind::Lake).contains(k));
                    },
                    ProvinceKind::Unknown => {
                        assert(provinces_of_kind(v, ProvinceKind::Unknown).contains(k));
                    },
                }
            }
        }
        assert forall|a: u32, b: u32|
            #![trigger f[a], f[b]]
            f.contains_key(a) && f.contains_key(b) && f[a] == f[b] implies a == b by {
            lemma_kept(v, f1, f2, f3, f, a);
            lemma_kept(v, f1, f2, f3, f, b);
            let ka = v.provinces[a].kind;
            let kb = v.provinces[b].kind;
            if ka != kb {
                assert(colors.eligible(ka).contains(f[a]));
                assert(colors.eligible(kb).contains(f[a]));
                assert(keys_of(colors.of(ka)).contains(f[a]));
                assert(colors.barred(kb).contains(f[a]));
            } else {
                assert(provinces_of_kind(v, ka).contains(a));
                assert(provinces_of_kind(v, ka).contains(b));
                lemma_same(v, f1, f2, f3, f, a);
                lemma_same(v, f1, f2, f3, f, b);
            }
        }
    }
    Some(replacement)
}

/// Whether `f` holds the keys of the provinces of the kinds given so far,
/// and `g` those and the keys of one kind more, with what `f` held.
spec fn grown_by(v: MapView, f: Map<u32, u32>, g: Map<u32, u32>, kind: ProvinceKind) -> bool {
    &&& g.dom() == f.dom().union(provinces_of_kind(v, kind))
    &&& forall|k: u32| #[trigger] f.contains_key(k) ==> g[k] == f[k]
}

/// What was picked for a province of a kind stays when the later kinds
/// are gone through.
proof fn lemma_same(
    v: MapView,
    f1: Map<u32, u32>,
    f2: Map<u32, u32>,
    f3: Map<u32, u32>,
    f: Map<u32, u32>,
    k: u32,
)
    requires
        f1.dom() == provinces_of_kind(v, ProvinceKind::Land),
        grown_by(v, f1, f2, ProvinceKind::Sea),
        grown_by(v, f2, f3, ProvinceKind::Lake),
        grown_by(v, f3, f, ProvinceKind::Unknown),
        v.provinces.contains_key(k),
    ensures
        match v.provinces[k].kind {
            ProvinceKind::Land => f[k] == f1[k],
            ProvinceKind::Sea => f[k] == f2[k],
            ProvinceKind::Lake => f[k] == f3[k],
            ProvinceKind::Unknown => true,
        },
{
    match v.provinces[k].kind {
        ProvinceKind::Land => {
            assert(provinces_of_kind(v, ProvinceKind::Land).contains(k));
            assert(f1.contains_key(k));
            assert(f2.contains_key(k));
            assert(f3.contains_key(k));
        },
        ProvinceKind::Sea => {
            assert(provinces_of_kind(v, ProvinceKind::Sea).contains(k));
            assert(f2.contains_key(k));
            assert(f3.contains_key(k));
        },
        ProvinceKind::Lake => {
            assert(provinces_of_kind(v, ProvinceKind::Lake).contains(k));
            assert(f3.contains_key(k));
        },
        ProvinceKind::Unknown => {},
    }
}

/// A key that the picking holds is that of a province.
proof fn lemma_kept(
    v: MapView,
    f1: Map<u32, u32>,
    f2: Map<u32, u32>,
    f3: Map<u32, u32>,
    f: Map<u32, u32>,
    k: u32,
)
    requires
        f1.dom() == provinces_of_kind(v, ProvinceKind::Land),
        grown_by(v, f1, f2, ProvinceKind::Sea),
        grown_by(v, f2, f3, ProvinceKind::Lake),
        grown_by(v, f3, f, ProvinceKind::Unknown),
        f.contains_key(k),
    ensures
        v.provinces.contains_key(k),
        f.contains_key(k),
        provinces_of_kind(v, v.provinces[k].kind).contains(k),
{
    if f3.contains_key(k) {
        if f2.contains_key(k) {
            if f1.contains_key(k) {
                assert(provinces_of_kind(v, ProvinceKind::Land).contains(k));
            } else {
                assert(provinces_of_kind(v, ProvinceKind::Sea).contains(k));
            }
        } else {
            assert(provinces_of_kind(v, ProvinceKind::Lake).contains(k));
        }
    } else {
        assert(provinces_of_kind(v, ProvinceKind::Unknown).contains(k));
    }
}

} // verus!
