//! The mathematical model of a map: its raster and its two tables, and what
//! holds of them together.
use vstd::prelude::*;
use crate::color::KEY_LIMIT;
use crate::province::{ConnectionView, ProvinceView};
use crate::tally::{lemma_weight_joined, lemma_weight_relabeled, one_to_one, relabeled, count_of, sum_x_of, sum_y_of, lemma_weight_bound, lemma_weight_recolored, lemma_count_positive, recolored, column, row, place, unit};
use crate::uord::{is_pair_key, lemma_pair_key, lemma_pair_key_halves, pair_high, pair_key, pair_low};

verus! {

/// A map as a value: the raster, row by row, as colour keys; the provinces
/// by colour key; the connections by pair key.
pub struct MapView {
    pub width: u32,
    pub height: u32,
    pub pixels: Seq<u32>,
    pub provinces: Map<u32, ProvinceView>,
    pub connections: Map<u64, ConnectionView>,
}

/// A raster of this size is not empty, and the sums of its pixels'
/// positions fit the counters.
pub open spec fn size_fits(width: u32, height: u32) -> bool {
    &&& width > 0
    &&& height > 0
    &&& width * height * width <= u64::MAX
    &&& width * height * height <= u64::MAX
}

/// Whether a raster holds colour keys only.
pub open spec fn all_keys(s: Seq<u32>) -> bool {
    forall|i: int| 0 <= i < s.len() ==> #[trigger] s[i] < KEY_LIMIT
}

/// The entry of key `k` over the raster `s`: the attributes that the
/// province had, or those of a province that nothing is known of, with the
/// pixels that `s` gives it.
pub open spec fn settled_entry(before: Map<u32, ProvinceView>, s: Seq<u32>, width: int, k: u32)
    -> ProvinceView {
    (if before.contains_key(k) {
        before[k]
    } else {
        ProvinceView::fresh()
    }).with_pixels(count_of(s, k), sum_x_of(s, width, k), sum_y_of(s, width, k))
}

/// The province table over the raster `s`: one entry for each key that has
/// a pixel in `s`.
pub open spec fn settled_provinces(before: Map<u32, ProvinceView>, s: Seq<u32>, width: int) -> Map<
    u32,
    ProvinceView,
> {
    Map::new(|k: u32| count_of(s, k) > 0, |k: u32| settled_entry(before, s, width, k))
}

/// A connection's entry over the raster `s`: a province in between that
/// has no pixel left is forgotten.
pub open spec fn settled_link(c: ConnectionView, s: Seq<u32>) -> ConnectionView {
    ConnectionView {
        through: match c.through {
            Some(t) => if count_of(s, t) > 0 {
                Some(t)
            } else {
                None
            },
            None => None,
        },
        ..c
    }
}

/// The connection table over the raster `s`: the connections between
/// provinces that both have a pixel in `s`.
pub open spec fn settled_connections(before: Map<u64, ConnectionView>, s: Seq<u32>) -> Map<
    u64,
    ConnectionView,
> {
    Map::new(
        |key: u64|
            before.contains_key(key) && count_of(s, pair_low(key)) > 0 && count_of(
                s,
                pair_high(key),
            ) > 0,
        |key: u64| settled_link(before[key], s),
    )
}

/// The map with another raster, and the tables brought in line with it.
pub open spec fn settled(v: MapView, s: Seq<u32>) -> MapView {
    MapView {
        pixels: s,
        provinces: settled_provinces(v.provinces, s, v.width as int),
        connections: settled_connections(v.connections, s),
        ..v
    }
}

impl MapView {
    /// Every province has the count and the sums of its pixels; a colour has
    /// an entry exactly when it has a pixel.
    pub open spec fn counts_hold(self) -> bool {
        &&& forall|k: u32| #[trigger]
            self.provinces.contains_key(k) <==> count_of(self.pixels, k) > 0
        &&& forall|k: u32| #[trigger]
            self.provinces.contains_key(k) ==> {
                &&& self.provinces[k].pixel_count == count_of(self.pixels, k)
                &&& self.provinces[k].sum_x == sum_x_of(self.pixels, self.width as int, k)
                &&& self.provinces[k].sum_y == sum_y_of(self.pixels, self.width as int, k)
            }
    }

    /// Every connection is between two provinces of the table, and passes
    /// through none or through one of the table.
    pub open spec fn links_hold(self) -> bool {
        forall|key: u64| #[trigger]
            self.connections.contains_key(key) ==> {
                &&& is_pair_key(key)
                &&& self.provinces.contains_key(pair_low(key))
                &&& self.provinces.contains_key(pair_high(key))
                &&& self.connections[key].through is Some ==> self.provinces.contains_key(
                    self.connections[key].through.unwrap(),
                )
            }
    }

    /// What holds of every map.
    pub open spec fn wf(self) -> bool {
        &&& size_fits(self.width, self.height)
        &&& self.pixels.len() == self.width * self.height
        &&& all_keys(self.pixels)
        &&& self.counts_hold()
        &&& self.links_hold()
    }

    /// The key of the pixel in column `x` and row `y`.
    pub open spec fn at(self, x: int, y: int) -> u32 {
        self.pixels[place(x, y, self.width as int)]
    }

    /// Whether a position lies on the raster.
    pub open spec fn has(self, x: int, y: int) -> bool {
        0 <= x < self.width && 0 <= y < self.height
    }
}

/// The counts and sums of a raster fit the counters of a province.
pub proof fn lemma_sums_fit(s: Seq<u32>, width: u32, height: u32, k: u32)
    requires
        size_fits(width, height),
        s.len() <= width * height,
    ensures
        count_of(s, k) <= s.len(),
        sum_x_of(s, width as int, k) <= u64::MAX,
        sum_y_of(s, width as int, k) <= u64::MAX,
{
    let w = width as int;
    let h = height as int;
    assert forall|i: int| 0 <= i < s.len() implies #[trigger] column(w)(i) <= width as nat by {
        vstd::arithmetic::div_mod::lemma_mod_bound(i, w);
    }
    assert forall|i: int| 0 <= i < s.len() implies #[trigger] row(w)(i) <= height as nat by {
        assert(i < w * h);
        vstd::arithmetic::div_mod::lemma_fundamental_div_mod(i, w);
        vstd::arithmetic::div_mod::lemma_mod_bound(i, w);
        assert(i / w < h) by (nonlinear_arith)
            requires
                0 <= i < w * h,
                w > 0,
                i == w * (i / w) + i % w,
                0 <= i % w < w,
        {
            if i / w >= h {
                assert(w * (i / w) >= w * h);
            }
        }
        vstd::arithmetic::div_mod::lemma_div_pos_is_pos(i, w);
    }
    lemma_weight_bound(s, k, column(w), width as nat);
    lemma_weight_bound(s, k, row(w), height as nat);
    let c = count_of(s, k) as int;
    let l = s.len() as int;
    assert(c * w <= w * h * w) by (nonlinear_arith)
        requires
            0 <= c <= l,
            l <= w * h,
            w > 0,
    {
        assert(c * w <= l * w);
        assert(l * w <= (w * h) * w);
    }
    assert(c * h <= w * h * h) by (nonlinear_arith)
        requires
            0 <= c <= l,
            l <= w * h,
            h > 0,
    {
        assert(c * h <= l * h);
        assert(l * h <= (w * h) * h);
    }
}

/// A well-formed map over another raster of its size is well-formed.
pub proof fn lemma_settled_wf(v: MapView, s: Seq<u32>)
    requires
        v.wf(),
        s.len() == v.pixels.len(),
        all_keys(s),
    ensures
        settled(v, s).wf(),
{
    let n = settled(v, s);
    assert forall|key: u64| #[trigger] n.connections.contains_key(key) implies {
        &&& is_pair_key(key)
        &&& n.provinces.contains_key(pair_low(key))
        &&& n.provinces.contains_key(pair_high(key))
        &&& n.connections[key].through is Some ==> n.provinces.contains_key(
            n.connections[key].through.unwrap(),
        )
    } by {
        assert(v.connections.contains_key(key));
    }
}

/// Once a province has no pixel left, no connection touches it and none
/// passes through it.
pub proof fn lemma_no_orphan_connections(v: MapView, s: Seq<u32>, k: u32)
    requires
        v.wf(),
        s.len() == v.pixels.len(),
        all_keys(s),
        count_of(s, k) == 0,
    ensures
        !settled(v, s).provinces.contains_key(k),
        forall|key: u64| #[trigger]
            settled(v, s).connections.contains_key(key) ==> pair_low(key) != k && pair_high(key)
                != k && settled(v, s).connections[key].through != Some(k),
{
}

/// A well-formed map is settled over its own raster.
pub proof fn lemma_settled_same(v: MapView)
    requires
        v.wf(),
    ensures
        settled(v, v.pixels) == v,
{
    let n = settled(v, v.pixels);
    assert forall|k: u32| #[trigger] n.provinces.contains_key(k) implies n.provinces[k]
        == v.provinces[k] by {
        assert(v.provinces.contains_key(k));
    }
    assert(n.provinces =~= v.provinces);
    assert forall|key: u64| #[trigger] v.connections.contains_key(key) implies {
        &&& n.connections.contains_key(key)
        &&& n.connections[key] == v.connections[key]
    } by {
        assert(v.provinces.contains_key(pair_low(key)));
        assert(v.provinces.contains_key(pair_high(key)));
        if v.connections[key].through is Some {
            assert(v.provinces.contains_key(v.connections[key].through.unwrap()));
        }
    }
    assert(n.connections =~= v.connections);
}

/// Bringing the tables in line with one raster and then with another gives
/// what the second raster alone gives, as long as no province of the map
/// that has a pixel in the second raster has none in the first.
pub proof fn lemma_settled_twice(v: MapView, s1: Seq<u32>, s2: Seq<u32>)
    requires
        v.wf(),
        forall|k: u32|
            v.provinces.contains_key(k) && #[trigger] count_of(s2, k) > 0 ==> count_of(s1, k) > 0,
    ensures
        settled(settled(v, s1), s2) == settled(v, s2),
{
    let a = settled(v, s1);
    let b = settled(a, s2);
    let c = settled(v, s2);
    assert forall|k: u32| #[trigger] c.provinces.contains_key(k) implies b.provinces[k]
        == c.provinces[k] by {
        if v.provinces.contains_key(k) {
            assert(count_of(s1, k) > 0);
            assert(a.provinces.contains_key(k));
        } else {
            if a.provinces.contains_key(k) {
                assert(a.provinces[k] == settled_entry(v.provinces, s1, v.width as int, k));
            }
        }
    }
    assert(b.provinces =~= c.provinces);
    assert forall|key: u64| #[trigger] c.connections.contains_key(key) implies {
        &&& b.connections.contains_key(key)
        &&& b.connections[key] == c.connections[key]
    } by {
        assert(v.connections.contains_key(key));
        assert(v.provinces.contains_key(pair_low(key)));
        assert(v.provinces.contains_key(pair_high(key)));
        assert(count_of(s1, pair_low(key)) > 0);
        assert(count_of(s1, pair_high(key)) > 0);
        assert(a.connections.contains_key(key));
        if v.connections[key].through is Some {
            let t = v.connections[key].through.unwrap();
            assert(v.provinces.contains_key(t));
            if count_of(s2, t) > 0 {
                assert(count_of(s1, t) > 0);
            }
        }
    }
    assert(b.connections =~= c.connections);
}

/// The connection table after a connection of a kind was asked for between
/// a pair: it is entered if it was not there, changed if it was of another
/// kind, and removed if it was of this kind.
pub open spec fn toggled(m: Map<u64, ConnectionView>, key: u64, kind: crate::kinds::ConnectionKind)
    -> Map<u64, ConnectionView> {
    if !m.contains_key(key) {
        m.insert(key, ConnectionView::bare(kind))
    } else if m[key].kind != kind {
        m.insert(key, ConnectionView { kind, ..m[key] })
    } else {
        m.remove(key)
    }
}

/// The raster after the pixels at the given positions got the key `k`.
pub open spec fn painted(s: Seq<u32>, width: int, ps: Seq<crate::extents::Pos>, k: u32) -> Seq<u32>
    decreases ps.len(),
{
    if ps.len() == 0 {
        s
    } else {
        painted(s, width, ps.drop_last(), k).update(
            place(ps.last()[0] as int, ps.last()[1] as int, width),
            k,
        )
    }
}

/// Whether one of the positions is at the place `i`.
pub open spec fn touched(ps: Seq<crate::extents::Pos>, width: int, i: int) -> bool {
    exists|n: int| 0 <= n < ps.len() && place((#[trigger] ps[n])[0] as int, ps[n][1] as int, width) == i
}

/// Painting changes no pixel but at the positions given.
pub proof fn lemma_painted_touched(
    s: Seq<u32>,
    width: int,
    ps: Seq<crate::extents::Pos>,
    k: u32,
    i: int,
)
    requires
        0 <= i < s.len(),
        forall|n: int|
            0 <= n < ps.len() ==> 0 <= place((#[trigger] ps[n])[0] as int, ps[n][1] as int, width)
                < s.len(),
    ensures
        painted(s, width, ps, k).len() == s.len(),
        painted(s, width, ps, k)[i] != s[i] ==> touched(ps, width, i),
        touched(ps, width, i) ==> painted(s, width, ps, k)[i] == k,
    decreases ps.len(),
{
    if ps.len() > 0 {
        let qs = ps.drop_last();
        let last = ps.len() - 1;
        assert forall|n: int| 0 <= n < qs.len() implies 0 <= place(
            (#[trigger] qs[n])[0] as int,
            qs[n][1] as int,
            width,
        ) < s.len() by {
            assert(qs[n] == ps[n]);
        }
        lemma_painted_touched(s, width, qs, k, i);
        let p = place(ps[last][0] as int, ps[last][1] as int, width);
        assert(ps.last() == ps[last]);
        if touched(qs, width, i) {
            let n = choose|n: int|
                0 <= n < qs.len() && place((#[trigger] qs[n])[0] as int, qs[n][1] as int, width)
                    == i;
            assert(ps[n] == qs[n]);
        }
        if touched(ps, width, i) {
            let n = choose|n: int|
                0 <= n < ps.len() && place((#[trigger] ps[n])[0] as int, ps[n][1] as int, width)
                    == i;
            if n < last {
                assert(qs[n] == ps[n]);
                assert(touched(qs, width, i));
            }
        }
    }
}

impl MapView {
    /// The map with other attributes for the province of key `k`.
    pub open spec fn with_province(self, k: u32, p: ProvinceView) -> MapView {
        MapView { provinces: self.provinces.insert(k, p), ..self }
    }

    /// The map with another connection table.
    pub open spec fn with_connections(self, c: Map<u64, ConnectionView>) -> MapView {
        MapView { connections: c, ..self }
    }

    /// Every entry of the province table has the count of its colour's
    /// pixels, and that is not zero.
    pub open spec fn counts_valid(self) -> bool {
        forall|k: u32| #[trigger]
            self.provinces.contains_key(k) ==> count_of(self.pixels, k) > 0
                && self.provinces[k].pixel_count == count_of(self.pixels, k)
    }
}

/// The key of a province of a well-formed map is the key of a colour.
pub proof fn lemma_province_key(v: MapView, k: u32)
    requires
        v.wf(),
        v.provinces.contains_key(k),
    ensures
        k < KEY_LIMIT,
{
    let i = crate::tally::lemma_count_witness(v.pixels, k);
}

/// The pixel counts of a well-formed map are valid.
pub proof fn lemma_wf_counts_valid(v: MapView)
    requires
        v.wf(),
    ensures
        v.counts_valid(),
{
}

/// A map stays well-formed when a province gets other attributes and
/// keeps its pixels.
pub proof fn lemma_with_province_wf(v: MapView, k: u32, p: ProvinceView)
    requires
        v.wf(),
        v.provinces.contains_key(k),
        p.pixel_count == v.provinces[k].pixel_count,
        p.sum_x == v.provinces[k].sum_x,
        p.sum_y == v.provinces[k].sum_y,
    ensures
        v.with_province(k, p).wf(),
{
    let n = v.with_province(k, p);
    assert forall|j: u32| #[trigger] n.provinces.contains_key(j) <==> count_of(n.pixels, j)
        > 0 by {
        assert(v.provinces.contains_key(j) <==> count_of(v.pixels, j) > 0);
    }
    assert forall|key: u64| #[trigger] n.connections.contains_key(key) implies {
        &&& is_pair_key(key)
        &&& n.provinces.contains_key(pair_low(key))
        &&& n.provinces.contains_key(pair_high(key))
        &&& n.connections[key].through is Some ==> n.provinces.contains_key(
            n.connections[key].through.unwrap(),
        )
    } by {
        assert(v.connections.contains_key(key));
    }
}

/// A map stays well-formed when a connection between two of its provinces
/// is entered, changed or removed.
pub proof fn lemma_toggled_wf(v: MapView, key: u64, kind: crate::kinds::ConnectionKind)
    requires
        v.wf(),
        is_pair_key(key),
        v.provinces.contains_key(pair_low(key)),
        v.provinces.contains_key(pair_high(key)),
    ensures
        v.with_connections(toggled(v.connections, key, kind)).wf(),
{
    let n = v.with_connections(toggled(v.connections, key, kind));
    assert forall|other: u64| #[trigger] n.connections.contains_key(other) implies {
        &&& is_pair_key(other)
        &&& n.provinces.contains_key(pair_low(other))
        &&& n.provinces.contains_key(pair_high(other))
        &&& n.connections[other].through is Some ==> n.provinces.contains_key(
            n.connections[other].through.unwrap(),
        )
    } by {
        if other != key {
            assert(v.connections.contains_key(other));
        } else if v.connections.contains_key(key) {
            assert(v.connections.contains_key(other));
        }
    }
}

/// Whether one kind is land and the other sea.
pub open spec fn land_sea(a: crate::kinds::ProvinceKind, b: crate::kinds::ProvinceKind) -> bool {
    (a == crate::kinds::ProvinceKind::Land && b == crate::kinds::ProvinceKind::Sea) || (a
        == crate::kinds::ProvinceKind::Sea && b == crate::kinds::ProvinceKind::Land)
}

/// Whether the places `i` and `j` are neighbouring pixels of a land
/// province and a sea province, one of which has the key `k`.
pub open spec fn coast_at(v: MapView, k: u32, i: int, j: int) -> bool {
    &&& adjacent(v.width as int, v.pixels.len() as int, i, j)
    &&& land_sea(v.provinces[v.pixels[i]].kind, v.provinces[v.pixels[j]].kind)
    &&& v.pixels[i] == k || v.pixels[j] == k
}

/// Whether the province of key `k` is coastal: one of its pixels lies
/// next to a pixel of another province, and of the two provinces one is
/// land and the other sea.
pub open spec fn coastal(v: MapView, k: u32) -> bool {
    exists|i: int, j: int| #[trigger] coast_at(v, k, i, j)
}

/// Whether the province of key `k` is coastal by a pair of neighbours
/// whose lesser place is before `p`.
pub open spec fn coastal_before(v: MapView, k: u32, p: int) -> bool {
    exists|i: int, j: int| i < j && i < p && #[trigger] coast_at(v, k, i, j)
}

/// By the pairs of the whole raster a province is coastal or not.
pub proof fn lemma_coastal_all(v: MapView, k: u32)
    ensures
        coastal_before(v, k, v.pixels.len() as int) == coastal(v, k),
{
    if coastal(v, k) {
        let (i, j) = choose|i: int, j: int| #[trigger] coast_at(v, k, i, j);
        if i < j {
            assert(coast_at(v, k, i, j));
        } else {
            assert(coast_at(v, k, j, i));
        }
    }
    if coastal_before(v, k, v.pixels.len() as int) {
        let (i, j) = choose|i: int, j: int|
            i < j && i < v.pixels.len() && #[trigger] coast_at(v, k, i, j);
        assert(coast_at(v, k, i, j));
    }
}

/// One more place adds its pairs with the neighbours to the right and
/// below.
pub proof fn lemma_coastal_step(v: MapView, k: u32, p: int)
    requires
        0 <= p < v.pixels.len(),
        v.width > 0,
    ensures
        coastal_before(v, k, p + 1) == (coastal_before(v, k, p) || coast_at(v, k, p, p + 1)
            || coast_at(v, k, p, p + v.width)),
{
    if coastal_before(v, k, p + 1) {
        let (i, j) = choose|i: int, j: int| i < j && i < p + 1 && #[trigger] coast_at(v, k, i, j);
        if i < p {
            assert(coast_at(v, k, i, j));
        }
    }
    if coastal_before(v, k, p) {
        let (i, j) = choose|i: int, j: int| i < j && i < p && #[trigger] coast_at(v, k, i, j);
        assert(coast_at(v, k, i, j));
    }
}

/// The province table in which every province is said to be coastal or
/// not as the raster shows.
pub open spec fn with_coasts(v: MapView) -> Map<u32, ProvinceView> {
    Map::new(
        |k: u32| v.provinces.contains_key(k),
        |k: u32| ProvinceView { coastal: Some(coastal(v, k)), ..v.provinces[k] },
    )
}

/// The pair key of a pair after every key got the one that `f` gives.
pub open spec fn relabel_key(key: u64, f: Map<u32, u32>) -> u64 {
    pair_key(f[pair_low(key)], f[pair_high(key)])
}

/// A connection's entry after every key got the one that `f` gives.
pub open spec fn relabel_link(c: ConnectionView, f: Map<u32, u32>) -> ConnectionView {
    ConnectionView {
        through: match c.through {
            Some(t) => Some(f[t]),
            None => None,
        },
        ..c
    }
}

/// Whether `n` is the map `v` after every province got the key that `f`
/// gives for its key: the pixels have the new keys, and the two tables
/// hold what they held under the new keys.
pub open spec fn is_remap(v: MapView, n: MapView, f: Map<u32, u32>) -> bool {
    &&& n.width == v.width
    &&& n.height == v.height
    &&& n.pixels == relabeled(v.pixels, f)
    &&& forall|k: u32| #[trigger]
        v.provinces.contains_key(k) ==> n.provinces.contains_key(f[k]) && n.provinces[f[k]]
            == v.provinces[k]
    &&& forall|k: u32| #[trigger]
        n.provinces.contains_key(k) ==> exists|j: u32| #[trigger]
            v.provinces.contains_key(j) && f[j] == k
    &&& forall|key: u64| #[trigger]
        v.connections.contains_key(key) ==> n.connections.contains_key(relabel_key(key, f))
            && n.connections[relabel_key(key, f)] == relabel_link(v.connections[key], f)
    &&& forall|key: u64| #[trigger]
        n.connections.contains_key(key) ==> exists|old: u64| #[trigger]
            v.connections.contains_key(old) && relabel_key(old, f) == key
}

/// A well-formed map stays well-formed when every province gets another
/// key, no two the same.
pub proof fn lemma_remap_wf(v: MapView, n: MapView, f: Map<u32, u32>)
    requires
        v.wf(),
        is_remap(v, n, f),
        f.dom() == v.provinces.dom(),
        one_to_one(f),
        forall|k: u32| #[trigger] f.contains_key(k) ==> f[k] < KEY_LIMIT,
    ensures
        n.wf(),
{
    let s = v.pixels;
    let w = v.width as int;
    assert forall|i: int| 0 <= i < s.len() implies f.contains_key(#[trigger] s[i]) by {
        lemma_count_positive(s, s[i], i);
        assert(v.provinces.contains_key(s[i]));
    }
    assert(all_keys(n.pixels)) by {
        assert forall|i: int| 0 <= i < n.pixels.len() implies #[trigger] n.pixels[i]
            < KEY_LIMIT by {
            assert(f.contains_key(s[i]));
        }
    }
    assert forall|k: u32| #[trigger] n.provinces.contains_key(k) <==> count_of(n.pixels, k)
        > 0 by {
        if n.provinces.contains_key(k) {
            let j = choose|j: u32| #[trigger] v.provinces.contains_key(j) && f[j] == k;
            assert(f.contains_key(j));
            lemma_weight_relabeled(s, f, j, unit());
        }
        if count_of(n.pixels, k) > 0 {
            let i = crate::tally::lemma_count_witness(n.pixels, k);
            assert(f.contains_key(s[i]));
            assert(v.provinces.contains_key(s[i]));
        }
    }
    assert forall|k: u32| #[trigger] n.provinces.contains_key(k) implies {
        &&& n.provinces[k].pixel_count == count_of(n.pixels, k)
        &&& n.provinces[k].sum_x == sum_x_of(n.pixels, w, k)
        &&& n.provinces[k].sum_y == sum_y_of(n.pixels, w, k)
    } by {
        let j = choose|j: u32| #[trigger] v.provinces.contains_key(j) && f[j] == k;
        assert(f.contains_key(j));
        lemma_weight_relabeled(s, f, j, unit());
        lemma_weight_relabeled(s, f, j, column(w));
        lemma_weight_relabeled(s, f, j, row(w));
    }
    assert forall|key: u64| #[trigger] n.connections.contains_key(key) implies {
        &&& is_pair_key(key)
        &&& n.provinces.contains_key(pair_low(key))
        &&& n.provinces.contains_key(pair_high(key))
        &&& n.connections[key].through is Some ==> n.provinces.contains_key(
            n.connections[key].through.unwrap(),
        )
    } by {
        let old = choose|old: u64| #[trigger] v.connections.contains_key(old) && relabel_key(old, f)
            == key;
        let lo = pair_low(old);
        let hi = pair_high(old);
        assert(v.provinces.contains_key(lo) && v.provinces.contains_key(hi));
        assert(f.contains_key(lo) && f.contains_key(hi));
        lemma_pair_key(f[lo], f[hi]);
        if v.connections[old].through is Some {
            let t = v.connections[old].through.unwrap();
            assert(v.provinces.contains_key(t));
        }
    }
}

/// The key that had the name `x` before `which` was renamed to `k`.
pub open spec fn back(x: u32, which: u32, k: u32) -> u32 {
    if x == k {
        which
    } else {
        x
    }
}

/// The key that `x` has after `which` was renamed to `k`.
pub open spec fn forth(x: u32, which: u32, k: u32) -> u32 {
    if x == which {
        k
    } else {
        x
    }
}

/// The pair key that a pair had before `which` was renamed to `k`.
pub open spec fn back_key(key: u64, which: u32, k: u32) -> u64 {
    pair_key(back(pair_low(key), which, k), back(pair_high(key), which, k))
}

/// The pair key that a pair has after `which` was renamed to `k`.
pub open spec fn forth_key(key: u64, which: u32, k: u32) -> u64 {
    pair_key(forth(pair_low(key), which, k), forth(pair_high(key), which, k))
}

/// A connection's entry after the province `which` was renamed to `k`.
pub open spec fn renamed_link(c: ConnectionView, which: u32, k: u32) -> ConnectionView {
    ConnectionView {
        through: match c.through {
            Some(t) => Some(forth(t, which, k)),
            None => None,
        },
        ..c
    }
}

/// The connection table after the province `which` was renamed to `k`.
pub open spec fn renamed_connections(m: Map<u64, ConnectionView>, which: u32, k: u32) -> Map<
    u64,
    ConnectionView,
> {
    Map::new(
        |key: u64|
            is_pair_key(key) && pair_low(key) != which && pair_high(key) != which && m.contains_key(
                back_key(key, which, k),
            ),
        |key: u64| renamed_link(m[back_key(key, which, k)], which, k),
    )
}

/// The map after the province of key `which` got the key `k`: its pixels
/// have the new key, and both tables hold it under the new key.
pub open spec fn renamed(v: MapView, which: u32, k: u32) -> MapView {
    MapView {
        pixels: recolored(v.pixels, which, k),
        provinces: v.provinces.remove(which).insert(k, v.provinces[which]),
        connections: renamed_connections(v.connections, which, k),
        ..v
    }
}

/// Whether a pair key holds the colour key `x`.
pub open spec fn touches(key: u64, x: u32) -> bool {
    pair_low(key) == x || pair_high(key) == x
}

/// The connection table after the province of key `which` went into the
/// province of key `k`: each connection of the one is a connection of the
/// other, but where the other has one between the same two provinces
/// already, which stays; a connection between the two is gone; and what
/// passed through the one passes through the other. Where no province has
/// `k` this is the table of `renamed_connections`.
pub open spec fn joined_connections(m: Map<u64, ConnectionView>, which: u32, k: u32) -> Map<
    u64,
    ConnectionView,
> {
    Map::new(
        |key: u64|
            is_pair_key(key) && !touches(key, which) && (m.contains_key(key) || m.contains_key(
                back_key(key, which, k),
            )),
        |key: u64|
            renamed_link(
                if m.contains_key(key) {
                    m[key]
                } else {
                    m[back_key(key, which, k)]
                },
                which,
                k,
            ),
    )
}

/// The map after every pixel of the province of key `which` got the key
/// `k`. Where no province has `k`, the province goes on under the new key,
/// with its attributes and its connections. Where a province has `k`, the
/// pixels go to that province, which keeps its attributes and gains their
/// counts and sums; the connections are those of `joined_connections`; and
/// the province that is left without a pixel leaves the table.
pub open spec fn repainted(v: MapView, which: u32, k: u32) -> MapView {
    if v.provinces.contains_key(k) {
        settled(
            v.with_connections(joined_connections(v.connections, which, k)),
            recolored(v.pixels, which, k),
        )
    } else {
        renamed(v, which, k)
    }
}

/// A well-formed map stays well-formed when the connections of one
/// province are joined to those of another.
pub proof fn lemma_joined_wf(v: MapView, which: u32, k: u32)
    requires
        v.wf(),
        v.provinces.contains_key(which),
        v.provinces.contains_key(k),
        which != k,
    ensures
        v.with_connections(joined_connections(v.connections, which, k)).wf(),
{
    let n = v.with_connections(joined_connections(v.connections, which, k));
    lemma_province_key(v, which);
    lemma_province_key(v, k);
    assert forall|key: u64| #[trigger] n.connections.contains_key(key) implies {
        &&& is_pair_key(key)
        &&& n.provinces.contains_key(pair_low(key))
        &&& n.provinces.contains_key(pair_high(key))
        &&& n.connections[key].through is Some ==> n.provinces.contains_key(
            n.connections[key].through.unwrap(),
        )
    } by {
        lemma_forth_back(key, which, k);
        let from = if v.connections.contains_key(key) {
            key
        } else {
            back_key(key, which, k)
        };
        assert(v.connections.contains_key(from));
        lemma_pair_key_halves(key);
        lemma_pair_key(back(pair_low(key), which, k), back(pair_high(key), which, k));
    }
}

/// After every pixel of one province got another colour, no pixel has the
/// old colour, and neither table holds it; the province of the new colour
/// has the pixels of both, with the attributes that it had or, where it
/// was not there, those of the province that was recoloured; the other
/// provinces are as they were; and the counts of the map are right.
pub proof fn lemma_repainted(v: MapView, which: u32, k: u32)
    requires
        v.wf(),
        v.provinces.contains_key(which),
        which != k,
        k < KEY_LIMIT,
    ensures
        ({
            let n = repainted(v, which, k);
            let joined = n.provinces[k];
            let one = v.provinces[which];
            &&& n.wf()
            &&& n.counts_valid()
            &&& forall|i: int| 0 <= i < n.pixels.len() ==> #[trigger] n.pixels[i] != which
            &&& !n.provinces.contains_key(which)
            &&& forall|key: u64| #[trigger]
                n.connections.contains_key(key) ==> !touches(key, which)
                    && n.connections[key].through != Some(which)
            &&& n.provinces.contains_key(k)
            &&& if v.provinces.contains_key(k) {
                let other = v.provinces[k];
                joined == other.with_pixels(
                    one.pixel_count + other.pixel_count,
                    one.sum_x + other.sum_x,
                    one.sum_y + other.sum_y,
                )
            } else {
                joined == one
            }
            &&& forall|o: u32|
                o != which && o != k ==> (#[trigger] n.provinces.contains_key(o)
                    <==> v.provinces.contains_key(o)) && (n.provinces.contains_key(o)
                    ==> n.provinces[o] == v.provinces[o])
        }),
{
    let n = repainted(v, which, k);
    let s = v.pixels;
    let w = v.width as int;
    let t = recolored(s, which, k);
    lemma_province_key(v, which);
    if v.provinces.contains_key(k) {
        let mid = v.with_connections(joined_connections(v.connections, which, k));
        lemma_joined_wf(v, which, k);
        assert(all_keys(t)) by {
            assert forall|i: int| 0 <= i < t.len() implies #[trigger] t[i] < KEY_LIMIT by {
                assert(s[i] < KEY_LIMIT);
            }
        }
        lemma_settled_wf(mid, t);
        lemma_weight_joined(s, which, k, k, unit());
        lemma_weight_joined(s, which, k, k, column(w));
        lemma_weight_joined(s, which, k, k, row(w));
        lemma_weight_joined(s, which, k, which, unit());
        assert forall|o: u32| o != which && o != k implies (#[trigger] n.provinces.contains_key(o)
            <==> v.provinces.contains_key(o)) && (n.provinces.contains_key(o) ==> n.provinces[o]
            == v.provinces[o]) by {
            lemma_weight_joined(s, which, k, o, unit());
            lemma_weight_joined(s, which, k, o, column(w));
            lemma_weight_joined(s, which, k, o, row(w));
        }
        lemma_no_orphan_connections(mid, t, which);
    } else {
        lemma_renamed_wf(v, which, k);
        assert forall|i: int| 0 <= i < s.len() implies s[i] != k by {
            if s[i] == k {
                lemma_count_positive(s, k, i);
            }
        }
        assert forall|key: u64| #[trigger] n.connections.contains_key(key) implies !touches(
            key,
            which,
        ) && n.connections[key].through != Some(which) by {
            let from = back_key(key, which, k);
            assert(v.connections.contains_key(from));
            if v.connections[from].through is Some {
                assert(v.provinces.contains_key(v.connections[from].through.unwrap()));
            }
        }
    }
    lemma_wf_counts_valid(n);
}

/// Renaming a pair key and naming it back gives the key, where the new
/// name was not in it.
pub proof fn lemma_back_forth(key: u64, which: u32, k: u32)
    requires
        is_pair_key(key),
        pair_low(key) != k,
        pair_high(key) != k,
        which < KEY_LIMIT,
        k < KEY_LIMIT,
    ensures
        is_pair_key(forth_key(key, which, k)),
        pair_low(forth_key(key, which, k)) != which || which == k,
        pair_high(forth_key(key, which, k)) != which || which == k,
        back_key(forth_key(key, which, k), which, k) == key,
{
    lemma_pair_key_halves(key);
    lemma_pair_key(forth(pair_low(key), which, k), forth(pair_high(key), which, k));
    let f = forth_key(key, which, k);
    lemma_pair_key(back(pair_low(f), which, k), back(pair_high(f), which, k));
}

/// Naming a pair key back and renaming it gives the key, where the old
/// name was not in it.
pub proof fn lemma_forth_back(key: u64, which: u32, k: u32)
    requires
        is_pair_key(key),
        pair_low(key) != which,
        pair_high(key) != which,
        which < KEY_LIMIT,
        k < KEY_LIMIT,
    ensures
        is_pair_key(back_key(key, which, k)),
        pair_low(back_key(key, which, k)) != k || which == k,
        pair_high(back_key(key, which, k)) != k || which == k,
        forth_key(back_key(key, which, k), which, k) == key,
{
    lemma_pair_key_halves(key);
    lemma_pair_key(back(pair_low(key), which, k), back(pair_high(key), which, k));
    let f = back_key(key, which, k);
    lemma_pair_key(forth(pair_low(f), which, k), forth(pair_high(f), which, k));
}

/// A well-formed map stays well-formed when a province gets a key that no
/// province had.
pub proof fn lemma_renamed_wf(v: MapView, which: u32, k: u32)
    requires
        v.wf(),
        v.provinces.contains_key(which),
        !v.provinces.contains_key(k),
        k < KEY_LIMIT,
    ensures
        renamed(v, which, k).wf(),
{
    let n = renamed(v, which, k);
    let s = v.pixels;
    let w = v.width as int;
    assert(which != k);
    assert forall|i: int| 0 <= i < s.len() implies s[i] != k by {
        if s[i] == k {
            lemma_count_positive(s, k, i);
        }
    }
    assert forall|j: u32| true implies {
        &&& (#[trigger] n.provinces.contains_key(j) <==> count_of(n.pixels, j) > 0)
        &&& n.provinces.contains_key(j) ==> {
            &&& n.provinces[j].pixel_count == count_of(n.pixels, j)
            &&& n.provinces[j].sum_x == sum_x_of(n.pixels, w, j)
            &&& n.provinces[j].sum_y == sum_y_of(n.pixels, w, j)
        }
    } by {
        lemma_weight_recolored(s, which, k, j, unit());
        lemma_weight_recolored(s, which, k, j, column(w));
        lemma_weight_recolored(s, which, k, j, row(w));
        if j != k && j != which {
            assert(v.provinces.contains_key(j) <==> count_of(s, j) > 0);
        }
    }
    assert(which < KEY_LIMIT) by {
        let i = crate::tally::lemma_count_witness(s, which);
    }
    assert forall|key: u64| #[trigger] n.connections.contains_key(key) implies {
        &&& is_pair_key(key)
        &&& n.provinces.contains_key(pair_low(key))
        &&& n.provinces.contains_key(pair_high(key))
        &&& n.connections[key].through is Some ==> n.provinces.contains_key(
            n.connections[key].through.unwrap(),
        )
    } by {
        let b = back_key(key, which, k);
        assert(v.connections.contains_key(b));
        lemma_forth_back(key, which, k);
        assert(v.provinces.contains_key(pair_low(b)));
        assert(v.provinces.contains_key(pair_high(b)));
        lemma_pair_key_halves(key);
        lemma_pair_key(back(pair_low(key), which, k), back(pair_high(key), which, k));
        if v.connections[b].through is Some {
            assert(v.provinces.contains_key(v.connections[b].through.unwrap()));
        }
    }
    assert(all_keys(n.pixels));
}

/// Two places of a raster are neighbours: one step apart in a row or in a
/// column.
pub open spec fn adjacent(width: int, len: int, i: int, j: int) -> bool {
    &&& 0 <= i < len
    &&& 0 <= j < len
    &&& (j == i + 1 && j % width != 0) || (i == j + 1 && i % width != 0) || j == i + width || i
        == j + width
}

/// A walk over pixels of one key: each place next to the one before.
pub open spec fn is_walk(s: Seq<u32>, width: int, path: Seq<int>, k: u32) -> bool {
    &&& path.len() > 0
    &&& forall|n: int| 0 <= n < path.len() ==> 0 <= #[trigger] path[n] < s.len() && s[path[n]] == k
    &&& forall|n: int|
        0 <= n < path.len() - 1 ==> adjacent(width, s.len() as int, #[trigger] path[n], path[n + 1])
}

/// Whether a walk over pixels of the key at `a` leads from `a` to `b`.
pub open spec fn connected(s: Seq<u32>, width: int, a: int, b: int) -> bool {
    exists|path: Seq<int>| #[trigger]
        is_walk(s, width, path, s[a]) && path[0] == a && path.last() == b
}

/// The raster in which the pixels connected to the place `a` have the key `c`.
pub open spec fn flooded(s: Seq<u32>, width: int, a: int, c: u32) -> Seq<u32> {
    Seq::new(s.len(), |i: int| if connected(s, width, a, i) { c } else { s[i] })
}

/// A pixel is connected to itself.
pub proof fn lemma_connected_self(s: Seq<u32>, width: int, a: int)
    requires
        0 <= a < s.len(),
    ensures
        connected(s, width, a, a),
{
    let path = seq![a];
    assert(is_walk(s, width, path, s[a]));
}

/// A neighbour of the same key as a connected pixel is connected.
pub proof fn lemma_connected_step(s: Seq<u32>, width: int, a: int, i: int, j: int)
    requires
        connected(s, width, a, i),
        adjacent(width, s.len() as int, i, j),
        s[j] == s[a],
    ensures
        connected(s, width, a, j),
{
    let path = choose|path: Seq<int>| #[trigger]
        is_walk(s, width, path, s[a]) && path[0] == a && path.last() == i;
    let longer = path.push(j);
    assert forall|n: int| 0 <= n < longer.len() - 1 implies adjacent(
        width,
        s.len() as int,
        #[trigger] longer[n],
        longer[n + 1],
    ) by {
        if n < path.len() - 1 {
            assert(longer[n] == path[n]);
            assert(longer[n + 1] == path[n + 1]);
        }
    }
    assert forall|n: int| 0 <= n < longer.len() implies 0 <= #[trigger] longer[n] < s.len()
        && s[longer[n]] == s[a] by {
        if n < path.len() {
            assert(longer[n] == path[n]);
        }
    }
    assert(is_walk(s, width, longer, s[a]));
    assert(longer[0] == path[0]);
}

/// A set of places that holds `a` and every neighbour, of the key at `a`,
/// of each of its members holds every pixel connected to `a`.
pub proof fn lemma_closed_holds_connected(
    s: Seq<u32>,
    width: int,
    a: int,
    reached: Set<int>,
    b: int,
)
    requires
        reached.contains(a),
        forall|i: int, j: int|
            reached.contains(i) && #[trigger] adjacent(width, s.len() as int, i, j) && s[j] == s[a]
                ==> reached.contains(j),
        connected(s, width, a, b),
    ensures
        reached.contains(b),
{
    let path = choose|path: Seq<int>| #[trigger]
        is_walk(s, width, path, s[a]) && path[0] == a && path.last() == b;
    lemma_walk_stays(s, width, a, reached, path, path.len() - 1);
}

proof fn lemma_walk_stays(
    s: Seq<u32>,
    width: int,
    a: int,
    reached: Set<int>,
    path: Seq<int>,
    n: int,
)
    requires
        reached.contains(a),
        forall|i: int, j: int|
            reached.contains(i) && #[trigger] adjacent(width, s.len() as int, i, j) && s[j] == s[a]
                ==> reached.contains(j),
        is_walk(s, width, path, s[a]),
        path[0] == a,
        0 <= n < path.len(),
    ensures
        reached.contains(path[n]),
    decreases n,
{
    if n > 0 {
        lemma_walk_stays(s, width, a, reached, path, n - 1);
        assert(adjacent(width, s.len() as int, path[n - 1], path[n - 1 + 1]));
    }
}

/// Whether a box is the smallest one that holds the pixels of a set of
/// places: it holds each, and each of its four edges touches one.
pub open spec fn bounds(e: crate::extents::Extents, width: int, members: Set<int>) -> bool {
    &&& forall|i: int| #[trigger]
        members.contains(i) ==> e.lower[0] <= i % width <= e.upper[0] && e.lower[1] <= i / width
            <= e.upper[1]
    &&& exists|i: int| #[trigger] members.contains(i) && i % width == e.lower[0]
    &&& exists|i: int| #[trigger] members.contains(i) && i % width == e.upper[0]
    &&& exists|i: int| #[trigger] members.contains(i) && i / width == e.lower[1]
    &&& exists|i: int| #[trigger] members.contains(i) && i / width == e.upper[1]
}

/// A set of places has one smallest box at most.
pub proof fn lemma_bounds_unique(
    e: crate::extents::Extents,
    f: crate::extents::Extents,
    width: int,
    members: Set<int>,
)
    requires
        bounds(e, width, members),
        bounds(f, width, members),
    ensures
        e == f,
{
    let a = choose|a: int| #[trigger] members.contains(a) && a % width == e.lower[0];
    let b = choose|b: int| #[trigger] members.contains(b) && b % width == e.upper[0];
    let c = choose|c: int| #[trigger] members.contains(c) && c / width == e.lower[1];
    let d = choose|d: int| #[trigger] members.contains(d) && d / width == e.upper[1];
    let a2 = choose|a: int| #[trigger] members.contains(a) && a % width == f.lower[0];
    let b2 = choose|b: int| #[trigger] members.contains(b) && b % width == f.upper[0];
    let c2 = choose|c: int| #[trigger] members.contains(c) && c / width == f.lower[1];
    let d2 = choose|d: int| #[trigger] members.contains(d) && d / width == f.upper[1];
    assert(members.contains(a) && members.contains(b) && members.contains(c) && members.contains(d));
    assert(members.contains(a2) && members.contains(b2) && members.contains(c2)
        && members.contains(d2));
    assert(e.lower =~= f.lower);
    assert(e.upper =~= f.upper);
}

/// The box of one pixel bounds the set of its place alone.
pub proof fn lemma_bounds_one(x: u32, y: u32, width: int, i: int)
    requires
        i % width == x,
        i / width == y,
    ensures
        bounds(crate::extents::Extents::spec_point([x, y]), width, set![i]),
{
    let e = crate::extents::Extents::spec_point([x, y]);
    let m = set![i];
    assert(m.contains(i));
}

/// A box that bounds a set, joined with one more pixel, bounds the set
/// with that pixel's place.
pub proof fn lemma_bounds_more(
    e: crate::extents::Extents,
    x: u32,
    y: u32,
    width: int,
    members: Set<int>,
    i: int,
)
    requires
        bounds(e, width, members),
        i % width == x,
        i / width == y,
    ensures
        bounds(
            e.spec_join(crate::extents::Extents::spec_point([x, y])),
            width,
            members.insert(i),
        ),
{
    let f = e.spec_join(crate::extents::Extents::spec_point([x, y]));
    let m = members.insert(i);
    assert(m.contains(i));
    let a = choose|a: int| #[trigger] members.contains(a) && a % width == e.lower[0];
    let b = choose|b: int| #[trigger] members.contains(b) && b % width == e.upper[0];
    let c = choose|c: int| #[trigger] members.contains(c) && c / width == e.lower[1];
    let d = choose|d: int| #[trigger] members.contains(d) && d / width == e.upper[1];
    assert(m.contains(a) && m.contains(b) && m.contains(c) && m.contains(d));
    assert(m.contains(if x < e.lower[0] { i } else { a }));
    assert(m.contains(if x > e.upper[0] { i } else { b }));
    assert(m.contains(if y < e.lower[1] { i } else { c }));
    assert(m.contains(if y > e.upper[1] { i } else { d }));
}

} // verus!
