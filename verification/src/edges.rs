//! The boundary set of a map: the pairs of neighbouring pixels of different
//! colours, each with a flag that says whether a connection exists between
//! the two provinces.
use vstd::prelude::*;
use crate::color::KEY_LIMIT;
use crate::model::{MapView, adjacent, back, back_key, forth, renamed, settled};
use crate::extents::Extents;
use crate::model::bounds;
use crate::tally::{lemma_count_positive, lemma_neighbours, lemma_place_of};
use crate::uord::{lemma_pair_key, pair_key};

verus! {

/// The base of an edge key: one more than the largest place.
pub const EDGE_BASE: u128 = 0x1_0000_0000_0000_0000;

/// The key of the pair of the places `i` and `j`, `i` the lesser.
pub open spec fn edge_key(i: int, j: int) -> u128 {
    (i * EDGE_BASE + j) as u128
}

/// The lesser place of an edge key.
pub open spec fn edge_low(key: u128) -> int {
    (key / EDGE_BASE) as int
}

/// The greater place of an edge key.
pub open spec fn edge_high(key: u128) -> int {
    (key % EDGE_BASE) as int
}

/// An edge key holds its two places.
pub proof fn lemma_edge_key(i: int, j: int)
    requires
        0 <= i < EDGE_BASE,
        0 <= j < EDGE_BASE,
    ensures
        edge_low(edge_key(i, j)) == i,
        edge_high(edge_key(i, j)) == j,
{
    assert(i * EDGE_BASE + j < EDGE_BASE * EDGE_BASE) by (nonlinear_arith)
        requires
            0 <= i < EDGE_BASE,
            0 <= j < EDGE_BASE,
    {
        assert((i + 1) * EDGE_BASE <= EDGE_BASE * EDGE_BASE);
    }
    assert(i * EDGE_BASE >= 0) by (nonlinear_arith)
        requires
            i >= 0,
    ;
    vstd::arithmetic::div_mod::lemma_fundamental_div_mod_converse(
        i * EDGE_BASE + j,
        EDGE_BASE as int,
        i,
        j,
    );
}

/// An edge key is the key of its two places.
pub proof fn lemma_edge_key_halves(key: u128)
    ensures
        edge_key(edge_low(key), edge_high(key)) == key,
        0 <= edge_low(key),
        0 <= edge_high(key) < EDGE_BASE,
{
    vstd::arithmetic::div_mod::lemma_fundamental_div_mod(key as int, EDGE_BASE as int);
    assert((EDGE_BASE as int) * (key as int / EDGE_BASE as int) == (key as int / EDGE_BASE as int)
        * EDGE_BASE) by (nonlinear_arith);
}

/// Whether a key is that of two neighbouring places of the raster, the
/// lesser first.
pub open spec fn is_edge(v: MapView, key: u128) -> bool {
    adjacent(v.width as int, v.pixels.len() as int, edge_low(key), edge_high(key)) && edge_low(key)
        < edge_high(key)
}

/// Whether the boundary set is right about the neighbours `i` and `j`: it
/// holds them exactly when their colours differ, and then flags them
/// exactly when a connection exists between the two colours.
pub open spec fn edge_right(v: MapView, b: Map<u128, bool>, i: int, j: int) -> bool {
    &&& b.contains_key(edge_key(i, j)) <==> v.pixels[i] != v.pixels[j]
    &&& v.pixels[i] != v.pixels[j] ==> b[edge_key(i, j)] == v.connections.contains_key(
        pair_key(v.pixels[i], v.pixels[j]),
    )
}

/// The boundary set holds pairs of neighbouring places only.
pub open spec fn edges_valid(v: MapView, b: Map<u128, bool>) -> bool {
    forall|key: u128| #[trigger] b.contains_key(key) ==> is_edge(v, key)
}

/// The boundary set is right about every pair of neighbours, and holds
/// nothing else.
pub open spec fn edges_exact(v: MapView, b: Map<u128, bool>) -> bool {
    &&& edges_valid(v, b)
    &&& forall|i: int, j: int|
        i < j && #[trigger] adjacent(v.width as int, v.pixels.len() as int, i, j) ==> edge_right(
            v,
            b,
            i,
            j,
        )
}

/// An exact boundary set holds a pair of neighbouring pixels exactly when
/// their colours differ, and flags it exactly when a connection exists
/// between the two colours.
pub proof fn lemma_exact_boundaries(v: MapView, b: Map<u128, bool>, i: int, j: int)
    requires
        edges_exact(v, b),
        adjacent(v.width as int, v.pixels.len() as int, i, j),
        i < j,
    ensures
        b.contains_key(edge_key(i, j)) <==> v.pixels[i] != v.pixels[j],
        b.contains_key(edge_key(i, j)) ==> (b[edge_key(i, j)] <==> v.connections.contains_key(
            pair_key(v.pixels[i], v.pixels[j]),
        )),
{
    assert(edge_right(v, b, i, j));
}

/// Of two maps with one raster and one connection table, a boundary set
/// holds the same.
pub proof fn lemma_same_raster(v: MapView, n: MapView, b: Map<u128, bool>)
    requires
        n.pixels == v.pixels,
        n.width == v.width,
        n.connections == v.connections,
    ensures
        edges_valid(v, b) == edges_valid(n, b),
        edges_exact(v, b) == edges_exact(n, b),
        edges_placed(v, b) == edges_placed(n, b),
{
    assert forall|key: u128| is_edge(v, key) == is_edge(n, key) by {}
    assert forall|i: int, j: int| edge_right(v, b, i, j) == edge_right(n, b, i, j) by {}
    if edges_valid(v, b) {
        assert forall|key: u128| #[trigger] b.contains_key(key) implies is_edge(n, key) by {
            assert(is_edge(v, key));
        }
    }
    if edges_valid(n, b) {
        assert forall|key: u128| #[trigger] b.contains_key(key) implies is_edge(v, key) by {
            assert(is_edge(n, key));
        }
    }
    if edges_exact(v, b) {
        assert forall|i: int, j: int|
            i < j && #[trigger] adjacent(n.width as int, n.pixels.len() as int, i, j) implies edge_right(
            n,
            b,
            i,
            j,
        ) by {
            assert(edge_right(v, b, i, j));
        }
    }
    if edges_exact(n, b) {
        assert forall|i: int, j: int|
            i < j && #[trigger] adjacent(v.width as int, v.pixels.len() as int, i, j) implies edge_right(
            v,
            b,
            i,
            j,
        ) by {
            assert(edge_right(n, b, i, j));
        }
    }
}

/// Whether two boundary sets hold the same under every key but one.
pub open spec fn same_except(b: Map<u128, bool>, c: Map<u128, bool>, key: u128) -> bool {
    forall|k: u128|
        k != key ==> (#[trigger] c.contains_key(k)) == b.contains_key(k) && (c.contains_key(k)
            ==> c[k] == b[k])
}

/// Whether two boundary sets hold the same of the neighbours `i` and `j`.
pub open spec fn same_at(b: Map<u128, bool>, c: Map<u128, bool>, i: int, j: int) -> bool {
    c.contains_key(edge_key(i, j)) == b.contains_key(edge_key(i, j)) && (c.contains_key(
        edge_key(i, j),
    ) ==> c[edge_key(i, j)] == b[edge_key(i, j)])
}

/// What two boundary sets agree on but for one pair of neighbours, they
/// agree on for every other pair.
pub proof fn lemma_same_except(
    v: MapView,
    b: Map<u128, bool>,
    c: Map<u128, bool>,
    a1: int,
    a2: int,
    i: int,
    j: int,
)
    requires
        same_except(b, c, edge_key(a1, a2)) || b == c,
        0 <= a1 < EDGE_BASE,
        0 <= a2 < EDGE_BASE,
        0 <= i < EDGE_BASE,
        0 <= j < EDGE_BASE,
        i != a1 || j != a2,
    ensures
        same_at(b, c, i, j),
        edge_right(v, b, i, j) == edge_right(v, c, i, j),
{
    lemma_edge_key(a1, a2);
    lemma_edge_key(i, j);
    assert(c.contains_key(edge_key(i, j)) == b.contains_key(edge_key(i, j)));
}

/// A boundary set that was exact is exact after a change of the raster,
/// where it is right about every pair of neighbours of which one changed,
/// and holds of the others what it held.
pub proof fn lemma_exact_after_settling(
    v: MapView,
    b: Map<u128, bool>,
    s: Seq<u32>,
    c: Map<u128, bool>,
)
    requires
        v.wf(),
        edges_exact(v, b),
        s.len() == v.pixels.len(),
        edges_valid(v, c),
        forall|i: int, j: int|
            i < j && #[trigger] adjacent(v.width as int, v.pixels.len() as int, i, j)
                ==> edge_right(settled(v, s), c, i, j) || (s[i] == v.pixels[i] && s[j]
                == v.pixels[j] && c.contains_key(edge_key(i, j)) == b.contains_key(edge_key(i, j))
                && (c.contains_key(edge_key(i, j)) ==> c[edge_key(i, j)] == b[edge_key(i, j)])),
    ensures
        edges_exact(settled(v, s), c),
{
    let n = settled(v, s);
    assert forall|i: int, j: int|
        i < j && #[trigger] adjacent(n.width as int, n.pixels.len() as int, i, j) implies edge_right(
        n,
        c,
        i,
        j,
    ) by {
        if !edge_right(n, c, i, j) {
            assert(edge_right(v, b, i, j));
            lemma_count_positive(s, s[i], i);
            lemma_count_positive(s, s[j], j);
            lemma_count_positive(v.pixels, s[i], i);
            lemma_count_positive(v.pixels, s[j], j);
            lemma_pair_key(s[i], s[j]);
        }
    }
    assert forall|key: u128| #[trigger] c.contains_key(key) implies is_edge(n, key) by {
        assert(is_edge(v, key));
    }
}

/// An exact boundary set stays exact when a province gets a key that no
/// province had.
pub proof fn lemma_exact_after_renaming(v: MapView, b: Map<u128, bool>, which: u32, k: u32)
    requires
        v.wf(),
        edges_exact(v, b),
        v.provinces.contains_key(which),
        !v.provinces.contains_key(k),
        k < KEY_LIMIT,
    ensures
        edges_exact(renamed(v, which, k), b),
{
    let n = renamed(v, which, k);
    let s = v.pixels;
    assert(which < KEY_LIMIT) by {
        let i = crate::tally::lemma_count_witness(s, which);
    }
    assert forall|i: int, j: int|
        i < j && #[trigger] adjacent(n.width as int, n.pixels.len() as int, i, j) implies edge_right(
        n,
        b,
        i,
        j,
    ) by {
        assert(edge_right(v, b, i, j));
        lemma_count_positive(s, s[i], i);
        lemma_count_positive(s, s[j], j);
        assert(s[i] != k && s[j] != k);
        let a = n.pixels[i];
        let c = n.pixels[j];
        assert(a == forth(s[i], which, k) && c == forth(s[j], which, k));
        lemma_pair_key(a, c);
        lemma_pair_key(s[i], s[j]);
        lemma_pair_key(back(a, which, k), back(c, which, k));
        if a != c {
            let key = pair_key(a, c);
            assert(back_key(key, which, k) == pair_key(s[i], s[j]));
        }
    }
    assert forall|key: u128| #[trigger] b.contains_key(key) implies is_edge(n, key) by {
        assert(is_edge(v, key));
    }
}

/// The places of a well-formed map are small enough for edge keys.
pub proof fn lemma_area_fits(v: MapView)
    requires
        v.wf(),
    ensures
        v.pixels.len() < EDGE_BASE,
{
    let w = v.width as int;
    let h = v.height as int;
    assert(w * h <= w * h * w) by (nonlinear_arith)
        requires
            w >= 1,
            h >= 1,
    ;
}

/// A box of positions, by its first and last column and row.
pub struct Region {
    pub x0: int,
    pub y0: int,
    pub x1: int,
    pub y1: int,
}

impl Region {
    /// Whether the place `i` of a raster of the given width lies in the box.
    pub open spec fn holds(self, i: int, width: int) -> bool {
        self.x0 <= i % width <= self.x1 && self.y0 <= i / width <= self.y1
    }
}

/// The box that is one pixel wider than `e` on each side, cut down to the
/// raster.
pub open spec fn grown(e: Extents, width: int, height: int) -> Region {
    Region {
        x0: if e.lower[0] > 0 {
            e.lower[0] - 1
        } else {
            0
        },
        y0: if e.lower[1] > 0 {
            e.lower[1] - 1
        } else {
            0
        },
        x1: if e.upper[0] + 1 < width {
            e.upper[0] + 1
        } else {
            width - 1
        },
        y1: if e.upper[1] + 1 < height {
            e.upper[1] + 1
        } else {
            height - 1
        },
    }
}

/// Whether the boundary set `c` is right about the pairs of neighbours in
/// the box whose lesser place comes before column `x` of row `y`, and
/// holds of every other pair what `b` held.
pub open spec fn scanned(
    v: MapView,
    b: Map<u128, bool>,
    c: Map<u128, bool>,
    r: Region,
    x: int,
    y: int,
) -> bool {
    let w = v.width as int;
    forall|i: int, j: int|
        i < j && #[trigger] adjacent(w, v.pixels.len() as int, i, j) ==> if r.holds(i, w)
            && r.holds(j, w) && (i / w < y || (i / w == y && i % w < x)) {
            edge_right(v, c, i, j)
        } else {
            same_at(b, c, i, j)
        }
}

/// Whether the boundary set `c` is right about the pairs of neighbours in
/// the box, and holds of every other pair what `b` held.
pub open spec fn refreshed_in(v: MapView, b: Map<u128, bool>, c: Map<u128, bool>, r: Region)
    -> bool {
    let w = v.width as int;
    &&& edges_valid(v, c)
    &&& forall|i: int, j: int|
        i < j && #[trigger] adjacent(w, v.pixels.len() as int, i, j) ==> if r.holds(i, w)
            && r.holds(j, w) {
            edge_right(v, c, i, j)
        } else {
            same_at(b, c, i, j)
        }
}

/// Whether the boundary set `c` is right about every pair of neighbours
/// of which one is at one of the positions, and holds of every other pair
/// what `b` held.
pub open spec fn refreshed_about(
    v: MapView,
    b: Map<u128, bool>,
    c: Map<u128, bool>,
    ps: Seq<crate::extents::Pos>,
) -> bool {
    let w = v.width as int;
    &&& edges_valid(v, c)
    &&& forall|i: int, j: int|
        i < j && #[trigger] adjacent(w, v.pixels.len() as int, i, j) ==> if crate::model::touched(
            ps,
            w,
            i,
        ) || crate::model::touched(ps, w, j) {
            edge_right(v, c, i, j)
        } else {
            same_at(b, c, i, j)
        }
}

/// One step of the scan: the pairs of the place `p`, in column `x` of row
/// `y`, with its right and lower neighbours.
pub proof fn lemma_scan_step(
    v: MapView,
    b: Map<u128, bool>,
    c0: Map<u128, bool>,
    c1: Map<u128, bool>,
    c2: Map<u128, bool>,
    r: Region,
    x: int,
    y: int,
)
    requires
        v.wf(),
        0 <= r.x0 <= x <= r.x1 < v.width,
        0 <= r.y0 <= y <= r.y1 < v.height,
        scanned(v, b, c0, r, x, y),
        x < r.x1 ==> same_except(c0, c1, edge_key(y * v.width + x, y * v.width + x + 1))
            && edge_right(v, c1, y * v.width + x, y * v.width + x + 1),
        !(x < r.x1) ==> c1 == c0,
        y < r.y1 ==> same_except(c1, c2, edge_key(y * v.width + x, y * v.width + x + v.width))
            && edge_right(v, c2, y * v.width + x, y * v.width + x + v.width),
        !(y < r.y1) ==> c2 == c1,
    ensures
        scanned(v, b, c2, r, x + 1, y),
{
    let w = v.width as int;
    let h = v.height as int;
    let p = y * w + x;
    crate::tally::lemma_place(x, y, w, h);
    lemma_neighbours(p, w, h);
    lemma_area_fits(v);
    assert forall|i: int, j: int|
        i < j && #[trigger] adjacent(w, v.pixels.len() as int, i, j) implies if r.holds(i, w)
        && r.holds(j, w) && (i / w < y || (i / w == y && i % w < x + 1)) {
        edge_right(v, c2, i, j)
    } else {
        same_at(b, c2, i, j)
    } by {
        lemma_place_of(i, w, h);
        lemma_place_of(j, w, h);
        lemma_neighbours(i, w, h);
        if !(i == p && j == p + 1) && x < r.x1 {
            lemma_same_except(v, c0, c1, p, p + 1, i, j);
        }
        if !(i == p && j == p + w) && y < r.y1 {
            lemma_same_except(v, c1, c2, p, p + w, i, j);
        }
    }
}

/// The scan of a row is over after its last column.
pub proof fn lemma_scan_row(
    v: MapView,
    b: Map<u128, bool>,
    c: Map<u128, bool>,
    r: Region,
    x: int,
    y: int,
)
    requires
        scanned(v, b, c, r, x, y),
        x > r.x1,
    ensures
        scanned(v, b, c, r, r.x0, y + 1),
{
}

/// An exact boundary set is exact after a change of the raster that `e`
/// bounds, once it is right about every pair of neighbours in the box
/// one pixel wider.
pub proof fn lemma_exact_after_refresh(
    v: MapView,
    b: Map<u128, bool>,
    s: Seq<u32>,
    c: Map<u128, bool>,
    e: Extents,
)
    requires
        v.wf(),
        edges_exact(v, b),
        s.len() == v.pixels.len(),
        forall|i: int|
            0 <= i < s.len() && s[i] != v.pixels[i] ==> e.lower[0] <= i % (v.width as int)
                <= e.upper[0] && e.lower[1] <= i / (v.width as int) <= e.upper[1],
        refreshed_in(settled(v, s), b, c, grown(e, v.width as int, v.height as int)),
    ensures
        edges_exact(settled(v, s), c),
{
    let w = v.width as int;
    let h = v.height as int;
    let r = grown(e, w, h);
    let n = settled(v, s);
    assert forall|i: int, j: int|
        i < j && #[trigger] adjacent(w, v.pixels.len() as int, i, j) implies edge_right(n, c, i, j)
        || (s[i] == v.pixels[i] && s[j] == v.pixels[j] && c.contains_key(edge_key(i, j))
        == b.contains_key(edge_key(i, j)) && (c.contains_key(edge_key(i, j)) ==> c[edge_key(i, j)]
        == b[edge_key(i, j)])) by {
        lemma_place_of(i, w, h);
        lemma_place_of(j, w, h);
        lemma_neighbours(i, w, h);
        assert(adjacent(n.width as int, n.pixels.len() as int, i, j));
    }
    assert forall|key: u128| #[trigger] c.contains_key(key) implies is_edge(v, key) by {
        assert(is_edge(n, key));
    }
    lemma_exact_after_settling(v, b, s, c);
}

/// Whether the boundary set holds exactly the pairs of neighbours of
/// different colours.
pub open spec fn edges_placed(v: MapView, b: Map<u128, bool>) -> bool {
    &&& edges_valid(v, b)
    &&& forall|i: int, j: int|
        i < j && #[trigger] adjacent(v.width as int, v.pixels.len() as int, i, j) ==> (
        b.contains_key(edge_key(i, j)) <==> v.pixels[i] != v.pixels[j])
}

/// Whether every pair that the boundary set holds is flagged exactly when
/// a connection exists between the colours of its two pixels.
pub open spec fn edges_flagged(v: MapView, b: Map<u128, bool>) -> bool {
    forall|key: u128| #[trigger]
        b.contains_key(key) ==> b[key] == v.connections.contains_key(
            pair_key(v.pixels[edge_low(key)], v.pixels[edge_high(key)]),
        )
}

/// A boundary set that holds the right pairs holds them whatever becomes
/// of the tables.
pub proof fn lemma_placed_after_toggle(v: MapView, n: MapView, b: Map<u128, bool>)
    requires
        edges_placed(v, b),
        n.pixels == v.pixels,
        n.width == v.width,
    ensures
        edges_placed(n, b),
{
    assert forall|key: u128| #[trigger] b.contains_key(key) implies is_edge(n, key) by {
        assert(is_edge(v, key));
    }
}

/// An exact boundary set holds the right pairs.
pub proof fn lemma_exact_placed(v: MapView, b: Map<u128, bool>)
    requires
        edges_exact(v, b),
    ensures
        edges_placed(v, b),
{
    assert forall|i: int, j: int|
        i < j && #[trigger] adjacent(v.width as int, v.pixels.len() as int, i, j) implies (
    b.contains_key(edge_key(i, j)) <==> v.pixels[i] != v.pixels[j]) by {
        assert(edge_right(v, b, i, j));
    }
}

/// A boundary set that holds the right pairs with the right flags is exact.
pub proof fn lemma_placed_flagged(v: MapView, b: Map<u128, bool>)
    requires
        v.wf(),
        edges_placed(v, b),
        edges_flagged(v, b),
    ensures
        edges_exact(v, b),
{
    assert forall|i: int, j: int|
        i < j && #[trigger] adjacent(v.width as int, v.pixels.len() as int, i, j) implies edge_right(
        v,
        b,
        i,
        j,
    ) by {
        lemma_area_fits(v);
        lemma_edge_key(i, j);
    }
}

} // verus!
