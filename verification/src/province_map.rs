//! The map: raster, tables and boundary set, and the operations that keep
//! them in line with each other.
use vstd::prelude::*;
use std::collections::HashMap;
use crate::base::MapBase;
use crate::color::{Color, color_key, color_of, key_color, key_of, lemma_key_injective};
use crate::edges::{lemma_same_raster, refreshed_about, Region, edges_flagged, edges_placed, grown, lemma_area_fits, lemma_exact_after_refresh, lemma_placed_flagged, lemma_scan_row, lemma_scan_step, refreshed_in, scanned, lemma_same_except, same_at, same_except, EDGE_BASE, edge_high, edge_key, edge_low, edge_right, edges_exact, edges_valid, is_edge, lemma_edge_key, lemma_edge_key_halves, lemma_exact_after_renaming, lemma_exact_after_settling};
use crate::extents::{Extents, Pos};
use crate::kinds::{ConnectionKind, ProvinceKind};
use crate::model::{is_remap, coastal, with_coasts, MapView, adjacent, bounds, connected, flooded, lemma_painted_touched, painted, repainted, settled, toggled, touched};
use crate::province::{ConnectionData, ProvinceData, ProvinceView};
use crate::tables::keys_u128;
use crate::tally::{lemma_place, lemma_place_of, place, recolored};
use crate::palette::{pick_colors, picked_from, KindColors};
use crate::uord::{UOrd, lemma_pair_key, pair_high, pair_key, pair_key_of, pair_low};

verus! {

/// A map of provinces: the raster, the province table and the connection
/// table, the boundary set that is derived from them, and the number of
/// ids that the map was loaded with, if ids are kept.
pub struct ProvinceMap {
    base: MapBase,
    boundaries: HashMap<u128, bool>,
    preserved_id_count: Option<u32>,
}

impl View for ProvinceMap {
    type V = MapView;

    closed spec fn view(&self) -> MapView {
        self.base@
    }
}

/// The colour of the pixel of a number in a buffer of four bytes a pixel.
pub open spec fn rgb_at(buffer: Seq<u8>, i: int) -> Color {
    [buffer[i * 4], buffer[i * 4 + 1], buffer[i * 4 + 2]]
}

impl Extents {
    /// The box of the whole raster of a map.
    pub fn new_entire_map(map: &ProvinceMap) -> (e: Extents)
        requires
            map.wf(),
        ensures
            e.lower@ == seq![0u32, 0u32],
            e.upper@ == seq![(map@.width - 1) as u32, (map@.height - 1) as u32],
            e.wf(),
    {
        Extents::new_entire(map.width(), map.height())
    }
}

/// Where the line of a connection is drawn: between the two positions
/// given for it, or else between the centres of its two provinces, each
/// given by the sum of the positions of its pixels and their number, the
/// province of the lesser colour first.
#[derive(Debug, Clone, Copy)]
pub enum ConnectionEnds {
    Given(Pos, Pos),
    Centres([u64; 2], u64, [u64; 2], u64),
}

/// The key of a listed pair of neighbouring pixels.
pub open spec fn listed_key(entry: (UOrd<Pos>, bool), width: int) -> u128 {
    edge_key(
        place(entry.0.a[0] as int, entry.0.a[1] as int, width),
        place(entry.0.b[0] as int, entry.0.b[1] as int, width),
    )
}

/// The colour of the pixel of a number in a buffer of three bytes a
/// pixel.
pub open spec fn rgb3_at(buffer: Seq<u8>, i: int) -> Color {
    [buffer[i * 3], buffer[i * 3 + 1], buffer[i * 3 + 2]]
}

/// Whether the pixel of a number in a buffer of four bytes a pixel has
/// the byte 255 behind its colour.
pub open spec fn opaque_at(buffer: Seq<u8>, i: int) -> bool {
    buffer[i * 4 + 3] == 255
}

/// Puts the four bytes of a pixel, its colour and 255, behind those of
/// the `i` pixels of a buffer.
fn push_pixel(buffer: &mut Vec<u8>, c: Color, Ghost(i): Ghost<int>)
    requires
        0 <= i,
        old(buffer)@.len() == i * 4,
    ensures
        final(buffer)@.len() == (i + 1) * 4,
        rgb_at(final(buffer)@, i) == c,
        opaque_at(final(buffer)@, i),
        forall|j: int|
            0 <= j < i ==> #[trigger] rgb_at(final(buffer)@, j) == rgb_at(old(buffer)@, j)
                && opaque_at(final(buffer)@, j) == opaque_at(old(buffer)@, j),
{
    let ghost before = buffer@;
    buffer.push(c[0]);
    buffer.push(c[1]);
    buffer.push(c[2]);
    buffer.push(0xff);
    proof {
        assert(rgb_at(buffer@, i) =~= c);
        assert forall|j: int| 0 <= j < i implies #[trigger] rgb_at(buffer@, j) == rgb_at(before, j)
            && opaque_at(buffer@, j) == opaque_at(before, j) by {
            assert(buffer@[j * 4] == before[j * 4]);
            assert(buffer@[j * 4 + 1] == before[j * 4 + 1]);
            assert(buffer@[j * 4 + 2] == before[j * 4 + 2]);
            assert(buffer@[j * 4 + 3] == before[j * 4 + 3]);
            assert(rgb_at(buffer@, j) =~= rgb_at(before, j));
        }
    }
}

/// The side of the pixel grid that lies between two neighbouring pixels:
/// its two ends, by column and row of the grid's corners.
pub fn boundary_to_line(b: UOrd<Pos>) -> (line: UOrd<Pos>)
    requires
        (b.a[0] == b.b[0] && (b.a[1] + 1 == b.b[1] || b.b[1] + 1 == b.a[1])) || (b.a[1] == b.b[1]
            && (b.a[0] + 1 == b.b[0] || b.b[0] + 1 == b.a[0])),
        b.a[0] < u32::MAX,
        b.a[1] < u32::MAX,
        b.b[0] < u32::MAX,
        b.b[1] < u32::MAX,
    ensures
        b.a[0] == b.b[0] ==> line.a@ == seq![b.a[0], crate::extents::max_u32(b.a[1], b.b[1])]
            && line.b@ == seq![(b.a[0] + 1) as u32, crate::extents::max_u32(b.a[1], b.b[1])],
        b.a[0] != b.b[0] ==> line.a@ == seq![crate::extents::max_u32(b.a[0], b.b[0]), b.a[1]]
            && line.b@ == seq![crate::extents::max_u32(b.a[0], b.b[0]), (b.a[1] + 1) as u32],
{
    if b.a[0] == b.b[0] {
        let y = if b.a[1] >= b.b[1] { b.a[1] } else { b.b[1] };
        UOrd::new([b.a[0], y], [b.a[0] + 1, y])
    } else {
        let x = if b.a[0] >= b.b[0] { b.a[0] } else { b.b[0] };
        UOrd::new([x, b.a[1]], [x, b.a[1] + 1])
    }
}

/// A colour with a byte 255 behind it.
pub fn p4(color: Color) -> (r: [u8; 4])
    ensures
        r@ == seq![color[0], color[1], color[2], 255u8],
{
    [color[0], color[1], color[2], 0xff]
}

/// Whether two boundary sets hold the same of every pair of neighbours
/// but those that the place `p` belongs to, and the second is right about
/// those.
pub open spec fn refreshed_at(v: MapView, b: Map<u128, bool>, c: Map<u128, bool>, p: int) -> bool {
    &&& edges_valid(v, c)
    &&& forall|i: int, j: int|
        i < j && #[trigger] adjacent(v.width as int, v.pixels.len() as int, i, j) ==> if i == p
            || j == p {
            edge_right(v, c, i, j)
        } else {
            c.contains_key(edge_key(i, j)) == b.contains_key(edge_key(i, j)) && (c.contains_key(
                edge_key(i, j),
            ) ==> c[edge_key(i, j)] == b[edge_key(i, j)])
        }
}

impl ProvinceMap {
    /// The boundary set: under the key of two neighbouring places, whether
    /// a connection exists between their provinces.
    pub closed spec fn boundaries(&self) -> Map<u128, bool> {
        self.boundaries@
    }

    /// The number of ids that the map was loaded with, if ids are kept.
    pub closed spec fn id_count(&self) -> Option<u32> {
        self.preserved_id_count
    }

    /// The tables agree with the raster, and the boundary set holds pairs
    /// of neighbouring pixels only.
    pub open spec fn wf(&self) -> bool {
        self@.wf() && edges_valid(self@, self.boundaries())
    }

    /// The map is well-formed and its boundary set is exact.
    pub open spec fn exact(&self) -> bool {
        self@.wf() && edges_exact(self@, self.boundaries())
    }

    /// Makes the boundary set right about the neighbours `i` and `j`.
    fn refresh_edge(&mut self, i: usize, j: usize)
        requires
            old(self).wf(),
            i < j,
            adjacent(old(self)@.width as int, old(self)@.pixels.len() as int, i as int, j as int),
        ensures
            final(self)@ == old(self)@,
            final(self).id_count() == old(self).id_count(),
            final(self).wf(),
            edge_right(final(self)@, final(self).boundaries(), i as int, j as int),
            same_except(
                old(self).boundaries(),
                final(self).boundaries(),
                edge_key(i as int, j as int),
            ),
    {
        broadcast use vstd::std_specs::hash::group_hash_axioms;

        let a = self.base.key_at_place(i);
        let c = self.base.key_at_place(j);
        let key = (i as u128) * EDGE_BASE + (j as u128);
        proof {
            lemma_edge_key(i as int, j as int);
            assert(key == edge_key(i as int, j as int));
        }
        if a != c {
            let special = self.base.has_connection(pair_key_of(a, c));
            self.boundaries.insert(key, special);
        } else {
            self.boundaries.remove(&key);
        }
    }

    /// Makes the boundary set right about the pixel at a position and each
    /// of its neighbours.
    pub fn recalculate_boundaries_at(&mut self, pos: Pos)
        requires
            old(self).wf(),
            old(self)@.has(pos[0] as int, pos[1] as int),
        ensures
            final(self)@ == old(self)@,
            final(self).id_count() == old(self).id_count(),
            final(self).wf(),
            refreshed_at(
                old(self)@,
                old(self).boundaries(),
                final(self).boundaries(),
                place(pos[0] as int, pos[1] as int, old(self)@.width as int),
            ),
    {
        let p = self.base.index(pos);
        let len = self.base.area();
        let w = self.base.width() as usize;
        let ghost v = self@;
        let ghost b0 = self.boundaries();
        if len - p > 1 && (p + 1) % w != 0 {
            self.refresh_edge(p, p + 1);
        }
        let ghost b1 = self.boundaries();
        if p >= 1 && p % w != 0 {
            self.refresh_edge((p - 1) as usize, p);
        }
        let ghost b2 = self.boundaries();
        if len - p > w {
            self.refresh_edge(p, p + w);
        }
        let ghost b3 = self.boundaries();
        if p >= w {
            self.refresh_edge((p - w) as usize, p);
        }
        proof {
            let b4 = self.boundaries();
            assert forall|i: int, j: int|
                i < j && #[trigger] adjacent(
                    v.width as int,
                    v.pixels.len() as int,
                    i,
                    j,
                ) implies if i == p || j == p {
                edge_right(v, b4, i, j)
            } else {
                b4.contains_key(edge_key(i, j)) == b0.contains_key(edge_key(i, j)) && (
                b4.contains_key(edge_key(i, j)) ==> b4[edge_key(i, j)] == b0[edge_key(i, j)])
            } by {
                let q = p as int;
                if !(i == q && j == q + 1) {
                    lemma_same_except(v, b0, b1, q, q + 1, i, j);
                }
                if !(i == q - 1 && j == q) {
                    if q >= 1 {
                        lemma_same_except(v, b1, b2, q - 1, q, i, j);
                    }
                }
                if !(i == q && j == q + w) && len - p > w {
                    lemma_same_except(v, b2, b3, q, q + w, i, j);
                }
                if !(i == q - w && j == q) {
                    if q >= w {
                        lemma_same_except(v, b3, b4, q - w, q, i, j);
                    }
                }
            }
        }
    }

    /// Makes the boundary set anew from the raster and the connections.
    pub fn recalculate_all_boundaries(&mut self)
        requires
            old(self)@.wf(),
        ensures
            final(self)@ == old(self)@,
            final(self).id_count() == old(self).id_count(),
            final(self).exact(),
    {
        self.boundaries = HashMap::new();
        let len = self.base.area();
        let w = self.base.width() as usize;
        let ghost v = self@;
        let mut p: usize = 0;
        while p < len
            invariant
                p <= len,
                len == v.pixels.len(),
                w == v.width,
                self@ == v,
                self.id_count() == old(self).id_count(),
                self.wf(),
                forall|key: u128| #[trigger]
                    self.boundaries().contains_key(key) ==> edge_low(key) < p,
                forall|i: int, j: int|
                    i < j && i < p && #[trigger] adjacent(w as int, len as int, i, j)
                        ==> edge_right(v, self.boundaries(), i, j),
            decreases len - p,
        {
            let ghost b0 = self.boundaries();
            if len - p > 1 && (p + 1) % w != 0 {
                self.refresh_edge(p, p + 1);
            }
            let ghost b1 = self.boundaries();
            if len - p > w {
                self.refresh_edge(p, p + w);
            }
            proof {
                let b2 = self.boundaries();
                if len - p > 1 {
                    lemma_edge_key(p as int, p + 1);
                }
                if len - p > w {
                    lemma_edge_key(p as int, p + w);
                }
                assert forall|key: u128| #[trigger] b2.contains_key(key) implies edge_low(key) < p
                    + 1 by {
                    if !b0.contains_key(key) {
                        assert(key == edge_key(p as int, p + 1) || key == edge_key(
                            p as int,
                            p + w,
                        ));
                    }
                }
                assert forall|i: int, j: int|
                    i < j && i < p + 1 && #[trigger] adjacent(
                        w as int,
                        len as int,
                        i,
                        j,
                    ) implies edge_right(v, b2, i, j) by {
                    let q = p as int;
                    if !(i == q && j == q + 1) {
                        lemma_same_except(v, b0, b1, q, q + 1, i, j);
                    }
                    if !(i == q && j == q + w) && len - p > w {
                        lemma_same_except(v, b1, b2, q, q + w, i, j);
                    }
                    if i < p {
                        assert(edge_right(v, b0, i, j));
                    }
                }
            }
            p += 1;
        }
    }

    /// Makes the boundary set right about every pair of neighbouring
    /// pixels in the box that is one pixel wider than `extents` on each
    /// side.
    pub fn recalculate_boundaries_extents(&mut self, extents: Extents)
        requires
            old(self).wf(),
        ensures
            final(self)@ == old(self)@,
            final(self).id_count() == old(self).id_count(),
            final(self).wf(),
            refreshed_in(
                old(self)@,
                old(self).boundaries(),
                final(self).boundaries(),
                grown(extents, old(self)@.width as int, old(self)@.height as int),
            ),
    {
        let width = self.base.width();
        let height = self.base.height();
        let x0: u32 = if extents.lower[0] > 0 { extents.lower[0] - 1 } else { 0 };
        let y0: u32 = if extents.lower[1] > 0 { extents.lower[1] - 1 } else { 0 };
        let x1: u32 = if extents.upper[0] < width - 1 { extents.upper[0] + 1 } else { width - 1 };
        let y1: u32 = if extents.upper[1] < height - 1 { extents.upper[1] + 1 } else { height - 1 };
        let ghost v = self@;
        let ghost b = self.boundaries();
        let ghost r = grown(extents, width as int, height as int);
        assert(r.x0 == x0 && r.x1 == x1 && r.y0 == y0 && r.y1 == y1);
        if x0 > x1 || y0 > y1 {
            return ;
        }
        let mut y: u32 = y0;
        while y <= y1
            invariant
                y0 <= y <= y1 + 1,
                x0 <= x1 < width,
                y1 < height,
                r == (Region { x0: x0 as int, y0: y0 as int, x1: x1 as int, y1: y1 as int }),
                v.width == width,
                v.height == height,
                self@ == v,
                self.id_count() == old(self).id_count(),
                self.wf(),
                scanned(v, b, self.boundaries(), r, x0 as int, y as int),
            decreases y1 + 1 - y,
        {
            let mut x: u32 = x0;
            while x <= x1
                invariant
                    x0 <= x <= x1 + 1,
                    y0 <= y <= y1,
                    x0 <= x1 < width,
                    y1 < height,
                    r == (Region { x0: x0 as int, y0: y0 as int, x1: x1 as int, y1: y1 as int }),
                    v.width == width,
                    v.height == height,
                    self@ == v,
                    self.id_count() == old(self).id_count(),
                    self.wf(),
                    scanned(v, b, self.boundaries(), r, x as int, y as int),
                decreases x1 + 1 - x,
            {
                let p = self.base.index([x, y]);
                let len = self.base.area();
                let ghost c0 = self.boundaries();
                proof {
                    crate::tally::lemma_neighbours(p as int, width as int, height as int);
                    lemma_place(x as int, y as int, width as int, height as int);
                    assert(p as int % width as int == x);
                    assert(p as int / width as int == y);
                    if x < x1 {
                        assert(p + 1 < len);
                    }
                    if y < y1 {
                        assert(p + width < len);
                    }
                }
                if x < x1 {
                    self.refresh_edge(p, p + 1);
                }
                let ghost c1 = self.boundaries();
                if y < y1 {
                    self.refresh_edge(p, p + width as usize);
                }
                proof {
                    lemma_scan_step(v, b, c0, c1, self.boundaries(), r, x as int, y as int);
                }
                x += 1;
            }
            proof {
                lemma_scan_row(v, b, self.boundaries(), r, x as int, y as int);
            }
            y += 1;
        }
        proof {
            let c = self.boundaries();
            let w = width as int;
            assert forall|i: int, j: int|
                i < j && #[trigger] adjacent(w, v.pixels.len() as int, i, j) implies if r.holds(i, w)
                && r.holds(j, w) {
                edge_right(v, c, i, j)
            } else {
                same_at(b, c, i, j)
            } by {}
        }
    }

    /// Makes every flag of the boundary set say whether a connection
    /// exists between the provinces of its two pixels.
    pub fn recalculate_specialness(&mut self)
        requires
            old(self).wf(),
        ensures
            final(self)@ == old(self)@,
            final(self).id_count() == old(self).id_count(),
            final(self).wf(),
            final(self).boundaries().dom() == old(self).boundaries().dom(),
            edges_flagged(final(self)@, final(self).boundaries()),
            edges_placed(old(self)@, old(self).boundaries()) ==> final(self).exact(),
    {
        broadcast use vstd::std_specs::hash::group_hash_axioms;

        let keys = keys_u128(&self.boundaries);
        let len = self.base.area();
        let ghost v = self@;
        let ghost b = self.boundaries@;
        let mut n: usize = 0;
        while n < keys.len()
            invariant
                n <= keys@.len(),
                len == v.pixels.len(),
                keys@.no_duplicates(),
                keys@.to_set() == b.dom(),
                self@ == v,
                v.wf(),
                edges_valid(v, b),
                self.id_count() == old(self).id_count(),
                self.boundaries@.dom() == b.dom(),
                forall|m: int|
                    0 <= m < n ==> self.boundaries@[#[trigger] keys@[m]] == v.connections.contains_key(
                        pair_key(v.pixels[edge_low(keys@[m])], v.pixels[edge_high(keys@[m])]),
                    ),
            decreases keys@.len() - n,
        {
            let key = keys[n];
            proof {
                assert(keys@.to_set().contains(keys@[n as int]));
                assert(b.contains_key(key));
                assert(is_edge(v, key));
                lemma_area_fits(v);
            }
            let i = (key / EDGE_BASE) as usize;
            let j = (key % EDGE_BASE) as usize;
            let a = self.base.key_at_place(i);
            let c = self.base.key_at_place(j);
            let special = self.base.has_connection(pair_key_of(a, c));
            let ghost before = self.boundaries@;
            self.boundaries.insert(key, special);
            proof {
                assert(i == edge_low(key));
                assert(j == edge_high(key));
                assert(self.boundaries@ == before.insert(key, special));
                assert(self.boundaries@.dom() =~= b.dom());
                assert forall|m: int| 0 <= m < n + 1 implies self.boundaries@[#[trigger] keys@[m]]
                    == v.connections.contains_key(
                    pair_key(v.pixels[edge_low(keys@[m])], v.pixels[edge_high(keys@[m])]),
                ) by {
                    if m < n {
                        assert(keys@[m] != keys@[n as int]);
                        assert(self.boundaries@[keys@[m]] == before[keys@[m]]);
                    } else {
                        assert(keys@[m] == key);
                    }
                }
            }
            n += 1;
        }
        proof {
            let c = self.boundaries@;
            assert forall|key: u128| #[trigger] c.contains_key(key) implies c[key]
                == v.connections.contains_key(
                pair_key(v.pixels[edge_low(key)], v.pixels[edge_high(key)]),
            ) by {
                assert(keys@.to_set().contains(key));
                let m = choose|m: int| 0 <= m < keys@.len() && keys@[m] == key;
                assert(keys@[m] == key);
            }
            assert forall|key: u128| #[trigger] c.contains_key(key) implies is_edge(v, key) by {
                assert(b.contains_key(key));
            }
            if edges_placed(v, b) {
                assert forall|i: int, j: int|
                    i < j && #[trigger] adjacent(
                        v.width as int,
                        v.pixels.len() as int,
                        i,
                        j,
                    ) implies (c.contains_key(edge_key(i, j)) <==> v.pixels[i] != v.pixels[j]) by {
                    assert(b.contains_key(edge_key(i, j)) == c.contains_key(edge_key(i, j)));
                }
                lemma_placed_flagged(v, c);
            }
        }
    }

    /// Gives the pixels connected to a position another colour: those that
    /// a walk over pixels of the colour at the position, from neighbour
    /// to neighbour, leads to. The tables are brought in line as by
    /// `put_pixel`, and the boundary set is made right about the pixels in
    /// and around the box that is returned: the smallest one that holds
    /// the pixels that changed.
    pub fn flood_fill_province(&mut self, pos: Pos, color: Color) -> (e: Extents)
        requires
            old(self).wf(),
            old(self)@.has(pos[0] as int, pos[1] as int),
            old(self)@.at(pos[0] as int, pos[1] as int) != key_of(color),
        ensures
            final(self).wf(),
            final(self).id_count() == old(self).id_count(),
            final(self)@ == settled(
                old(self)@,
                flooded(
                    old(self)@.pixels,
                    old(self)@.width as int,
                    place(pos[0] as int, pos[1] as int, old(self)@.width as int),
                    key_of(color),
                ),
            ),
            bounds(
                e,
                old(self)@.width as int,
                Set::new(
                    |i: int|
                        0 <= i < old(self)@.pixels.len() && connected(
                            old(self)@.pixels,
                            old(self)@.width as int,
                            place(pos[0] as int, pos[1] as int, old(self)@.width as int),
                            i,
                        ),
                ),
            ),
            refreshed_in(
                final(self)@,
                old(self).boundaries(),
                final(self).boundaries(),
                grown(e, old(self)@.width as int, old(self)@.height as int),
            ),
            old(self).exact() ==> final(self).exact(),
    {
        let ghost v = self@;
        let ghost b = self.boundaries();
        let ghost a = place(pos[0] as int, pos[1] as int, v.width as int);
        let ghost s = flooded(v.pixels, v.width as int, a, key_of(color));
        let e = self.base.flood(pos, color_key(color));
        proof {
            assert forall|key: u128| #[trigger] b.contains_key(key) implies is_edge(self@, key) by {
                assert(is_edge(v, key));
            }
        }
        self.recalculate_boundaries_extents(e);
        proof {
            if old(self).exact() {
                let members = Set::new(
                    |i: int| 0 <= i < v.pixels.len() && connected(v.pixels, v.width as int, a, i),
                );
                assert forall|i: int| 0 <= i < s.len() && s[i] != v.pixels[i] implies e.lower[0]
                    <= i % (v.width as int) <= e.upper[0] && e.lower[1] <= i / (v.width as int)
                    <= e.upper[1] by {
                    assert(members.contains(i));
                }
                lemma_exact_after_refresh(v, b, s, self.boundaries(), e);
            }
        }
        e
    }

    /// The positions of the pixels of a key, row by row.
    fn positions_of(&self, which: u32) -> (list: Vec<Pos>)
        requires
            self.wf(),
        ensures
            forall|n: int|
                0 <= n < list@.len() ==> self@.has((#[trigger] list@[n])[0] as int, list@[n][1] as int),
            forall|i: int|
                0 <= i < self@.pixels.len() ==> (touched(list@, self@.width as int, i)
                    <==> #[trigger] self@.pixels[i] == which),
    {
        let ghost v = self@;
        let ghost w = v.width as int;
        let area = self.base.area();
        let mut list: Vec<Pos> = Vec::new();
        let mut i: usize = 0;
        while i < area
            invariant
                i <= area,
                area == v.pixels.len(),
                self.wf(),
                v == self@,
                w == v.width as int,
                forall|n: int|
                    0 <= n < list@.len() ==> v.has((#[trigger] list@[n])[0] as int, list@[n][1] as int)
                        && place(list@[n][0] as int, list@[n][1] as int, w) < i
                        && v.pixels[place(list@[n][0] as int, list@[n][1] as int, w)] == which,
                forall|j: int| 0 <= j < i && #[trigger] v.pixels[j] == which ==> touched(list@, w, j),
            decreases area - i,
        {
            if self.base.key_at_place(i) == which {
                let pos = self.base.position(i);
                let ghost before = list@;
                list.push(pos);
                proof {
                    let n = before.len() as int;
                    assert(list@[n] == pos);
                    assert forall|j: int| 0 <= j < i + 1 && #[trigger] v.pixels[j] == which implies touched(
                        list@,
                        w,
                        j,
                    ) by {
                        if j < i {
                            let m = choose|m: int|
                                0 <= m < before.len() && place(
                                    (#[trigger] before[m])[0] as int,
                                    before[m][1] as int,
                                    w,
                                ) == j;
                            assert(list@[m] == before[m]);
                        } else {
                            assert(place(list@[n][0] as int, list@[n][1] as int, w) == j);
                        }
                    }
                }
            }
            i += 1;
        }
        proof {
            assert forall|j: int| 0 <= j < v.pixels.len() implies (touched(list@, w, j)
                <==> #[trigger] v.pixels[j] == which) by {
                if touched(list@, w, j) {
                    let m = choose|m: int|
                        0 <= m < list@.len() && place(
                            (#[trigger] list@[m])[0] as int,
                            list@[m][1] as int,
                            w,
                        ) == j;
                    assert(v.pixels[j] == which);
                }
            }
        }
        list
    }

    /// Gives every pixel of one province another colour. Where no
    /// province has the new colour, the province, its connections and the
    /// connections that pass through it are held under the new colour, and
    /// the boundary set stays as it is. Where a province has it, the two
    /// become one: the pixels go to that province, which keeps its
    /// attributes; the connections of the one become connections of the
    /// other, but for the one between the two and for those that the other
    /// has already; and the boundary set is made anew. Returns the
    /// smallest box that holds the pixels that changed.
    pub fn recolor_province(&mut self, which: Color, color: Color) -> (e: Extents)
        requires
            old(self).wf(),
            old(self)@.provinces.contains_key(key_of(which)),
            which != color,
        ensures
            final(self).wf(),
            final(self).id_count() == old(self).id_count(),
            final(self)@ == repainted(old(self)@, key_of(which), key_of(color)),
            !old(self)@.provinces.contains_key(key_of(color)) ==> final(self).boundaries() == old(
                self,
            ).boundaries(),
            old(self)@.provinces.contains_key(key_of(color)) ==> final(self).exact(),
            bounds(
                e,
                old(self)@.width as int,
                MapBase::places_of(old(self)@.pixels, key_of(which)),
            ),
            old(self).exact() ==> final(self).exact(),
    {
        let ghost v = self@;
        let ghost b = self.boundaries();
        proof {
            if key_of(which) == key_of(color) {
                lemma_key_injective(which, color);
            }
        }
        if self.has_province(color) {
            let e = self.base.key_bounds(color_key(which));
            let list = self.positions_of(color_key(which));
            self.base.merge_connections(color_key(which), color_key(color));
            proof {
                assert forall|key: u128| #[trigger] b.contains_key(key) implies is_edge(self@, key) by {
                    assert(is_edge(v, key));
                }
            }
            self.put_many_pixels(color, &list);
            self.recalculate_all_boundaries();
            proof {
                let w = v.width as int;
                let s = painted(v.pixels, w, list@, key_of(color));
                let t = recolored(v.pixels, key_of(which), key_of(color));
                lemma_area_fits(v);
                assert forall|n: int| 0 <= n < list@.len() implies 0 <= place(
                    (#[trigger] list@[n])[0] as int,
                    list@[n][1] as int,
                    w,
                ) < v.pixels.len() by {
                    lemma_place(list@[n][0] as int, list@[n][1] as int, w, v.height as int);
                }
                assert forall|i: int| 0 <= i < v.pixels.len() implies s[i] == t[i] by {
                    lemma_painted_touched(v.pixels, w, list@, key_of(color), i);
                }
                if v.pixels.len() > 0 {
                    lemma_painted_touched(v.pixels, w, list@, key_of(color), 0);
                } else {
                    assert(list@.len() == 0) by {
                        if list@.len() > 0 {
                            assert(v.has(list@[0][0] as int, list@[0][1] as int));
                            lemma_place(list@[0][0] as int, list@[0][1] as int, w, v.height as int);
                        }
                    }
                }
                assert(s =~= t);
            }
            e
        } else {
            let e = self.base.recolor(color_key(which), color_key(color));
            proof {
                assert forall|key: u128| #[trigger] b.contains_key(key) implies is_edge(self@, key) by {
                    assert(is_edge(v, key));
                }
                if old(self).exact() {
                    lemma_exact_after_renaming(v, b, key_of(which), key_of(color));
                }
            }
            e
        }
    }

    /// Gives every pixel of one province another colour, as
    /// `recolor_province` does, where that can be done. It is refused, and
    /// the map stays as it is, where the two colours are the same or no
    /// province has the old one.
    pub fn recolor_province_checked(&mut self, which: Color, color: Color) -> (r: Option<Extents>)
        requires
            old(self).wf(),
        ensures
            final(self).wf(),
            r is Some <==> which != color && old(self)@.provinces.contains_key(key_of(which)),
            r is None ==> *final(self) == *old(self),
            r is Some ==> {
                &&& final(self).id_count() == old(self).id_count()
                &&& final(self)@ == repainted(old(self)@, key_of(which), key_of(color))
                &&& bounds(
                    r.unwrap(),
                    old(self)@.width as int,
                    MapBase::places_of(old(self)@.pixels, key_of(which)),
                )
                &&& old(self).exact() ==> final(self).exact()
            },
    {
        if !crate::color::same_color(which, color) && self.has_province(which) {
            Some(self.recolor_province(which, color))
        } else {
            None
        }
    }

    /// Gives the pixels connected to a position another colour, as
    /// `flood_fill_province` does, where that can be done. It is refused,
    /// and the map stays as it is, where the position is not on the raster
    /// or its pixel has the colour already.
    pub fn flood_fill_province_checked(&mut self, pos: Pos, color: Color) -> (r: Option<Extents>)
        requires
            old(self).wf(),
        ensures
            final(self).wf(),
            r is Some <==> old(self)@.has(pos[0] as int, pos[1] as int) && old(self)@.at(
                pos[0] as int,
                pos[1] as int,
            ) != key_of(color),
            r is None ==> *final(self) == *old(self),
            r is Some ==> {
                &&& final(self).id_count() == old(self).id_count()
                &&& final(self)@ == settled(
                    old(self)@,
                    flooded(
                        old(self)@.pixels,
                        old(self)@.width as int,
                        place(pos[0] as int, pos[1] as int, old(self)@.width as int),
                        key_of(color),
                    ),
                )
                &&& bounds(
                    r.unwrap(),
                    old(self)@.width as int,
                    Set::new(
                        |i: int|
                            0 <= i < old(self)@.pixels.len() && connected(
                                old(self)@.pixels,
                                old(self)@.width as int,
                                place(pos[0] as int, pos[1] as int, old(self)@.width as int),
                                i,
                            ),
                    ),
                )
                &&& old(self).exact() ==> final(self).exact()
            },
    {
        if pos[0] < self.base.width() && pos[1] < self.base.height() {
            let at = self.get_color_at(pos);
            proof {
                crate::color::lemma_key_round_trip(at);
                if key_of(at) == key_of(color) {
                    lemma_key_injective(at, color);
                }
            }
            if !crate::color::same_color(at, color) {
                return Some(self.flood_fill_province(pos, color));
            }
        }
        None
    }

    /// The smallest box that holds the pixels of a province.
    pub fn get_color_extents(&self, which: Color) -> (e: Extents)
        requires
            self.wf(),
            self@.provinces.contains_key(key_of(which)),
        ensures
            bounds(e, self@.width as int, MapBase::places_of(self@.pixels, key_of(which))),
    {
        self.base.key_bounds(color_key(which))
    }

    /// Sets the pixels at the given positions to one colour. The tables
    /// are brought in line with the raster that results, so that a
    /// province is in the table afterwards exactly when it has a pixel
    /// then, with the attributes that it had before. The boundary set is
    /// kept right about each of the pixels and its neighbours.
    pub fn put_many_pixels(&mut self, color: Color, pixels: &Vec<Pos>)
        requires
            old(self).wf(),
            forall|n: int|
                0 <= n < pixels@.len() ==> old(self)@.has(
                    (#[trigger] pixels@[n])[0] as int,
                    pixels@[n][1] as int,
                ),
        ensures
            final(self).wf(),
            final(self).id_count() == old(self).id_count(),
            final(self)@ == settled(
                old(self)@,
                painted(old(self)@.pixels, old(self)@.width as int, pixels@, key_of(color)),
            ),
            refreshed_about(final(self)@, old(self).boundaries(), final(self).boundaries(), pixels@),
            old(self).exact() ==> final(self).exact(),
    {
        let ghost v = self@;
        let ghost b = self.boundaries();
        let ghost w = v.width as int;
        let ghost s = painted(v.pixels, w, pixels@, key_of(color));
        self.base.paint_many(pixels, color_key(color));
        let ghost n = self@;
        proof {
            assert forall|key: u128| #[trigger] b.contains_key(key) implies is_edge(n, key) by {
                assert(is_edge(v, key));
            }
        }
        let mut m: usize = 0;
        while m < pixels.len()
            invariant
                m <= pixels@.len(),
                self@ == n,
                n == settled(v, s),
                w == v.width as int,
                v.wf(),
                self.wf(),
                self.id_count() == old(self).id_count(),
                forall|q: int|
                    0 <= q < pixels@.len() ==> v.has(
                        (#[trigger] pixels@[q])[0] as int,
                        pixels@[q][1] as int,
                    ),
                forall|i: int, j: int|
                    i < j && #[trigger] adjacent(w, n.pixels.len() as int, i, j) ==> if touched(
                        pixels@.take(m as int),
                        w,
                        i,
                    ) || touched(pixels@.take(m as int), w, j) {
                        edge_right(n, self.boundaries(), i, j)
                    } else {
                        same_at(b, self.boundaries(), i, j)
                    },
            decreases pixels@.len() - m,
        {
            let pos = pixels[m];
            let ghost c0 = self.boundaries();
            let ghost p = place(pos[0] as int, pos[1] as int, w);
            proof {
                assert(v.has(pixels@[m as int][0] as int, pixels@[m as int][1] as int));
            }
            self.recalculate_boundaries_at(pos);
            proof {
                let c1 = self.boundaries();
                let before = pixels@.take(m as int);
                let after = pixels@.take(m as int + 1);
                assert(after[m as int] == pos);
                assert forall|i: int| touched(after, w, i) <==> touched(before, w, i) || i
                    == p by {
                    if touched(before, w, i) {
                        let q = choose|q: int|
                            0 <= q < before.len() && place(
                                (#[trigger] before[q])[0] as int,
                                before[q][1] as int,
                                w,
                            ) == i;
                        assert(after[q] == before[q]);
                    }
                    if touched(after, w, i) {
                        let q = choose|q: int|
                            0 <= q < after.len() && place(
                                (#[trigger] after[q])[0] as int,
                                after[q][1] as int,
                                w,
                            ) == i;
                        if q < m {
                            assert(before[q] == after[q]);
                        }
                    }
                }
                assert forall|i: int, j: int|
                    i < j && #[trigger] adjacent(w, n.pixels.len() as int, i, j) implies if touched(
                    after,
                    w,
                    i,
                ) || touched(after, w, j) {
                    edge_right(n, c1, i, j)
                } else {
                    same_at(b, c1, i, j)
                } by {
                    assert(touched(after, w, i) <==> touched(before, w, i) || i == p);
                    assert(touched(after, w, j) <==> touched(before, w, j) || j == p);
                }
            }
            m += 1;
        }
        proof {
            assert(pixels@.take(pixels@.len() as int) =~= pixels@);
            assert(refreshed_about(n, b, self.boundaries(), pixels@));
            if old(self).exact() {
                let c = self.boundaries();
                assert forall|q: int| 0 <= q < pixels@.len() implies 0 <= place(
                    (#[trigger] pixels@[q])[0] as int,
                    pixels@[q][1] as int,
                    w,
                ) < v.pixels.len() by {
                    lemma_place(pixels@[q][0] as int, pixels@[q][1] as int, w, v.height as int);
                }
                assert forall|i: int, j: int|
                    i < j && #[trigger] adjacent(
                        w,
                        v.pixels.len() as int,
                        i,
                        j,
                    ) implies edge_right(n, c, i, j) || (s[i] == v.pixels[i] && s[j] == v.pixels[j]
                    && c.contains_key(edge_key(i, j)) == b.contains_key(edge_key(i, j)) && (
                c.contains_key(edge_key(i, j)) ==> c[edge_key(i, j)] == b[edge_key(i, j)])) by {
                    lemma_painted_touched(v.pixels, w, pixels@, key_of(color), i);
                    lemma_painted_touched(v.pixels, w, pixels@, key_of(color), j);
                }
                assert forall|key: u128| #[trigger] c.contains_key(key) implies is_edge(v, key) by {
                    assert(is_edge(n, key));
                }
                assert(n.pixels == s);
                assert(s.len() == v.pixels.len());
                lemma_exact_after_settling(v, b, s, c);
            }
        }
    }

    /// Enters a connection of a kind between two provinces, changes the
    /// kind of the one that is there, or removes it if it is of this
    /// kind. The flags of the boundary set are left as they are.
    pub fn add_or_remove_connection(&mut self, rel: UOrd<Color>, kind: ConnectionKind)
        requires
            old(self).wf(),
            old(self)@.provinces.contains_key(key_of(rel.a)),
            old(self)@.provinces.contains_key(key_of(rel.b)),
        ensures
            final(self).wf(),
            final(self).id_count() == old(self).id_count(),
            final(self).boundaries() == old(self).boundaries(),
            final(self)@ == old(self)@.with_connections(
                toggled(old(self)@.connections, rel.spec_key(), kind),
            ),
    {
        let ghost v = self@;
        let ghost b = self.boundaries();
        let key = rel.key();
        proof {
            crate::color::lemma_key_round_trip(rel.a);
            crate::color::lemma_key_round_trip(rel.b);
            lemma_pair_key(key_of(rel.a), key_of(rel.b));
        }
        self.base.toggle_connection(key, kind);
        proof {
            assert forall|k: u128| #[trigger] b.contains_key(k) implies is_edge(self@, k) by {
                assert(is_edge(v, k));
            }
        }
    }

    /// A copy of the raster and the tables.
    pub fn snapshot(&self) -> (r: MapBase)
        ensures
            r@ == self@,
    {
        self.base.copy()
    }

    /// Puts a raster with its tables in place of what the map holds, and
    /// makes the boundary set anew.
    pub fn restore(&mut self, base: &MapBase)
        requires
            base.wf(),
        ensures
            final(self)@ == base@,
            final(self).id_count() == old(self).id_count(),
            final(self).exact(),
    {
        self.base = base.copy();
        self.recalculate_all_boundaries();
    }

    pub fn dimensions(&self) -> (d: Pos)
        ensures
            d[0] == self@.width,
            d[1] == self@.height,
    {
        [self.base.width(), self.base.height()]
    }

    pub fn width(&self) -> (w: u32)
        ensures
            w == self@.width,
    {
        self.base.width()
    }

    pub fn height(&self) -> (h: u32)
        ensures
            h == self@.height,
    {
        self.base.height()
    }

    pub fn provinces_count(&self) -> (n: usize)
        ensures
            n == self@.provinces.len(),
    {
        self.base.provinces_count()
    }

    pub fn connections_count(&self) -> (n: usize)
        ensures
            n == self@.connections.len(),
    {
        self.base.connections_count()
    }

    /// The number of ids that the map was loaded with, if ids are kept.
    pub fn preserved_id_count(&self) -> (n: Option<u32>)
        ensures
            n == self.id_count(),
    {
        self.preserved_id_count
    }

    /// Says with how many ids the map was loaded, or that ids are not kept.
    pub fn set_preserved_id_count(&mut self, count: Option<u32>)
        ensures
            final(self)@ == old(self)@,
            final(self).boundaries() == old(self).boundaries(),
            final(self).id_count() == count,
    {
        self.preserved_id_count = count;
    }

    /// The colour of the pixel at a position of the raster.
    pub fn get_color_at(&self, pos: Pos) -> (c: Color)
        requires
            self.wf(),
            self@.has(pos[0] as int, pos[1] as int),
        ensures
            key_of(c) == self@.at(pos[0] as int, pos[1] as int),
            self@.provinces.contains_key(key_of(c)),
    {
        key_color(self.base.key_at(pos))
    }

    /// Whether a province has this colour.
    pub fn has_province(&self, color: Color) -> (r: bool)
        ensures
            r == self@.provinces.contains_key(key_of(color)),
    {
        self.base.has_province(color_key(color))
    }

    /// The province of a colour.
    pub fn get_province(&self, color: Color) -> (d: &ProvinceData)
        requires
            self@.provinces.contains_key(key_of(color)),
        ensures
            d@ == self@.provinces[key_of(color)],
    {
        self.base.province(color_key(color))
    }

    /// The province that the pixel at a position belongs to.
    pub fn get_province_at(&self, pos: Pos) -> (d: &ProvinceData)
        requires
            self.wf(),
            self@.has(pos[0] as int, pos[1] as int),
        ensures
            d@ == self@.provinces[self@.at(pos[0] as int, pos[1] as int)],
    {
        self.base.province(self.base.key_at(pos))
    }

    /// Whether a connection exists between two colours.
    pub fn has_connection(&self, rel: UOrd<Color>) -> (r: bool)
        ensures
            r == self@.connections.contains_key(rel.spec_key()),
    {
        self.base.has_connection(rel.key())
    }

    /// The connection between two colours.
    pub fn get_connection(&self, rel: UOrd<Color>) -> (c: &ConnectionData)
        requires
            self@.connections.contains_key(rel.spec_key()),
        ensures
            c@ == self@.connections[rel.spec_key()],
    {
        self.base.connection(rel.key())
    }

    /// The raster and the tables.
    pub fn base(&self) -> (b: &MapBase)
        ensures
            b@ == self@,
    {
        &self.base
    }

    /// Gives the province of a colour another kind, terrain and continent.
    pub fn set_province_meta(
        &mut self,
        which: Color,
        kind: ProvinceKind,
        terrain: String,
        continent: u16,
    )
        requires
            old(self).wf(),
            old(self)@.provinces.contains_key(key_of(which)),
        ensures
            final(self).wf(),
            final(self).id_count() == old(self).id_count(),
            final(self).boundaries() == old(self).boundaries(),
            final(self)@ == old(self)@.with_province(
                key_of(which),
                (ProvinceView {
                    kind,
                    terrain: terrain@,
                    continent,
                    ..old(self)@.provinces[key_of(which)]
                }),
            ),
            old(self).exact() ==> final(self).exact(),
    {
        let ghost v = self@;
        self.base.set_meta(color_key(which), kind, terrain, continent);
        proof {
            lemma_same_raster(v, self@, self.boundaries());
        }
    }

    /// Gives the province of a colour another continent.
    pub fn set_province_continent(&mut self, which: Color, continent: u16)
        requires
            old(self).wf(),
            old(self)@.provinces.contains_key(key_of(which)),
        ensures
            final(self).wf(),
            final(self).id_count() == old(self).id_count(),
            final(self).boundaries() == old(self).boundaries(),
            final(self)@ == old(self)@.with_province(
                key_of(which),
                (ProvinceView { continent, ..old(self)@.provinces[key_of(which)] }),
            ),
            old(self).exact() ==> final(self).exact(),
    {
        let ghost v = self@;
        self.base.set_continent(color_key(which), continent);
        proof {
            lemma_same_raster(v, self@, self.boundaries());
        }
    }

    /// Gives the province of a colour the id under which it is saved.
    pub fn set_province_id(&mut self, which: Color, id: Option<u32>)
        requires
            old(self).wf(),
            old(self)@.provinces.contains_key(key_of(which)),
        ensures
            final(self).wf(),
            final(self).id_count() == old(self).id_count(),
            final(self).boundaries() == old(self).boundaries(),
            final(self)@ == old(self)@.with_province(
                key_of(which),
                (ProvinceView { preserved_id: id, ..old(self)@.provinces[key_of(which)] }),
            ),
            old(self).exact() ==> final(self).exact(),
    {
        let ghost v = self@;
        self.base.set_preserved_id(color_key(which), id);
        proof {
            lemma_same_raster(v, self@, self.boundaries());
        }
    }

    /// Counts the pixels of each colour anew and holds the counts of the
    /// province table against them.
    pub fn validate_pixel_counts(&self) -> (r: bool)
        ensures
            r == self@.counts_valid(),
            self.wf() ==> r,
    {
        self.base.validate_pixel_counts()
    }

    /// Says of each province whether it is coastal: whether one of its
    /// pixels lies next to a pixel of another province, of the two
    /// provinces one being land and the other sea. The result holds every
    /// province by the key of its colour; nothing is changed.
    pub fn calculate_coastal_provinces(&self) -> (r: HashMap<u32, Option<bool>>)
        requires
            self.wf(),
        ensures
            r@.dom() == self@.provinces.dom(),
            forall|k: u32| #[trigger] r@.contains_key(k) ==> r@[k] == Some(coastal(self@, k)),
    {
        self.base.calculate_coastal_provinces()
    }

    /// Says of every province whether it is coastal, as the table that
    /// `calculate_coastal_provinces` made says.
    pub fn apply_coastal(&mut self, table: &HashMap<u32, Option<bool>>)
        requires
            old(self).wf(),
            table@.dom() == old(self)@.provinces.dom(),
            forall|k: u32| #[trigger]
                table@.contains_key(k) ==> table@[k] == Some(coastal(old(self)@, k)),
        ensures
            final(self).wf(),
            final(self).id_count() == old(self).id_count(),
            final(self).boundaries() == old(self).boundaries(),
            final(self)@ == (MapView { provinces: with_coasts(old(self)@), ..old(self)@ }),
            old(self).exact() ==> final(self).exact(),
    {
        let ghost v = self@;
        self.base.apply_coastal(table);
        proof {
            lemma_same_raster(v, self@, self.boundaries());
        }
    }

    /// Whether the kind of some province is unknown.
    pub fn has_unknown_provinces(&self) -> (r: bool)
        ensures
            r == exists|k: u32| #[trigger]
                self@.provinces.contains_key(k) && self@.provinces[k].kind
                    == ProvinceKind::Unknown,
    {
        self.base.has_unknown_provinces()
    }

    /// Gives a province the attributes of another entry; its pixels stay.
    pub fn set_province_attributes(&mut self, which: Color, attributes: ProvinceData)
        requires
            old(self).wf(),
            old(self)@.provinces.contains_key(key_of(which)),
        ensures
            final(self).wf(),
            final(self).id_count() == old(self).id_count(),
            final(self).boundaries() == old(self).boundaries(),
            final(self)@ == old(self)@.with_province(
                key_of(which),
                attributes@.with_pixels(
                    old(self)@.provinces[key_of(which)].pixel_count,
                    old(self)@.provinces[key_of(which)].sum_x,
                    old(self)@.provinces[key_of(which)].sum_y,
                ),
            ),
            old(self).exact() ==> final(self).exact(),
    {
        let ghost v = self@;
        self.base.set_attributes(color_key(which), attributes);
        proof {
            lemma_same_raster(v, self@, self.boundaries());
        }
    }

    /// Enters a connection between two provinces, in place of the one that
    /// may be there. The flags of the boundary set are left as they are.
    pub fn put_connection(&mut self, rel: UOrd<Color>, c: ConnectionData)
        requires
            old(self).wf(),
            old(self)@.provinces.contains_key(key_of(rel.a)),
            old(self)@.provinces.contains_key(key_of(rel.b)),
            c@.through is Some ==> old(self)@.provinces.contains_key(c@.through.unwrap()),
        ensures
            final(self).wf(),
            final(self).id_count() == old(self).id_count(),
            final(self).boundaries() == old(self).boundaries(),
            final(self)@ == old(self)@.with_connections(
                old(self)@.connections.insert(rel.spec_key(), c@),
            ),
    {
        let ghost v = self@;
        let ghost b = self.boundaries();
        let key = rel.key();
        proof {
            crate::color::lemma_key_round_trip(rel.a);
            crate::color::lemma_key_round_trip(rel.b);
            lemma_pair_key(key_of(rel.a), key_of(rel.b));
        }
        self.base.put_connection(key, c);
        proof {
            assert forall|k: u128| #[trigger] b.contains_key(k) implies is_edge(self@, k) by {
                assert(is_edge(v, k));
            }
        }
    }

    /// Gives every province another colour: to each the next of the
    /// colours for its kind that is not black, stands in the list of no
    /// other kind and was not taken by a province before it; which
    /// province comes before which is not said. Returns the new key of
    /// each old key, or nothing, leaving the map as it is, where the
    /// colours for a kind are fewer than its provinces.
    pub fn recolor_everything(&mut self, colors: &KindColors) -> (r: Option<HashMap<u32, u32>>)
        requires
            old(self).wf(),
        ensures
            final(self).wf(),
            final(self).id_count() == old(self).id_count(),
            r is Some <==> colors.enough_for(old(self)@),
            r is None ==> *final(self) == *old(self),
            r is Some ==> {
                let f = r.unwrap()@;
                &&& final(self).exact()
                &&& is_remap(old(self)@, final(self)@, f)
                &&& picked_from(old(self)@, f, *colors)
            },
    {
        match pick_colors(&self.base, colors) {
            Some(replacement) => {
                self.base.relabel(&replacement);
                self.recalculate_all_boundaries();
                Some(replacement)
            },
            None => None,
        }
    }

    /// The buffer from which the map is drawn: for each pixel of the
    /// raster, row by row, the three bytes of the colour that `f` gives for
    /// its colour, and one byte 255.
    pub fn gen_texture_buffer<F: Fn(Color) -> Color>(&self, f: F) -> (buffer: Vec<u8>)
        requires
            self.wf(),
            self@.pixels.len() * 4 <= usize::MAX,
            forall|k: u32| #[trigger]
                self@.provinces.contains_key(k) ==> call_requires(f, (color_of(k),)),
        ensures
            buffer@.len() == self@.pixels.len() * 4,
            forall|i: int|
                0 <= i < self@.pixels.len() ==> call_ensures(
                    f,
                    (color_of(#[trigger] self@.pixels[i]),),
                    rgb_at(buffer@, i),
                ) && opaque_at(buffer@, i),
    {
        let len = self.base.area();
        let mut buffer: Vec<u8> = Vec::new();
        let mut i: usize = 0;
        while i < len
            invariant
                i <= len,
                len == self@.pixels.len(),
                len * 4 <= usize::MAX,
                self.wf(),
                buffer@.len() == i * 4,
                forall|k: u32| #[trigger]
                    self@.provinces.contains_key(k) ==> call_requires(f, (color_of(k),)),
                forall|j: int|
                    0 <= j < i ==> call_ensures(
                        f,
                        (color_of(#[trigger] self@.pixels[j]),),
                        rgb_at(buffer@, j),
                    ) && opaque_at(buffer@, j),
            decreases len - i,
        {
            let k = self.base.key_at_place(i);
            let c = f(key_color(k));
            let ghost before = buffer@;
            push_pixel(&mut buffer, c, Ghost(i as int));
            proof {
                assert forall|j: int| 0 <= j < i + 1 implies call_ensures(
                    f,
                    (color_of(#[trigger] self@.pixels[j]),),
                    rgb_at(buffer@, j),
                ) && opaque_at(buffer@, j) by {
                    if j < i {
                        assert(rgb_at(buffer@, j) == rgb_at(before, j));
                        assert(call_ensures(f, (color_of(self@.pixels[j]),), rgb_at(before, j)));
                        assert(opaque_at(before, j));
                    }
                }
            }
            i += 1;
        }
        buffer
    }

    /// The buffer from which a part of the map is drawn: for each pixel
    /// of the box, row by row, the three bytes of the colour that `f`
    /// gives for its colour, and one byte 255.
    pub fn gen_texture_buffer_selective<F: Fn(Color) -> Color>(&self, extents: Extents, f: F) -> (buffer:
        Vec<u8>)
        requires
            self.wf(),
            extents.wf(),
            self@.has(extents.upper[0] as int, extents.upper[1] as int),
            self@.pixels.len() * 4 <= usize::MAX,
            forall|k: u32| #[trigger]
                self@.provinces.contains_key(k) ==> call_requires(f, (color_of(k),)),
        ensures
            buffer@.len() == (extents.upper[0] - extents.lower[0] + 1) * (extents.upper[1]
                - extents.lower[1] + 1) * 4,
            forall|x: int, y: int|
                extents.lower[0] <= x <= extents.upper[0] && extents.lower[1] <= y
                    <= extents.upper[1] ==> call_ensures(
                    f,
                    (color_of(self@.at(x, y)),),
                    #[trigger] rgb_at(
                        buffer@,
                        place(
                            x - extents.lower[0],
                            y - extents.lower[1],
                            extents.upper[0] - extents.lower[0] + 1,
                        ),
                    ),
                ) && opaque_at(
                    buffer@,
                    place(
                        x - extents.lower[0],
                        y - extents.lower[1],
                        extents.upper[0] - extents.lower[0] + 1,
                    ),
                ),
    {
        let colors = self.extract(extents);
        let ghost bw = extents.upper[0] - extents.lower[0] + 1;
        let ghost bh = extents.upper[1] - extents.lower[1] + 1;
        proof {
            assert(bw * bh <= self@.width * self@.height) by (nonlinear_arith)
                requires
                    0 < bw <= self@.width,
                    0 < bh <= self@.height,
            ;
            assert forall|n: int| 0 <= n < colors@.len() implies self@.provinces.contains_key(
                key_of(#[trigger] colors@[n]),
            ) by {
                lemma_place_of(n, bw, bh);
                let x = extents.lower[0] + n % bw;
                let y = extents.lower[1] + n / bw;
                assert(key_of(colors@[place(x - extents.lower[0], y - extents.lower[1], bw)])
                    == self@.at(x, y));
                lemma_place(x, y, self@.width as int, self@.height as int);
                crate::tally::lemma_count_positive(
                    self@.pixels,
                    self@.at(x, y),
                    place(x, y, self@.width as int),
                );
            }
        }
        let mut buffer: Vec<u8> = Vec::new();
        let mut i: usize = 0;
        while i < colors.len()
            invariant
                i <= colors@.len(),
                colors@.len() * 4 <= usize::MAX,
                buffer@.len() == i * 4,
                forall|n: int|
                    0 <= n < colors@.len() ==> self@.provinces.contains_key(
                        key_of(#[trigger] colors@[n]),
                    ),
                forall|k: u32| #[trigger]
                    self@.provinces.contains_key(k) ==> call_requires(f, (color_of(k),)),
                forall|j: int|
                    0 <= j < i ==> call_ensures(f, (colors@[j],), #[trigger] rgb_at(buffer@, j))
                        && opaque_at(buffer@, j),
            decreases colors@.len() - i,
        {
            let color = colors[i];
            proof {
                crate::color::lemma_key_round_trip(color);
                assert(self@.provinces.contains_key(key_of(colors@[i as int])));
            }
            let c = f(color);
            let ghost before = buffer@;
            push_pixel(&mut buffer, c, Ghost(i as int));
            proof {
                assert forall|j: int| 0 <= j < i + 1 implies call_ensures(
                    f,
                    (colors@[j],),
                    #[trigger] rgb_at(buffer@, j),
                ) && opaque_at(buffer@, j) by {
                    if j < i {
                        assert(rgb_at(buffer@, j) == rgb_at(before, j));
                        assert(call_ensures(f, (colors@[j],), rgb_at(before, j)));
                        assert(opaque_at(before, j));
                    }
                }
            }
            i += 1;
        }
        proof {
            assert forall|x: int, y: int|
                extents.lower[0] <= x <= extents.upper[0] && extents.lower[1] <= y
                    <= extents.upper[1] implies call_ensures(
                f,
                (color_of(self@.at(x, y)),),
                #[trigger] rgb_at(buffer@, place(x - extents.lower[0], y - extents.lower[1], bw)),
            ) && opaque_at(buffer@, place(x - extents.lower[0], y - extents.lower[1], bw)) by {
                let n = place(x - extents.lower[0], y - extents.lower[1], bw);
                lemma_place(x - extents.lower[0], y - extents.lower[1], bw, bh);
                assert(key_of(colors@[n]) == self@.at(x, y));
                crate::color::lemma_key_round_trip(colors@[n]);
            }
        }
        buffer
    }

    /// The buffer of a picture of the map: for each pixel of the raster,
    /// row by row, the three bytes of the colour that `f` gives for its
    /// colour. There is none where `f` gives none for a pixel.
    pub fn gen_image_buffer<F: Fn(Color) -> Option<Color>>(&self, f: F) -> (r: Option<Vec<u8>>)
        requires
            self.wf(),
            self@.pixels.len() * 3 <= usize::MAX,
            forall|k: u32| #[trigger]
                self@.provinces.contains_key(k) ==> call_requires(f, (color_of(k),)),
        ensures
            match r {
                Some(buffer) => buffer@.len() == self@.pixels.len() * 3 && forall|i: int|
                    0 <= i < self@.pixels.len() ==> call_ensures(
                        f,
                        (color_of(self@.pixels[i]),),
                        Some(#[trigger] rgb3_at(buffer@, i)),
                    ),
                None => exists|i: int|
                    0 <= i < self@.pixels.len() && call_ensures(
                        f,
                        (color_of(#[trigger] self@.pixels[i]),),
                        None,
                    ),
            },
    {
        let len = self.base.area();
        let mut buffer: Vec<u8> = Vec::new();
        let mut i: usize = 0;
        while i < len
            invariant
                i <= len,
                len == self@.pixels.len(),
                len * 3 <= usize::MAX,
                self.wf(),
                buffer@.len() == i * 3,
                forall|k: u32| #[trigger]
                    self@.provinces.contains_key(k) ==> call_requires(f, (color_of(k),)),
                forall|j: int|
                    0 <= j < i ==> call_ensures(
                        f,
                        (color_of(self@.pixels[j]),),
                        Some(#[trigger] rgb3_at(buffer@, j)),
                    ),
            decreases len - i,
        {
            let k = self.base.key_at_place(i);
            let c = match f(key_color(k)) {
                Some(c) => c,
                None => {
                    return None;
                },
            };
            let ghost before = buffer@;
            buffer.push(c[0]);
            buffer.push(c[1]);
            buffer.push(c[2]);
            proof {
                assert forall|j: int| 0 <= j < i + 1 implies call_ensures(
                    f,
                    (color_of(self@.pixels[j]),),
                    Some(#[trigger] rgb3_at(buffer@, j)),
                ) by {
                    if j < i {
                        assert(rgb3_at(buffer@, j) =~= rgb3_at(before, j));
                        assert(call_ensures(
                            f,
                            (color_of(self@.pixels[j]),),
                            Some(rgb3_at(before, j)),
                        ));
                    } else {
                        assert(rgb3_at(buffer@, j) =~= c);
                    }
                }
            }
            i += 1;
        }
        Some(buffer)
    }

    /// The part of the raster in a box: its colours, row by row.
    pub fn extract(&self, extents: Extents) -> (colors: Vec<Color>)
        requires
            self.wf(),
            extents.wf(),
            self@.has(extents.upper[0] as int, extents.upper[1] as int),
        ensures
            colors@.len() == (extents.upper[0] - extents.lower[0] + 1) * (extents.upper[1]
                - extents.lower[1] + 1),
            forall|x: int, y: int|
                extents.lower[0] <= x <= extents.upper[0] && extents.lower[1] <= y
                    <= extents.upper[1] ==> key_of(
                    #[trigger] colors@[place(
                        x - extents.lower[0],
                        y - extents.lower[1],
                        extents.upper[0] - extents.lower[0] + 1,
                    )],
                ) == self@.at(x, y),
    {
        let x0 = extents.lower[0];
        let y0 = extents.lower[1];
        let x1 = extents.upper[0];
        let y1 = extents.upper[1];
        let ghost bw = x1 - x0 + 1;
        let ghost bh = y1 - y0 + 1;
        let mut colors: Vec<Color> = Vec::new();
        let mut y: u32 = y0;
        proof {
            assert(0 * bw == 0) by (nonlinear_arith);
        }
        while y <= y1
            invariant
                y0 <= y <= y1 + 1,
                x0 <= x1,
                bw == x1 - x0 + 1,
                bh == y1 - y0 + 1,
                self.wf(),
                self@.has(x1 as int, y1 as int),
                colors@.len() == (y - y0) * bw,
                forall|a: int, b: int|
                    x0 <= a <= x1 && y0 <= b < y ==> key_of(
                        #[trigger] colors@[place(a - x0, b - y0, bw)],
                    ) == self@.at(a, b),
            decreases y1 + 1 - y,
        {
            let mut x: u32 = x0;
            while x <= x1
                invariant
                    x0 <= x <= x1 + 1,
                    y0 <= y <= y1,
                    bw == x1 - x0 + 1,
                    bh == y1 - y0 + 1,
                    self.wf(),
                    self@.has(x1 as int, y1 as int),
                    colors@.len() == (y - y0) * bw + (x - x0),
                    forall|a: int, b: int|
                        x0 <= a <= x1 && y0 <= b < y ==> key_of(
                            #[trigger] colors@[place(a - x0, b - y0, bw)],
                        ) == self@.at(a, b),
                    forall|a: int|
                        x0 <= a < x ==> key_of(#[trigger] colors@[place(a - x0, y - y0, bw)])
                            == self@.at(a, y as int),
                decreases x1 + 1 - x,
            {
                let ghost before = colors@;
                colors.push(self.get_color_at([x, y]));
                proof {
                    assert(place(x - x0, y - y0, bw) == before.len());
                    assert forall|a: int, b: int| x0 <= a <= x1 && y0 <= b < y implies key_of(
                        #[trigger] colors@[place(a - x0, b - y0, bw)],
                    ) == self@.at(a, b) by {
                        lemma_place(a - x0, b - y0, bw, (y - y0) as int);
                        assert(bw * (y - y0) == (y - y0) * bw) by (nonlinear_arith);
                        assert(colors@[place(a - x0, b - y0, bw)] == before[place(
                            a - x0,
                            b - y0,
                            bw,
                        )]);
                    }
                    assert forall|a: int| x0 <= a < x + 1 implies key_of(
                        #[trigger] colors@[place(a - x0, y - y0, bw)],
                    ) == self@.at(a, y as int) by {
                        if a < x {
                            assert(place(a - x0, y - y0, bw) < before.len());
                            assert(colors@[place(a - x0, y - y0, bw)] == before[place(
                                a - x0,
                                y - y0,
                                bw,
                            )]);
                        }
                    }
                }
                x += 1;
            }
            proof {
                assert((y - y0) * bw + bw == (y + 1 - y0) * bw) by (nonlinear_arith);
            }
            y += 1;
        }
        proof {
            assert((y - y0) * bw == bw * bh) by (nonlinear_arith)
                requires
                    y - y0 == bh,
            ;
        }
        colors
    }

    /// The provinces with their colours, in no particular order.
    pub fn iter_province_data(&self) -> (list: Vec<(Color, ProvinceData)>)
        requires
            self.wf(),
        ensures
            list@.len() == self@.provinces.len(),
            forall|i: int|
                0 <= i < list@.len() ==> self@.provinces.contains_key(key_of((#[trigger] list@[i]).0))
                    && list@[i].1@ == self@.provinces[key_of(list@[i].0)],
            forall|k: u32| #[trigger]
                self@.provinces.contains_key(k) ==> exists|i: int|
                    0 <= i < list@.len() && key_of((#[trigger] list@[i]).0) == k,
    {
        let keys = self.base.province_keys();
        let mut list: Vec<(Color, ProvinceData)> = Vec::new();
        let mut n: usize = 0;
        proof {
            keys@.unique_seq_to_set();
        }
        while n < keys.len()
            invariant
                n <= keys@.len(),
                self.wf(),
                keys@.to_set() == self@.provinces.dom(),
                list@.len() == n,
                forall|i: int|
                    0 <= i < n ==> key_of((#[trigger] list@[i]).0) == keys@[i] && list@[i].1@
                        == self@.provinces[keys@[i]],
            decreases keys@.len() - n,
        {
            let k = keys[n];
            proof {
                assert(keys@.to_set().contains(keys@[n as int]));
                crate::model::lemma_province_key(self@, k);
            }
            let d = self.base.province(k);
            list.push(
                (
                    key_color(k),
                    ProvinceData {
                        preserved_id: d.preserved_id,
                        kind: d.kind,
                        terrain: d.terrain.clone(),
                        continent: d.continent,
                        coastal: d.coastal,
                        pixel_count: d.pixel_count,
                        pixel_sum: d.pixel_sum,
                    },
                ),
            );
            n += 1;
        }
        proof {
            assert forall|i: int| 0 <= i < list@.len() implies self@.provinces.contains_key(
                key_of((#[trigger] list@[i]).0),
            ) by {
                assert(keys@.to_set().contains(keys@[i]));
            }
            assert forall|k: u32| #[trigger] self@.provinces.contains_key(k) implies exists|i: int|
                0 <= i < list@.len() && key_of((#[trigger] list@[i]).0) == k by {
                assert(keys@.to_set().contains(k));
                let m = choose|m: int| 0 <= m < keys@.len() && keys@[m] == k;
                assert(key_of(list@[m].0) == k);
            }
        }
        list
    }

    /// The pairs of the boundary set with their flags, in no particular
    /// order: each pair of neighbouring pixels by their two positions.
    pub fn iter_boundaries(&self) -> (list: Vec<(UOrd<Pos>, bool)>)
        requires
            self.wf(),
        ensures
            list@.len() == self.boundaries().len(),
            forall|i: int|
                0 <= i < list@.len() ==> {
                    let key = listed_key(#[trigger] list@[i], self@.width as int);
                    self.boundaries().contains_key(key) && self.boundaries()[key] == list@[i].1
                },
            forall|key: u128| #[trigger]
                self.boundaries().contains_key(key) ==> exists|i: int|
                    0 <= i < list@.len() && listed_key(#[trigger] list@[i], self@.width as int)
                        == key,
    {
        broadcast use vstd::std_specs::hash::group_hash_axioms;

        let keys = keys_u128(&self.boundaries);
        let len = self.base.area();
        let mut list: Vec<(UOrd<Pos>, bool)> = Vec::new();
        let mut n: usize = 0;
        proof {
            keys@.unique_seq_to_set();
        }
        while n < keys.len()
            invariant
                n <= keys@.len(),
                self.wf(),
                len == self@.pixels.len(),
                keys@.to_set() == self.boundaries@.dom(),
                list@.len() == n,
                forall|i: int|
                    0 <= i < n ==> listed_key(#[trigger] list@[i], self@.width as int) == keys@[i]
                        && self.boundaries@[keys@[i]] == list@[i].1,
            decreases keys@.len() - n,
        {
            let key = keys[n];
            proof {
                assert(keys@.to_set().contains(keys@[n as int]));
                assert(self.boundaries@.contains_key(key));
                assert(is_edge(self@, key));
                lemma_edge_key_halves(key);
            }
            let i = (key / EDGE_BASE) as usize;
            let j = (key % EDGE_BASE) as usize;
            let flag = match self.boundaries.get(&key) {
                Some(flag) => *flag,
                None => false,
            };
            list.push((UOrd::new(self.base.position(i), self.base.position(j)), flag));
            n += 1;
        }
        proof {
            assert forall|i: int| 0 <= i < list@.len() implies self.boundaries().contains_key(
                listed_key(#[trigger] list@[i], self@.width as int),
            ) by {
                assert(keys@.to_set().contains(keys@[i]));
            }
            assert forall|key: u128| #[trigger] self.boundaries().contains_key(key) implies exists|
                i: int,
            | 0 <= i < list@.len() && listed_key(#[trigger] list@[i], self@.width as int) == key by {
                assert(keys@.to_set().contains(key));
                let m = choose|m: int| 0 <= m < keys@.len() && keys@[m] == key;
                assert(listed_key(list@[m], self@.width as int) == key);
            }
        }
        list
    }

    /// The colour in which the side between two neighbouring pixels is
    /// drawn: the opposite of the mean of their two colours.
    pub fn boundary_color(&self, b: UOrd<Pos>) -> (c: Color)
        requires
            self.wf(),
            self@.has(b.a[0] as int, b.a[1] as int),
            self@.has(b.b[0] as int, b.b[1] as int),
        ensures
            forall|n: int|
                0 <= n < 3 ==> #[trigger] c[n] == 255 - color_of(
                    self@.at(b.a[0] as int, b.a[1] as int),
                )[n] / 2 - color_of(self@.at(b.b[0] as int, b.b[1] as int))[n] / 2,
    {
        let b1 = self.get_color_at(b.a);
        let b2 = self.get_color_at(b.b);
        proof {
            crate::color::lemma_key_round_trip(b1);
            crate::color::lemma_key_round_trip(b2);
        }
        [0xff - b1[0] / 2 - b2[0] / 2, 0xff - b1[1] / 2 - b2[1] / 2, 0xff - b1[2] / 2 - b2[2] / 2]
    }

    /// Where the line of the connection between two colours is drawn.
    pub fn get_connection_positions(&self, rel: UOrd<Color>) -> (r: ConnectionEnds)
        requires
            self.wf(),
            self@.connections.contains_key(rel.spec_key()),
        ensures
            ({
                let c = self@.connections[rel.spec_key()];
                let a = self@.provinces[pair_low(rel.spec_key())];
                let b = self@.provinces[pair_high(rel.spec_key())];
                match r {
                    ConnectionEnds::Given(start, stop) => c.start == Some(start) && c.stop
                        == Some(stop),
                    ConnectionEnds::Centres(sum_a, count_a, sum_b, count_b) => {
                        &&& c.start is None || c.stop is None
                        &&& count_a == a.pixel_count && sum_a[0] == a.sum_x && sum_a[1] == a.sum_y
                        &&& count_b == b.pixel_count && sum_b[0] == b.sum_x && sum_b[1] == b.sum_y
                        &&& count_a > 0 && count_b > 0
                    },
                }
            }),
    {
        let connection = self.get_connection(rel);
        match (connection.start, connection.stop) {
            (Some(start), Some(stop)) => ConnectionEnds::Given(start, stop),
            _ => {
                proof {
                    crate::color::lemma_key_round_trip(rel.a);
                    crate::color::lemma_key_round_trip(rel.b);
                    lemma_pair_key(key_of(rel.a), key_of(rel.b));
                    assert(self@.provinces.contains_key(pair_low(rel.spec_key())));
                    assert(self@.provinces.contains_key(pair_high(rel.spec_key())));
                }
                let (first, second) = rel.into_tuple();
                let a = self.get_province(first);
                let b = self.get_province(second);
                ConnectionEnds::Centres(a.pixel_sum, a.pixel_count, b.pixel_sum, b.pixel_count)
            },
        }
    }

    /// The connections with their pairs of colours, in no particular
    /// order.
    pub fn iter_connection_data(&self) -> (list: Vec<(UOrd<Color>, ConnectionData)>)
        requires
            self.wf(),
        ensures
            list@.len() == self@.connections.len(),
            forall|i: int|
                0 <= i < list@.len() ==> self@.connections.contains_key(
                    (#[trigger] list@[i]).0.spec_key(),
                ) && list@[i].1@ == self@.connections[list@[i].0.spec_key()],
            forall|key: u64| #[trigger]
                self@.connections.contains_key(key) ==> exists|i: int|
                    0 <= i < list@.len() && (#[trigger] list@[i]).0.spec_key() == key,
    {
        let keys = self.base.connection_keys();
        let mut list: Vec<(UOrd<Color>, ConnectionData)> = Vec::new();
        let mut n: usize = 0;
        proof {
            keys@.unique_seq_to_set();
        }
        while n < keys.len()
            invariant
                n <= keys@.len(),
                self.wf(),
                keys@.to_set() == self@.connections.dom(),
                list@.len() == n,
                forall|i: int|
                    0 <= i < n ==> (#[trigger] list@[i]).0.spec_key() == keys@[i] && list@[i].1@
                        == self@.connections[keys@[i]],
            decreases keys@.len() - n,
        {
            let key = keys[n];
            proof {
                assert(keys@.to_set().contains(keys@[n as int]));
                assert(self@.connections.contains_key(key));
                crate::uord::lemma_pair_key_halves(key);
            }
            let (low, high) = crate::uord::pair_key_halves(key);
            let c = self.base.connection(key);
            list.push(
                (
                    UOrd::new(key_color(low), key_color(high)),
                    ConnectionData {
                        kind: c.kind,
                        through: c.through,
                        start: c.start,
                        stop: c.stop,
                        rule_name: c.rule_name.clone(),
                        comment: c.comment.clone(),
                    },
                ),
            );
            n += 1;
        }
        proof {
            assert forall|i: int| 0 <= i < list@.len() implies self@.connections.contains_key(
                (#[trigger] list@[i]).0.spec_key(),
            ) by {
                assert(keys@.to_set().contains(keys@[i]));
            }
            assert forall|key: u64| #[trigger] self@.connections.contains_key(key) implies exists|i: int|
                0 <= i < list@.len() && (#[trigger] list@[i]).0.spec_key() == key by {
                assert(keys@.to_set().contains(key));
                let m = choose|m: int| 0 <= m < keys@.len() && keys@[m] == key;
                assert(list@[m].0.spec_key() == key);
            }
        }
        list
    }

    /// The map of a raster, given row by row, with a province for each of
    /// its colours, of which nothing is known yet, and no connection. There
    /// is none where the raster is empty or too large for the counters, or
    /// where the colours are not as many as the size asks.
    pub fn new(width: u32, height: u32, colors: &Vec<Color>) -> (r: Option<ProvinceMap>)
        ensures
            r is Some <==> crate::model::size_fits(width, height) && colors@.len() == width
                * height,
            r is Some ==> r.unwrap().exact() && r.unwrap()@ == settled(
                crate::base::bare_view(width, height, crate::base::keys_of(colors@)),
                crate::base::keys_of(colors@),
            ) && r.unwrap().id_count() is None,
    {
        match MapBase::new(width, height, colors) {
            Some(base) => {
                let mut map = ProvinceMap { base, boundaries: HashMap::new(), preserved_id_count: None };
                map.recalculate_all_boundaries();
                Some(map)
            },
            None => None,
        }
    }

    /// Sets one pixel. The province of the new colour gains the pixel, and
    /// is entered, with nothing known of it, if it was not there; the
    /// province of the old colour loses it, and leaves the table with its
    /// connections when it has no pixel left. The boundary set is kept
    /// right about the pixel and its neighbours.
    pub fn put_pixel(&mut self, pos: Pos, color: Color)
        requires
            old(self).wf(),
            old(self)@.has(pos[0] as int, pos[1] as int),
        ensures
            final(self).wf(),
            final(self).id_count() == old(self).id_count(),
            final(self)@ == settled(
                old(self)@,
                old(self)@.pixels.update(
                    place(pos[0] as int, pos[1] as int, old(self)@.width as int),
                    key_of(color),
                ),
            ),
            refreshed_at(
                final(self)@,
                old(self).boundaries(),
                final(self).boundaries(),
                place(pos[0] as int, pos[1] as int, old(self)@.width as int),
            ),
            old(self).exact() ==> final(self).exact(),
    {
        let ghost v = self@;
        let ghost b = self.boundaries();
        let ghost p = place(pos[0] as int, pos[1] as int, v.width as int);
        let ghost s = v.pixels.update(p, key_of(color));
        self.base.paint(pos, color_key(color));
        proof {
            assert forall|key: u128| #[trigger] b.contains_key(key) implies is_edge(self@, key) by {
                assert(is_edge(v, key));
            }
        }
        self.recalculate_boundaries_at(pos);
        proof {
            if old(self).exact() {
                lemma_place(pos[0] as int, pos[1] as int, v.width as int, v.height as int);
                let c = self.boundaries();
                assert forall|key: u128| #[trigger] c.contains_key(key) implies is_edge(v, key) by {
                    assert(is_edge(self@, key));
                }
                lemma_exact_after_settling(v, b, s, c);
            }
        }
    }
}

} // verus!
