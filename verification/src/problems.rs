//! The analysis of a map: the findings that a user should look at.
use vstd::prelude::*;
use vstd::string::StringExecFns;
use std::collections::HashMap;
use crate::base::MapBase;
use crate::bundle::Bundle;
use crate::color::{Color, color_text, key_color, stringify_color};
use crate::text::{decimal, decimal_string, str_le, text_le};

use crate::extents::{Extents, Pos};
use crate::model::{MapView, adjacent, bounds, lemma_bounds_more, lemma_bounds_one, lemma_bounds_unique};
use crate::tables::{keys_u64};
use crate::tally::count_of;
use crate::uord::{is_pair_key, lemma_pair_key_halves, pair_key_halves, pair_key_of};
use crate::color::KEY_LIMIT;
use crate::tally::{lemma_place, place};
use crate::uord::{UOrd, pair_key};

verus! {

/// A finding of the analysis.
#[derive(Debug, Clone)]
pub enum Problem {
    /// Four pixels around a corner, at the position given, of which those
    /// across are of one colour and those side by side are not.
    InvalidXCrossing(Pos),
    /// A province whose box is wider or higher than an eighth of the map.
    TooLargeBox(Extents),
    /// A province of eight pixels or fewer: their number, and the sum of
    /// their positions.
    TooFewPixels(u64, [u64; 2]),
    /// The width of the map is no multiple of 64.
    InvalidWidth,
    /// The height of the map is no multiple of 64.
    InvalidHeight,
    /// A pixel none of whose neighbours has its colour.
    LonePixel(Pos),
    /// Two provinces with few pairs of neighbouring pixels between them:
    /// their colours, and the pairs.
    FewSharedBorders(UOrd<Color>, Vec<UOrd<Pos>>),
}

/// A finding as a value: positions by column and row, colours by key,
/// pairs of pixels by their two places, the lesser first.
pub enum Finding {
    InvalidXCrossing(int, int),
    TooLargeBox(Extents),
    TooFewPixels(nat, nat, nat),
    InvalidWidth,
    InvalidHeight,
    LonePixel(int, int),
    FewSharedBorders(u64, Seq<(int, int)>),
}

/// The place of a position in a raster of the given width.
pub open spec fn place_of(p: Pos, width: int) -> int {
    place(p[0] as int, p[1] as int, width)
}

/// The pairs of places of a list of pairs of positions, the lesser place
/// first.
pub open spec fn border_places(borders: Seq<UOrd<Pos>>, width: int) -> Seq<(int, int)> {
    Seq::new(
        borders.len(),
        |i: int| (place_of(borders[i].a, width), place_of(borders[i].b, width)),
    )
}

impl Problem {
    /// This finding as a value, on a raster of the given width.
    pub open spec fn finding(self, width: int) -> Finding {
        match self {
            Problem::InvalidXCrossing(p) => Finding::InvalidXCrossing(p[0] as int, p[1] as int),
            Problem::TooLargeBox(e) => Finding::TooLargeBox(e),
            Problem::TooFewPixels(n, sum) => Finding::TooFewPixels(
                n as nat,
                sum[0] as nat,
                sum[1] as nat,
            ),
            Problem::InvalidWidth => Finding::InvalidWidth,
            Problem::InvalidHeight => Finding::InvalidHeight,
            Problem::LonePixel(p) => Finding::LonePixel(p[0] as int, p[1] as int),
            Problem::FewSharedBorders(rel, borders) => Finding::FewSharedBorders(
                rel.spec_key(),
                border_places(borders@, width),
            ),
        }
    }
}

/// The text of a position: `[x, y]`.
pub open spec fn pos_text(x: nat, y: nat) -> Seq<char> {
    "["@ + decimal(x) + ", "@ + decimal(y) + "]"@
}

/// The text of a position.
pub fn stringify_pos(x: u64, y: u64) -> (s: String)
    ensures
        s@ == pos_text(x as nat, y as nat),
{
    let mut s = String::from_str("[");
    s.append(decimal_string(x).as_str());
    s.append(", ");
    s.append(decimal_string(y).as_str());
    s.append("]");
    s
}

/// The whole number nearest to a quotient; of two that are as near, the
/// even one.
pub open spec fn rounded(sum: nat, count: nat) -> nat {
    let q = sum / count;
    let r = sum % count;
    if 2 * r > count || (2 * r == count && q % 2 == 1) {
        q + 1
    } else {
        q
    }
}

/// The whole number nearest to a quotient; of two that are as near, the
/// even one.
pub fn round_div(sum: u64, count: u64) -> (r: u64)
    requires
        0 < count <= 8,
    ensures
        r == rounded(sum as nat, count as nat),
{
    let q = sum / count;
    let r = sum % count;
    if 2 * r > count || (2 * r == count && q % 2 == 1) {
        assert(count >= 2);
        assert(q <= u64::MAX / 2) by (nonlinear_arith)
            requires
                q == sum / count,
                count >= 2,
                sum <= u64::MAX,
        ;
        q + 1
    } else {
        q
    }
}

impl Problem {
    /// What is said of a finding.
    pub open spec fn text(self) -> Seq<char> {
        match self {
            Problem::InvalidXCrossing(p) => "Invalid X crossing at "@ + pos_text(
                p[0] as nat,
                p[1] as nat,
            ),
            Problem::TooLargeBox(e) => "Province has too large box from "@ + pos_text(
                e.upper[0] as nat,
                e.upper[1] as nat,
            ) + " to "@ + pos_text(e.lower[0] as nat, e.lower[1] as nat),
            Problem::TooFewPixels(n, sum) => "Province has only "@ + decimal(n as nat)
                + " pixels around "@ + pos_text(
                rounded(sum[0] as nat, n as nat),
                rounded(sum[1] as nat, n as nat),
            ),
            Problem::InvalidWidth => "Map texture width is not a multiple of 64"@,
            Problem::InvalidHeight => "Map texture height is not a multiple of 64"@,
            Problem::LonePixel(p) => "Lone pixel at "@ + pos_text(p[0] as nat, p[1] as nat),
            Problem::FewSharedBorders(rel, borders) => {
                let a = color_text(rel.a);
                let b = color_text(rel.b);
                "Only "@ + decimal(borders@.len()) + " shared borders between provinces "@ + (
                if text_le(a, b) {
                    a
                } else {
                    b
                }) + " and "@ + (if text_le(a, b) {
                    b
                } else {
                    a
                })
            },
        }
    }

    /// What is said of a finding. The centre of a province of few pixels
    /// is given in whole numbers; the two colours of a pair in the order
    /// of their texts.
    pub fn to_string(&self) -> (s: String)
        requires
            match *self {
                Problem::TooFewPixels(n, _) => 0 < n <= 8,
                _ => true,
            },
        ensures
            s@ == self.text(),
    {
        match self {
            Problem::InvalidXCrossing(p) => {
                let mut s = String::from_str("Invalid X crossing at ");
                s.append(stringify_pos(p[0] as u64, p[1] as u64).as_str());
                s
            },
            Problem::TooLargeBox(e) => {
                let mut s = String::from_str("Province has too large box from ");
                s.append(stringify_pos(e.upper[0] as u64, e.upper[1] as u64).as_str());
                s.append(" to ");
                s.append(stringify_pos(e.lower[0] as u64, e.lower[1] as u64).as_str());
                s
            },
            Problem::TooFewPixels(n, sum) => {
                let mut s = String::from_str("Province has only ");
                s.append(decimal_string(*n).as_str());
                s.append(" pixels around ");
                s.append(stringify_pos(round_div(sum[0], *n), round_div(sum[1], *n)).as_str());
                s
            },
            Problem::InvalidWidth => String::from_str("Map texture width is not a multiple of 64"),
            Problem::InvalidHeight => String::from_str(
                "Map texture height is not a multiple of 64",
            ),
            Problem::LonePixel(p) => {
                let mut s = String::from_str("Lone pixel at ");
                s.append(stringify_pos(p[0] as u64, p[1] as u64).as_str());
                s
            },
            Problem::FewSharedBorders(rel, borders) => {
                let a = stringify_color(rel.a);
                let b = stringify_color(rel.b);
                let first_is_a = str_le(a.as_str(), b.as_str());
                let mut s = String::from_str("Only ");
                s.append(decimal_string(borders.len() as u64).as_str());
                s.append(" shared borders between provinces ");
                if first_is_a {
                    s.append(a.as_str());
                    s.append(" and ");
                    s.append(b.as_str());
                } else {
                    s.append(b.as_str());
                    s.append(" and ");
                    s.append(a.as_str());
                }
                s
            },
        }
    }
}

/// The findings of a list, as values.
pub open spec fn findings(problems: Seq<Problem>, width: int) -> Seq<Finding> {
    Seq::new(problems.len(), |i: int| problems[i].finding(width))
}

/// Whether the four pixels around the corner below and to the right of a
/// pixel make a crossing: those across are of one colour, those side by
/// side are not. Behind the last column comes the first.
pub open spec fn crossing(v: MapView, x: int, y: int) -> bool {
    let x1 = if x + 1 == v.width {
        0
    } else {
        x + 1
    };
    &&& v.at(x, y) == v.at(x1, y + 1)
    &&& v.at(x1, y) == v.at(x, y + 1)
    &&& v.at(x, y) != v.at(x1, y)
}

/// The crossings at the first `n` places of the raster, in their order:
/// each at the position of its corner.
pub open spec fn crossings_before(v: MapView, n: int) -> Seq<Finding>
    decreases n,
{
    if n <= 0 {
        Seq::empty()
    } else {
        let w = v.width as int;
        let x = (n - 1) % w;
        let y = (n - 1) / w;
        if crossing(v, x, y) {
            crossings_before(v, n - 1).push(Finding::InvalidXCrossing((x + 1) % w, y + 1))
        } else {
            crossings_before(v, n - 1)
        }
    }
}

/// The crossings of the raster: those of every place but the last row's.
pub open spec fn crossings(v: MapView) -> Seq<Finding> {
    crossings_before(v, v.width * (v.height - 1))
}

/// Whether no neighbour of the pixel at a place has its colour.
pub open spec fn lone(v: MapView, i: int) -> bool {
    forall|j: int| #[trigger]
        adjacent(v.width as int, v.pixels.len() as int, i, j) ==> v.pixels[j] != v.pixels[i]
}

/// The lone pixels at the first `n` places of the raster, in their order.
pub open spec fn lone_before(v: MapView, n: int) -> Seq<Finding>
    decreases n,
{
    if n <= 0 {
        Seq::empty()
    } else {
        let w = v.width as int;
        if lone(v, n - 1) {
            lone_before(v, n - 1).push(Finding::LonePixel((n - 1) % w, (n - 1) / w))
        } else {
            lone_before(v, n - 1)
        }
    }
}

/// The findings on the size of the raster.
pub open spec fn size_findings(v: MapView) -> Seq<Finding> {
    let a: Seq<Finding> = if v.width % 64 != 0 {
        seq![Finding::InvalidWidth]
    } else {
        Seq::empty()
    };
    if v.height % 64 != 0 {
        a.push(Finding::InvalidHeight)
    } else {
        a
    }
}

/// Whether the four pixels around the corner below and to the right of
/// the pixel at a position make a crossing.
pub fn is_crossing_at(base: &MapBase, pos: Pos) -> (r: bool)
    requires
        base.wf(),
        pos[0] < base@.width,
        pos[1] + 1 < base@.height,
    ensures
        r == crossing(base@, pos[0] as int, pos[1] as int),
{
    let x0 = pos[0];
    let y0 = pos[1];
    let x1 = if x0 + 1 == base.width() { 0 } else { x0 + 1 };
    let y1 = y0 + 1;
    let a = base.key_at([x0, y0]);
    let b = base.key_at([x1, y0]);
    let c = base.key_at([x0, y1]);
    let d = base.key_at([x1, y1]);
    a == d && b == c && a != b
}

/// The crossings of the raster, in the order of their places.
pub fn find_crossings(base: &MapBase) -> (out: Vec<Problem>)
    requires
        base.wf(),
    ensures
        findings(out@, base@.width as int) == crossings(base@),
{
    let ghost v = base@;
    let width = base.width();
    let height = base.height();
    let mut out: Vec<Problem> = Vec::new();
    let mut y: u32 = 0;
    proof {
        assert(findings(out@, v.width as int) =~= crossings_before(v, 0));
        assert(0 * width == 0) by (nonlinear_arith);
    }
    while y + 1 < height
        invariant
            y + 1 <= height,
            v == base@,
            base.wf(),
            width == v.width,
            height == v.height,
            findings(out@, v.width as int) == crossings_before(v, y * width),
        decreases height - y,
    {
        let mut x: u32 = 0;
        while x < width
            invariant
                x <= width,
                y + 1 < height,
                v == base@,
                base.wf(),
                width == v.width,
                height == v.height,
                findings(out@, v.width as int) == crossings_before(v, y * width + x),
            decreases width - x,
        {
            proof {
                lemma_place(x as int, y as int, width as int, height as int);
                assert(place(x as int, y as int, width as int) == y * width + x);
            }
            if is_crossing_at(base, [x, y]) {
                let ghost before = findings(out@, v.width as int);
                let corner: Pos = [(x + 1) % width, y + 1];
                out.push(Problem::InvalidXCrossing(corner));
                proof {
                    assert(findings(out@, v.width as int) =~= before.push(
                        Finding::InvalidXCrossing((x + 1) % (width as int), y + 1),
                    ));
                }
            }
            x += 1;
        }
        proof {
            assert(y * width + width == (y + 1) * width) by (nonlinear_arith);
        }
        y += 1;
    }
    proof {
        assert(y + 1 == height);
        assert(y * width == width * (height - 1)) by (nonlinear_arith)
            requires
                y + 1 == height,
        ;
    }
    out
}

/// Whether no neighbour of the pixel at a place has its colour.
pub fn is_lone(base: &MapBase, i: usize) -> (r: bool)
    requires
        base.wf(),
        i < base@.pixels.len(),
    ensures
        r == lone(base@, i as int),
{
    let len = base.area();
    let w = base.width() as usize;
    let k = base.key_at_place(i);
    let ghost v = base@;
    if len - i > 1 && (i + 1) % w != 0 && base.key_at_place(i + 1) == k {
        assert(adjacent(v.width as int, v.pixels.len() as int, i as int, i + 1));
        return false;
    }
    if i >= 1 && i % w != 0 && base.key_at_place(i - 1) == k {
        assert(adjacent(v.width as int, v.pixels.len() as int, i as int, i - 1));
        return false;
    }
    if len - i > w && base.key_at_place(i + w) == k {
        assert(adjacent(v.width as int, v.pixels.len() as int, i as int, i + w));
        return false;
    }
    if i >= w && base.key_at_place(i - w) == k {
        assert(adjacent(v.width as int, v.pixels.len() as int, i as int, i - w));
        return false;
    }
    true
}

/// The lone pixels of the raster, in the order of their places.
pub fn find_lone_pixels(base: &MapBase) -> (out: Vec<Problem>)
    requires
        base.wf(),
    ensures
        findings(out@, base@.width as int) == lone_before(base@, base@.pixels.len() as int),
{
    let ghost v = base@;
    let len = base.area();
    let mut out: Vec<Problem> = Vec::new();
    let mut i: usize = 0;
    proof {
        assert(findings(out@, v.width as int) =~= lone_before(v, 0));
    }
    while i < len
        invariant
            i <= len,
            len == v.pixels.len(),
            v == base@,
            base.wf(),
            findings(out@, v.width as int) == lone_before(v, i as int),
        decreases len - i,
    {
        if is_lone(base, i) {
            let ghost before = findings(out@, v.width as int);
            let pos = base.position(i);
            out.push(Problem::LonePixel(pos));
            proof {
                assert(findings(out@, v.width as int) =~= before.push(
                    Finding::LonePixel(i as int % (v.width as int), i as int / (v.width as int)),
                ));
            }
        }
        i += 1;
    }
    out
}

/// The findings on the size of the raster.
pub fn find_size_problems(base: &MapBase) -> (out: Vec<Problem>)
    ensures
        findings(out@, base@.width as int) == size_findings(base@),
{
    let mut out: Vec<Problem> = Vec::new();
    if base.width() % 64 != 0 {
        out.push(Problem::InvalidWidth);
    }
    if base.height() % 64 != 0 {
        out.push(Problem::InvalidHeight);
    }
    proof {
        assert(findings(out@, base@.width as int) =~= size_findings(base@));
    }
    out
}

/// Whether the pixel at a place has a neighbour to its right.
pub open spec fn has_right(v: MapView, p: int) -> bool {
    p + 1 < v.pixels.len() && (p + 1) % (v.width as int) != 0
}

/// Whether the pixel at a place has a neighbour below.
pub open spec fn has_below(v: MapView, p: int) -> bool {
    p + v.width < v.pixels.len()
}

/// Whether the pixels at two places are of the two different colours of
/// a pair key.
pub open spec fn is_border(v: MapView, key: u64, i: int, j: int) -> bool {
    v.pixels[i] != v.pixels[j] && pair_key(v.pixels[i], v.pixels[j]) == key
}

/// The pairs of neighbouring pixels of the two colours of a pair key
/// whose lesser place is among the first `n`, in the order of that place,
/// the pair to the right before the pair below.
pub open spec fn borders_before(v: MapView, key: u64, n: int) -> Seq<(int, int)>
    decreases n,
{
    if n <= 0 {
        Seq::empty()
    } else {
        let p = n - 1;
        let a = borders_before(v, key, n - 1);
        let b = if has_right(v, p) && is_border(v, key, p, p + 1) {
            a.push((p, p + 1))
        } else {
            a
        };
        if has_below(v, p) && is_border(v, key, p, p + v.width) {
            b.push((p, p + v.width))
        } else {
            b
        }
    }
}

/// All the pairs of neighbouring pixels of the two colours of a pair key.
pub open spec fn borders_of(v: MapView, key: u64) -> Seq<(int, int)> {
    borders_before(v, key, v.pixels.len() as int)
}

/// The pairs of places of a list of pairs.
pub open spec fn pair_places(pairs: Seq<(usize, usize)>) -> Seq<(int, int)> {
    Seq::new(pairs.len(), |i: int| (pairs[i].0 as int, pairs[i].1 as int))
}

/// Whether a finding is that of two provinces with some, but fewer than
/// `threshold`, pairs of neighbouring pixels between them.
pub open spec fn few_borders(v: MapView, threshold: int, f: Finding) -> bool {
    exists|key: u64|
        f == Finding::FewSharedBorders(key, #[trigger] borders_of(v, key)) && 0 < borders_of(
            v,
            key,
        ).len() < threshold
}

/// Adds a pair of places to the pairs of a pair key.
fn note_border(table: &mut HashMap<u64, Vec<(usize, usize)>>, key: u64, i: usize, j: usize)
    ensures
        final(table)@.dom() == old(table)@.dom().insert(key),
        pair_places(final(table)@[key]@) == (if old(table)@.contains_key(key) {
            pair_places(old(table)@[key]@)
        } else {
            Seq::empty()
        }).push((i as int, j as int)),
        forall|other: u64|
            other != key && #[trigger] old(table)@.contains_key(other) ==> final(table)@[other]
                == old(table)@[other],
{
    broadcast use vstd::std_specs::hash::group_hash_axioms;

    let mut list = match table.remove(&key) {
        Some(list) => list,
        None => Vec::new(),
    };
    let ghost before = pair_places(list@);
    list.push((i, j));
    proof {
        assert(pair_places(list@) =~= before.push((i as int, j as int)));
        if !old(table)@.contains_key(key) {
            assert(before =~= Seq::empty());
        }
    }
    table.insert(key, list);
    proof {
        assert(table@.dom() =~= old(table)@.dom().insert(key));
    }
}

/// The pairs of neighbouring pixels between each two provinces that have
/// any, under their pair key.
fn collect_borders(base: &MapBase) -> (table: HashMap<u64, Vec<(usize, usize)>>)
    requires
        base.wf(),
    ensures
        forall|key: u64| #[trigger]
            table@.contains_key(key) <==> borders_of(base@, key).len() > 0,
        forall|key: u64| #[trigger]
            table@.contains_key(key) ==> pair_places(table@[key]@) == borders_of(base@, key)
                && is_pair_key(key),
        forall|key: u64, n: int|
            table@.contains_key(key) && 0 <= n < table@[key]@.len() ==> (#[trigger] table@[key]@[n]).0
                < base@.pixels.len() && table@[key]@[n].1 < base@.pixels.len(),
{
    let ghost v = base@;
    let len = base.area();
    let w = base.width() as usize;
    let mut table: HashMap<u64, Vec<(usize, usize)>> = HashMap::new();
    let mut p: usize = 0;
    while p < len
        invariant
            p <= len,
            len == v.pixels.len(),
            w == v.width,
            v == base@,
            base.wf(),
            forall|key: u64| #[trigger]
                table@.contains_key(key) <==> borders_before(v, key, p as int).len() > 0,
            forall|key: u64| #[trigger]
                table@.contains_key(key) ==> pair_places(table@[key]@) == borders_before(
                    v,
                    key,
                    p as int,
                ) && is_pair_key(key),
            forall|key: u64, n: int|
                table@.contains_key(key) && 0 <= n < table@[key]@.len() ==> (
                #[trigger] table@[key]@[n]).0 < len && table@[key]@[n].1 < len,
        decreases len - p,
    {
        let a = base.key_at_place(p);
        let ghost t0 = table@;
        if len - p > 1 && (p + 1) % w != 0 {
            let c = base.key_at_place(p + 1);
            if a != c {
                let key = pair_key_of(a, c);
                note_border(&mut table, key, p, p + 1);
            }
        }
        let ghost t1 = table@;
        if len - p > w {
            let c = base.key_at_place(p + w);
            if a != c {
                let key = pair_key_of(a, c);
                note_border(&mut table, key, p, p + w);
            }
        }
        proof {
            let t2 = table@;
            assert forall|key: u64| (#[trigger] t2.contains_key(key) <==> borders_before(
                v,
                key,
                p as int + 1,
            ).len() > 0) && (t2.contains_key(key) ==> pair_places(t2[key]@) == borders_before(
                v,
                key,
                p as int + 1,
            ) && is_pair_key(key)) by {
                let prev = borders_before(v, key, p as int);
                let r = has_right(v, p as int) && is_border(v, key, p as int, p + 1);
                let d = has_below(v, p as int) && is_border(v, key, p as int, p + w);
                assert(t0.contains_key(key) <==> prev.len() > 0);
                if t0.contains_key(key) {
                    assert(pair_places(t0[key]@) == prev);
                }
            }
            assert forall|key: u64, n: int|
                t2.contains_key(key) && 0 <= n < t2[key]@.len() implies (#[trigger] t2[key]@[n]).0
                < len && t2[key]@[n].1 < len by {
                let q = pair_places(t2[key]@);
                assert(q[n] == (t2[key]@[n].0 as int, t2[key]@[n].1 as int));
                if t1.contains_key(key) {
                    let q1 = pair_places(t1[key]@);
                    if n < q1.len() {
                        assert(q1[n] == (t1[key]@[n].0 as int, t1[key]@[n].1 as int));
                        if t0.contains_key(key) {
                            let q0 = pair_places(t0[key]@);
                            if n < q0.len() {
                                assert(q0[n] == (t0[key]@[n].0 as int, t0[key]@[n].1 as int));
                            }
                        }
                    }
                }
            }
        }
        p += 1;
    }
    table
}

/// Whether a list of findings holds a finding.
pub open spec fn has_finding(list: Seq<Finding>, f: Finding) -> bool {
    exists|i: int| 0 <= i < list.len() && #[trigger] list[i] == f
}

/// Pushing a finding adds it to what a list holds.
proof fn lemma_has_pushed(list: Seq<Finding>, g: Finding)
    ensures
        forall|f: Finding| #[trigger]
            has_finding(list.push(g), f) <==> has_finding(list, f) || f == g,
{
    let more = list.push(g);
    assert forall|f: Finding| #[trigger] has_finding(more, f) <==> has_finding(list, f) || f
        == g by {
        if has_finding(list, f) {
            let i = choose|i: int| 0 <= i < list.len() && #[trigger] list[i] == f;
            assert(more[i] == f);
        }
        if f == g {
            assert(more[list.len() as int] == g);
        }
        if has_finding(more, f) {
            let i = choose|i: int| 0 <= i < more.len() && #[trigger] more[i] == f;
            if i < list.len() {
                assert(list[i] == f);
            }
        }
    }
}

/// The pairs of positions of a list of pairs of places.
fn border_positions(base: &MapBase, pairs: &Vec<(usize, usize)>) -> (out: Vec<UOrd<Pos>>)
    requires
        base.wf(),
        forall|n: int|
            0 <= n < pairs@.len() ==> (#[trigger] pairs@[n]).0 < base@.pixels.len() && pairs@[n].1
                < base@.pixels.len(),
    ensures
        border_places(out@, base@.width as int) == pair_places(pairs@),
{
    let mut out: Vec<UOrd<Pos>> = Vec::new();
    let mut n: usize = 0;
    while n < pairs.len()
        invariant
            n <= pairs@.len(),
            base.wf(),
            forall|m: int|
                0 <= m < pairs@.len() ==> (#[trigger] pairs@[m]).0 < base@.pixels.len()
                    && pairs@[m].1 < base@.pixels.len(),
            out@.len() == n,
            forall|m: int|
                0 <= m < n ==> place_of((#[trigger] out@[m]).a, base@.width as int) == pairs@[m].0
                    && place_of(out@[m].b, base@.width as int) == pairs@[m].1,
        decreases pairs@.len() - n,
    {
        let pair = pairs[n];
        proof {
            assert(pairs@[n as int].0 < base@.pixels.len());
        }
        out.push(UOrd::new(base.position(pair.0), base.position(pair.1)));
        n += 1;
    }
    proof {
        assert(border_places(out@, base@.width as int) =~= pair_places(pairs@));
    }
    out
}

/// The findings of provinces with some, but fewer than `threshold`, pairs
/// of neighbouring pixels between them, in no particular order.
pub fn find_few_borders(base: &MapBase, threshold: usize) -> (out: Vec<Problem>)
    requires
        base.wf(),
    ensures
        forall|f: Finding| #[trigger]
            has_finding(findings(out@, base@.width as int), f) <==> few_borders(
                base@,
                threshold as int,
                f,
            ),
{
    broadcast use vstd::std_specs::hash::group_hash_axioms;

    let ghost v = base@;
    let ghost w = v.width as int;
    let table = collect_borders(base);
    let keys = keys_u64(&table);
    let mut out: Vec<Problem> = Vec::new();
    let mut n: usize = 0;
    while n < keys.len()
        invariant
            n <= keys@.len(),
            v == base@,
            w == v.width as int,
            base.wf(),
            keys@.to_set() == table@.dom(),
            forall|key: u64| #[trigger] table@.contains_key(key) <==> borders_of(v, key).len() > 0,
            forall|key: u64| #[trigger]
                table@.contains_key(key) ==> pair_places(table@[key]@) == borders_of(v, key)
                    && is_pair_key(key),
            forall|key: u64, m: int|
                table@.contains_key(key) && 0 <= m < table@[key]@.len() ==> (
                #[trigger] table@[key]@[m]).0 < v.pixels.len() && table@[key]@[m].1
                    < v.pixels.len(),
            forall|f: Finding| #[trigger]
                has_finding(findings(out@, w), f) <==> exists|m: int|
                    0 <= m < n && f == Finding::FewSharedBorders(
                        #[trigger] keys@[m],
                        borders_of(v, keys@[m]),
                    ) && borders_of(v, keys@[m]).len() < threshold,
        decreases keys@.len() - n,
    {
        let key = keys[n];
        proof {
            assert(keys@.to_set().contains(keys@[n as int]));
            assert(table@.contains_key(key));
            lemma_pair_key_halves(key);
        }
        let list = match table.get(&key) {
            Some(list) => list,
            None => vstd::pervasive::unreached(),
        };
        let ghost before = findings(out@, w);
        let mut added = false;
        if list.len() < threshold {
            let (low, high) = pair_key_halves(key);
            let rel = UOrd::new(key_color(low), key_color(high));
            let borders = border_positions(base, list);
            out.push(Problem::FewSharedBorders(rel, borders));
            added = true;
            proof {
                let g = Finding::FewSharedBorders(key, borders_of(v, key));
                assert(findings(out@, w) =~= before.push(g));
                lemma_has_pushed(before, g);
            }
        }
        proof {
            let now = findings(out@, w);
            assert forall|f: Finding| #[trigger] has_finding(now, f) <==> exists|m: int|
                0 <= m < n + 1 && f == Finding::FewSharedBorders(
                    #[trigger] keys@[m],
                    borders_of(v, keys@[m]),
                ) && borders_of(v, keys@[m]).len() < threshold by {
                let g = Finding::FewSharedBorders(key, borders_of(v, key));
                if has_finding(now, f) {
                    if added && f == g {
                        assert(f == Finding::FewSharedBorders(
                            keys@[n as int],
                            borders_of(v, keys@[n as int]),
                        ));
                    } else {
                        assert(has_finding(before, f));
                        let m = choose|m: int|
                            0 <= m < n && f == Finding::FewSharedBorders(
                                #[trigger] keys@[m],
                                borders_of(v, keys@[m]),
                            ) && borders_of(v, keys@[m]).len() < threshold;
                        assert(f == Finding::FewSharedBorders(keys@[m], borders_of(v, keys@[m])));
                    }
                }
                if exists|m: int|
                    0 <= m < n + 1 && f == Finding::FewSharedBorders(
                        #[trigger] keys@[m],
                        borders_of(v, keys@[m]),
                    ) && borders_of(v, keys@[m]).len() < threshold {
                    let m = choose|m: int|
                        0 <= m < n + 1 && f == Finding::FewSharedBorders(
                            #[trigger] keys@[m],
                            borders_of(v, keys@[m]),
                        ) && borders_of(v, keys@[m]).len() < threshold;
                    if m < n {
                        assert(has_finding(before, f));
                    }
                }
            }
        }
        n += 1;
    }
    proof {
        let now = findings(out@, w);
        assert forall|f: Finding| #[trigger] has_finding(now, f) <==> few_borders(
            v,
            threshold as int,
            f,
        ) by {
            if has_finding(now, f) {
                let m = choose|m: int|
                    0 <= m < keys@.len() && f == Finding::FewSharedBorders(
                        #[trigger] keys@[m],
                        borders_of(v, keys@[m]),
                    ) && borders_of(v, keys@[m]).len() < threshold;
                assert(keys@.to_set().contains(keys@[m]));
                assert(table@.contains_key(keys@[m]));
                assert(borders_of(v, keys@[m]).len() > 0);
            }
            if few_borders(v, threshold as int, f) {
                let key = choose|key: u64|
                    f == Finding::FewSharedBorders(key, #[trigger] borders_of(v, key)) && 0
                        < borders_of(v, key).len() < threshold;
                assert(table@.contains_key(key));
                assert(keys@.to_set().contains(key));
                let m = choose|m: int| 0 <= m < keys@.len() && keys@[m] == key;
                assert(f == Finding::FewSharedBorders(keys@[m], borders_of(v, keys@[m])));
            }
        }
    }
    out
}

/// Whether a box is wider or higher than an eighth of the raster.
pub open spec fn too_large(v: MapView, e: Extents) -> bool {
    e.upper[0] - e.lower[0] + 1 > v.width / 8 || e.upper[1] - e.lower[1] + 1 > v.height / 8
}

/// The places of the pixels of a key.
pub open spec fn places(v: MapView, k: u32) -> Set<int> {
    MapBase::places_of(v.pixels, k)
}

/// Whether a finding is that of the province of a colour key: that it
/// has eight pixels or fewer, or that its box is too large.
pub open spec fn province_finding(v: MapView, k: u32, f: Finding) -> bool {
    let p = v.provinces[k];
    ||| f == Finding::TooFewPixels(p.pixel_count, p.sum_x, p.sum_y) && p.pixel_count <= 8
    ||| exists|e: Extents|
        f == Finding::TooLargeBox(e) && #[trigger] bounds(e, v.width as int, places(v, k))
            && too_large(v, e)
}

/// Whether a finding is that of some province.
pub open spec fn some_province_finding(v: MapView, f: Finding) -> bool {
    exists|k: u32| v.provinces.contains_key(k) && #[trigger] province_finding(v, k, f)
}

/// The smallest box of each colour of the raster, under its key.
fn collect_boxes(base: &MapBase) -> (boxes: HashMap<u32, Extents>)
    requires
        base.wf(),
    ensures
        boxes@.dom() == base@.provinces.dom(),
        forall|k: u32| #[trigger]
            boxes@.contains_key(k) ==> bounds(boxes@[k], base@.width as int, places(base@, k)),
{
    broadcast use vstd::std_specs::hash::group_hash_axioms;

    let ghost v = base@;
    let ghost s = v.pixels;
    let ghost w = v.width as int;
    let len = base.area();
    let mut boxes: HashMap<u32, Extents> = HashMap::new();
    let mut i: usize = 0;
    while i < len
        invariant
            i <= len,
            len == s.len(),
            v == base@,
            s == v.pixels,
            w == v.width as int,
            base.wf(),
            forall|k: u32| #[trigger]
                boxes@.contains_key(k) <==> count_of(s.take(i as int), k) > 0,
            forall|k: u32| #[trigger]
                boxes@.contains_key(k) ==> bounds(
                    boxes@[k],
                    w,
                    MapBase::places_of(s.take(i as int), k),
                ),
        decreases len - i,
    {
        let k = base.key_at_place(i);
        let pos = base.position(i);
        let ghost b0 = boxes@;
        let e = match boxes.get(&k) {
            Some(e) => e.join_point(pos),
            None => Extents::new_point(pos),
        };
        boxes.insert(k, e);
        proof {
            let a = s.take(i as int);
            let b = s.take(i as int + 1);
            assert(b.drop_last() =~= a);
            assert(crate::tally::unit()(i as int) == 1);
            assert forall|j: u32| count_of(b, j) == count_of(a, j) + (if j == k {
                1nat
            } else {
                0
            }) by {}
            assert forall|j: u32| #[trigger] boxes@.contains_key(j) implies bounds(
                boxes@[j],
                w,
                MapBase::places_of(b, j),
            ) by {
                if j == k {
                    assert(MapBase::places_of(b, k) =~= MapBase::places_of(a, k).insert(i as int));
                    if b0.contains_key(k) {
                        lemma_bounds_more(b0[k], pos[0], pos[1], w, MapBase::places_of(a, k), i as int);
                    } else {
                        assert(MapBase::places_of(a, k) =~= Set::empty()) by {
                            assert forall|q: int| !MapBase::places_of(a, k).contains(q) by {
                                if 0 <= q < a.len() && a[q] == k {
                                    crate::tally::lemma_count_positive(a, k, q);
                                }
                            }
                        }
                        assert(MapBase::places_of(b, k) =~= set![i as int]);
                        lemma_bounds_one(pos[0], pos[1], w, i as int);
                    }
                } else {
                    assert(MapBase::places_of(b, j) =~= MapBase::places_of(a, j));
                }
            }
        }
        i += 1;
    }
    proof {
        assert(s.take(s.len() as int) =~= s);
        assert(boxes@.dom() =~= v.provinces.dom());
    }
    boxes
}

/// The findings of the provinces, in no particular order: of each
/// province of eight pixels or fewer, and of each whose box is wider or
/// higher than an eighth of the map.
pub fn find_province_problems(base: &MapBase) -> (out: Vec<Problem>)
    requires
        base.wf(),
    ensures
        forall|f: Finding| #[trigger]
            has_finding(findings(out@, base@.width as int), f) <==> some_province_finding(
                base@,
                f,
            ),
{
    broadcast use vstd::std_specs::hash::group_hash_axioms;

    let ghost v = base@;
    let ghost w = v.width as int;
    let width = base.width();
    let height = base.height();
    let boxes = collect_boxes(base);
    let keys = base.province_keys();
    let mut out: Vec<Problem> = Vec::new();
    let mut n: usize = 0;
    while n < keys.len()
        invariant
            n <= keys@.len(),
            v == base@,
            w == v.width as int,
            width == v.width,
            height == v.height,
            base.wf(),
            keys@.to_set() == v.provinces.dom(),
            boxes@.dom() == v.provinces.dom(),
            forall|k: u32| #[trigger]
                boxes@.contains_key(k) ==> bounds(boxes@[k], w, places(v, k)),
            forall|f: Finding| #[trigger]
                has_finding(findings(out@, w), f) <==> exists|m: int|
                    0 <= m < n && province_finding(v, #[trigger] keys@[m], f),
        decreases keys@.len() - n,
    {
        let k = keys[n];
        proof {
            assert(keys@.to_set().contains(keys@[n as int]));
            assert(v.provinces.contains_key(k));
            assert(boxes@.contains_key(k));
        }
        let province = base.province(k);
        let ghost f0 = findings(out@, w);
        if province.pixel_count <= 8 {
            out.push(Problem::TooFewPixels(province.pixel_count, province.pixel_sum));
        }
        let ghost f1 = findings(out@, w);
        let e = match boxes.get(&k) {
            Some(e) => *e,
            None => vstd::pervasive::unreached(),
        };
        let large = e.upper[0] - e.lower[0] >= width / 8 || e.upper[1] - e.lower[1] >= height / 8;
        if large {
            out.push(Problem::TooLargeBox(e));
        }
        proof {
            let p = v.provinces[k];
            let few = Finding::TooFewPixels(p.pixel_count, p.sum_x, p.sum_y);
            let big = Finding::TooLargeBox(e);
            let f2 = findings(out@, w);
            if p.pixel_count <= 8 {
                assert(f1 =~= f0.push(few));
                lemma_has_pushed(f0, few);
            }
            if large {
                assert(f2 =~= f1.push(big));
                lemma_has_pushed(f1, big);
            }
            assert forall|f: Finding| #[trigger] has_finding(f2, f) <==> exists|m: int|
                0 <= m < n + 1 && province_finding(v, #[trigger] keys@[m], f) by {
                if has_finding(f2, f) {
                    if has_finding(f0, f) {
                        let m = choose|m: int|
                            0 <= m < n && province_finding(v, #[trigger] keys@[m], f);
                        assert(province_finding(v, keys@[m], f));
                    } else {
                        if f == big && large {
                            assert(bounds(e, w, places(v, k)));
                        }
                        assert(province_finding(v, keys@[n as int], f));
                    }
                }
                if exists|m: int| 0 <= m < n + 1 && province_finding(v, #[trigger] keys@[m], f) {
                    let m = choose|m: int|
                        0 <= m < n + 1 && province_finding(v, #[trigger] keys@[m], f);
                    if m < n {
                        assert(has_finding(f0, f));
                    } else {
                        if !(f == few && p.pixel_count <= 8) {
                            let e2 = choose|e2: Extents|
                                f == Finding::TooLargeBox(e2) && #[trigger] bounds(
                                    e2,
                                    w,
                                    places(v, k),
                                ) && too_large(v, e2);
                            lemma_bounds_unique(e, e2, w, places(v, k));
                        }
                    }
                }
            }
        }
        n += 1;
    }
    proof {
        let now = findings(out@, w);
        assert forall|f: Finding| #[trigger] has_finding(now, f) <==> some_province_finding(
            v,
            f,
        ) by {
            if has_finding(now, f) {
                let m = choose|m: int|
                    0 <= m < keys@.len() && province_finding(v, #[trigger] keys@[m], f);
                assert(keys@.to_set().contains(keys@[m]));
                assert(v.provinces.contains_key(keys@[m]));
            }
            if some_province_finding(v, f) {
                let k = choose|k: u32| v.provinces.contains_key(k) && #[trigger] province_finding(
                    v,
                    k,
                    f,
                );
                assert(keys@.to_set().contains(k));
                let m = choose|m: int| 0 <= m < keys@.len() && keys@[m] == k;
                assert(province_finding(v, keys@[m], f));
            }
        }
    }
    out
}

/// Whether the findings are those of the analysis of a map under the
/// settings: the crossings, then, where the settings ask for them, the
/// lone pixels and the provinces with few pairs of pixels between them,
/// then the findings of the provinces and of the size of the map.
pub open spec fn analysed(
    v: MapView,
    warnings: crate::config::ExtraWarnings,
    found: Seq<Finding>,
) -> bool {
    exists|few: Seq<Finding>, of_provinces: Seq<Finding>|
        {
            &&& #[trigger] analysed_parts(v, warnings, found, few, of_provinces)
        }
}

/// Whether the findings are those of the analysis, with the given lists
/// for the two parts whose order is not said.
pub open spec fn analysed_parts(
    v: MapView,
    warnings: crate::config::ExtraWarnings,
    found: Seq<Finding>,
    few: Seq<Finding>,
    of_provinces: Seq<Finding>,
) -> bool {
    let lone = if warnings.enabled && warnings.lone_pixels {
        lone_before(v, v.pixels.len() as int)
    } else {
        Seq::empty()
    };
    &&& found == crossings(v) + lone + few + of_provinces + size_findings(v)
    &&& forall|f: Finding| #[trigger]
        has_finding(few, f) <==> warnings.enabled && warnings.few_shared_borders && few_borders(
            v,
            warnings.few_shared_borders_threshold as int,
            f,
        )
    &&& forall|f: Finding| #[trigger] has_finding(of_provinces, f) <==> some_province_finding(v, f)
}

/// Puts the findings of one list behind those of another.
fn append_problems(out: &mut Vec<Problem>, more: Vec<Problem>, Ghost(width): Ghost<int>)
    ensures
        findings(final(out)@, width) == findings(old(out)@, width) + findings(more@, width),
{
    let mut more = more;
    let ghost a = findings(out@, width);
    let ghost b = findings(more@, width);
    out.append(&mut more);
    proof {
        assert(findings(out@, width) =~= a + b);
    }
}

/// Looks over the whole map and lists what a user should look at.
pub fn analyze(bundle: &Bundle) -> (out: Vec<Problem>)
    requires
        bundle.map.wf(),
    ensures
        analysed(bundle.map@, bundle.config.extra_warnings, findings(out@, bundle.map@.width as int)),
{
    analyse_map(&bundle.map, &bundle.config)
}

/// Looks over a map and lists what a user should look at, under the
/// settings given.
pub fn analyse_map(map: &crate::province_map::ProvinceMap, config: &crate::config::Config) -> (out:
    Vec<Problem>)
    requires
        map.wf(),
    ensures
        analysed(map@, config.extra_warnings, findings(out@, map@.width as int)),
{
    let base = map.base();
    let ghost v = base@;
    let ghost w = v.width as int;
    let warnings = config.extra_warnings;
    let mut out = find_crossings(base);
    let lone = if warnings.enabled && warnings.lone_pixels {
        find_lone_pixels(base)
    } else {
        Vec::new()
    };
    let few = if warnings.enabled && warnings.few_shared_borders {
        find_few_borders(base, warnings.few_shared_borders_threshold)
    } else {
        Vec::new()
    };
    let of_provinces = find_province_problems(base);
    let size = find_size_problems(base);
    let ghost few_found = findings(few@, w);
    let ghost province_found = findings(of_provinces@, w);
    proof {
        if !(warnings.enabled && warnings.lone_pixels) {
            assert(findings(lone@, w) =~= Seq::empty());
        }
        if !(warnings.enabled && warnings.few_shared_borders) {
            assert(few_found =~= Seq::empty());
        }
    }
    append_problems(&mut out, lone, Ghost(w));
    append_problems(&mut out, few, Ghost(w));
    append_problems(&mut out, of_provinces, Ghost(w));
    append_problems(&mut out, size, Ghost(w));
    proof {
        assert(analysed_parts(v, warnings, findings(out@, w), few_found, province_found));
    }
    out
}

} // verus!
