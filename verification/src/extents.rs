//! Inclusive bounding boxes over pixel coordinates.
use vstd::prelude::*;

verus! {

/// A pixel position: column, then row.
pub type Pos = [u32; 2];

/// Whether two positions are the same.
pub fn same_pos(a: Pos, b: Pos) -> (r: bool)
    ensures
        r == (a == b),
{
    let r = a[0] == b[0] && a[1] == b[1];
    proof {
        if r {
            assert(a =~= b);
        }
    }
    r
}

pub open spec fn min_u32(a: u32, b: u32) -> u32 {
    if a <= b {
        a
    } else {
        b
    }
}

pub open spec fn max_u32(a: u32, b: u32) -> u32 {
    if a >= b {
        a
    } else {
        b
    }
}

fn lesser(a: u32, b: u32) -> (r: u32)
    ensures
        r == min_u32(a, b),
{
    if a <= b {
        a
    } else {
        b
    }
}

fn greater(a: u32, b: u32) -> (r: u32)
    ensures
        r == max_u32(a, b),
{
    if a >= b {
        a
    } else {
        b
    }
}

/// An inclusive, axis-aligned bounding box.
#[derive(Debug, Clone, Copy)]
pub struct Extents {
    pub upper: Pos,
    pub lower: Pos,
}

impl Extents {
    /// The lower corner is not beyond the upper one.
    pub open spec fn wf(self) -> bool {
        self.lower[0] <= self.upper[0] && self.lower[1] <= self.upper[1]
    }

    /// The point lies in the box, its edges included.
    pub open spec fn spec_contains(self, point: Pos) -> bool {
        self.lower[0] <= point[0] <= self.upper[0] && self.lower[1] <= point[1] <= self.upper[1]
    }

    /// The smallest box that holds both.
    pub open spec fn spec_join(self, other: Extents) -> Extents {
        Extents {
            upper: [
                max_u32(self.upper[0], other.upper[0]),
                max_u32(self.upper[1], other.upper[1]),
            ],
            lower: [
                min_u32(self.lower[0], other.lower[0]),
                min_u32(self.lower[1], other.lower[1]),
            ],
        }
    }

    /// The box of one point.
    pub open spec fn spec_point(pos: Pos) -> Extents {
        Extents { upper: pos, lower: pos }
    }

    pub fn new(upper: Pos, lower: Pos) -> (e: Extents)
        ensures
            e.upper == upper,
            e.lower == lower,
    {
        Extents { upper, lower }
    }

    pub fn new_point(pos: Pos) -> (e: Extents)
        ensures
            e == Extents::spec_point(pos),
            e.wf(),
    {
        Extents { upper: pos, lower: pos }
    }

    /// The box of a raster of the given size.
    pub fn new_entire(width: u32, height: u32) -> (e: Extents)
        requires
            width > 0,
            height > 0,
        ensures
            e.lower@ == seq![0u32, 0u32],
            e.upper@ == seq![(width - 1) as u32, (height - 1) as u32],
            e.wf(),
    {
        Extents { upper: [width - 1, height - 1], lower: [0, 0] }
    }

    /// The box from `lower` to `upper`, each coordinate cut down to the last
    /// one of a raster of size `max`.
    pub fn from_clamped(lower: Pos, upper: Pos, max: Pos) -> (e: Extents)
        requires
            max[0] > 0,
            max[1] > 0,
        ensures
            e.lower@ == seq![
                min_u32(lower[0], (max[0] - 1) as u32),
                min_u32(lower[1], (max[1] - 1) as u32),
            ],
            e.upper@ == seq![
                min_u32(upper[0], (max[0] - 1) as u32),
                min_u32(upper[1], (max[1] - 1) as u32),
            ],
    {
        Extents {
            upper: [lesser(upper[0], max[0] - 1), lesser(upper[1], max[1] - 1)],
            lower: [lesser(lower[0], max[0] - 1), lesser(lower[1], max[1] - 1)],
        }
    }

    pub fn join(self, other: Extents) -> (e: Extents)
        ensures
            e == self.spec_join(other),
    {
        let e = Extents {
            upper: [greater(self.upper[0], other.upper[0]), greater(self.upper[1], other.upper[1])],
            lower: [lesser(self.lower[0], other.lower[0]), lesser(self.lower[1], other.lower[1])],
        };
        proof {
            assert(e.upper =~= self.spec_join(other).upper);
            assert(e.lower =~= self.spec_join(other).lower);
        }
        e
    }

    pub fn join_point(self, pos: Pos) -> (e: Extents)
        ensures
            e == self.spec_join(Extents::spec_point(pos)),
    {
        self.join(Extents::new_point(pos))
    }

    pub fn to_offset(self) -> (offset: Pos)
        ensures
            offset == self.lower,
    {
        self.lower
    }

    /// The lower corner, and the number of columns and rows.
    pub fn to_offset_size(self) -> (r: (Pos, Pos))
        requires
            self.wf(),
            self.upper[0] - self.lower[0] < u32::MAX,
            self.upper[1] - self.lower[1] < u32::MAX,
        ensures
            r.0 == self.lower,
            r.1@ == seq![
                (self.upper[0] - self.lower[0] + 1) as u32,
                (self.upper[1] - self.lower[1] + 1) as u32,
            ],
    {
        (self.lower, [self.upper[0] - self.lower[0] + 1, self.upper[1] - self.lower[1] + 1])
    }

    pub fn contains(self, point: Pos) -> (r: bool)
        ensures
            r == self.spec_contains(point),
    {
        self.upper[0] >= point[0] && self.lower[0] <= point[0] && self.upper[1] >= point[1]
            && self.lower[1] <= point[1]
    }

    /// Whether two boxes have the same corners.
    pub fn same(self, other: Extents) -> (r: bool)
        ensures
            r == (self == other),
    {
        same_pos(self.upper, other.upper) && same_pos(self.lower, other.lower)
    }
}

/// Joining is symmetric, and a box joined to itself stays.
pub proof fn lemma_join_laws(a: Extents, b: Extents)
    ensures
        a.spec_join(b) == b.spec_join(a),
        a.spec_join(a) == a,
        a.wf() && b.wf() ==> a.spec_join(b).wf(),
        forall|p: Pos| a.spec_contains(p) || b.spec_contains(p) ==> a.spec_join(b).spec_contains(p),
{
    assert(a.spec_join(b).upper =~= b.spec_join(a).upper);
    assert(a.spec_join(b).lower =~= b.spec_join(a).lower);
    assert(a.spec_join(a).upper =~= a.upper);
    assert(a.spec_join(a).lower =~= a.lower);
}

} // verus!
