//! Walking the positions of a box, row by row.
use vstd::prelude::*;
use std::ops::Range;
use crate::extents::{Extents, Pos};

verus! {

/// The positions of a box of columns and rows, in the order of a raster:
/// row by row, each from its first column on.
#[derive(Debug)]
pub struct XYIter {
    x_range: Range<u32>,
    y_range: Range<u32>,
    i: u64,
}

impl XYIter {
    /// The first column, one behind the last, the first row, one behind
    /// the last, and how many positions were given out.
    pub closed spec fn view(&self) -> (int, int, int, int, int) {
        (
            self.x_range.start as int,
            self.x_range.end as int,
            self.y_range.start as int,
            self.y_range.end as int,
            self.i as int,
        )
    }

    /// Neither range ends before it starts, and no more positions were
    /// given out than there are.
    pub open spec fn wf(&self) -> bool {
        &&& self.view().0 <= self.view().1
        &&& self.view().2 <= self.view().3
        &&& 0 <= self.view().4 <= self.spec_area()
    }

    pub open spec fn spec_width(&self) -> int {
        self.view().1 - self.view().0
    }

    pub open spec fn spec_height(&self) -> int {
        self.view().3 - self.view().2
    }

    pub open spec fn spec_area(&self) -> int {
        self.spec_width() * self.spec_height()
    }

    pub fn new(x: Range<u32>, y: Range<u32>) -> (r: XYIter)
        requires
            x.start <= x.end,
            y.start <= y.end,
        ensures
            r.wf(),
            r.view() == (x.start as int, x.end as int, y.start as int, y.end as int, 0int),
    {
        proof {
            assert((x.end - x.start) * (y.end - y.start) >= 0) by (nonlinear_arith)
                requires
                    x.start <= x.end,
                    y.start <= y.end,
            ;
        }
        XYIter { x_range: x, y_range: y, i: 0 }
    }

    /// The positions of a box.
    pub fn from_extents(extents: Extents) -> (r: XYIter)
        requires
            extents.wf(),
            extents.upper[0] < u32::MAX,
            extents.upper[1] < u32::MAX,
        ensures
            r.wf(),
            r.view() == (
                extents.lower[0] as int,
                extents.upper[0] + 1,
                extents.lower[1] as int,
                extents.upper[1] + 1,
                0int,
            ),
    {
        let x = extents.lower[0]..(extents.upper[0] + 1);
        let y = extents.lower[1]..(extents.upper[1] + 1);
        XYIter::new(x, y)
    }

    pub fn width(&self) -> (w: u32)
        requires
            self.wf(),
        ensures
            w == self.spec_width(),
    {
        self.x_range.end - self.x_range.start
    }

    pub fn height(&self) -> (h: u32)
        requires
            self.wf(),
        ensures
            h == self.spec_height(),
    {
        self.y_range.end - self.y_range.start
    }

    pub fn area(&self) -> (a: u64)
        requires
            self.wf(),
        ensures
            a == self.spec_area(),
    {
        let w = self.width() as u64;
        let h = self.height() as u64;
        assert(w * h <= 0xffff_ffff * 0xffff_ffff) by (nonlinear_arith)
            requires
                w <= 0xffff_ffff,
                h <= 0xffff_ffff,
        ;
        w * h
    }

    /// How many positions are left.
    pub fn len(&self) -> (n: u64)
        requires
            self.wf(),
        ensures
            n == self.spec_area() - self.view().4,
    {
        self.area() - self.i
    }

    /// The next position, if one is left: that many columns into the row
    /// that the positions given out leave over.
    pub fn next(&mut self) -> (r: Option<Pos>)
        requires
            old(self).wf(),
        ensures
            final(self).wf(),
            r is Some == (old(self).view().4 < old(self).spec_area()),
            match r {
                Some(p) => {
                    &&& final(self).view() == (
                        old(self).view().0,
                        old(self).view().1,
                        old(self).view().2,
                        old(self).view().3,
                        old(self).view().4 + 1,
                    )
                    &&& p[0] == old(self).view().4 % old(self).spec_width() + old(self).view().0
                    &&& p[1] == old(self).view().4 / old(self).spec_width() + old(self).view().2
                },
                None => *final(self) == *old(self),
            },
    {
        if self.i < self.area() {
            let w = self.width() as u64;
            let h = self.height() as u64;
            proof {
                if w == 0 {
                    assert(w * h == 0) by (nonlinear_arith)
                        requires
                            w == 0,
                    ;
                }
                crate::tally::lemma_place_of(self.i as int, w as int, h as int);
            }
            let x = (self.i % w) as u32 + self.x_range.start;
            let y = (self.i / w) as u32 + self.y_range.start;
            self.i = self.i + 1;
            Some([x, y])
        } else {
            None
        }
    }
}

} // verus!
