use vstd::prelude::*;

use crate::render::form::path::{extent, seq_max, seq_min};

verus! {

#[derive(Debug, Clone, Copy, PartialEq, Eq)]
pub struct Point {
    pub x: i32,
    pub y: i32,
}

pub open spec fn xs(points: Seq<Point>) -> Seq<int> {
    points.map_values(|p: Point| p.x as int)
}

pub open spec fn ys(points: Seq<Point>) -> Seq<int> {
    points.map_values(|p: Point| p.y as int)
}

#[derive(Debug)]
pub struct Path {
    pub points: Vec<Point>,
}

impl Path {
    /// The width and the height of the path fit an `i32`.
    pub open spec fn spread_fits(&self) -> bool {
        &&& extent(xs(self.points@)) <= i32::MAX
        &&& extent(ys(self.points@)) <= i32::MAX
    }

    /// The greatest minus the least coordinate kept by `pick`.
    fn spread(&self, use_x: bool) -> (res: i32)
        requires
            self.spread_fits(),
        ensures
            res == (if use_x { extent(xs(self.points@)) } else { extent(ys(self.points@)) }),
    {
        let ghost s = if use_x { xs(self.points@) } else { ys(self.points@) };
        if self.points.len() == 0 {
            return 0;
        }
        let mut min: i32 = if use_x { self.points[0].x } else { self.points[0].y };
        let mut max: i32 = min;
        let mut i: usize = 1;
        assert(s.subrange(0, 1) =~= seq![s[0]]);
        while i < self.points.len()
            invariant
                1 <= i <= self.points@.len(),
                s == (if use_x { xs(self.points@) } else { ys(self.points@) }),
                self.spread_fits(),
                min == seq_min(s.subrange(0, i as int)),
                max == seq_max(s.subrange(0, i as int)),
            decreases self.points@.len() - i,
        {
            let v = if use_x { self.points[i].x } else { self.points[i].y };
            assert(s.subrange(0, i + 1).drop_last() =~= s.subrange(0, i as int));
            if v < min {
                min = v;
            }
            if v > max {
                max = v;
            }
            i = i + 1;
        }
        assert(s.subrange(0, self.points@.len() as int) =~= s);
        if max > min {
            max - min
        } else {
            0
        }
    }

    pub fn box_height(&self) -> (res: i32)
        requires
            self.spread_fits(),
        ensures
            res == extent(ys(self.points@)),
    {
        self.spread(false)
    }

    pub fn box_width(&self) -> (res: i32)
        requires
            self.spread_fits(),
        ensures
            res == extent(xs(self.points@)),
    {
        self.spread(true)
    }
}

} // verus!
