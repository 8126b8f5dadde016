use vstd::prelude::*;

use crate::render::ratio::Ratio;

verus! {

#[derive(Debug)]
pub struct Params {
    pub radius: u32,
}

impl Params {
    pub fn new(ratio: &Ratio) -> (res: Self)
        ensures
            res.radius == 3 * ratio.ratio,
    {
        Self { radius: ratio.get(3u32) }
    }
}

#[derive(Debug, Clone, Copy, PartialEq, Eq)]
pub struct Point {
    pub x: i32,
    pub y: i32,
}

/// The greatest of `s`, or 0 for an empty sequence.
pub open spec fn seq_max(s: Seq<int>) -> int
    decreases s.len(),
{
    if s.len() == 0 {
        0
    } else if s.len() == 1 {
        s[0]
    } else {
        let m = seq_max(s.drop_last());
        if s.last() > m {
            s.last()
        } else {
            m
        }
    }
}

/// The least of `s`, or 0 for an empty sequence.
pub open spec fn seq_min(s: Seq<int>) -> int
    decreases s.len(),
{
    if s.len() == 0 {
        0
    } else if s.len() == 1 {
        s[0]
    } else {
        let m = seq_min(s.drop_last());
        if s.last() < m {
            s.last()
        } else {
            m
        }
    }
}

pub open spec fn xs(points: Seq<Point>) -> Seq<int> {
    points.map_values(|p: Point| p.x as int)
}

pub open spec fn ys(points: Seq<Point>) -> Seq<int> {
    points.map_values(|p: Point| p.y as int)
}

/// The extent of a set of coordinates, or 0 when they do not spread.
pub open spec fn extent(s: Seq<int>) -> int {
    if seq_max(s) - seq_min(s) < 0 {
        0
    } else {
        seq_max(s) - seq_min(s)
    }
}

pub proof fn lemma_seq_bounds(s: Seq<int>, lo: int, hi: int)
    requires
        forall|i: int| 0 <= i < s.len() ==> lo <= #[trigger] s[i] <= hi,
        lo <= 0 <= hi || s.len() > 0,
    ensures
        lo <= seq_max(s) <= hi,
        lo <= seq_min(s) <= hi,
        s.len() > 0 ==> seq_min(s) <= seq_max(s),
        forall|i: int| 0 <= i < s.len() ==> seq_min(s) <= #[trigger] s[i] <= seq_max(s),
    decreases s.len(),
{
    if s.len() > 1 {
        lemma_seq_bounds(s.drop_last(), lo, hi);
        assert forall|i: int| 0 <= i < s.len() implies seq_min(s) <= #[trigger] s[i] <= seq_max(s) by {
            if i < s.len() - 1 {
                assert(s.drop_last()[i] == s[i]);
            }
        }
    }
}

/// The maximum or minimum of the coordinates kept in one of `x` or `y`.
pub(crate) fn extreme(points: &Vec<Point>, use_x: bool, want_max: bool) -> (res: i32)
    requires
        points.len() > 0,
    ensures
        res == (if use_x {
            if want_max { seq_max(xs(points@)) } else { seq_min(xs(points@)) }
        } else {
            if want_max { seq_max(ys(points@)) } else { seq_min(ys(points@)) }
        }),
{
    let ghost s = if use_x { xs(points@) } else { ys(points@) };
    let mut best: i32 = if use_x { points[0].x } else { points[0].y };
    let mut i: usize = 1;
    assert(s.subrange(0, 1) =~= seq![s[0]]);
    while i < points.len()
        invariant
            1 <= i <= points.len(),
            s == (if use_x { xs(points@) } else { ys(points@) }),
            best == (if want_max { seq_max(s.subrange(0, i as int)) } else { seq_min(s.subrange(0, i as int)) }),
        decreases points.len() - i,
    {
        let v = if use_x { points[i].x } else { points[i].y };
        assert(s.subrange(0, i + 1).drop_last() =~= s.subrange(0, i as int));
        if want_max {
            if v > best {
                best = v;
            }
        } else {
            if v < best {
                best = v;
            }
        }
        i = i + 1;
    }
    assert(s.subrange(0, points.len() as int) =~= s);
    best
}

#[derive(Debug)]
pub struct Path {
    pub points: Vec<Point>,
    pub id: String,
    pub params: Params,
    pub sdot: bool,
    pub edot: bool,
    pub sarrow: bool,
    pub earrow: bool,
}

impl Path {
    pub fn new(id: String, points: Vec<Point>, ratio: &Ratio) -> (res: Self)
        ensures
            res.id@ == id@,
            res.points@ == points@,
            res.params.radius == 3 * ratio.ratio,
            !res.sdot && !res.edot && !res.sarrow && !res.earrow,
    {
        Self {
            id,
            points,
            params: Params::new(ratio),
            sdot: false,
            edot: false,
            sarrow: false,
            earrow: false,
        }
    }

    /// The width and height of the box that holds all the points.
    pub fn get_box_size(&self) -> (res: (i32, i32))
        requires
            i32::MIN <= seq_max(xs(self.points@)) - seq_min(xs(self.points@)) <= i32::MAX,
            i32::MIN <= seq_max(ys(self.points@)) - seq_min(ys(self.points@)) <= i32::MAX,
        ensures
            res.0 == extent(xs(self.points@)),
            res.1 == extent(ys(self.points@)),
    {
        if self.points.len() == 0 {
            return (0, 0);
        }
        let w = extreme(&self.points, true, true) - extreme(&self.points, true, false);
        let h = extreme(&self.points, false, true) - extreme(&self.points, false, false);
        (if w < 0 { 0 } else { w }, if h < 0 { 0 } else { h })
    }
}

} // verus!
