use vstd::prelude::*;

verus! {

/// An offset that places coordinates relative to an origin.
#[derive(Debug, Default, Clone, Copy, PartialEq, Eq)]
pub struct Relative {
    x_: i32,
    y_: i32,
}

impl Relative {
    /// The origin's horizontal coordinate.
    pub closed spec fn ox(&self) -> int {
        self.x_ as int
    }

    /// The origin's vertical coordinate.
    pub closed spec fn oy(&self) -> int {
        self.y_ as int
    }

    pub fn new(x: i32, y: i32) -> (res: Self)
        ensures
            res.ox() == x,
            res.oy() == y,
    {
        Self { x_: x, y_: y }
    }

    pub fn x(&self, x: i32) -> (res: i32)
        requires
            i32::MIN <= self.ox() + x <= i32::MAX,
        ensures
            res == self.ox() + x,
    {
        self.x_ + x
    }

    pub fn y(&self, y: i32) -> (res: i32)
        requires
            i32::MIN <= self.oy() + y <= i32::MAX,
        ensures
            res == self.oy() + y,
    {
        self.y_ + y
    }

    /// The offset of this origin placed relative to `relative`.
    pub fn merge(&self, relative: &Relative) -> (res: Relative)
        requires
            i32::MIN <= self.ox() + relative.ox() <= i32::MAX,
            i32::MIN <= self.oy() + relative.oy() <= i32::MAX,
        ensures
            res.ox() == self.ox() + relative.ox(),
            res.oy() == self.oy() + relative.oy(),
    {
        Relative::new(relative.x(self.x_), relative.y(self.y_))
    }
}

} // verus!
