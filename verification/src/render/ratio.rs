use vstd::prelude::*;

verus! {

/// Rust's integer division, which rounds toward zero.
pub open spec fn div_toward_zero(a: int, b: int) -> int {
    if a >= 0 {
        a / b
    } else {
        -((-a) / b)
    }
}

/// A number that a ratio can scale: the integer types of the board.
pub trait RatioScalar: Sized + Copy {
    /// The value of the number.
    spec fn value(self) -> int;

    /// `v` fits into the type.
    spec fn fits(v: int) -> bool;

    fn times(self, factor: u8) -> (res: Self)
        requires
            Self::fits(self.value() * factor),
        ensures
            res.value() == self.value() * factor,
    ;

    fn over(self, factor: u8) -> (res: Self)
        requires
            factor > 0,
        ensures
            res.value() == div_toward_zero(self.value(), factor as int),
    ;
}

impl RatioScalar for i32 {
    open spec fn value(self) -> int {
        self as int
    }

    open spec fn fits(v: int) -> bool {
        i32::MIN <= v <= i32::MAX
    }

    fn times(self, factor: u8) -> (res: i32) {
        self * (factor as i32)
    }

    fn over(self, factor: u8) -> (res: i32) {
        self / (factor as i32)
    }
}

impl RatioScalar for u32 {
    open spec fn value(self) -> int {
        self as int
    }

    open spec fn fits(v: int) -> bool {
        0 <= v <= u32::MAX
    }

    fn times(self, factor: u8) -> (res: u32) {
        self * (factor as u32)
    }

    fn over(self, factor: u8) -> (res: u32) {
        self / (factor as u32)
    }
}

/// The ratio between the pixels of the canvas and the pixels of the layout.
#[derive(Debug, Clone, Copy)]
pub struct Ratio {
    pub ratio: u8,
}

impl Ratio {
    /// `value` scaled by the ratio.
    pub fn get<T: RatioScalar>(&self, value: T) -> (res: T)
        requires
            T::fits(value.value() * self.ratio),
        ensures
            res.value() == value.value() * self.ratio,
    {
        value.times(self.ratio)
    }

    /// `value` divided by the ratio (rounded toward zero).
    pub fn invert<T: RatioScalar>(&self, value: T) -> (res: T)
        requires
            self.ratio > 0,
        ensures
            res.value() == div_toward_zero(value.value(), self.ratio as int),
    {
        value.over(self.ratio)
    }
}

/// Scaling a value up by the ratio and back down gives the value again.
pub proof fn law_invert_undoes_get(v: int, ratio: u8)
    requires
        ratio > 0,
    ensures
        div_toward_zero(v * ratio, ratio as int) == v,
{
    let r = ratio as int;
    if v >= 0 {
        assert(v * r >= 0) by (nonlinear_arith)
            requires
                v >= 0,
                r > 0,
        ;
        assert((v * r) / r == v) by (nonlinear_arith)
            requires
                r > 0,
        ;
    } else {
        assert(-(v * r) == (-v) * r) by (nonlinear_arith);
        assert(((-v) * r) / r == -v) by (nonlinear_arith)
            requires
                r > 0,
        ;
        assert(v * r < 0) by (nonlinear_arith)
            requires
                v < 0,
                r > 0,
        ;
    }
}

} // verus!
