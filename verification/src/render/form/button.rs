use vstd::prelude::*;

use crate::render::ratio::{div_toward_zero, Ratio, RatioScalar};

verus! {

#[derive(Debug)]
pub struct Params {
    pub pad_hor: i32,
    pub r_off: i32,
    pub min_h: i32,
    pub min_w: i32,
    pub x_off: i32,
    pub y_off: i32,
    pub f_size: i32,
}

impl Params {
    pub fn new(ratio: &Ratio) -> (res: Self)
        ensures
            res.pad_hor == 8 * ratio.ratio,
            res.r_off == 2 * ratio.ratio,
            res.min_h == 18 * ratio.ratio,
            res.min_w == 64 * ratio.ratio,
            res.x_off == 3 * ratio.ratio,
            res.y_off == 12 * ratio.ratio,
            res.f_size == 12 * ratio.ratio,
    {
        Self {
            pad_hor: ratio.get(8i32),
            r_off: ratio.get(2i32),
            min_h: ratio.get(18i32),
            min_w: ratio.get(64i32),
            x_off: ratio.get(3i32),
            y_off: ratio.get(12i32),
            f_size: ratio.get(12i32),
        }
    }
}

#[derive(Debug, Clone, Copy, PartialEq, Eq)]
pub enum Align {
    _Left,
    Right,
}

#[derive(Debug)]
pub struct Button {
    pub x: i32,
    pub y: i32,
    pub w: i32,
    pub h: i32,
    pub font: String,
    pub label: String,
    pub padding: i32,
    pub id: String,
    pub align: Align,
    pub params: Params,
}

/// Half of a value, rounded toward zero.
pub open spec fn div_half(v: int) -> int {
    div_toward_zero(v, 2)
}

impl Button {
    /// Where the button starts on the canvas.
    pub open spec fn coors(&self) -> (int, int) {
        match self.align {
            Align::_Left => (self.x as int, self.y as int),
            Align::Right => (
                self.x - (self.w + div_half(self.params.pad_hor as int)),
                self.y + self.params.r_off,
            ),
        }
    }

    pub fn new(
        x: i32,
        y: i32,
        w: i32,
        h: i32,
        font: String,
        label: String,
        padding: i32,
        id: String,
        align: Align,
        ratio: &Ratio,
    ) -> (res: Self)
        requires
            i32::fits(padding * ratio.ratio),
        ensures
            res.x == x,
            res.y == y,
            res.w == w,
            res.h == h,
            res.font@ == font@,
            res.label@ == label@,
            res.padding == padding * ratio.ratio,
            res.id@ == id@,
            res.align == align,
            res.params.pad_hor == 8 * ratio.ratio,
            res.params.r_off == 2 * ratio.ratio,
            res.params.min_h == 18 * ratio.ratio,
            res.params.min_w == 64 * ratio.ratio,
            res.params.x_off == 3 * ratio.ratio,
            res.params.y_off == 12 * ratio.ratio,
            res.params.f_size == 12 * ratio.ratio,
    {
        let params = Params::new(ratio);
        Self { x, y, w, h, font, label, padding: ratio.get(padding), id, align, params }
    }

    pub fn get_box_size(&self) -> (res: (i32, i32))
        ensures
            res == (self.w, self.h),
    {
        (self.w, self.h)
    }

    /// Moves the button to `x`, `y` where given; everything else is kept.
    pub fn set_coors(&mut self, x: Option<i32>, y: Option<i32>)
        ensures
            *final(self) == (Button {
                x: match x { Some(v) => v, None => old(self).x },
                y: match y { Some(v) => v, None => old(self).y },
                ..*old(self)
            }),
    {
        if let Some(x) = x {
            self.x = x;
        }
        if let Some(y) = y {
            self.y = y;
        }
    }

    pub fn get_coors(&self) -> (res: (i32, i32))
        requires
            i32::fits(self.coors().0),
            i32::fits(self.coors().1),
            i32::fits(self.w + div_half(self.params.pad_hor as int)),
        ensures
            res.0 == self.coors().0,
            res.1 == self.coors().1,
    {
        match self.align {
            Align::_Left => (self.x, self.y),
            Align::Right => (self.x - (self.w + (self.params.pad_hor / 2)), self.y + self.params.r_off),
        }
    }
}

} // verus!
