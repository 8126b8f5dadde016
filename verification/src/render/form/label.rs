use vstd::prelude::*;

use crate::render::grid;
use crate::render::ratio::{Ratio, RatioScalar};

verus! {

#[derive(Debug)]
pub struct Params {
    pub cell: u32,
    pub min_w: i32,
    pub pad_v: i32,
    pub pad_h: i32,
}

impl Params {
    pub fn new(ratio: &Ratio) -> (res: Self)
        ensures
            res.cell == grid::CELL * ratio.ratio,
            res.min_w == 64 * ratio.ratio,
            res.pad_v == 3 * ratio.ratio,
            res.pad_h == 8 * ratio.ratio,
    {
        Self {
            cell: ratio.get(grid::CELL),
            min_w: ratio.get(64i32),
            pad_v: ratio.get(3i32),
            pad_h: ratio.get(8i32),
        }
    }
}

#[derive(Debug, Clone, Copy, PartialEq, Eq)]
pub enum Align {
    Left,
    Right,
}

#[derive(Debug)]
pub struct Label {
    pub x: i32,
    pub y: i32,
    pub w: i32,
    pub h: i32,
    pub label: String,
    pub subtitle: Option<String>,
    pub badge: Option<(String, String, String)>,
    pub subbadge: Option<(String, String, String)>,
    pub padding: i32,
    pub id: String,
    pub align: Align,
    pub params: Params,
}

impl Label {
    /// Where the label starts on the canvas.
    pub open spec fn coors(&self) -> (int, int) {
        match self.align {
            Align::Left => (self.x + self.padding, self.y as int),
            Align::Right => (self.x - self.w - self.padding, self.y as int),
        }
    }

    pub fn new(
        x: i32,
        y: i32,
        w: i32,
        h: i32,
        label: String,
        subtitle: Option<String>,
        badge: Option<(String, String, String)>,
        subbadge: Option<(String, String, String)>,
        padding: i32,
        id: String,
        align: Align,
        ratio: &Ratio,
    ) -> (res: Self)
        requires
            i32::fits(padding * ratio.ratio),
        ensures
            res.x == x,
            res.y == y,
            res.w == w,
            res.h == h,
            res.label@ == label@,
            res.subtitle == subtitle,
            res.badge == badge,
            res.subbadge == subbadge,
            res.padding == padding * ratio.ratio,
            res.id@ == id@,
            res.align == align,
            res.params.cell == grid::CELL * ratio.ratio,
            res.params.min_w == 64 * ratio.ratio,
            res.params.pad_v == 3 * ratio.ratio,
            res.params.pad_h == 8 * ratio.ratio,
    {
        let params = Params::new(ratio);
        Self {
            x,
            y,
            w,
            h,
            label,
            subtitle,
            badge,
            subbadge,
            padding: ratio.get(padding),
            id,
            align,
            params,
        }
    }

    pub fn get_box_size(&self) -> (res: (i32, i32))
        ensures
            res == (self.w, self.h),
    {
        (self.w, self.h)
    }

    /// Moves the label to `x`, `y` where given; everything else is kept.
    pub fn set_coors(&mut self, x: Option<i32>, y: Option<i32>)
        ensures
            *final(self) == (Label {
                x: match x { Some(v) => v, None => old(self).x },
                y: match y { Some(v) => v, None => old(self).y },
                ..*old(self)
            }),
    {
        if let Some(x) = x {
            self.x = x;
        }
        if let Some(y) = y {
            self.y = y;
        }
    }

    pub fn get_coors(&self) -> (res: (i32, i32))
        requires
            i32::fits(self.coors().0),
            i32::fits(self.x - self.w),
        ensures
            res.0 == self.coors().0,
            res.1 == self.coors().1,
    {
        match self.align {
            Align::Left => (self.x + self.padding, self.y),
            Align::Right => (self.x - self.w - self.padding, self.y),
        }
    }
}

} // verus!
