use vstd::prelude::*;

use crate::elements::relative::Relative;

verus! {

#[derive(Debug)]
pub struct Rectangle {
    pub x: i32,
    pub y: i32,
    pub w: i32,
    pub h: i32,
}

impl Rectangle {
    pub fn box_height(&self) -> (res: i32)
        ensures
            res == self.h,
    {
        self.h
    }

    pub fn box_width(&self) -> (res: i32)
        ensures
            res == self.w,
    {
        self.w
    }

    pub fn set_box_height(&mut self, h: i32)
        ensures
            *final(self) == (Rectangle { h, ..*old(self) }),
    {
        self.h = h;
    }

    pub fn set_box_width(&mut self, w: i32)
        ensures
            *final(self) == (Rectangle { w, ..*old(self) }),
    {
        self.w = w;
    }

    pub fn set_coors(&mut self, x: Option<i32>, y: Option<i32>)
        ensures
            final(self).x == (match x { Some(v) => v, None => old(self).x }),
            final(self).y == (match y { Some(v) => v, None => old(self).y }),
            final(self).w == old(self).w,
            final(self).h == old(self).h,
    {
        if let Some(x) = x {
            self.x = x;
        }
        if let Some(y) = y {
            self.y = y;
        }
    }

    pub fn get_coors(&self) -> (res: (i32, i32))
        ensures
            res == (self.x, self.y),
    {
        (self.x, self.y)
    }

    pub fn relative(&self) -> (res: Relative)
        ensures
            res.ox() == self.x,
            res.oy() == self.y,
    {
        Relative::new(self.x, self.y)
    }
}

} // verus!
