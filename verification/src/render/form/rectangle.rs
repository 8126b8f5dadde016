use vstd::prelude::*;

verus! {

#[derive(Debug)]
pub struct Rectangle {
    pub x: i32,
    pub y: i32,
    pub w: i32,
    pub h: i32,
    pub id: String,
}

impl Rectangle {
    pub fn get_box_size(&self) -> (res: (i32, i32))
        ensures
            res == (self.w, self.h),
    {
        (self.w, self.h)
    }

    /// Gives the rectangle the width `w` and height `h` where given; everything else is kept.
    pub fn set_box_size(&mut self, w: Option<i32>, h: Option<i32>)
        ensures
            *final(self) == (Rectangle {
                w: match w { Some(v) => v, None => old(self).w },
                h: match h { Some(v) => v, None => old(self).h },
                ..*old(self)
            }),
    {
        if let Some(w) = w {
            self.w = w;
        }
        if let Some(h) = h {
            self.h = h;
        }
    }

    /// Moves the rectangle to `x`, `y` where given; everything else is kept.
    pub fn set_coors(&mut self, x: Option<i32>, y: Option<i32>)
        ensures
            *final(self) == (Rectangle {
                x: match x { Some(v) => v, None => old(self).x },
                y: match y { Some(v) => v, None => old(self).y },
                ..*old(self)
            }),
    {
        if let Some(x) = x {
            self.x = x;
        }
        if let Some(y) = y {
            self.y = y;
        }
    }

    pub fn get_coors(&self) -> (res: (i32, i32))
        ensures
            res == (self.x, self.y),
    {
        (self.x, self.y)
    }
}

} // verus!
