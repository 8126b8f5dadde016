use vstd::prelude::*;

verus! {

#[derive(Debug, Default)]
pub struct Border {
    pub height: i32,
    pub width: i32,
}

impl Border {
    pub fn set_height(&mut self, height: i32)
        ensures
            final(self).height == height,
            final(self).width == old(self).width,
    {
        self.height = height;
    }

    pub fn set_width(&mut self, width: i32)
        ensures
            final(self).width == width,
            final(self).height == old(self).height,
    {
        self.width = width;
    }
}

} // verus!
