use vstd::prelude::*;

verus! {

#[derive(Debug)]
pub struct Style {
    pub stroke_color: String,
    pub fill_color: String,
}

} // verus!
