use vstd::prelude::*;

use crate::render::options::RectColor;

verus! {

#[derive(Debug)]
pub struct Style {
    pub stroke_style: String,
    pub fill_style: String,
}

impl Style {
    /// The style that paints with the given colors.
    pub fn from_colors(value: &RectColor) -> (res: Style)
        ensures
            res.stroke_style@ == value.stroke@,
            res.fill_style@ == value.fill@,
    {
        Style { stroke_style: value.stroke.clone(), fill_style: value.fill.clone() }
    }

    /// The style that strokes with one color and fills with another.
    pub fn of(stroke: &str, fill: &str) -> (res: Style)
        ensures
            res.stroke_style@ == stroke@,
            res.fill_style@ == fill@,
    {
        Style { stroke_style: String::from_str(stroke), fill_style: String::from_str(fill) }
    }
}

} // verus!
