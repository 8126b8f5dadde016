use vstd::prelude::*;

pub mod form;
pub mod style;

pub use form::Form;
pub use style::Style;

verus! {

#[derive(Debug)]
pub struct Representation {
    pub form: Form,
    pub style: Style,
}

} // verus!
