use vstd::prelude::*;

pub mod elements;
pub mod entity;
pub mod form;
pub mod grid;
pub mod options;
pub mod ratio;
pub mod representation;
pub mod style;

pub use form::{Container, Form, View};
pub use grid::Grid;
pub use ratio::Ratio;
pub use representation::Representation;
pub use style::Style;

verus! {

/// An entity together with the view that draws it.
#[derive(Debug)]
pub struct Render<T> {
    pub entity: T,
    pub view: View,
    pub hidden: bool,
}

impl<T> Render<T> {
    pub fn origin(&self) -> (res: &T)
        ensures
            *res == self.entity,
    {
        &self.entity
    }

    pub fn origin_mut(&mut self) -> (res: &mut T)
        ensures
            *res == old(self).entity,
            final(self).entity == *final(res),
            final(self).view == old(self).view,
            final(self).hidden == old(self).hidden,
    {
        &mut self.entity
    }

    /// Where the view starts on the canvas.
    pub fn own_relative(&self) -> (res: (i32, i32))
        requires
            self.view.container.form.coors_fit(),
        ensures
            res.0 == self.view.container.form.coors().0,
            res.1 == self.view.container.form.coors().1,
    {
        self.view.container.get_coors()
    }

    pub fn set_over_style(&mut self, _style: Option<Style>)
        ensures
            *final(self) == *old(self),
    {
    }

    pub fn conceal(&mut self)
        ensures
            final(self).hidden,
            final(self).entity == old(self).entity,
            final(self).view == old(self).view,
    {
        self.hidden = true;
    }

    pub fn show(&mut self)
        ensures
            !final(self).hidden,
            final(self).entity == old(self).entity,
            final(self).view == old(self).view,
    {
        self.hidden = false;
    }
}

} // verus!
