use vstd::prelude::*;
use vstd::string::*;
use vstd::view::View as _;

use crate::entity::Connection;
use crate::render::form::Path;
use crate::render::grid::ElementType;
use crate::render::options::Options;
use crate::render::{Container, Form, Render, Style, View};
use crate::text::{decimal, usize_to_string};

verus! {

impl Render<Connection> {
    pub fn new(entity: Connection, options: &Options) -> (res: Self)
        ensures
            res.entity == entity,
            !res.hidden,
            res.view.elements@.len() == 0,
            res.view.container.form matches Form::Path(ElementType::Connection, p) && p.id@
                == decimal(entity.sig.id as nat) && p.points@.len() == 0 && p.params.radius == 3
                * options.ratio && !p.sdot && !p.edot && !p.sarrow && !p.earrow,
            res.view.container.style.stroke_style@ == "rgb(30,30,30)"@,
            res.view.container.style.fill_style@ == "rgb(30,30,30)"@,
    {
        let id = entity.sig.id;
        Self {
            entity,
            view: View {
                container: Container {
                    form: Form::Path(
                        ElementType::Connection,
                        Path::new(usize_to_string(id), Vec::new(), &options.ratio()),
                    ),
                    style: Style {
                        stroke_style: String::from_str("rgb(30,30,30)"),
                        fill_style: String::from_str("rgb(30,30,30)"),
                    },
                },
                elements: Vec::new(),
            },
            hidden: false,
        }
    }

    /// Marks how the line is drawn: an arrow at its start and a dot at its end.
    pub fn mark_ends(&mut self)
        ensures
            final(self).entity == old(self).entity,
            final(self).hidden == old(self).hidden,
            final(self).view.elements == old(self).view.elements,
            final(self).view.container.style == old(self).view.container.style,
            match old(self).view.container.form {
                Form::Path(ty, p) => final(self).view.container.form == Form::Path(
                    ty,
                    Path { sarrow: true, sdot: false, edot: true, earrow: false, ..p },
                ),
                _ => final(self).view.container.form == old(self).view.container.form,
            },
    {
        if let Form::Path(_, path) = &mut self.view.container.form {
            path.sarrow = true;
            path.sdot = false;
            path.edot = true;
            path.earrow = false;
        }
    }
}

} // verus!
