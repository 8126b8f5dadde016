use vstd::prelude::*;
use vstd::string::*;
use vstd::view::View as _;

use crate::entity::{Component, Ports};
use crate::render::entity::port::port_view;
use crate::render::form::grid_rectangle::cells_for;
use crate::render::form::GridRectangle;
use crate::render::grid::{ElementType, CELL};
use crate::render::options::Options;
use crate::render::{Container, Form, Render, Representation, Style, View};
use crate::error::E;
use crate::render::entity::port::ports_height;
use crate::state::State;
use crate::text::{decimal, usize_to_string};

verus! {

/// The least height of a component.
pub const MIN_HEIGHT: i32 = 64;

/// The least width of a component.
pub const MIN_WIDTH: i32 = 64;

/// The ports of a component as they are made ready to draw: every port gets a view, and a
/// port that had one keeps it.
pub open spec fn ports_rendered(before: Ports, after: Ports, options: Options) -> bool {
    &&& after.ports@.len() == before.ports@.len()
    &&& forall|i: int|
        0 <= i < before.ports@.len() ==> {
            let b = #[trigger] before.ports@[i];
            let a = after.ports@[i];
            &&& a is Render
            &&& a.entity() == b.entity()
            &&& b is Render ==> a == b
            &&& b is Origin ==> port_view(a->Render_0.view, b.entity(), options)
                && !a->Render_0.hidden
        }
    &&& after.hide_invisible == before.hide_invisible
    &&& after.sig == before.sig
}

impl Render<Component> {
    pub fn new(entity: Component, options: &Options, ty: Option<ElementType>) -> (res: Self)
        requires
            options.ratio > 0,
        ensures
            res.entity.sig == entity.sig,
            res.entity.composition == entity.composition,
            res.entity.ports is Render,
            entity.ports is Render ==> res.entity.ports == entity.ports,
            entity.ports is Origin ==> ports_rendered(
                entity.ports.entity(),
                res.entity.ports.entity(),
                *options,
            ),
            !res.hidden,
            res.view.elements@.len() == 0,
            res.view.container.form matches Form::GridRectangle(t, g) && t == (match ty {
                Some(t) => t,
                None => ElementType::Component,
            }) && g.x == 0 && g.y == 0 && g.id@ == decimal(entity.sig.id as nat)
                && g.params.cell == CELL * options.ratio && g.cells.0 == cells_for(
                MIN_WIDTH * options.ratio,
                g.params.cell as int,
            ) && g.cells.1 == cells_for(MIN_HEIGHT * options.ratio, g.params.cell as int),
            res.view.container.style.stroke_style@ == "rgb(0,0,0)"@,
            res.view.container.style.fill_style@ == (if entity.composition {
                "rgb(250,200,200)"@
            } else {
                "rgb(200,250,200)"@
            }),
    {
        let Component { sig, ports, composition } = entity;
        let inner = match ty {
            Some(t) => t == ElementType::Composition,
            None => false,
        };
        let ports = match ports {
            Representation::Origin(p) => Representation::Render(Render::<Ports>::new(p, options, inner)),
            Representation::Render(_) => ports,
        };
        let id = sig.id;
        let ratio = options.ratio();
        let form = Form::GridRectangle(
            match ty {
                Some(t) => t,
                None => ElementType::Component,
            },
            GridRectangle::new(
                usize_to_string(id),
                0,
                0,
                ratio.get(MIN_WIDTH),
                ratio.get(MIN_HEIGHT),
                &ratio,
            ),
        );
        Self {
            entity: Component { sig, ports, composition },
            view: View {
                container: Container {
                    form,
                    style: Style {
                        stroke_style: String::from_str("rgb(0,0,0)"),
                        fill_style: if composition {
                            String::from_str("rgb(250,200,200)")
                        } else {
                            String::from_str("rgb(200,250,200)")
                        },
                    },
                },
                elements: Vec::new(),
            },
            hidden: false,
        }
    }

    /// The component stands for a nested composition.
    pub fn is_composition(&self) -> (res: bool)
        ensures
            res == (self.view.container.form.el_ty() == ElementType::Composition),
    {
        *self.view.container.form.get_el_ty() == ElementType::Composition
    }

    /// Paints the component as it stands now: hovered, standing for a composition, selected
    /// or plain; being a match, and then being highlighted, paints over those.
    pub fn restyle(&mut self, state: &State)
        ensures
            final(self).entity == old(self).entity,
            final(self).hidden == old(self).hidden,
            final(self).view.elements == old(self).view.elements,
            final(self).view.container.form == old(self).view.container.form,
            final(self).view.container.style.stroke_style@ == component_colors(
                *state,
                old(self).entity.sig.id,
                old(self).view.container.form.el_ty() == ElementType::Composition,
            ).0,
            final(self).view.container.style.fill_style@ == component_colors(
                *state,
                old(self).entity.sig.id,
                old(self).view.container.form.el_ty() == ElementType::Composition,
            ).1,
    {
        let id = self.entity.sig.id;
        let style = if state.is_highlighted(&id) {
            Style::of("rgb(50,50,50)", "rgb(185,230,255)")
        } else if state.is_match(&id) {
            Style::of("rgb(50,50,50)", "rgb(195,190,190)")
        } else if state.is_hovered(&id) {
            Style::of("rgb(0,0,0)", "rgb(200,200,200)")
        } else if self.is_composition() {
            Style::of("rgb(0,0,0)", "rgb(250,200,200)")
        } else if state.is_component_selected(&id) {
            Style::of("rgb(0,0,0)", "rgb(100,150,100)")
        } else {
            Style::of("rgb(0,0,0)", "rgb(250,250,250)")
        };
        self.view.container.style = style;
    }
}

/// The stroke and fill of a component: a highlight wins over a match, which wins over the
/// hover, which wins over standing for a composition, which wins over being selected.
pub open spec fn component_colors(state: State, id: usize, composition: bool) -> (
    Seq<char>,
    Seq<char>,
) {
    let highlighted = match state.highlighted {
        Some(m) => m@.contains(id),
        None => false,
    };
    let matched = match state.matches {
        Some(m) => m@.contains(id),
        None => false,
    };
    if highlighted {
        ("rgb(50,50,50)"@, "rgb(185,230,255)"@)
    } else if matched {
        ("rgb(50,50,50)"@, "rgb(195,190,190)"@)
    } else if state.hovered == Some(id) {
        ("rgb(0,0,0)"@, "rgb(200,200,200)"@)
    } else if composition {
        ("rgb(0,0,0)"@, "rgb(250,200,200)"@)
    } else if state.components@.contains(id) {
        ("rgb(0,0,0)"@, "rgb(100,150,100)"@)
    } else {
        ("rgb(0,0,0)"@, "rgb(250,250,250)"@)
    }
}

/// The height a component takes: that of its drawn ports, but at least the least height.
pub open spec fn fitted_height(c: Component, state: State, ratio: u8) -> int {
    let least = MIN_HEIGHT * ratio;
    let h = ports_height(c.ports.entity(), state, ratio);
    if h > least {
        h
    } else {
        least
    }
}

impl Render<Component> {
    /// Makes the component as high as its drawn ports need, but at least the least height.
    /// Fails when its ports have no view.
    pub fn fit_height(&mut self, state: &State, options: &Options) -> (res: Result<(), E>)
        requires
            ports_height(old(self).entity.ports.entity(), *state, options.ratio) <= i32::MAX,
            old(self).view.container.form.can_resize(
                None,
                Some(fitted_height(old(self).entity, *state, options.ratio) as i32),
            ),
        ensures
            res is Ok <==> old(self).entity.ports is Render,
            res is Err ==> res == Err::<(), E>(E::RenderNotInited) && *final(self) == *old(self),
            res is Ok ==> {
                &&& final(self).view.container.form.box_size() == old(self).view.container.form.resized(
                    None,
                    Some(fitted_height(old(self).entity, *state, options.ratio) as i32),
                )
                &&& final(self).view.container.form.el_ty() == old(self).view.container.form.el_ty()
                &&& final(self).view.container.form.id_view() == old(self).view.container.form.id_view()
                &&& final(self).view.container.form.raw_pos() == old(self).view.container.form.raw_pos()
                &&& final(self).view.container.style == old(self).view.container.style
                &&& final(self).view.elements == old(self).view.elements
                &&& final(self).entity == old(self).entity
                &&& final(self).hidden == old(self).hidden
            },
    {
        let least = options.ratio().get(MIN_HEIGHT);
        let h = match &self.entity.ports {
            Representation::Render(r) => r.height(state, options),
            Representation::Origin(_) => {
                return Err(E::RenderNotInited);
            },
        };
        let height = if h > least {
            h
        } else {
            least
        };
        self.view.container.set_box_size(None, Some(height));
        Ok(())
    }
}

} // verus!
