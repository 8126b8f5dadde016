use vstd::prelude::*;

use crate::entity::{Component, Composition, PortType, Ports};
use crate::error::E;
use crate::render::entity::comosition::{
    connected, included, link_fits, link_ok, pair_ok, pair_width, paired, settle_ok, settled, too_large,
};
use crate::render::entity::component::{fitted_height, MIN_HEIGHT};
use crate::render::entity::port::{
    fits_height, fits_stack, lemma_stacked_keeps_height, ports_height, side_ready, stack_fits,
    stacked, PORT_SIDE,
};
use crate::render::grid::{Grid, CELL};
use crate::render::options::{Options, PortsRepresentation};
use crate::render::ratio::div_toward_zero;
use crate::render::{Render, Representation};
use crate::state::State;

verus! {

/// Where the first row of port labels starts: half the room a label leaves in a cell, rounded
/// up.
pub open spec fn label_start(cell: int, label_height: int) -> int {
    let gap = cell - label_height;
    if gap >= 0 {
        (gap + 1) / 2
    } else {
        -((-gap) / 2)
    }
}

/// How far inside each edge the port labels stand: half the width, but at most twenty
/// scaled pixels.
pub open spec fn label_inset(width: int, ratio: u8) -> int {
    let half = div_toward_zero(width, 2);
    let most = 20 * ratio;
    if half < most {
        half
    } else {
        most
    }
}

/// Where the ports of a side start, drawn as blocks: half a cell down, centred on the block.
pub open spec fn block_start(ratio: u8) -> int {
    div_toward_zero(CELL * ratio, 2) - div_toward_zero(PORT_SIDE * ratio, 2)
}

/// The ports can be placed in a container `width` wide within the machine integers.
pub open spec fn ports_fit(p: Ports, state: State, width: int, options: Options, label_height: int) -> bool {
    let cell = CELL * options.ratio;
    match options.ports.representation {
        PortsRepresentation::Blocks => {
            let start = block_start(options.ratio);
            &&& stack_fits(p, state, PortType::Left, 0, true, start, cell)
            &&& stack_fits(p, state, PortType::Right, width, true, start, cell)
        },
        PortsRepresentation::Labels => {
            let over = label_inset(width, options.ratio);
            let start = label_start(cell, label_height);
            &&& i32::MIN <= start <= i32::MAX
            &&& i32::MIN <= width - over <= i32::MAX
            &&& stack_fits(p, state, PortType::Left, over, false, start, cell)
            &&& stack_fits(p, state, PortType::Right, width - over, false, start, cell)
        },
    }
}

/// The ports are placed in a container `width` wide, as blocks on its edges or as labels
/// inside them, as the options say: first those of the left side, then those of the right.
pub open spec fn ports_placed(
    before: Ports,
    after: Ports,
    state: State,
    width: int,
    options: Options,
    label_height: int,
) -> bool {
    let cell = CELL * options.ratio;
    match options.ports.representation {
        PortsRepresentation::Blocks => {
            let start = block_start(options.ratio);
            exists|mid: Ports|
                #[trigger] stacked(before, mid, state, PortType::Left, 0, true, start, cell) && stacked(
                    mid,
                    after,
                    state,
                    PortType::Right,
                    width,
                    true,
                    start,
                    cell,
                )
        },
        PortsRepresentation::Labels => {
            let over = label_inset(width, options.ratio);
            let start = label_start(cell, label_height);
            exists|mid: Ports|
                #[trigger] stacked(before, mid, state, PortType::Left, over, false, start, cell)
                    && stacked(mid, after, state, PortType::Right, width - over, false, start, cell)
        },
    }
}

/// Places the drawn ports in a container `width` wide, as blocks or as labels `label_height`
/// high, as the options say. Fails, leaving the ports as they were, when the places would
/// not fit the machine integers, and when a port to place has no view.
pub fn place_ports(
    r: &mut Render<Ports>,
    state: &State,
    width: i32,
    options: &Options,
    label_height: i32,
) -> (res: Result<(), E>)
    ensures
        !ports_fit(old(r).entity, *state, width as int, *options, label_height as int) ==> (res matches Err(
            e,
        ) && e is Other) && *final(r) == *old(r),
        ports_fit(old(r).entity, *state, width as int, *options, label_height as int) ==> {
            &&& res is Ok <==> side_ready(old(r).entity, *state, PortType::Left) && side_ready(
                old(r).entity,
                *state,
                PortType::Right,
            )
            &&& res is Err ==> res == Err::<(), E>(E::RenderNotInited)
            &&& res is Ok ==> ports_placed(
                old(r).entity,
                final(r).entity,
                *state,
                width as int,
                *options,
                label_height as int,
            )
            &&& final(r).view == old(r).view
            &&& final(r).hidden == old(r).hidden
        },
{
    let ratio = options.ratio();
    let cell: i32 = ratio.get(CELL as i32);
    match options.ports.representation {
        PortsRepresentation::Blocks => {
            let start = cell / 2 - ratio.get(PORT_SIDE) / 2;
            if !fits_stack(&r.entity, state, PortType::Left, 0, true, start, cell) || !fits_stack(
                &r.entity,
                state,
                PortType::Right,
                width,
                true,
                start,
                cell,
            ) {
                return Err(too_large());
            }
            r.place_blocks(state, width, options)
        },
        PortsRepresentation::Labels => {
            let wide: i64 = width as i64;
            let half: i64 = if wide >= 0 {
                wide / 2
            } else {
                -((-wide) / 2)
            };
            let most: i64 = ratio.get(20i32) as i64;
            let over: i64 = if half < most {
                half
            } else {
                most
            };
            let gap: i64 = cell as i64 - label_height as i64;
            let start: i64 = if gap >= 0 {
                (gap + 1) / 2
            } else {
                -((-gap) / 2)
            };
            let inner: i64 = wide - over;
            if start < i32::MIN as i64 || start > i32::MAX as i64 || inner < i32::MIN as i64 || inner
                > i32::MAX as i64 {
                return Err(too_large());
            }
            let over = over as i32;
            let start = start as i32;
            if !fits_stack(&r.entity, state, PortType::Left, over, false, start, cell) || !fits_stack(
                &r.entity,
                state,
                PortType::Right,
                inner as i32,
                false,
                start,
                cell,
            ) {
                return Err(too_large());
            }
            r.place_labels(state, width, over, start, cell)
        },
    }
}

/// The component can be laid out within the machine integers: its ports placed across its
/// width and its height fitted to them.
pub open spec fn component_fits(c: Render<Component>, state: State, options: Options, label_height: int) -> bool {
    let form = c.view.container.form;
    &&& form.box_size_fits()
    &&& i32::MIN <= form.box_size().0 <= i32::MAX
    &&& ports_fit(c.entity.ports.entity(), state, form.box_size().0, options, label_height)
    &&& ports_height(c.entity.ports.entity(), state, options.ratio) <= i32::MAX
    &&& form.can_resize(None, Some(fitted_height(c.entity, state, options.ratio) as i32))
}

/// The component laid out: its ports placed across its width, and its height that of its
/// drawn ports, but at least the least height; all else kept.
pub open spec fn component_prepared(
    before: Render<Component>,
    after: Render<Component>,
    state: State,
    options: Options,
    label_height: int,
) -> bool {
    let form = before.view.container.form;
    match (before.entity.ports, after.entity.ports) {
        (Representation::Render(p), Representation::Render(q)) => {
            &&& ports_placed(p.entity, q.entity, state, form.box_size().0, options, label_height)
            &&& q.view == p.view
            &&& q.hidden == p.hidden
            &&& after.entity.sig == before.entity.sig
            &&& after.entity.composition == before.entity.composition
            &&& after.view.container.form.box_size() == form.resized(
                None,
                Some(fitted_height(before.entity, state, options.ratio) as i32),
            )
            &&& after.view.container.form.el_ty() == form.el_ty()
            &&& after.view.container.form.id_view() == form.id_view()
            &&& after.view.container.form.raw_pos() == form.raw_pos()
            &&& after.view.container.style == before.view.container.style
            &&& after.view.elements == before.view.elements
            &&& after.hidden == before.hidden
        },
        _ => false,
    }
}

/// Lays a component out: places its drawn ports across its width, then fits its height to
/// them. Fails, leaving it as it was, when its ports have no view or the layout would not fit
/// the machine integers; and fails when a port to place has no view.
pub fn prepare_component(
    c: &mut Render<Component>,
    state: &State,
    options: &Options,
    label_height: i32,
) -> (res: Result<(), E>)
    ensures
        !(old(c).entity.ports is Render) ==> res == Err::<(), E>(E::RenderNotInited) && *final(c)
            == *old(c),
        old(c).entity.ports is Render && !component_fits(*old(c), *state, *options, label_height as int)
            ==> (res matches Err(e) && e is Other) && *final(c) == *old(c),
        old(c).entity.ports is Render && component_fits(*old(c), *state, *options, label_height as int)
            ==> {
            &&& res is Ok <==> side_ready(old(c).entity.ports.entity(), *state, PortType::Left)
                && side_ready(old(c).entity.ports.entity(), *state, PortType::Right)
            &&& res is Err ==> res == Err::<(), E>(E::RenderNotInited)
            &&& res is Ok ==> component_prepared(*old(c), *final(c), *state, *options, label_height as int)
        },
{
    let ghost before = *c;
    match &c.entity.ports {
        Representation::Render(_) => {},
        Representation::Origin(_) => {
            return Err(E::RenderNotInited);
        },
    }
    let width: i32 = match c.view.container.form.wide_size() {
        Some((w, _h)) => {
            if w < i32::MIN as i64 || w > i32::MAX as i64 {
                return Err(too_large());
            }
            w as i32
        },
        None => {
            return Err(too_large());
        },
    };
    let least: i32 = options.ratio().get(MIN_HEIGHT);
    let fits = match &c.entity.ports {
        Representation::Render(p) => {
            if !fits_height(&p.entity, state, options) {
                false
            } else {
                let h = p.height(state, options);
                let height = if h > least {
                    h
                } else {
                    least
                };
                c.view.container.form.can_resize_height(height) && ports_fit_check(
                    &p.entity,
                    state,
                    width,
                    options,
                    label_height,
                )
            }
        },
        Representation::Origin(_) => {
            return Err(E::RenderNotInited);
        },
    };
    if !fits {
        return Err(too_large());
    }
    match &mut c.entity.ports {
        Representation::Render(p) => {
            let ghost pb = p.entity;
            match place_ports(p, state, width, options, label_height) {
                Ok(()) => {},
                Err(e) => {
                    return Err(e);
                },
            }
            proof {
                let cell = CELL * options.ratio;
                match options.ports.representation {
                    PortsRepresentation::Blocks => {
                        let start = block_start(options.ratio);
                        let mid = choose|mid: Ports|
                            #[trigger] stacked(pb, mid, *state, PortType::Left, 0, true, start, cell)
                                && stacked(mid, p.entity, *state, PortType::Right, width as int, true, start, cell);
                        lemma_stacked_keeps_height(pb, mid, *state, PortType::Left, 0, true, start, cell, options.ratio);
                        lemma_stacked_keeps_height(mid, p.entity, *state, PortType::Right, width as int, true, start, cell, options.ratio);
                    },
                    PortsRepresentation::Labels => {
                        let over = label_inset(width as int, options.ratio);
                        let start = label_start(cell, label_height as int);
                        let mid = choose|mid: Ports|
                            #[trigger] stacked(pb, mid, *state, PortType::Left, over, false, start, cell)
                                && stacked(mid, p.entity, *state, PortType::Right, width - over, false, start, cell);
                        lemma_stacked_keeps_height(pb, mid, *state, PortType::Left, over, false, start, cell, options.ratio);
                        lemma_stacked_keeps_height(mid, p.entity, *state, PortType::Right, width - over, false, start, cell, options.ratio);
                    },
                }
            }
        },
        Representation::Origin(_) => {
            return Err(E::RenderNotInited);
        },
    }
    c.fit_height(state, options)
}

/// Whether the ports can be placed in a container `width` wide within the machine integers.
fn ports_fit_check(p: &Ports, state: &State, width: i32, options: &Options, label_height: i32) -> (res: bool)
    ensures
        res == ports_fit(*p, *state, width as int, *options, label_height as int),
{
    let ratio = options.ratio();
    let cell: i32 = ratio.get(CELL as i32);
    match options.ports.representation {
        PortsRepresentation::Blocks => {
            let start = cell / 2 - ratio.get(PORT_SIDE) / 2;
            fits_stack(p, state, PortType::Left, 0, true, start, cell) && fits_stack(
                p,
                state,
                PortType::Right,
                width,
                true,
                start,
                cell,
            )
        },
        PortsRepresentation::Labels => {
            let wide: i64 = width as i64;
            let half: i64 = if wide >= 0 {
                wide / 2
            } else {
                -((-wide) / 2)
            };
            let most: i64 = ratio.get(20i32) as i64;
            let over: i64 = if half < most {
                half
            } else {
                most
            };
            let gap: i64 = cell as i64 - label_height as i64;
            let start: i64 = if gap >= 0 {
                (gap + 1) / 2
            } else {
                -((-gap) / 2)
            };
            let inner: i64 = wide - over;
            if start < i32::MIN as i64 || start > i32::MAX as i64 || inner < i32::MIN as i64 || inner
                > i32::MAX as i64 {
                return false;
            }
            fits_stack(p, state, PortType::Left, over as i32, false, start as i32, cell) && fits_stack(
                p,
                state,
                PortType::Right,
                inner as i32,
                false,
                start as i32,
                cell,
            )
        },
    }
}

/// Each component that takes part in the drawing laid out; all else kept.
pub open spec fn components_prepared(
    before: Render<Composition>,
    after: Render<Composition>,
    state: State,
    options: Options,
    label_height: int,
) -> bool {
    &&& after.view == before.view
    &&& after.hidden == before.hidden
    &&& after.entity.sig == before.entity.sig
    &&& after.entity.connections == before.entity.connections
    &&& after.entity.compositions == before.entity.compositions
    &&& after.entity.ports == before.entity.ports
    &&& after.entity.parent == before.entity.parent
    &&& after.entity.components@.len() == before.entity.components@.len()
    &&& forall|j: int|
        0 <= j < before.entity.components@.len() ==> {
            let b = before.entity.components@[j];
            let a = #[trigger] after.entity.components@[j];
            if included(state, b.entity().sig.id) {
                &&& b matches Representation::Render(x)
                &&& a matches Representation::Render(y)
                &&& component_prepared(x, y, state, options, label_height)
            } else {
                a == b
            }
        }
}

/// The composition's own ports placed across the width of the grid; all else kept.
pub open spec fn own_ports_prepared(
    before: Render<Composition>,
    after: Render<Composition>,
    g: Grid,
    state: State,
    options: Options,
    label_height: int,
) -> bool {
    match (before.entity.ports, after.entity.ports) {
        (Representation::Render(p), Representation::Render(q)) => {
            &&& ports_placed(p.entity, q.entity, state, g.size.0 * g.cell, options, label_height)
            &&& q.view == p.view
            &&& q.hidden == p.hidden
            &&& after.entity.sig == before.entity.sig
            &&& after.entity.components == before.entity.components
            &&& after.entity.connections == before.entity.connections
            &&& after.entity.compositions == before.entity.compositions
            &&& after.entity.parent == before.entity.parent
            &&& after.view == before.view
            &&& after.hidden == before.hidden
        },
        _ => false,
    }
}

/// The component is ready to be laid out: it and its ports have views, the layout fits the
/// machine integers, and every drawn port has a view.
pub open spec fn component_ready(
    c: Representation<Component>,
    state: State,
    options: Options,
    label_height: int,
) -> bool {
    match c {
        Representation::Render(x) => {
            &&& x.entity.ports is Render
            &&& component_fits(x, state, options, label_height)
            &&& side_ready(x.entity.ports.entity(), state, PortType::Left)
            &&& side_ready(x.entity.ports.entity(), state, PortType::Right)
        },
        Representation::Origin(_) => false,
    }
}

/// Every component that takes part in the drawing is ready to be laid out.
pub open spec fn components_ready(r: Render<Composition>, state: State, options: Options, label_height: int) -> bool {
    forall|j: int|
        0 <= j < r.entity.components@.len() && included(state, r.entity.components@[j].entity().sig.id)
            ==> component_ready(#[trigger] r.entity.components@[j], state, options, label_height)
}

/// The composition's own ports can be placed across a grid `width` pixels wide.
pub open spec fn own_ports_ready(
    r: Render<Composition>,
    width: int,
    state: State,
    options: Options,
    label_height: int,
) -> bool {
    &&& width <= i32::MAX
    &&& r.entity.ports is Render
    &&& ports_fit(r.entity.ports.entity(), state, width, options, label_height)
    &&& side_ready(r.entity.ports.entity(), state, PortType::Left)
    &&& side_ready(r.entity.ports.entity(), state, PortType::Right)
    &&& ports_height(r.entity.ports.entity(), state, options.ratio) <= i32::MAX
}

/// Every connection can get its line: the positions fit the machine integers and all a
/// drawn connection needs has a view.
pub open spec fn connections_ready(r: Render<Composition>, state: State) -> bool {
    &&& r.view.container.form.coors_fit()
    &&& forall|i: int|
        0 <= i < r.entity.connections@.len() ==> link_fits(r, #[trigger] r.entity.connections@[i].entity())
    &&& forall|i: int|
        0 <= i < r.entity.connections@.len() ==> link_ok(r, #[trigger] r.entity.connections@[i], state)
}

/// How laying out fails: at the first step that cannot be taken, after the steps before it.
pub open spec fn lay_out_fails(
    before: Render<Composition>,
    board: Grid,
    board_after: Grid,
    state: State,
    options: Options,
    label_height: int,
) -> bool {
    ||| !components_ready(before, state, options, label_height)
    ||| exists|prepared: Render<Composition>|
        #![trigger components_prepared(before, prepared, state, options, label_height)]
        {
            &&& components_prepared(before, prepared, state, options, label_height)
            &&& {
                ||| !pair_ok(prepared, state, options)
                ||| pair_ok(prepared, state, options) && !own_ports_ready(
                    prepared,
                    pair_width(prepared, state, options),
                    state,
                    options,
                    label_height,
                )
                ||| exists|g: Grid, own: Render<Composition>|
                    #![trigger own_ports_prepared(prepared, own, g, state, options, label_height)]
                    {
                        &&& paired(prepared, state, options, Ok(g))
                        &&& own_ports_prepared(prepared, own, g, state, options, label_height)
                        &&& {
                            ||| !settle_ok(own, g, board, state, options)
                            ||| exists|placed: Render<Composition>|
                                #![trigger settled(own, placed, g, board, board_after, state, options, Ok::<(), E>(()))]
                                settled(own, placed, g, board, board_after, state, options, Ok(()))
                                    && !connections_ready(placed, state)
                        }
                    }
            }
        }
}

impl Render<Composition> {
    /// Lays the composition out and puts it on the board's grid: each component that takes
    /// part in the drawing gets its ports placed and its height fitted; `pair_up` places the
    /// components on a grid of the composition's own; the composition's own ports are placed
    /// across that grid's width; `settle` moves everything to its place and puts the grid into
    /// the board's; then the connections get their lines. Port labels are `label_height`
    /// high. Fails at the first of these steps that cannot be taken.
    pub fn lay_out(&mut self, board: &mut Grid, state: &State, options: &Options, label_height: i32) -> (res:
        Result<(), E>)
        requires
            options.ratio > 0,
            old(board).wf(),
        ensures
            res is Err ==> (res matches Err(e) && (e == E::RenderNotInited || e == E::NotGridForm
                || e is Other)),
            res is Err ==> lay_out_fails(
                *old(self),
                *old(board),
                *final(board),
                *state,
                *options,
                label_height as int,
            ),
            final(board).wf(),
            res is Ok ==> components_ready(*old(self), *state, *options, label_height as int),
            res is Ok ==> exists|
                prepared: Render<Composition>,
                g: Grid,
                own: Render<Composition>,
                placed: Render<Composition>,
            |
                #![trigger components_prepared(*old(self), prepared, *state, *options, label_height as int), own_ports_prepared(prepared, own, g, *state, *options, label_height as int), settled(own, placed, g, *old(board), *final(board), *state, *options, Ok::<(), E>(()))]
                {
                    &&& components_prepared(*old(self), prepared, *state, *options, label_height as int)
                    &&& paired(prepared, *state, *options, Ok(g))
                    &&& own_ports_prepared(prepared, own, g, *state, *options, label_height as int)
                    &&& settled(own, placed, g, *old(board), *final(board), *state, *options, Ok(()))
                    &&& connected(placed, *final(self), Ok(()), options.ratio, *state)
                },
    {
        let ghost before = *self;
        let ghost board_before = *board;
        let ghost lh = label_height as int;
        let mut i: usize = 0;
        while i < self.entity.components.len()
            invariant
                0 <= i <= self.entity.components@.len(),
                *board == board_before,
                board_before.wf(),
                board_before == *old(board),
                before == *old(self),
                lh == label_height as int,
                self.entity.components@.len() == before.entity.components@.len(),
                self.view == before.view,
                self.hidden == before.hidden,
                self.entity.sig == before.entity.sig,
                self.entity.connections == before.entity.connections,
                self.entity.compositions == before.entity.compositions,
                self.entity.ports == before.entity.ports,
                self.entity.parent == before.entity.parent,
                forall|j: int|
                    0 <= j < i ==> {
                        let b = before.entity.components@[j];
                        let a = #[trigger] self.entity.components@[j];
                        if included(*state, b.entity().sig.id) {
                            &&& b matches Representation::Render(x)
                            &&& a matches Representation::Render(y)
                            &&& component_prepared(x, y, *state, *options, lh)
                            &&& component_ready(b, *state, *options, lh)
                        } else {
                            a == b
                        }
                    },
                forall|j: int|
                    i <= j < self.entity.components@.len() ==> #[trigger] self.entity.components@[j]
                        == before.entity.components@[j],
            decreases self.entity.components@.len() - i,
        {
            let id = self.entity.components[i].origin().sig.id;
            if state.is_comp_included(&id) {
                match &mut self.entity.components[i] {
                    Representation::Render(r) => {
                        match prepare_component(r, state, options, label_height) {
                            Ok(()) => {},
                            Err(e) => {
                                proof {
                                    assert(!component_ready(before.entity.components@[i as int], *state, *options, lh));
                                }
                                return Err(e);
                            },
                        }
                    },
                    Representation::Origin(_) => {
                        proof {
                            assert(!component_ready(before.entity.components@[i as int], *state, *options, lh));
                        }
                        return Err(E::RenderNotInited);
                    },
                }
            }
            i = i + 1;
        }
        let ghost prepared = *self;
        assert(components_prepared(before, prepared, *state, *options, lh));
        assert forall|j: int|
            0 <= j < before.entity.components@.len() && included(*state, before.entity.components@[j].entity().sig.id)
                implies component_ready(#[trigger] before.entity.components@[j], *state, *options, lh) by {
            assert(self.entity.components@[j] == prepared.entity.components@[j]);
        }
        assert(components_ready(before, *state, *options, lh));
        let grid = match self.pair_up(state, options) {
            Ok(g) => g,
            Err(e) => {
                return Err(e);
            },
        };
        let ghost g = grid;
        assert((grid.size.0 as int) * (grid.cell as int) <= 0xFFFF_FFFF * 0xFFFF_FFFF) by (nonlinear_arith)
            requires
                0 <= grid.size.0 <= 0xFFFF_FFFF,
                0 <= grid.cell <= 0xFFFF_FFFF,
        ;
        assert(0 <= (grid.size.0 as int) * (grid.cell as int)) by (nonlinear_arith);
        assert(pair_width(prepared, *state, *options) == grid.size.0 * grid.cell);
        let wide: u64 = grid.size.0 as u64 * grid.cell as u64;
        if wide > i32::MAX as u64 {
            return Err(too_large());
        }
        let width = wide as i32;
        match &mut self.entity.ports {
            Representation::Render(p) => {
                let ghost pb = p.entity;
                match place_ports(p, state, width, options, label_height) {
                    Ok(()) => {},
                    Err(e) => {
                        return Err(e);
                    },
                }
                if !fits_height(&p.entity, state, options) {
                    proof {
                        lemma_placed_keeps_height(pb, p.entity, *state, width as int, *options, lh);
                    }
                    return Err(too_large());
                }
                proof {
                    lemma_placed_keeps_height(pb, p.entity, *state, width as int, *options, lh);
                }
            },
            Representation::Origin(_) => {
                return Err(E::RenderNotInited);
            },
        }
        let ghost own = *self;
        assert(own_ports_prepared(prepared, own, g, *state, *options, lh));
        match self.settle(grid, board, state, options) {
            Ok(()) => {},
            Err(e) => {
                return Err(e);
            },
        }
        let ghost placed = *self;
        assert(settled(own, placed, g, board_before, *board, *state, *options, Ok(())));
        let res = self.setup_connections(board, options, state);
        proof {
            if res is Ok {
                assert(components_prepared(before, prepared, *state, *options, lh));
                assert(own_ports_prepared(prepared, own, g, *state, *options, lh));
                assert(settled(own, placed, g, board_before, *board, *state, *options, Ok(())));
            } else {
                assert(!connections_ready(placed, *state));
            }
        }
        res
    }
}

/// Placing the ports keeps how high they are.
proof fn lemma_placed_keeps_height(
    before: Ports,
    after: Ports,
    state: State,
    width: int,
    options: Options,
    label_height: int,
)
    requires
        ports_placed(before, after, state, width, options, label_height),
    ensures
        ports_height(after, state, options.ratio) == ports_height(before, state, options.ratio),
{
    let cell = CELL * options.ratio;
    match options.ports.representation {
        PortsRepresentation::Blocks => {
            let start = block_start(options.ratio);
            let mid = choose|mid: Ports|
                #[trigger] stacked(before, mid, state, PortType::Left, 0, true, start, cell) && stacked(
                    mid,
                    after,
                    state,
                    PortType::Right,
                    width,
                    true,
                    start,
                    cell,
                );
            lemma_stacked_keeps_height(before, mid, state, PortType::Left, 0, true, start, cell, options.ratio);
            lemma_stacked_keeps_height(mid, after, state, PortType::Right, width, true, start, cell, options.ratio);
        },
        PortsRepresentation::Labels => {
            let over = label_inset(width, options.ratio);
            let start = label_start(cell, label_height);
            let mid = choose|mid: Ports|
                #[trigger] stacked(before, mid, state, PortType::Left, over, false, start, cell)
                    && stacked(mid, after, state, PortType::Right, width - over, false, start, cell);
            lemma_stacked_keeps_height(before, mid, state, PortType::Left, over, false, start, cell, options.ratio);
            lemma_stacked_keeps_height(mid, after, state, PortType::Right, width - over, false, start, cell, options.ratio);
        },
    }
}

} // verus!
