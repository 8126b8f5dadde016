use vstd::prelude::*;
use vstd::view::View as _;

use crate::entity::comosition::{ordered, placement};
use crate::entity::connection::count_of;
use crate::entity::dummy::SignatureProducer;
use crate::entity::{Component, Composition, Connection, Ports};
use crate::entity::comosition::component_index;
use crate::entity::connection::{names_component, names_port};
use crate::entity::port::{group_views, groups, index_of_id};
use crate::entity::{IsComponentIncluded, IsPortIncluded, Port};
use crate::error::E;
use crate::render::entity::grouping::{
    component_position, composition_index, composition_position, group_ports, group_unbound_ports,
    gathered_as, grouped_as, grouping, lemma_index_bounds_c, lemma_index_bounds_n, same_component_shell,
    same_composition_shell,
};
use crate::render::form::Rectangle;
use crate::render::entity::component::ports_rendered;
use crate::render::entity::port::ports_height;
use crate::render::grid::{
    all_grid_forms, areas_within, column, column_fits, column_width, column_within, has_key, insertion,
    law_put_all_keeps_keys, lemma_column_keys, lemma_insertion_unique, pair_size, pixels_fit, put_all,
    sizes_of, grow_n, ElementCoor, ElementType, Grid, CELL, GRID_LIMIT,
};
use crate::render::options::{GridOptions, Options};
use crate::render::{Container, Form, Render, Representation, Style, View};
use crate::entity::connection::shown_port;
use crate::entity::port::{expanded, selected_ids};
use crate::entity::connection::{
    by_weight, joins, law_by_weight_keeps_tallies, law_linked_tally_joins_host, linked_tally, linked_to_tally,
    owner_shown,
};
use crate::entity::PortType;
use crate::render::form::{Path, Point};
use crate::render::ratio::div_toward_zero;
use crate::state::{holds, State};
use crate::text::{contains_text, decimal, lowercase, occurs_in, to_lowercase, usize_to_string};

verus! {

/// At most how many signatures making the views of the composition takes: three for each
/// connection of a root that groups, and one for the composition and each component that
/// gathers unbound ports, in it and in its nested compositions not drawn yet.
pub open spec fn ids_needed(e: Composition, root: bool, grouping: bool, unbound: bool) -> nat
    decreases e,
{
    (if grouping && root {
        3 * e.connections@.len()
    } else {
        0
    }) + (if unbound {
        1 + e.components@.len()
    } else {
        0
    }) + ids_needed_all(e.compositions@, grouping, unbound)
}

pub open spec fn ids_needed_all(cs: Seq<Representation<Composition>>, grouping: bool, unbound: bool) -> nat
    decreases cs,
{
    if cs.len() == 0 {
        0
    } else {
        ids_needed_all(cs.drop_last(), grouping, unbound) + match cs.last() {
            Representation::Origin(c) => ids_needed(c, false, grouping, unbound),
            Representation::Render(_) => 0,
        }
    }
}

/// How deep the compositions nest.
pub open spec fn depth(e: Composition) -> nat
    decreases e,
{
    1 + depth_all(e.compositions@)
}

pub open spec fn depth_all(cs: Seq<Representation<Composition>>) -> nat
    decreases cs,
{
    if cs.len() == 0 {
        0
    } else {
        let a = depth_all(cs.drop_last());
        let b = match cs.last() {
            Representation::Origin(c) => depth(c),
            Representation::Render(r) => depth(r.entity),
        };
        if a >= b {
            a
        } else {
            b
        }
    }
}

proof fn lemma_depth_all_ge(cs: Seq<Representation<Composition>>, i: int)
    requires
        0 <= i < cs.len(),
    ensures
        depth(cs[i].entity()) <= depth_all(cs),
    decreases cs.len(),
{
    if i < cs.len() - 1 {
        lemma_depth_all_ge(cs.drop_last(), i);
        assert(cs.drop_last()[i] == cs[i]);
    }
}

proof fn lemma_depth_all_same(a: Seq<Representation<Composition>>, b: Seq<Representation<Composition>>)
    requires
        a.len() == b.len(),
        forall|i: int| 0 <= i < a.len() ==> #[trigger] a[i].entity().compositions == b[i].entity().compositions,
    ensures
        depth_all(a) == depth_all(b),
    decreases a.len(),
{
    if a.len() > 0 {
        lemma_depth_all_same(a.drop_last(), b.drop_last());
        assert(a.last().entity().compositions == b.last().entity().compositions);
        assert(depth(a.last().entity()) == depth(b.last().entity()));
    }
}

/// Counts how many signatures making the views of the composition takes at most, as
/// `ids_needed` does; `None` when the count does not fit a `usize`.
pub fn count_ids_needed(e: &Composition, root: bool, grouping: bool, unbound: bool) -> (res: Option<usize>)
    ensures
        res matches Some(n) ==> n == ids_needed(*e, root, grouping, unbound),
        res is None ==> ids_needed(*e, root, grouping, unbound) > usize::MAX,
    decreases depth(*e),
{
    let ghost whole = e.compositions@;
    let first: usize = if grouping && root {
        match e.connections.len().checked_mul(3) {
            Some(v) => v,
            None => {
                return None;
            },
        }
    } else {
        0
    };
    let second: usize = if unbound {
        match e.components.len().checked_add(1) {
            Some(v) => v,
            None => {
                return None;
            },
        }
    } else {
        0
    };
    let mut total: usize = match first.checked_add(second) {
        Some(v) => v,
        None => {
            return None;
        },
    };
    let mut i: usize = 0;
    assert(whole.subrange(0, 0) =~= Seq::<Representation<Composition>>::empty());
    while i < e.compositions.len()
        invariant
            0 <= i <= whole.len(),
            whole == e.compositions@,
            first + second + ids_needed_all(whole, grouping, unbound) == ids_needed(*e, root, grouping, unbound),
            total == first + second + ids_needed_all(whole.subrange(0, i as int), grouping, unbound),
        decreases whole.len() - i,
    {
        let ghost sub = whole.subrange(0, i + 1);
        assert(sub.drop_last() =~= whole.subrange(0, i as int));
        assert(sub.last() == whole[i as int]);
        proof {
            lemma_ids_needed_all_prefix(whole, i + 1, grouping, unbound);
        }
        match &e.compositions[i] {
            Representation::Origin(n) => {
                proof {
                    lemma_depth_all_ge(whole, i as int);
                }
                let more = match count_ids_needed(n, false, grouping, unbound) {
                    Some(v) => v,
                    None => {
                        return None;
                    },
                };
                total = match total.checked_add(more) {
                    Some(v) => v,
                    None => {
                        return None;
                    },
                };
            },
            Representation::Render(_) => {},
        }
        i = i + 1;
    }
    assert(whole.subrange(0, whole.len() as int) =~= whole);
    Some(total)
}

proof fn lemma_ids_needed_all_same(
    a: Seq<Representation<Composition>>,
    b: Seq<Representation<Composition>>,
    grouping: bool,
    unbound: bool,
)
    requires
        a.len() == b.len(),
        forall|i: int| 0 <= i < a.len() ==> same_composition_shell(a[i], #[trigger] b[i]),
    ensures
        ids_needed_all(a, grouping, unbound) == ids_needed_all(b, grouping, unbound),
    decreases a.len(),
{
    if a.len() > 0 {
        lemma_ids_needed_all_same(a.drop_last(), b.drop_last(), grouping, unbound);
        assert(same_composition_shell(a.last(), b.last()));
        match (a.last(), b.last()) {
            (Representation::Origin(x), Representation::Origin(y)) => {
                assert(x.components == y.components);
                assert(x.connections == y.connections);
                assert(x.compositions == y.compositions);
                assert(ids_needed(x, false, grouping, unbound) == ids_needed(y, false, grouping, unbound));
            },
            _ => {},
        }
    }
}

proof fn lemma_placement_range(
    r: Seq<Representation<Component>>,
    conns: Seq<Representation<Connection>>,
    k: nat,
)
    ensures
        0 <= placement(r, conns, k) <= r.len(),
    decreases r.len(),
{
    if r.len() > 0 {
        lemma_placement_range(r.drop_last(), conns, k);
    }
}

proof fn lemma_ordered_all_render(
    cs: Seq<Representation<Component>>,
    conns: Seq<Representation<Connection>>,
)
    requires
        forall|i: int| 0 <= i < cs.len() ==> #[trigger] cs[i] is Render,
    ensures
        ordered(cs, conns).len() == cs.len(),
        forall|i: int| 0 <= i < cs.len() ==> #[trigger] ordered(cs, conns)[i] is Render,
    decreases cs.len(),
{
    if cs.len() > 0 {
        let d = cs.drop_last();
        assert forall|i: int| 0 <= i < d.len() implies #[trigger] d[i] is Render by {
            assert(d[i] == cs[i]);
        }
        lemma_ordered_all_render(d, conns);
        let r = ordered(d, conns);
        let x = cs.last();
        let p = placement(r, conns, count_of(conns, x.entity().sig.id));
        lemma_placement_range(r, conns, count_of(conns, x.entity().sig.id));
        assert forall|i: int| 0 <= i < cs.len() implies #[trigger] ordered(cs, conns)[i] is Render by {
            let o = r.insert(p, x);
            assert(ordered(cs, conns) == o);
            if i < p {
                assert(o[i] == r[i]);
            } else if i == p {
                assert(o[i] == x);
            } else {
                assert(o[i] == r[i - 1]);
            }
        }
    }
}

proof fn lemma_ids_needed_all_prefix(
    cs: Seq<Representation<Composition>>,
    k: int,
    grouping: bool,
    unbound: bool,
)
    requires
        0 <= k <= cs.len(),
    ensures
        ids_needed_all(cs.subrange(0, k), grouping, unbound) <= ids_needed_all(cs, grouping, unbound),
    decreases cs.len() - k,
{
    if k < cs.len() {
        lemma_ids_needed_all_prefix(cs, k + 1, grouping, unbound);
        let s = cs.subrange(0, k + 1);
        assert(s.drop_last() =~= cs.subrange(0, k));
    } else {
        assert(cs.subrange(0, k) =~= cs);
    }
}

/// A component as it is made ready to draw: it gets a view with its ports drawn, and one that
/// had a view keeps it.
pub open spec fn component_drawn(b: Representation<Component>, a: Representation<Component>, options: Options) -> bool {
    &&& a is Render
    &&& b is Render ==> a == b
    &&& b is Origin ==> {
        let x = a->Render_0.entity;
        let y = b.entity();
        &&& x.sig == y.sig
        &&& x.composition == y.composition
        &&& x.ports is Render
        &&& y.ports is Render ==> x.ports == y.ports
        &&& y.ports is Origin ==> ports_rendered(y.ports.entity(), x.ports.entity(), options)
    }
}

/// The stages a nested composition goes through on its way to being drawn: grouped, then
/// gathered, with ids made up from `start`.
pub open spec fn stages(grouped: Composition, gathered: Composition, start: int) -> bool {
    true
}

/// The view a composition gets when it is made ready to draw: shown, a 100 by 100 rectangle
/// at the origin with the composition's id, painted with the composition colours.
pub open spec fn fresh_view(x: Render<Composition>, options: Options) -> bool {
    &&& !x.hidden
    &&& x.view.elements@.len() == 0
    &&& x.view.container.form matches Form::Rectangle(ElementType::Composition, r) && r.x == 0
        && r.y == 0 && r.w == 100 && r.h == 100 && r.id@ == decimal(x.entity.sig.id as nat)
    &&& x.view.container.style.stroke_style@ == options.scheme.composition_rect.stroke@
    &&& x.view.container.style.fill_style@ == options.scheme.composition_rect.fill@
}

/// `r` is `g` made ready to draw: every component, nested composition and connection and the
/// ports get views (those that had one keep it), and the components are ordered by how many
/// connections name them. A nested composition without a view is made ready in turn, as one
/// that is not the root; `d` bounds how deep they nest.
pub open spec fn drawn_from(g: Composition, r: Composition, options: Options, d: nat) -> bool
    decreases d, 0nat,
{
    &&& r.sig == g.sig
    &&& r.parent == g.parent
    &&& r.connections@.len() == g.connections@.len()
    &&& forall|i: int|
        0 <= i < g.connections@.len() ==> #[trigger] r.connections@[i] is Render
            && r.connections@[i].entity() == g.connections@[i].entity() && (g.connections@[i] is Render
            ==> r.connections@[i] == g.connections@[i])
    &&& r.ports is Render
    &&& g.ports is Render ==> r.ports == g.ports
    &&& g.ports is Origin ==> ports_rendered(g.ports.entity(), r.ports.entity(), options)
    &&& r.compositions@.len() == g.compositions@.len()
    &&& forall|i: int|
        0 <= i < g.compositions@.len() ==> {
            let n = g.compositions@[i];
            let x = #[trigger] r.compositions@[i];
            &&& x is Render
            &&& x.entity().sig == n.entity().sig
            &&& n is Render ==> x == n
            &&& n is Origin ==> if depth(n.entity()) < d {
                &&& fresh_view(x->Render_0, options)
                &&& exists|grouped: Composition, gathered: Composition, start: int|
                    #![trigger stages(grouped, gathered, start)]
                    stages(grouped, gathered, start) && made_ready(
                        n.entity(),
                        grouped,
                        gathered,
                        x.entity(),
                        false,
                        options,
                        start,
                        depth(n.entity()),
                    )
            } else {
                false
            }
        }
    &&& exists|pre: Seq<Representation<Component>>|
        #![trigger ordered(pre, r.connections@)]
        {
            &&& pre.len() == g.components@.len()
            &&& forall|i: int|
                0 <= i < pre.len() ==> component_drawn(g.components@[i], #[trigger] pre[i], options)
            &&& r.components@ == ordered(pre, r.connections@)
        }
}

/// The parts of `drawn_from`, put together.
proof fn lemma_drawn_from_intro(g: Composition, r: Composition, options: Options, d: nat)
    requires
        r.sig == g.sig,
        r.parent == g.parent,
        r.connections@.len() == g.connections@.len(),
        forall|i: int|
            0 <= i < g.connections@.len() ==> #[trigger] r.connections@[i] is Render
                && r.connections@[i].entity() == g.connections@[i].entity() && (g.connections@[i] is Render
                ==> r.connections@[i] == g.connections@[i]),
        r.ports is Render,
        g.ports is Render ==> r.ports == g.ports,
        g.ports is Origin ==> ports_rendered(g.ports.entity(), r.ports.entity(), options),
        r.compositions@.len() == g.compositions@.len(),
        forall|i: int|
            0 <= i < g.compositions@.len() ==> {
                let n = g.compositions@[i];
                let x = #[trigger] r.compositions@[i];
                &&& x is Render
                &&& x.entity().sig == n.entity().sig
                &&& n is Render ==> x == n
                &&& n is Origin ==> if depth(n.entity()) < d {
                    &&& fresh_view(x->Render_0, options)
                    &&& exists|grouped: Composition, gathered: Composition, start: int|
                        #![trigger stages(grouped, gathered, start)]
                        stages(grouped, gathered, start) && made_ready(
                            n.entity(),
                            grouped,
                            gathered,
                            x.entity(),
                            false,
                            options,
                            start,
                            depth(n.entity()),
                        )
                } else {
                    false
                }
            },
        exists|pre: Seq<Representation<Component>>|
            #![trigger ordered(pre, r.connections@)]
            {
                &&& pre.len() == g.components@.len()
                &&& forall|i: int|
                    0 <= i < pre.len() ==> component_drawn(g.components@[i], #[trigger] pre[i], options)
                &&& r.components@ == ordered(pre, r.connections@)
            },
    ensures
        drawn_from(g, r, options, d),
{
}

/// The steps that make `before` ready to draw, with ids made up from `start`: a root whose
/// options group has its connections grouped into `grouped` (else `grouped` is `before`);
/// unbound ports are gathered into `gathered` when the options say so (else it is `grouped`);
/// and `after` is `gathered` with its views. `d` bounds how deep the compositions nest.
pub open spec fn made_ready(
    before: Composition,
    grouped: Composition,
    gathered: Composition,
    after: Composition,
    root: bool,
    options: Options,
    start: int,
    d: nat,
) -> bool
    decreases d, 1nat,
{
    let grouping_on = options.ports.grouping && root;
    &&& if grouping_on {
        grouped_as(before, grouped, start)
    } else {
        grouped == before
    }
    &&& if options.ports.group_unbound {
        gathered_as(
            grouped,
            gathered,
            start + if grouping_on {
                3 * grouping(before.connections@, before.ports.entity().ports@).len()
            } else {
                0
            },
        )
    } else {
        gathered == grouped
    }
    &&& drawn_from(gathered, after, options, d)
}

/// The components drawn: each gets a view, and one that had one keeps it.
fn render_components(cs: Vec<Representation<Component>>, options: &Options) -> (res: Vec<
    Representation<Component>,
>)
    requires
        options.ratio > 0,
    ensures
        res@.len() == cs@.len(),
        forall|i: int|
            0 <= i < cs@.len() ==> #[trigger] res@[i] is Render && res@[i].entity().sig
                == cs@[i].entity().sig && component_drawn(cs@[i], res@[i], *options),
{
    let ghost before = cs@;
    let mut source = cs;
    let mut res: Vec<Representation<Component>> = Vec::new();
    let n = source.len();
    let mut i: usize = 0;
    while i < n
        invariant
            n == before.len(),
            0 <= i <= n,
            options.ratio > 0,
            source@ == before.subrange(i as int, n as int),
            res@.len() == i,
            forall|j: int|
                0 <= j < i ==> #[trigger] res@[j] is Render && res@[j].entity().sig
                    == before[j].entity().sig && component_drawn(before[j], res@[j], *options),
        decreases n - i,
    {
        let r = source.remove(0);
        assert(r == before[i as int]);
        let drawn = match r {
            Representation::Origin(c) => Representation::Render(
                Render::<Component>::new(c, options, None),
            ),
            Representation::Render(_) => r,
        };
        res.push(drawn);
        assert(source@ =~= before.subrange(i + 1, n as int));
        i = i + 1;
    }
    res
}

/// The connections drawn: each gets a view, and one that had one keeps it.
fn render_connections(cs: Vec<Representation<Connection>>, options: &Options) -> (res: Vec<
    Representation<Connection>,
>)
    ensures
        res@.len() == cs@.len(),
        forall|i: int|
            0 <= i < cs@.len() ==> #[trigger] res@[i] is Render && res@[i].entity()
                == cs@[i].entity() && (cs@[i] is Render ==> res@[i] == cs@[i]),
{
    let ghost before = cs@;
    let mut source = cs;
    let mut res: Vec<Representation<Connection>> = Vec::new();
    let n = source.len();
    let mut i: usize = 0;
    while i < n
        invariant
            n == before.len(),
            0 <= i <= n,
            source@ == before.subrange(i as int, n as int),
            res@.len() == i,
            forall|j: int|
                0 <= j < i ==> #[trigger] res@[j] is Render && res@[j].entity() == before[j].entity()
                    && (before[j] is Render ==> res@[j] == before[j]),
        decreases n - i,
    {
        let r = source.remove(0);
        assert(r == before[i as int]);
        let drawn = match r {
            Representation::Origin(c) => Representation::Render(
                Render::<Connection>::new(c, options),
            ),
            Representation::Render(_) => r,
        };
        res.push(drawn);
        assert(source@ =~= before.subrange(i + 1, n as int));
        i = i + 1;
    }
    res
}

impl Render<Composition> {
    /// Makes the composition ready to draw: a root that groups gets its connections grouped,
    /// unbound ports are gathered when asked for, and then every component, nested
    /// composition, connection and the ports get views; components are ordered by how many
    /// connections name them.
    pub fn new(
        entity: Composition,
        root: bool,
        options: &Options,
        sig_producer: &mut SignatureProducer,
    ) -> (res: Self)
        requires
            options.ratio > 0,
            options.ports.grouping && root ==> entity.connections@.len() <= usize::MAX / 2,
            old(sig_producer).value() + ids_needed(
                entity,
                root,
                options.ports.grouping,
                options.ports.group_unbound,
            ) <= usize::MAX,
        ensures
            old(sig_producer).value() <= final(sig_producer).value() <= old(sig_producer).value()
                + ids_needed(entity, root, options.ports.grouping, options.ports.group_unbound),
            res.entity.sig == entity.sig,
            res.entity.parent == entity.parent,
            !res.hidden,
            fresh_view(res, *options),
            res.entity.connections@.len() == entity.connections@.len() + if options.ports.grouping
                && root {
                grouping(entity.connections@, entity.ports.entity().ports@).len()
            } else {
                0
            },
            exists|grouped: Composition, gathered: Composition|
                made_ready(
                    entity,
                    grouped,
                    gathered,
                    res.entity,
                    root,
                    *options,
                    old(sig_producer).value() as int,
                    depth(entity),
                ),
        decreases depth(entity),
    {
        let ghost start = sig_producer.value() as int;
        let ghost orig = entity;
        let ghost g = options.ports.grouping;
        let ghost u = options.ports.group_unbound;
        let mut e = entity;
        proof {
            crate::render::entity::grouping::lemma_grouping_len(
                orig.connections@,
                orig.ports.entity().ports@,
            );
        }
        if options.ports.grouping && root {
            group_ports(&mut e, sig_producer);
        }
        let ghost after_group = e;
        assert(sig_producer.value() <= start + (if g && root {
            3 * orig.connections@.len()
        } else {
            0
        }));
        assert forall|i: int| 0 <= i < orig.compositions@.len() implies same_composition_shell(
            orig.compositions@[i],
            #[trigger] after_group.compositions@[i],
        ) by {}
        assert(after_group.components@.len() == orig.components@.len());
        proof {
            crate::render::entity::grouping::lemma_gatherings_bound(after_group);
        }
        let ghost group_end = sig_producer.value() as int;
        if options.ports.group_unbound {
            group_unbound_ports(&mut e, sig_producer);
        }
        let ghost after_gather = e;
        proof {
            lemma_ids_needed_all_same(orig.compositions@, e.compositions@, g, u);
            lemma_depth_all_same(orig.compositions@, e.compositions@);
        }
        let ghost base = sig_producer.value() as int;
        assert(base + ids_needed_all(e.compositions@, g, u) <= start + ids_needed(
            orig,
            root,
            g,
            u,
        ));
        let Composition { sig, components, connections, compositions, ports, parent } = e;
        let components = render_components(components, options);
        let ghost nested = compositions@;
        let mut source = compositions;
        let mut drawn: Vec<Representation<Composition>> = Vec::new();
        let n = source.len();
        let mut i: usize = 0;
        assert(nested.subrange(0, 0) =~= Seq::<Representation<Composition>>::empty());
        while i < n
            invariant
                n == nested.len(),
                0 <= i <= n,
                options.ratio > 0,
                source@ == nested.subrange(i as int, n as int),
                drawn@.len() == i,
                forall|j: int|
                    0 <= j < i ==> #[trigger] drawn@[j] is Render && drawn@[j].entity().sig
                        == nested[j].entity().sig && (nested[j] is Render ==> drawn@[j]
                        == nested[j]) && (nested[j] is Origin ==> depth(nested[j].entity()) < depth(orig)
                        && fresh_view(drawn@[j]->Render_0, *options) && exists|
                        grouped: Composition,
                        gathered: Composition,
                        start: int,
                    |
                        #![trigger stages(grouped, gathered, start)]
                        stages(grouped, gathered, start) && made_ready(
                            nested[j].entity(),
                            grouped,
                            gathered,
                            drawn@[j].entity(),
                            false,
                            *options,
                            start,
                            depth(nested[j].entity()),
                        )),
                base <= sig_producer.value() <= base + ids_needed_all(
                    nested.subrange(0, i as int),
                    g,
                    u,
                ),
                base + ids_needed_all(nested, g, u) <= usize::MAX,
                depth_all(nested) < depth(orig),
                orig == entity,
                g == options.ports.grouping,
                u == options.ports.group_unbound,
            decreases n - i,
        {
            let ghost sub = nested.subrange(0, i + 1);
            assert(sub.drop_last() =~= nested.subrange(0, i as int));
            proof {
                lemma_ids_needed_all_prefix(nested, i + 1, g, u);
                lemma_depth_all_ge(nested, i as int);
            }
            let r = source.remove(0);
            assert(r == nested[i as int]);
            let d = match r {
                Representation::Origin(c) => {
                    assert(depth(c) < depth(orig));
                    let ghost v = sig_producer.value() as int;
                    let ghost cc = c;
                    let made = Render::<Composition>::new(c, false, options, sig_producer);
                    proof {
                        let w = choose|a: Composition, b: Composition|
                            made_ready(cc, a, b, made.entity, false, *options, v, depth(cc));
                        assert(stages(w.0, w.1, v));
                    }
                    Representation::Render(made)
                },
                Representation::Render(_) => r,
            };
            drawn.push(d);
            assert(source@ =~= nested.subrange(i + 1, n as int));
            i = i + 1;
        }
        assert(nested.subrange(0, n as int) =~= nested);
        let connections = render_connections(connections, options);
        let ports = match ports {
            Representation::Origin(p) => Representation::Render(Render::<Ports>::new(p, options, false)),
            Representation::Render(_) => ports,
        };
        let mut result = Composition {
            sig,
            components,
            connections,
            compositions: drawn,
            ports,
            parent,
        };
        let ghost pre = result.components@;
        result.order();
        proof {
            lemma_ordered_all_render(pre, result.connections@);
            assert(after_gather.compositions@ == nested);
            assert forall|j: int| 0 <= j < nested.len() implies {
                let nn = nested[j];
                let x = #[trigger] result.compositions@[j];
                &&& x is Render
                &&& x.entity().sig == nn.entity().sig
                &&& nn is Render ==> x == nn
                &&& nn is Origin ==> if depth(nn.entity()) < depth(orig) {
                    &&& fresh_view(x->Render_0, *options)
                    &&& exists|grouped: Composition, gathered: Composition, start: int|
                        #![trigger stages(grouped, gathered, start)]
                        stages(grouped, gathered, start) && made_ready(
                            nn.entity(),
                            grouped,
                            gathered,
                            x.entity(),
                            false,
                            *options,
                            start,
                            depth(nn.entity()),
                        )
                } else {
                    false
                }
            } by {
                assert(result.compositions@[j] == drawn@[j]);
            }
            lemma_drawn_from_intro(after_gather, result, *options, depth(orig));
            if g && root {
                assert(group_end == start + 3 * grouping(orig.connections@, orig.ports.entity().ports@).len());
            }
            assert(made_ready(orig, after_group, after_gather, result, root, *options, start, depth(orig)));
        }
        let id = result.sig.id;
        Self {
            entity: result,
            view: View {
                container: Container {
                    form: Form::Rectangle(
                        ElementType::Composition,
                        Rectangle { id: usize_to_string(id), x: 0, y: 0, w: 100, h: 100 },
                    ),
                    style: Style::from_colors(&options.scheme.composition_rect),
                },
                elements: Vec::new(),
            },
            hidden: false,
        }
    }
}

/// The ids of the ports the filter selects among the ports.
pub open spec fn picked(ports: Ports, filter: Seq<char>) -> Seq<usize> {
    selected_ids(ports.ports@, filter, ports.ports@)
}

/// The ports each component's filter selects, component after component.
pub open spec fn picked_in_components(cs: Seq<Representation<Component>>, filter: Seq<char>) -> Seq<usize>
    decreases cs.len(),
{
    if cs.len() == 0 {
        seq![]
    } else {
        picked_in_components(cs.drop_last(), filter) + picked(cs.last().entity().ports.entity(), filter)
    }
}

/// The ports each nested composition's filter selects among its own ports.
pub open spec fn picked_in_nested(cs: Seq<Representation<Composition>>, filter: Seq<char>) -> Seq<usize>
    decreases cs.len(),
{
    if cs.len() == 0 {
        seq![]
    } else {
        picked_in_nested(cs.drop_last(), filter) + picked(cs.last().entity().ports.entity(), filter)
    }
}

/// The ports of the components, of the nested compositions and of the composition itself that
/// the filter selects.
pub open spec fn picked_all(e: Composition, filter: Seq<char>) -> Seq<usize> {
    picked_in_components(e.components@, filter) + picked_in_nested(e.compositions@, filter)
        + picked(e.ports.entity(), filter)
}

/// For each connection with one end among the ids, the other end, looked at from the in end
/// first.
pub open spec fn other_ends(conns: Seq<Representation<Connection>>, ids: Seq<usize>) -> Seq<usize>
    decreases conns.len(),
{
    if conns.len() == 0 {
        seq![]
    } else {
        let r = other_ends(conns.drop_last(), ids);
        let c = conns.last().entity();
        if ids.contains(shown_port(c.joint_in)) {
            r.push(shown_port(c.joint_out))
        } else if ids.contains(shown_port(c.joint_out)) {
            r.push(shown_port(c.joint_in))
        } else {
            r
        }
    }
}

/// For each connection with one component among the ids, the component at the other end,
/// looked at from the in end first.
pub open spec fn other_components(conns: Seq<Representation<Connection>>, ids: Seq<usize>) -> Seq<usize>
    decreases conns.len(),
{
    if conns.len() == 0 {
        seq![]
    } else {
        let r = other_components(conns.drop_last(), ids);
        let c = conns.last().entity();
        if ids.contains(c.joint_in.component) {
            r.push(c.joint_out.component)
        } else if ids.contains(c.joint_out.component) {
            r.push(c.joint_in.component)
        } else {
            r
        }
    }
}

/// `x` is the port at the other end of the connection from a port among the ids: the out end
/// when the in end is among them, else the in end when the out end is.
pub open spec fn linked_end(c: Connection, ids: Seq<usize>, x: usize) -> bool {
    ||| ids.contains(shown_port(c.joint_in)) && x == shown_port(c.joint_out)
    ||| !ids.contains(shown_port(c.joint_in)) && ids.contains(shown_port(c.joint_out)) && x == shown_port(
        c.joint_in,
    )
}

/// The ports linked to the found ones are the ports at the other end of each connection with
/// a found port, whichever end that port is at, and no others.
pub proof fn law_linked_ports_are_other_ends(conns: Seq<Representation<Connection>>, ids: Seq<usize>)
    ensures
        forall|i: int|
            #![trigger conns[i]]
            0 <= i < conns.len() && ids.contains(shown_port(conns[i].entity().joint_in)) ==> other_ends(
                conns,
                ids,
            ).contains(shown_port(conns[i].entity().joint_out)),
        forall|i: int|
            #![trigger conns[i]]
            0 <= i < conns.len() && ids.contains(shown_port(conns[i].entity().joint_out)) && !ids.contains(
                shown_port(conns[i].entity().joint_in),
            ) ==> other_ends(conns, ids).contains(shown_port(conns[i].entity().joint_in)),
        forall|x: usize|
            #[trigger] other_ends(conns, ids).contains(x) ==> exists|i: int|
                0 <= i < conns.len() && linked_end(conns[i].entity(), ids, x),
    decreases conns.len(),
{
    if conns.len() > 0 {
        let prev = conns.drop_last();
        let c = conns.last().entity();
        law_linked_ports_are_other_ends(prev, ids);
        let o0 = other_ends(prev, ids);
        let o = other_ends(conns, ids);
        assert forall|x: usize| o0.contains(x) implies o.contains(x) by {
            let k = choose|k: int| 0 <= k < o0.len() && o0[k] == x;
            assert(o[k] == x);
        }
        assert forall|i: int|
            #![trigger conns[i]]
            0 <= i < conns.len() && ids.contains(shown_port(conns[i].entity().joint_in)) implies o.contains(
                shown_port(conns[i].entity().joint_out),
            ) by {
            if i < conns.len() - 1 {
                assert(prev[i] == conns[i]);
            } else {
                assert(o[o.len() - 1] == shown_port(c.joint_out));
            }
        }
        assert forall|i: int|
            #![trigger conns[i]]
            0 <= i < conns.len() && ids.contains(shown_port(conns[i].entity().joint_out)) && !ids.contains(
                shown_port(conns[i].entity().joint_in),
            ) implies o.contains(shown_port(conns[i].entity().joint_in)) by {
            if i < conns.len() - 1 {
                assert(prev[i] == conns[i]);
            } else {
                assert(o[o.len() - 1] == shown_port(c.joint_in));
            }
        }
        assert forall|x: usize| #[trigger] o.contains(x) implies exists|i: int|
            0 <= i < conns.len() && linked_end(conns[i].entity(), ids, x) by {
            if o0.contains(x) {
                let i = choose|i: int| 0 <= i < prev.len() && linked_end(prev[i].entity(), ids, x);
                assert(conns[i] == prev[i]);
            } else {
                let k = choose|k: int| 0 <= k < o.len() && o[k] == x;
                if k < o0.len() {
                    assert(o0[k] == x);
                }
                assert(linked_end(conns[conns.len() - 1].entity(), ids, x));
            }
        }
    }
}

/// `x` is the component at the other end of the connection from a component among the ids.
pub open spec fn linked_component(c: Connection, ids: Seq<usize>, x: usize) -> bool {
    ||| ids.contains(c.joint_in.component) && x == c.joint_out.component
    ||| !ids.contains(c.joint_in.component) && ids.contains(c.joint_out.component) && x == c.joint_in.component
}

/// The components linked to the targeted ones are the components at the other end of each
/// connection with a targeted component, whichever end it is at, and no others.
pub proof fn law_linked_components_are_other_ends(conns: Seq<Representation<Connection>>, ids: Seq<usize>)
    ensures
        forall|i: int|
            #![trigger conns[i]]
            0 <= i < conns.len() && ids.contains(conns[i].entity().joint_in.component) ==> other_components(
                conns,
                ids,
            ).contains(conns[i].entity().joint_out.component),
        forall|i: int|
            #![trigger conns[i]]
            0 <= i < conns.len() && ids.contains(conns[i].entity().joint_out.component) && !ids.contains(
                conns[i].entity().joint_in.component,
            ) ==> other_components(conns, ids).contains(conns[i].entity().joint_in.component),
        forall|x: usize|
            #[trigger] other_components(conns, ids).contains(x) ==> exists|i: int|
                0 <= i < conns.len() && linked_component(conns[i].entity(), ids, x),
    decreases conns.len(),
{
    if conns.len() > 0 {
        let prev = conns.drop_last();
        let c = conns.last().entity();
        law_linked_components_are_other_ends(prev, ids);
        let o0 = other_components(prev, ids);
        let o = other_components(conns, ids);
        assert forall|x: usize| o0.contains(x) implies o.contains(x) by {
            let k = choose|k: int| 0 <= k < o0.len() && o0[k] == x;
            assert(o[k] == x);
        }
        assert forall|i: int|
            #![trigger conns[i]]
            0 <= i < conns.len() && ids.contains(conns[i].entity().joint_in.component) implies o.contains(
                conns[i].entity().joint_out.component,
            ) by {
            if i < conns.len() - 1 {
                assert(prev[i] == conns[i]);
            } else {
                assert(o[o.len() - 1] == c.joint_out.component);
            }
        }
        assert forall|i: int|
            #![trigger conns[i]]
            0 <= i < conns.len() && ids.contains(conns[i].entity().joint_out.component) && !ids.contains(
                conns[i].entity().joint_in.component,
            ) implies o.contains(conns[i].entity().joint_in.component) by {
            if i < conns.len() - 1 {
                assert(prev[i] == conns[i]);
            } else {
                assert(o[o.len() - 1] == c.joint_in.component);
            }
        }
        assert forall|x: usize| #[trigger] o.contains(x) implies exists|i: int|
            0 <= i < conns.len() && linked_component(conns[i].entity(), ids, x) by {
            if o0.contains(x) {
                let i = choose|i: int| 0 <= i < prev.len() && linked_component(prev[i].entity(), ids, x);
                assert(conns[i] == prev[i]);
            } else {
                let k = choose|k: int| 0 <= k < o.len() && o[k] == x;
                if k < o0.len() {
                    assert(o0[k] == x);
                }
                assert(linked_component(conns[conns.len() - 1].entity(), ids, x));
            }
        }
    }
}

/// A component is targeted by a filter exactly when its short name, in lowercase, holds the
/// filter in lowercase; its class name plays no part.
pub proof fn law_targeted_by_short_name(cs: Seq<Representation<Component>>, filter: Seq<char>)
    ensures
        forall|x: usize|
            #[trigger] titled_components(cs, filter).contains(x) <==> exists|i: int|
                0 <= i < cs.len() && cs[i].entity().sig.id == x && occurs_in(
                    lowercase(cs[i].entity().sig.short_name@),
                    lowercase(filter),
                ),
    decreases cs.len(),
{
    if cs.len() > 0 {
        let prev = cs.drop_last();
        law_targeted_by_short_name(prev, filter);
        let o0 = titled_components(prev, filter);
        let o = titled_components(cs, filter);
        let last = cs.last().entity();
        assert forall|x: usize| #[trigger] o.contains(x) <==> exists|i: int|
            0 <= i < cs.len() && cs[i].entity().sig.id == x && occurs_in(
                lowercase(cs[i].entity().sig.short_name@),
                lowercase(filter),
            ) by {
            if o.contains(x) {
                let k = choose|k: int| 0 <= k < o.len() && o[k] == x;
                if k < o0.len() {
                    assert(o0[k] == x);
                    assert(o0.contains(x));
                    let i = choose|i: int|
                        0 <= i < prev.len() && prev[i].entity().sig.id == x && occurs_in(
                            lowercase(prev[i].entity().sig.short_name@),
                            lowercase(filter),
                        );
                    assert(cs[i] == prev[i]);
                } else {
                    assert(cs[cs.len() - 1].entity().sig.id == x);
                }
            }
            if exists|i: int|
                0 <= i < cs.len() && cs[i].entity().sig.id == x && occurs_in(
                    lowercase(cs[i].entity().sig.short_name@),
                    lowercase(filter),
                ) {
                let i = choose|i: int|
                    0 <= i < cs.len() && cs[i].entity().sig.id == x && occurs_in(
                        lowercase(cs[i].entity().sig.short_name@),
                        lowercase(filter),
                    );
                if i < cs.len() - 1 {
                    assert(prev[i] == cs[i]);
                    assert(o0.contains(x));
                    let k = choose|k: int| 0 <= k < o0.len() && o0[k] == x;
                    assert(o[k] == x);
                } else {
                    assert(o[o.len() - 1] == x);
                }
            }
        }
    }
}

/// A nested composition is targeted by a filter exactly when its short name, in lowercase,
/// holds the filter in lowercase.
pub proof fn law_targeted_nested_by_short_name(cs: Seq<Representation<Composition>>, filter: Seq<char>)
    ensures
        forall|x: usize|
            #[trigger] titled_nested(cs, filter).contains(x) <==> exists|i: int|
                0 <= i < cs.len() && cs[i].entity().sig.id == x && occurs_in(
                    lowercase(cs[i].entity().sig.short_name@),
                    lowercase(filter),
                ),
    decreases cs.len(),
{
    if cs.len() > 0 {
        let prev = cs.drop_last();
        law_targeted_nested_by_short_name(prev, filter);
        let o0 = titled_nested(prev, filter);
        let o = titled_nested(cs, filter);
        assert forall|x: usize| #[trigger] o.contains(x) <==> exists|i: int|
            0 <= i < cs.len() && cs[i].entity().sig.id == x && occurs_in(
                lowercase(cs[i].entity().sig.short_name@),
                lowercase(filter),
            ) by {
            if o.contains(x) {
                let k = choose|k: int| 0 <= k < o.len() && o[k] == x;
                if k < o0.len() {
                    assert(o0[k] == x);
                    assert(o0.contains(x));
                    let i = choose|i: int|
                        0 <= i < prev.len() && prev[i].entity().sig.id == x && occurs_in(
                            lowercase(prev[i].entity().sig.short_name@),
                            lowercase(filter),
                        );
                    assert(cs[i] == prev[i]);
                } else {
                    assert(cs[cs.len() - 1].entity().sig.id == x);
                }
            }
            if exists|i: int|
                0 <= i < cs.len() && cs[i].entity().sig.id == x && occurs_in(
                    lowercase(cs[i].entity().sig.short_name@),
                    lowercase(filter),
                ) {
                let i = choose|i: int|
                    0 <= i < cs.len() && cs[i].entity().sig.id == x && occurs_in(
                        lowercase(cs[i].entity().sig.short_name@),
                        lowercase(filter),
                    );
                if i < cs.len() - 1 {
                    assert(prev[i] == cs[i]);
                    assert(o0.contains(x));
                    let k = choose|k: int| 0 <= k < o0.len() && o0[k] == x;
                    assert(o[k] == x);
                } else {
                    assert(o[o.len() - 1] == x);
                }
            }
        }
    }
}

/// The entity has ports, and one of them is among the found or the linked ones.
pub open spec fn owns_any(ports: Ports, found: Seq<usize>, linked: Seq<usize>) -> bool {
    &&& ports.ports@.len() > 0
    &&& exists|i: int|
        0 <= i < ports.ports@.len() && (found.contains(#[trigger] ports.ports@[i].entity().sig.id)
            || linked.contains(ports.ports@[i].entity().sig.id))
}

pub open spec fn owners_in_nested(
    cs: Seq<Representation<Composition>>,
    found: Seq<usize>,
    linked: Seq<usize>,
) -> Seq<usize>
    decreases cs.len(),
{
    if cs.len() == 0 {
        seq![]
    } else {
        let r = owners_in_nested(cs.drop_last(), found, linked);
        if owns_any(cs.last().entity().ports.entity(), found, linked) {
            r.push(cs.last().entity().sig.id)
        } else {
            r
        }
    }
}

pub open spec fn owners_in_components(
    cs: Seq<Representation<Component>>,
    found: Seq<usize>,
    linked: Seq<usize>,
) -> Seq<usize>
    decreases cs.len(),
{
    if cs.len() == 0 {
        seq![]
    } else {
        let r = owners_in_components(cs.drop_last(), found, linked);
        if owns_any(cs.last().entity().ports.entity(), found, linked) {
            r.push(cs.last().entity().sig.id)
        } else {
            r
        }
    }
}

/// A component owns found or linked ports exactly when it is among the owners of those
/// ports: it has a port among the found or the linked ones.
pub proof fn law_owners_of_found_components(cs: Seq<Representation<Component>>, found: Seq<usize>, linked: Seq<usize>)
    ensures
        forall|x: usize|
            #[trigger] owners_in_components(cs, found, linked).contains(x) <==> exists|i: int, k: int|
                0 <= i < cs.len() && cs[i].entity().sig.id == x && 0 <= k < cs[i].entity().ports.entity().ports@.len()
                    && (found.contains(cs[i].entity().ports.entity().ports@[k].entity().sig.id) || linked.contains(
                    cs[i].entity().ports.entity().ports@[k].entity().sig.id,
                )),
    decreases cs.len(),
{
    if cs.len() > 0 {
        let prev = cs.drop_last();
        law_owners_of_found_components(prev, found, linked);
        let o0 = owners_in_components(prev, found, linked);
        let o = owners_in_components(cs, found, linked);
        assert forall|x: usize| #[trigger] o.contains(x) <==> exists|i: int, k: int|
            0 <= i < cs.len() && cs[i].entity().sig.id == x && 0 <= k < cs[i].entity().ports.entity().ports@.len()
                && (found.contains(cs[i].entity().ports.entity().ports@[k].entity().sig.id) || linked.contains(
                cs[i].entity().ports.entity().ports@[k].entity().sig.id,
            )) by {
            if o.contains(x) {
                let q = choose|q: int| 0 <= q < o.len() && o[q] == x;
                if q < o0.len() {
                    assert(o0[q] == x);
                    assert(o0.contains(x));
                    let (i, k) = choose|i: int, k: int|
                        0 <= i < prev.len() && prev[i].entity().sig.id == x && 0 <= k
                            < prev[i].entity().ports.entity().ports@.len() && (found.contains(
                            prev[i].entity().ports.entity().ports@[k].entity().sig.id,
                        ) || linked.contains(prev[i].entity().ports.entity().ports@[k].entity().sig.id));
                    assert(cs[i] == prev[i]);
                } else {
                    let i = cs.len() - 1;
                    assert(cs[i].entity().sig.id == x);
                    assert(owns_any(cs[i].entity().ports.entity(), found, linked));
                    let k = choose|k: int|
                        0 <= k < cs[i].entity().ports.entity().ports@.len() && (found.contains(
                            #[trigger] cs[i].entity().ports.entity().ports@[k].entity().sig.id,
                        ) || linked.contains(cs[i].entity().ports.entity().ports@[k].entity().sig.id));
                }
            }
            if exists|i: int, k: int|
                0 <= i < cs.len() && cs[i].entity().sig.id == x && 0 <= k < cs[i].entity().ports.entity().ports@.len()
                    && (found.contains(cs[i].entity().ports.entity().ports@[k].entity().sig.id) || linked.contains(
                    cs[i].entity().ports.entity().ports@[k].entity().sig.id,
                )) {
                let (i, k) = choose|i: int, k: int|
                    0 <= i < cs.len() && cs[i].entity().sig.id == x && 0 <= k
                        < cs[i].entity().ports.entity().ports@.len() && (found.contains(
                        cs[i].entity().ports.entity().ports@[k].entity().sig.id,
                    ) || linked.contains(cs[i].entity().ports.entity().ports@[k].entity().sig.id));
                if i < cs.len() - 1 {
                    assert(prev[i] == cs[i]);
                    assert(o0.contains(x));
                    let q = choose|q: int| 0 <= q < o0.len() && o0[q] == x;
                    assert(o[q] == x);
                } else {
                    let ps = cs[i].entity().ports.entity().ports@;
                    assert(found.contains(ps[k].entity().sig.id) || linked.contains(ps[k].entity().sig.id));
                    assert(owns_any(cs[i].entity().ports.entity(), found, linked));
                    assert(o[o.len() - 1] == x);
                }
            }
        }
    }
}

/// A nested composition is among the owners exactly when one of its own ports is among the
/// found or the linked ones.
pub proof fn law_owners_of_found_nested(cs: Seq<Representation<Composition>>, found: Seq<usize>, linked: Seq<usize>)
    ensures
        forall|x: usize|
            #[trigger] owners_in_nested(cs, found, linked).contains(x) <==> exists|i: int, k: int|
                0 <= i < cs.len() && cs[i].entity().sig.id == x && 0 <= k < cs[i].entity().ports.entity().ports@.len()
                    && (found.contains(cs[i].entity().ports.entity().ports@[k].entity().sig.id) || linked.contains(
                    cs[i].entity().ports.entity().ports@[k].entity().sig.id,
                )),
    decreases cs.len(),
{
    if cs.len() > 0 {
        let prev = cs.drop_last();
        law_owners_of_found_nested(prev, found, linked);
        let o0 = owners_in_nested(prev, found, linked);
        let o = owners_in_nested(cs, found, linked);
        assert forall|x: usize| #[trigger] o.contains(x) <==> exists|i: int, k: int|
            0 <= i < cs.len() && cs[i].entity().sig.id == x && 0 <= k < cs[i].entity().ports.entity().ports@.len()
                && (found.contains(cs[i].entity().ports.entity().ports@[k].entity().sig.id) || linked.contains(
                cs[i].entity().ports.entity().ports@[k].entity().sig.id,
            )) by {
            if o.contains(x) {
                let q = choose|q: int| 0 <= q < o.len() && o[q] == x;
                if q < o0.len() {
                    assert(o0[q] == x);
                    assert(o0.contains(x));
                    let (i, k) = choose|i: int, k: int|
                        0 <= i < prev.len() && prev[i].entity().sig.id == x && 0 <= k
                            < prev[i].entity().ports.entity().ports@.len() && (found.contains(
                            prev[i].entity().ports.entity().ports@[k].entity().sig.id,
                        ) || linked.contains(prev[i].entity().ports.entity().ports@[k].entity().sig.id));
                    assert(cs[i] == prev[i]);
                } else {
                    let i = cs.len() - 1;
                    assert(cs[i].entity().sig.id == x);
                    assert(owns_any(cs[i].entity().ports.entity(), found, linked));
                    let k = choose|k: int|
                        0 <= k < cs[i].entity().ports.entity().ports@.len() && (found.contains(
                            #[trigger] cs[i].entity().ports.entity().ports@[k].entity().sig.id,
                        ) || linked.contains(cs[i].entity().ports.entity().ports@[k].entity().sig.id));
                }
            }
            if exists|i: int, k: int|
                0 <= i < cs.len() && cs[i].entity().sig.id == x && 0 <= k < cs[i].entity().ports.entity().ports@.len()
                    && (found.contains(cs[i].entity().ports.entity().ports@[k].entity().sig.id) || linked.contains(
                    cs[i].entity().ports.entity().ports@[k].entity().sig.id,
                )) {
                let (i, k) = choose|i: int, k: int|
                    0 <= i < cs.len() && cs[i].entity().sig.id == x && 0 <= k
                        < cs[i].entity().ports.entity().ports@.len() && (found.contains(
                        cs[i].entity().ports.entity().ports@[k].entity().sig.id,
                    ) || linked.contains(cs[i].entity().ports.entity().ports@[k].entity().sig.id));
                if i < cs.len() - 1 {
                    assert(prev[i] == cs[i]);
                    assert(o0.contains(x));
                    let q = choose|q: int| 0 <= q < o0.len() && o0[q] == x;
                    assert(o[q] == x);
                } else {
                    let ps = cs[i].entity().ports.entity().ports@;
                    assert(found.contains(ps[k].entity().sig.id) || linked.contains(ps[k].entity().sig.id));
                    assert(owns_any(cs[i].entity().ports.entity(), found, linked));
                    assert(o[o.len() - 1] == x);
                }
            }
        }
    }
}

/// The components that stand for nested compositions are dropped.
pub open spec fn kept(cs: Seq<Representation<Component>>) -> Seq<Representation<Component>>
    decreases cs.len(),
{
    if cs.len() == 0 {
        seq![]
    } else {
        let r = kept(cs.drop_last());
        let c = cs.last();
        if c is Render && c->Render_0.view.container.form.el_ty() == ElementType::Composition {
            r
        } else {
            r.push(c)
        }
    }
}

/// The short name of the entity holds the filter, both lowercased.
pub open spec fn title_matches(filter: Seq<char>, name: Seq<char>) -> bool {
    occurs_in(lowercase(name), lowercase(filter))
}

pub open spec fn titled_components(cs: Seq<Representation<Component>>, filter: Seq<char>) -> Seq<usize>
    decreases cs.len(),
{
    if cs.len() == 0 {
        seq![]
    } else {
        let r = titled_components(cs.drop_last(), filter);
        if title_matches(filter, cs.last().entity().sig.short_name@) {
            r.push(cs.last().entity().sig.id)
        } else {
            r
        }
    }
}

pub open spec fn titled_nested(cs: Seq<Representation<Composition>>, filter: Seq<char>) -> Seq<usize>
    decreases cs.len(),
{
    if cs.len() == 0 {
        seq![]
    } else {
        let r = titled_nested(cs.drop_last(), filter);
        if title_matches(filter, cs.last().entity().sig.short_name@) {
            r.push(cs.last().entity().sig.id)
        } else {
            r
        }
    }
}

/// The ids in their first occurrences, in order.
pub open spec fn first_occurrences(s: Seq<usize>) -> Seq<usize>
    decreases s.len(),
{
    if s.len() == 0 {
        seq![]
    } else {
        let r = first_occurrences(s.drop_last());
        if r.contains(s.last()) {
            r
        } else {
            r.push(s.last())
        }
    }
}

/// The entries whose id first occurs there, in order.
pub open spec fn first_entries(s: Seq<(usize, Option<usize>, usize)>) -> Seq<(usize, Option<usize>, usize)>
    decreases s.len(),
{
    if s.len() == 0 {
        seq![]
    } else {
        let r = first_entries(s.drop_last());
        if exists|i: int| 0 <= i < r.len() && (#[trigger] r[i]).0 == s.last().0 {
            r
        } else {
            r.push(s.last())
        }
    }
}

/// The nested composition is drawn again, and nothing else changes.
pub open spec fn shown_again(a: Representation<Composition>, b: Representation<Composition>) -> bool {
    &&& a is Render
    &&& b is Render
    &&& b->Render_0.entity == a->Render_0.entity
    &&& b->Render_0.view == a->Render_0.view
    &&& !b->Render_0.hidden
}

/// The ports every component's filter selects.
fn pick_in_components(cs: &Vec<Representation<Component>>, filter: &str) -> (res: Vec<usize>)
    ensures
        res@ == picked_in_components(cs@, filter@),
{
    let mut res: Vec<usize> = Vec::new();
    let mut i: usize = 0;
    assert(cs@.subrange(0, 0) =~= Seq::<Representation<Component>>::empty());
    while i < cs.len()
        invariant
            0 <= i <= cs@.len(),
            res@ == picked_in_components(cs@.subrange(0, i as int), filter@),
        decreases cs@.len() - i,
    {
        let ghost sub = cs@.subrange(0, i + 1);
        assert(sub.drop_last() =~= cs@.subrange(0, i as int));
        let mut found = cs[i].origin().ports.origin().get_filtered_ports(filter);
        res.append(&mut found);
        i = i + 1;
    }
    assert(cs@.subrange(0, cs@.len() as int) =~= cs@);
    res
}

/// The ports every nested composition's filter selects among its own ports.
fn pick_in_nested(cs: &Vec<Representation<Composition>>, filter: &str) -> (res: Vec<usize>)
    ensures
        res@ == picked_in_nested(cs@, filter@),
{
    let mut res: Vec<usize> = Vec::new();
    let mut i: usize = 0;
    assert(cs@.subrange(0, 0) =~= Seq::<Representation<Composition>>::empty());
    while i < cs.len()
        invariant
            0 <= i <= cs@.len(),
            res@ == picked_in_nested(cs@.subrange(0, i as int), filter@),
        decreases cs@.len() - i,
    {
        let ghost sub = cs@.subrange(0, i + 1);
        assert(sub.drop_last() =~= cs@.subrange(0, i as int));
        let mut found = cs[i].origin().ports.origin().get_filtered_ports(filter);
        res.append(&mut found);
        i = i + 1;
    }
    assert(cs@.subrange(0, cs@.len() as int) =~= cs@);
    res
}

/// For each connection with a port among the ids, the port at its other end.
fn other_ends_of(conns: &Vec<Representation<Connection>>, ids: &Vec<usize>) -> (res: Vec<usize>)
    ensures
        res@ == other_ends(conns@, ids@),
{
    let mut res: Vec<usize> = Vec::new();
    let mut i: usize = 0;
    assert(conns@.subrange(0, 0) =~= Seq::<Representation<Connection>>::empty());
    while i < conns.len()
        invariant
            0 <= i <= conns@.len(),
            res@ == other_ends(conns@.subrange(0, i as int), ids@),
        decreases conns@.len() - i,
    {
        let ghost sub = conns@.subrange(0, i + 1);
        assert(sub.drop_last() =~= conns@.subrange(0, i as int));
        let c = conns[i].origin();
        if holds(ids, *c.in_port()) {
            res.push(*c.out_port());
        } else if holds(ids, *c.out_port()) {
            res.push(*c.in_port());
        }
        i = i + 1;
    }
    assert(conns@.subrange(0, conns@.len() as int) =~= conns@);
    res
}

/// For each connection with a component among the ids, the component at its other end.
fn other_components_of(conns: &Vec<Representation<Connection>>, ids: &Vec<usize>) -> (res: Vec<usize>)
    ensures
        res@ == other_components(conns@, ids@),
{
    let mut res: Vec<usize> = Vec::new();
    let mut i: usize = 0;
    assert(conns@.subrange(0, 0) =~= Seq::<Representation<Connection>>::empty());
    while i < conns.len()
        invariant
            0 <= i <= conns@.len(),
            res@ == other_components(conns@.subrange(0, i as int), ids@),
        decreases conns@.len() - i,
    {
        let ghost sub = conns@.subrange(0, i + 1);
        assert(sub.drop_last() =~= conns@.subrange(0, i as int));
        let c = conns[i].origin();
        if holds(ids, *c.in_comp()) {
            res.push(*c.out_comp());
        } else if holds(ids, *c.out_comp()) {
            res.push(*c.in_comp());
        }
        i = i + 1;
    }
    assert(conns@.subrange(0, conns@.len() as int) =~= conns@);
    res
}

/// Whether the entity has ports and one of them is found or linked.
fn owns(ports: &Ports, found: &Vec<usize>, linked: &Vec<usize>) -> (res: bool)
    ensures
        res == owns_any(*ports, found@, linked@),
{
    if ports.ports.len() == 0 {
        return false;
    }
    let mut i: usize = 0;
    while i < ports.ports.len()
        invariant
            0 <= i <= ports.ports@.len(),
            forall|j: int|
                0 <= j < i ==> !(found@.contains(#[trigger] ports.ports@[j].entity().sig.id)
                    || linked@.contains(ports.ports@[j].entity().sig.id)),
        decreases ports.ports@.len() - i,
    {
        let id = ports.ports[i].origin().sig.id;
        if holds(found, id) || holds(linked, id) {
            assert(found@.contains(ports.ports@[i as int].entity().sig.id) || linked@.contains(
                ports.ports@[i as int].entity().sig.id,
            ));
            return true;
        }
        i = i + 1;
    }
    false
}

fn owners_nested(cs: &Vec<Representation<Composition>>, found: &Vec<usize>, linked: &Vec<usize>) -> (res:
    Vec<usize>)
    ensures
        res@ == owners_in_nested(cs@, found@, linked@),
{
    let mut res: Vec<usize> = Vec::new();
    let mut i: usize = 0;
    assert(cs@.subrange(0, 0) =~= Seq::<Representation<Composition>>::empty());
    while i < cs.len()
        invariant
            0 <= i <= cs@.len(),
            res@ == owners_in_nested(cs@.subrange(0, i as int), found@, linked@),
        decreases cs@.len() - i,
    {
        let ghost sub = cs@.subrange(0, i + 1);
        assert(sub.drop_last() =~= cs@.subrange(0, i as int));
        let c = cs[i].origin();
        if owns(c.ports.origin(), found, linked) {
            res.push(c.sig.id);
        }
        i = i + 1;
    }
    assert(cs@.subrange(0, cs@.len() as int) =~= cs@);
    res
}

fn owners_components(cs: &Vec<Representation<Component>>, found: &Vec<usize>, linked: &Vec<usize>) -> (res:
    Vec<usize>)
    ensures
        res@ == owners_in_components(cs@, found@, linked@),
{
    let mut res: Vec<usize> = Vec::new();
    let mut i: usize = 0;
    assert(cs@.subrange(0, 0) =~= Seq::<Representation<Component>>::empty());
    while i < cs.len()
        invariant
            0 <= i <= cs@.len(),
            res@ == owners_in_components(cs@.subrange(0, i as int), found@, linked@),
        decreases cs@.len() - i,
    {
        let ghost sub = cs@.subrange(0, i + 1);
        assert(sub.drop_last() =~= cs@.subrange(0, i as int));
        let c = cs[i].origin();
        if owns(c.ports.origin(), found, linked) {
            res.push(c.sig.id);
        }
        i = i + 1;
    }
    assert(cs@.subrange(0, cs@.len() as int) =~= cs@);
    res
}

/// Whether the name holds the filter, both lowercased.
fn title_holds(name: &String, filter_lower: &String, Ghost(filter): Ghost<Seq<char>>) -> (res: bool)
    requires
        filter_lower@ == lowercase(filter),
    ensures
        res == title_matches(filter, name@),
{
    let lower = to_lowercase(name.as_str());
    contains_text(lower.as_str(), filter_lower.as_str())
}

fn titled_in_components(cs: &Vec<Representation<Component>>, filter: &str) -> (res: Vec<usize>)
    ensures
        res@ == titled_components(cs@, filter@),
{
    let filter_lower = to_lowercase(filter);
    let mut res: Vec<usize> = Vec::new();
    let mut i: usize = 0;
    assert(cs@.subrange(0, 0) =~= Seq::<Representation<Component>>::empty());
    while i < cs.len()
        invariant
            0 <= i <= cs@.len(),
            filter_lower@ == lowercase(filter@),
            res@ == titled_components(cs@.subrange(0, i as int), filter@),
        decreases cs@.len() - i,
    {
        let ghost sub = cs@.subrange(0, i + 1);
        assert(sub.drop_last() =~= cs@.subrange(0, i as int));
        let c = cs[i].origin();
        if title_holds(&c.sig.short_name, &filter_lower, Ghost(filter@)) {
            res.push(c.sig.id);
        }
        i = i + 1;
    }
    assert(cs@.subrange(0, cs@.len() as int) =~= cs@);
    res
}

fn titled_in_nested(cs: &Vec<Representation<Composition>>, filter: &str) -> (res: Vec<usize>)
    ensures
        res@ == titled_nested(cs@, filter@),
{
    let filter_lower = to_lowercase(filter);
    let mut res: Vec<usize> = Vec::new();
    let mut i: usize = 0;
    assert(cs@.subrange(0, 0) =~= Seq::<Representation<Composition>>::empty());
    while i < cs.len()
        invariant
            0 <= i <= cs@.len(),
            filter_lower@ == lowercase(filter@),
            res@ == titled_nested(cs@.subrange(0, i as int), filter@),
        decreases cs@.len() - i,
    {
        let ghost sub = cs@.subrange(0, i + 1);
        assert(sub.drop_last() =~= cs@.subrange(0, i as int));
        let c = cs[i].origin();
        if title_holds(&c.sig.short_name, &filter_lower, Ghost(filter@)) {
            res.push(c.sig.id);
        }
        i = i + 1;
    }
    assert(cs@.subrange(0, cs@.len() as int) =~= cs@);
    res
}

/// Each id once, where it first occurs.
fn dedup_ids(dirty: &Vec<usize>) -> (res: Vec<usize>)
    ensures
        res@ == first_occurrences(dirty@),
{
    let mut ids: Vec<usize> = Vec::new();
    let mut i: usize = 0;
    assert(dirty@.subrange(0, 0) =~= Seq::<usize>::empty());
    while i < dirty.len()
        invariant
            0 <= i <= dirty@.len(),
            ids@ == first_occurrences(dirty@.subrange(0, i as int)),
        decreases dirty@.len() - i,
    {
        let ghost sub = dirty@.subrange(0, i + 1);
        assert(sub.drop_last() =~= dirty@.subrange(0, i as int));
        if !holds(&ids, dirty[i]) {
            ids.push(dirty[i]);
        }
        i = i + 1;
    }
    assert(dirty@.subrange(0, dirty@.len() as int) =~= dirty@);
    ids
}

/// The components but those that stand for nested compositions.
fn keep_components(cs: Vec<Representation<Component>>) -> (res: Vec<Representation<Component>>)
    ensures
        res@ == kept(cs@),
{
    let ghost before = cs@;
    let mut source = cs;
    let mut res: Vec<Representation<Component>> = Vec::new();
    let n = source.len();
    let mut i: usize = 0;
    assert(before.subrange(0, 0) =~= Seq::<Representation<Component>>::empty());
    while i < n
        invariant
            n == before.len(),
            0 <= i <= n,
            source@ == before.subrange(i as int, n as int),
            res@ == kept(before.subrange(0, i as int)),
        decreases n - i,
    {
        let ghost sub = before.subrange(0, i + 1);
        assert(sub.drop_last() =~= before.subrange(0, i as int));
        let c = source.remove(0);
        assert(c == before[i as int]);
        let drop = match &c {
            Representation::Render(r) => r.is_composition(),
            Representation::Origin(_) => false,
        };
        if !drop {
            res.push(c);
        }
        assert(source@ =~= before.subrange(i + 1, n as int));
        i = i + 1;
    }
    assert(before.subrange(0, n as int) =~= before);
    res
}

/// Draws every nested composition again.
fn show_all(cs: &mut Vec<Representation<Composition>>)
    requires
        forall|i: int| 0 <= i < old(cs)@.len() ==> #[trigger] old(cs)@[i] is Render,
    ensures
        final(cs)@.len() == old(cs)@.len(),
        forall|i: int| 0 <= i < old(cs)@.len() ==> shown_again(old(cs)@[i], #[trigger] final(cs)@[i]),
{
    let ghost before = cs@;
    let mut i: usize = 0;
    while i < cs.len()
        invariant
            0 <= i <= cs@.len(),
            cs@.len() == before.len(),
            forall|j: int| 0 <= j < i ==> shown_again(before[j], #[trigger] cs@[j]),
            forall|j: int| i <= j < cs@.len() ==> #[trigger] cs@[j] == before[j],
            forall|j: int| 0 <= j < before.len() ==> #[trigger] before[j] is Render,
        decreases cs@.len() - i,
    {
        match &mut cs[i] {
            Representation::Render(r) => r.show(),
            Representation::Origin(_) => {},
        }
        i = i + 1;
    }
}

/// Each match paired with the entity that owns its port.
pub open spec fn tagged(s: Seq<(usize, Option<usize>)>, owner: usize) -> Seq<(usize, Option<usize>, usize)> {
    s.map_values(|m: (usize, Option<usize>)| (m.0, m.1, owner))
}

/// The expanded matches of the ports of a set of ports.
pub open spec fn spread(ports: Ports, filter: Seq<char>) -> Seq<(usize, Option<usize>)> {
    expanded(ports.ports@, filter, ports.ports@)
}

pub open spec fn spread_in_components(cs: Seq<Representation<Component>>, filter: Seq<char>) -> Seq<
    (usize, Option<usize>, usize),
>
    decreases cs.len(),
{
    if cs.len() == 0 {
        seq![]
    } else {
        let c = cs.last().entity();
        spread_in_components(cs.drop_last(), filter) + tagged(spread(c.ports.entity(), filter), c.sig.id)
    }
}

pub open spec fn spread_in_nested(cs: Seq<Representation<Composition>>, filter: Seq<char>) -> Seq<
    (usize, Option<usize>, usize),
>
    decreases cs.len(),
{
    if cs.len() == 0 {
        seq![]
    } else {
        let c = cs.last().entity();
        spread_in_nested(cs.drop_last(), filter) + tagged(spread(c.ports.entity(), filter), c.sig.id)
    }
}

/// The components whose name holds the filter, as matches of the composition.
pub open spec fn titled_entries(cs: Seq<Representation<Component>>, filter: Seq<char>, owner: usize) -> Seq<
    (usize, Option<usize>, usize),
> {
    titled_components(cs, filter).map_values(|id: usize| (id, None::<usize>, owner))
}

fn tag(s: Vec<(usize, Option<usize>)>, owner: usize) -> (res: Vec<(usize, Option<usize>, usize)>)
    ensures
        res@ == tagged(s@, owner),
{
    let mut res: Vec<(usize, Option<usize>, usize)> = Vec::new();
    let mut i: usize = 0;
    while i < s.len()
        invariant
            0 <= i <= s@.len(),
            res@ == tagged(s@.subrange(0, i as int), owner),
        decreases s@.len() - i,
    {
        res.push((s[i].0, s[i].1, owner));
        i = i + 1;
        assert(res@ =~= tagged(s@.subrange(0, i as int), owner));
    }
    assert(s@.subrange(0, s@.len() as int) =~= s@);
    res
}

fn spread_components(cs: &Vec<Representation<Component>>, filter: &str) -> (res: Vec<
    (usize, Option<usize>, usize),
>)
    ensures
        res@ == spread_in_components(cs@, filter@),
{
    let mut res: Vec<(usize, Option<usize>, usize)> = Vec::new();
    let mut i: usize = 0;
    assert(cs@.subrange(0, 0) =~= Seq::<Representation<Component>>::empty());
    while i < cs.len()
        invariant
            0 <= i <= cs@.len(),
            res@ == spread_in_components(cs@.subrange(0, i as int), filter@),
        decreases cs@.len() - i,
    {
        let ghost sub = cs@.subrange(0, i + 1);
        assert(sub.drop_last() =~= cs@.subrange(0, i as int));
        let c = cs[i].origin();
        let mut found = tag(c.ports.origin().get_filtered_ports_expanded(filter), c.sig.id);
        res.append(&mut found);
        i = i + 1;
    }
    assert(cs@.subrange(0, cs@.len() as int) =~= cs@);
    res
}

fn spread_nested(cs: &Vec<Representation<Composition>>, filter: &str) -> (res: Vec<
    (usize, Option<usize>, usize),
>)
    ensures
        res@ == spread_in_nested(cs@, filter@),
{
    let mut res: Vec<(usize, Option<usize>, usize)> = Vec::new();
    let mut i: usize = 0;
    assert(cs@.subrange(0, 0) =~= Seq::<Representation<Composition>>::empty());
    while i < cs.len()
        invariant
            0 <= i <= cs@.len(),
            res@ == spread_in_nested(cs@.subrange(0, i as int), filter@),
        decreases cs@.len() - i,
    {
        let ghost sub = cs@.subrange(0, i + 1);
        assert(sub.drop_last() =~= cs@.subrange(0, i as int));
        let c = cs[i].origin();
        let mut found = tag(c.ports.origin().get_filtered_ports_expanded(filter), c.sig.id);
        res.append(&mut found);
        i = i + 1;
    }
    assert(cs@.subrange(0, cs@.len() as int) =~= cs@);
    res
}

/// Each entry whose id first occurs there.
fn dedup_entries(dirty: &Vec<(usize, Option<usize>, usize)>) -> (res: Vec<(usize, Option<usize>, usize)>)
    ensures
        res@ == first_entries(dirty@),
{
    let mut ids: Vec<(usize, Option<usize>, usize)> = Vec::new();
    let mut collected: Vec<usize> = Vec::new();
    let mut i: usize = 0;
    assert(dirty@.subrange(0, 0) =~= Seq::<(usize, Option<usize>, usize)>::empty());
    while i < dirty.len()
        invariant
            0 <= i <= dirty@.len(),
            ids@ == first_entries(dirty@.subrange(0, i as int)),
            collected@.len() == ids@.len(),
            forall|j: int| 0 <= j < ids@.len() ==> #[trigger] collected@[j] == ids@[j].0,
        decreases dirty@.len() - i,
    {
        let ghost sub = dirty@.subrange(0, i + 1);
        assert(sub.drop_last() =~= dirty@.subrange(0, i as int));
        let (id, holder, owner) = dirty[i];
        let seen = holds(&collected, id);
        proof {
            if seen {
                let k = choose|k: int| 0 <= k < collected@.len() && collected@[k] == id;
                assert(ids@[k].0 == id);
            } else {
                assert forall|k: int| 0 <= k < ids@.len() implies (#[trigger] ids@[k]).0 != id by {
                    assert(collected@[k] == ids@[k].0);
                }
            }
        }
        if !seen {
            collected.push(id);
            ids.push((id, holder, owner));
        }
        i = i + 1;
    }
    assert(dirty@.subrange(0, dirty@.len() as int) =~= dirty@);
    ids
}

impl Render<Composition> {
    /// Drops the components that stand for nested compositions and draws the nested
    /// compositions again.
    fn reset(&mut self)
        requires
            forall|i: int|
                0 <= i < old(self).entity.compositions@.len() ==> #[trigger] old(
                    self,
                ).entity.compositions@[i] is Render,
        ensures
            final(self).entity.components@ == kept(old(self).entity.components@),
            final(self).entity.compositions@.len() == old(self).entity.compositions@.len(),
            forall|i: int|
                0 <= i < old(self).entity.compositions@.len() ==> shown_again(
                    old(self).entity.compositions@[i],
                    #[trigger] final(self).entity.compositions@[i],
                ),
            final(self).entity.sig == old(self).entity.sig,
            final(self).entity.connections == old(self).entity.connections,
            final(self).entity.ports == old(self).entity.ports,
            final(self).entity.parent == old(self).entity.parent,
            final(self).view == old(self).view,
            final(self).hidden == old(self).hidden,
    {
        let mut cs: Vec<Representation<Component>> = Vec::new();
        std::mem::swap(&mut cs, &mut self.entity.components);
        self.entity.components = keep_components(cs);
        show_all(&mut self.entity.compositions);
    }

    /// Under a filter: the ports it selects, in the components, the nested compositions and
    /// the composition itself; the ports at the other end of their connections; and the
    /// nested compositions and then the components that own one of those. Components that
    /// stand for nested compositions are dropped and nested compositions are drawn again.
    pub fn get_filtered_ports(&mut self, filter: Option<String>) -> (res: Option<
        (Vec<usize>, Vec<usize>, Vec<usize>),
    >)
        requires
            forall|i: int|
                0 <= i < old(self).entity.compositions@.len() ==> #[trigger] old(
                    self,
                ).entity.compositions@[i] is Render,
        ensures
            final(self).entity.components@ == kept(old(self).entity.components@),
            final(self).entity.compositions@.len() == old(self).entity.compositions@.len(),
            forall|i: int|
                0 <= i < old(self).entity.compositions@.len() ==> shown_again(
                    old(self).entity.compositions@[i],
                    #[trigger] final(self).entity.compositions@[i],
                ),
            final(self).entity.sig == old(self).entity.sig,
            final(self).entity.connections == old(self).entity.connections,
            final(self).entity.ports == old(self).entity.ports,
            final(self).entity.parent == old(self).entity.parent,
            final(self).view == old(self).view,
            final(self).hidden == old(self).hidden,
            match filter {
                None => res is None,
                Some(f) => res matches Some(found) && found.0@ == picked_all(final(self).entity, f@)
                    && found.1@ == other_ends(final(self).entity.connections@, found.0@) && found.2@
                    == owners_in_nested(final(self).entity.compositions@, found.0@, found.1@)
                    + owners_in_components(final(self).entity.components@, found.0@, found.1@),
            },
    {
        self.reset();
        match filter {
            None => None,
            Some(f) => {
                let mut filtered = pick_in_components(&self.entity.components, f.as_str());
                let mut nested = pick_in_nested(&self.entity.compositions, f.as_str());
                let mut own = self.entity.ports.origin().get_filtered_ports(f.as_str());
                filtered.append(&mut nested);
                filtered.append(&mut own);
                let linked = other_ends_of(&self.entity.connections, &filtered);
                let mut owners = owners_nested(&self.entity.compositions, &filtered, &linked);
                let mut comps = owners_components(&self.entity.components, &filtered, &linked);
                owners.append(&mut comps);
                Some((filtered, linked, owners))
            },
        }
    }

    /// Under a filter: the components and then nested compositions whose name holds it, and
    /// the components at the other end of their connections. Components that stand for
    /// nested compositions are dropped and nested compositions are drawn again.
    pub fn get_targeted_components(&mut self, filter: Option<String>) -> (res: Option<
        (Vec<usize>, Vec<usize>),
    >)
        requires
            forall|i: int|
                0 <= i < old(self).entity.compositions@.len() ==> #[trigger] old(
                    self,
                ).entity.compositions@[i] is Render,
        ensures
            final(self).entity.components@ == kept(old(self).entity.components@),
            final(self).entity.compositions@.len() == old(self).entity.compositions@.len(),
            forall|i: int|
                0 <= i < old(self).entity.compositions@.len() ==> shown_again(
                    old(self).entity.compositions@[i],
                    #[trigger] final(self).entity.compositions@[i],
                ),
            final(self).entity.sig == old(self).entity.sig,
            final(self).entity.connections == old(self).entity.connections,
            final(self).entity.ports == old(self).entity.ports,
            final(self).entity.parent == old(self).entity.parent,
            final(self).view == old(self).view,
            final(self).hidden == old(self).hidden,
            match filter {
                None => res is None,
                Some(f) => res matches Some(found) && found.0@ == titled_components(
                    final(self).entity.components@,
                    f@,
                ) + titled_nested(final(self).entity.compositions@, f@) && found.1@
                    == other_components(final(self).entity.connections@, found.0@),
            },
    {
        self.reset();
        match filter {
            None => None,
            Some(f) => {
                let mut targeted = titled_in_components(&self.entity.components, f.as_str());
                let mut nested = titled_in_nested(&self.entity.compositions, f.as_str());
                targeted.append(&mut nested);
                let linked = other_components_of(&self.entity.connections, &targeted);
                Some((targeted, linked))
            },
        }
    }

    /// The given components and the components at the other end of their connections, or
    /// nothing when both are empty. Components that stand for nested compositions are dropped
    /// and nested compositions are drawn again.
    pub fn get_targeted_components_by_ids(&mut self, targeted: Vec<usize>) -> (res: Option<
        (Vec<usize>, Vec<usize>),
    >)
        requires
            forall|i: int|
                0 <= i < old(self).entity.compositions@.len() ==> #[trigger] old(
                    self,
                ).entity.compositions@[i] is Render,
        ensures
            final(self).entity.components@ == kept(old(self).entity.components@),
            final(self).entity.compositions@.len() == old(self).entity.compositions@.len(),
            forall|i: int|
                0 <= i < old(self).entity.compositions@.len() ==> shown_again(
                    old(self).entity.compositions@[i],
                    #[trigger] final(self).entity.compositions@[i],
                ),
            final(self).entity.sig == old(self).entity.sig,
            final(self).entity.connections == old(self).entity.connections,
            final(self).entity.ports == old(self).entity.ports,
            final(self).entity.parent == old(self).entity.parent,
            final(self).view == old(self).view,
            final(self).hidden == old(self).hidden,
            ({
                let linked = other_components(old(self).entity.connections@, targeted@);
                if targeted@.len() == 0 && linked.len() == 0 {
                    res is None
                } else {
                    res matches Some(found) && found.0@ == targeted@ && found.1@ == linked
                }
            }),
    {
        self.reset();
        let linked = other_components_of(&self.entity.connections, &targeted);
        if targeted.len() == 0 && linked.len() == 0 {
            None
        } else {
            Some((targeted, linked))
        }
    }

    /// The components at the other end of the connections of the given components.
    pub fn get_components_linked_to(&self, targeted: Vec<usize>) -> (res: Vec<usize>)
        ensures
            res@ == other_components(self.entity.connections@, targeted@),
    {
        other_components_of(&self.entity.connections, &targeted)
    }

    /// Under a filter: the ports it selects in the components, the nested compositions and
    /// the composition itself, and the components whose name holds it, each id once.
    pub fn get_matches(&mut self, filter: Option<String>) -> (res: Option<Vec<usize>>)
        ensures
            *final(self) == *old(self),
            match filter {
                None => res is None,
                Some(f) => res matches Some(ids) && ids@ == first_occurrences(
                    picked_in_components(old(self).entity.components@, f@) + picked_in_nested(
                        old(self).entity.compositions@,
                        f@,
                    ) + picked(old(self).entity.ports.entity(), f@) + titled_components(
                        old(self).entity.components@,
                        f@,
                    ),
                ),
            },
    {
        match filter {
            None => None,
            Some(f) => {
                let mut dirty = pick_in_components(&self.entity.components, f.as_str());
                let mut nested = pick_in_nested(&self.entity.compositions, f.as_str());
                let mut own = self.entity.ports.origin().get_filtered_ports(f.as_str());
                let mut titled = titled_in_components(&self.entity.components, f.as_str());
                dirty.append(&mut nested);
                dirty.append(&mut own);
                dirty.append(&mut titled);
                Some(dedup_ids(&dirty))
            },
        }
    }

    /// Under a filter: the matches, each with the group that holds it and the entity that owns
    /// it, in the components, the nested compositions and the composition itself, and the
    /// components whose name holds the filter, each id once.
    pub fn get_matches_extended(&mut self, filter: Option<String>) -> (res: Option<
        Vec<(usize, Option<usize>, usize)>,
    >)
        ensures
            *final(self) == *old(self),
            match filter {
                None => res is None,
                Some(f) => res matches Some(ids) && ids@ == first_entries(
                    spread_in_components(old(self).entity.components@, f@) + spread_in_nested(
                        old(self).entity.compositions@,
                        f@,
                    ) + tagged(spread(old(self).entity.ports.entity(), f@), old(self).entity.sig.id)
                        + titled_entries(old(self).entity.components@, f@, old(self).entity.sig.id),
                ),
            },
    {
        let parent_id = self.entity.sig.id;
        match filter {
            None => None,
            Some(f) => {
                let mut dirty = spread_components(&self.entity.components, f.as_str());
                let mut nested = spread_nested(&self.entity.compositions, f.as_str());
                let mut own = tag(
                    self.entity.ports.origin().get_filtered_ports_expanded(f.as_str()),
                    parent_id,
                );
                let titled = titled_in_components(&self.entity.components, f.as_str());
                let mut named: Vec<(usize, Option<usize>, usize)> = Vec::new();
                let mut i: usize = 0;
                while i < titled.len()
                    invariant
                        0 <= i <= titled@.len(),
                        named@ == titled@.subrange(0, i as int).map_values(
                            |id: usize| (id, None::<usize>, parent_id),
                        ),
                    decreases titled@.len() - i,
                {
                    named.push((titled[i], None, parent_id));
                    i = i + 1;
                    assert(named@ =~= titled@.subrange(0, i as int).map_values(
                        |id: usize| (id, None::<usize>, parent_id),
                    ));
                }
                assert(titled@.subrange(0, titled@.len() as int) =~= titled@);
                dirty.append(&mut nested);
                dirty.append(&mut own);
                dirty.append(&mut named);
                Some(dedup_entries(&dirty))
            },
        }
    }
}

/// What is known of one end of a connection: the port it shows, the ports that port holds,
/// and the component.
pub type ConnectionData = (usize, Vec<usize>, usize);

pub open spec fn data_view(d: (ConnectionData, ConnectionData)) -> (
    (usize, Seq<usize>, usize),
    (usize, Seq<usize>, usize),
) {
    ((d.0.0, d.0.1@, d.0.2), (d.1.0, d.1.1@, d.1.2))
}

/// The first port with the id among the ports.
pub open spec fn port_in(ports: Seq<Representation<Port>>, id: usize) -> Option<Port> {
    let i = index_of_id(ports, id);
    if i >= 0 {
        Some(ports[i].entity())
    } else {
        None
    }
}

/// The first port with the id among the own ports of the nested compositions, in order.
pub open spec fn nested_port(cs: Seq<Representation<Composition>>, id: usize) -> Option<Port>
    decreases cs.len(),
{
    if cs.len() == 0 {
        None
    } else {
        match nested_port(cs.drop_last(), id) {
            Some(p) => Some(p),
            None => port_in(cs.last().entity().ports.entity().ports@, id),
        }
    }
}

/// The first port with the id among the ports of the components, in order.
pub open spec fn component_port(cs: Seq<Representation<Component>>, id: usize) -> Option<Port>
    decreases cs.len(),
{
    if cs.len() == 0 {
        None
    } else {
        match component_port(cs.drop_last(), id) {
            Some(p) => Some(p),
            None => port_in(cs.last().entity().ports.entity().ports@, id),
        }
    }
}

/// The port with the id: among the composition's own ports, else those of its nested
/// compositions, else those of its components.
pub open spec fn port_of(e: Composition, id: usize) -> Option<Port> {
    match port_in(e.ports.entity().ports@, id) {
        Some(p) => Some(p),
        None => match nested_port(e.compositions@, id) {
            Some(p) => Some(p),
            None => component_port(e.components@, id),
        },
    }
}

/// The port with the id under the entity with the given id: the composition itself, else
/// its first component with that id, else its first nested composition with that id.
pub open spec fn port_under(e: Composition, parent: usize, id: usize) -> Option<Port> {
    let ci = component_index(e.components@, parent);
    let si = composition_index(e.compositions@, parent);
    if e.sig.id == parent {
        port_of(e, id)
    } else if ci >= 0 {
        port_in(e.components@[ci].entity().ports.entity().ports@, id)
    } else if si >= 0 {
        port_in(e.compositions@[si].entity().ports.entity().ports@, id)
    } else {
        None
    }
}

/// What is known of the two ends of a connection, the out end first: the ports the end ports
/// hold when both are found, else nothing.
pub open spec fn connection_data(e: Composition, c: Connection) -> (
    (usize, Seq<usize>, usize),
    (usize, Seq<usize>, usize),
) {
    let po = port_under(e, c.joint_out.component, shown_port(c.joint_out));
    let pi = port_under(e, c.joint_in.component, shown_port(c.joint_in));
    match (po, pi) {
        (Some(o), Some(i)) => (
            (shown_port(c.joint_out), o.contains@, c.joint_out.component),
            (shown_port(c.joint_in), i.contains@, c.joint_in.component),
        ),
        _ => (
            (shown_port(c.joint_out), seq![], c.joint_out.component),
            (shown_port(c.joint_in), seq![], c.joint_in.component),
        ),
    }
}

/// The data of the connections that name the port at an end.
pub open spec fn data_by_port(e: Composition, conns: Seq<Representation<Connection>>, id: usize) -> Seq<
    ((usize, Seq<usize>, usize), (usize, Seq<usize>, usize)),
>
    decreases conns.len(),
{
    if conns.len() == 0 {
        seq![]
    } else {
        let r = data_by_port(e, conns.drop_last(), id);
        if names_port(conns.last().entity(), id) {
            r.push(connection_data(e, conns.last().entity()))
        } else {
            r
        }
    }
}

/// The data of the connections that name the component at an end.
pub open spec fn data_by_component(
    e: Composition,
    conns: Seq<Representation<Connection>>,
    id: usize,
) -> Seq<((usize, Seq<usize>, usize), (usize, Seq<usize>, usize))>
    decreases conns.len(),
{
    if conns.len() == 0 {
        seq![]
    } else {
        let r = data_by_component(e, conns.drop_last(), id);
        if names_component(conns.last().entity(), id) {
            r.push(connection_data(e, conns.last().entity()))
        } else {
            r
        }
    }
}

/// The position of the first connection that names the port at an end, or -1.
pub open spec fn first_naming(conns: Seq<Representation<Connection>>, id: usize) -> int
    decreases conns.len(),
{
    if conns.len() == 0 {
        -1
    } else {
        let i = first_naming(conns.drop_last(), id);
        if i >= 0 {
            i
        } else if names_port(conns.last().entity(), id) {
            conns.len() - 1
        } else {
            -1
        }
    }
}

/// The groups of the ports of the components and then of the nested compositions.
pub open spec fn groups_in_components(cs: Seq<Representation<Component>>) -> Seq<(usize, Seq<usize>)>
    decreases cs.len(),
{
    if cs.len() == 0 {
        seq![]
    } else {
        groups_in_components(cs.drop_last()) + groups(cs.last().entity().ports.entity().ports@)
    }
}

pub open spec fn groups_in_nested(cs: Seq<Representation<Composition>>) -> Seq<(usize, Seq<usize>)>
    decreases cs.len(),
{
    if cs.len() == 0 {
        seq![]
    } else {
        groups_in_nested(cs.drop_last()) + groups(cs.last().entity().ports.entity().ports@)
    }
}

pub open spec fn opt_view(p: Option<&Port>) -> Option<Port> {
    match p {
        Some(r) => Some(*r),
        None => None,
    }
}

/// The first port with the id among the own ports of the nested compositions.
fn find_nested_port(cs: &Vec<Representation<Composition>>, id: usize) -> (res: Option<&Port>)
    ensures
        opt_view(res) == nested_port(cs@, id),
{
    let mut i: usize = 0;
    assert(cs@.subrange(0, 0) =~= Seq::<Representation<Composition>>::empty());
    while i < cs.len()
        invariant
            0 <= i <= cs@.len(),
            nested_port(cs@.subrange(0, i as int), id) is None,
        decreases cs@.len() - i,
    {
        let ghost sub = cs@.subrange(0, i + 1);
        assert(sub.drop_last() =~= cs@.subrange(0, i as int));
        match cs[i].origin().get_port(&id) {
            Some(p) => {
                proof {
                    lemma_nested_port_prefix(cs@, id, i + 1);
                }
                return Some(p);
            },
            None => {},
        }
        i = i + 1;
    }
    assert(cs@.subrange(0, cs@.len() as int) =~= cs@);
    None
}

proof fn lemma_nested_port_prefix(cs: Seq<Representation<Composition>>, id: usize, n: int)
    requires
        0 < n <= cs.len(),
        nested_port(cs.subrange(0, n - 1), id) is None,
        port_in(cs[n - 1].entity().ports.entity().ports@, id) is Some,
    ensures
        nested_port(cs, id) == port_in(cs[n - 1].entity().ports.entity().ports@, id),
    decreases cs.len(),
{
    if cs.len() > n {
        assert(cs.drop_last().subrange(0, n - 1) =~= cs.subrange(0, n - 1));
        lemma_nested_port_prefix(cs.drop_last(), id, n);
    } else {
        assert(cs.drop_last() =~= cs.subrange(0, n - 1));
    }
}

/// The first port with the id among the ports of the components.
fn find_component_port(cs: &Vec<Representation<Component>>, id: usize) -> (res: Option<&Port>)
    ensures
        opt_view(res) == component_port(cs@, id),
{
    let mut i: usize = 0;
    assert(cs@.subrange(0, 0) =~= Seq::<Representation<Component>>::empty());
    while i < cs.len()
        invariant
            0 <= i <= cs@.len(),
            component_port(cs@.subrange(0, i as int), id) is None,
        decreases cs@.len() - i,
    {
        let ghost sub = cs@.subrange(0, i + 1);
        assert(sub.drop_last() =~= cs@.subrange(0, i as int));
        match cs[i].origin().get_port(&id) {
            Some(p) => {
                proof {
                    lemma_component_port_prefix(cs@, id, i + 1);
                }
                return Some(p);
            },
            None => {},
        }
        i = i + 1;
    }
    assert(cs@.subrange(0, cs@.len() as int) =~= cs@);
    None
}

proof fn lemma_component_port_prefix(cs: Seq<Representation<Component>>, id: usize, n: int)
    requires
        0 < n <= cs.len(),
        component_port(cs.subrange(0, n - 1), id) is None,
        port_in(cs[n - 1].entity().ports.entity().ports@, id) is Some,
    ensures
        component_port(cs, id) == port_in(cs[n - 1].entity().ports.entity().ports@, id),
    decreases cs.len(),
{
    if cs.len() > n {
        assert(cs.drop_last().subrange(0, n - 1) =~= cs.subrange(0, n - 1));
        lemma_component_port_prefix(cs.drop_last(), id, n);
    } else {
        assert(cs.drop_last() =~= cs.subrange(0, n - 1));
    }
}

fn clone_ids(v: &Vec<usize>) -> (res: Vec<usize>)
    ensures
        res@ == v@,
{
    let mut res: Vec<usize> = Vec::new();
    let mut i: usize = 0;
    while i < v.len()
        invariant
            0 <= i <= v@.len(),
            res@ == v@.subrange(0, i as int),
        decreases v@.len() - i,
    {
        res.push(v[i]);
        i = i + 1;
        assert(res@ =~= v@.subrange(0, i as int));
    }
    assert(v@.subrange(0, v@.len() as int) =~= v@);
    res
}

impl Render<Composition> {
    /// The groups of the ports of the components and then of the nested compositions.
    pub fn get_grouped_ports(&self) -> (res: Result<Vec<(usize, Vec<usize>)>, E>)
        ensures
            res matches Ok(v) && group_views(v@) == groups_in_components(self.entity.components@)
                + groups_in_nested(self.entity.compositions@),
    {
        let mut ports: Vec<(usize, Vec<usize>)> = Vec::new();
        let mut i: usize = 0;
        let cs = &self.entity.components;
        assert(cs@.subrange(0, 0) =~= Seq::<Representation<Component>>::empty());
        assert(group_views(ports@) =~= Seq::<(usize, Seq<usize>)>::empty());
        while i < cs.len()
            invariant
                0 <= i <= cs@.len(),
                group_views(ports@) == groups_in_components(cs@.subrange(0, i as int)),
            decreases cs@.len() - i,
        {
            let ghost sub = cs@.subrange(0, i + 1);
            assert(sub.drop_last() =~= cs@.subrange(0, i as int));
            let ghost before = ports@;
            let mut found = cs[i].origin().ports.origin().get_grouped();
            let ghost f = found@;
            ports.append(&mut found);
            assert(group_views(ports@) =~= group_views(before) + group_views(f));
            i = i + 1;
        }
        assert(cs@.subrange(0, cs@.len() as int) =~= cs@);
        let ns = &self.entity.compositions;
        let ghost head = group_views(ports@);
        let mut k: usize = 0;
        assert(ns@.subrange(0, 0) =~= Seq::<Representation<Composition>>::empty());
        while k < ns.len()
            invariant
                0 <= k <= ns@.len(),
                group_views(ports@) == head + groups_in_nested(ns@.subrange(0, k as int)),
            decreases ns@.len() - k,
        {
            let ghost sub = ns@.subrange(0, k + 1);
            assert(sub.drop_last() =~= ns@.subrange(0, k as int));
            let ghost before = ports@;
            let mut found = ns[k].origin().ports.origin().get_grouped();
            let ghost f = found@;
            ports.append(&mut found);
            assert(group_views(ports@) =~= group_views(before) + group_views(f));
            k = k + 1;
        }
        assert(ns@.subrange(0, ns@.len() as int) =~= ns@);
        Ok(ports)
    }

    /// The port with the id: among the composition's own ports, else those of its nested
    /// compositions, else those of its components.
    pub fn get_port(&self, id: usize) -> (res: Option<&Port>)
        ensures
            opt_view(res) == port_of(self.entity, id),
    {
        if let Some(port) = self.entity.get_port(&id) {
            return Some(port);
        }
        if let Some(port) = find_nested_port(&self.entity.compositions, id) {
            return Some(port);
        }
        find_component_port(&self.entity.components, id)
    }

    /// The port with the id under the entity with the given id.
    fn find_port(&self, parent_id: usize, port_id: usize) -> (res: Option<&Port>)
        ensures
            opt_view(res) == port_under(self.entity, parent_id, port_id),
    {
        if self.entity.sig.id == parent_id {
            return self.get_port(port_id);
        }
        proof {
            lemma_index_bounds_c(self.entity.components@, parent_id);
            lemma_index_bounds_n(self.entity.compositions@, parent_id);
        }
        match component_position(&self.entity.components, parent_id) {
            Some(ci) => self.entity.components[ci].origin().get_port(&port_id),
            None => match composition_position(&self.entity.compositions, parent_id) {
                Some(si) => self.entity.compositions[si].origin().get_port(&port_id),
                None => None,
            },
        }
    }

    fn connection_to_connection_data(&self, conn: &Connection) -> (res: (
        ConnectionData,
        ConnectionData,
    ))
        ensures
            data_view(res) == connection_data(self.entity, *conn),
    {
        let port_out = self.find_port(*conn.out_comp(), *conn.out_port());
        let port_in = self.find_port(*conn.in_comp(), *conn.in_port());
        match (port_out, port_in) {
            (Some(o), Some(i)) => (
                (*conn.out_port(), clone_ids(&o.contains), *conn.out_comp()),
                (*conn.in_port(), clone_ids(&i.contains), *conn.in_comp()),
            ),
            _ => (
                (*conn.out_port(), Vec::new(), *conn.out_comp()),
                (*conn.in_port(), Vec::new(), *conn.in_comp()),
            ),
        }
    }

    /// What is known of the first connection that names the port at an end.
    pub fn get_connection(&self, port: usize) -> (res: Option<(ConnectionData, ConnectionData)>)
        ensures
            ({
                let i = first_naming(self.entity.connections@, port);
                &&& i < 0 ==> res is None
                &&& i >= 0 ==> res is Some && data_view(res.unwrap()) == connection_data(
                    self.entity,
                    self.entity.connections@[i].entity(),
                )
            }),
    {
        let conns = &self.entity.connections;
        let mut i: usize = 0;
        assert(conns@.subrange(0, 0) =~= Seq::<Representation<Connection>>::empty());
        while i < conns.len()
            invariant
                0 <= i <= conns@.len(),
                first_naming(conns@.subrange(0, i as int), port) == -1,
                conns@ == self.entity.connections@,
            decreases conns@.len() - i,
        {
            let ghost sub = conns@.subrange(0, i + 1);
            assert(sub.drop_last() =~= conns@.subrange(0, i as int));
            let named = (&port).included_as_port(&conns[i]).is_some();
            assert(named == names_port(conns@[i as int].entity(), port));
            if named {
                proof {
                    lemma_first_naming_prefix(conns@, port, i + 1);
                }
                let d = self.connection_to_connection_data(conns[i].origin());
                assert(data_view(d) == connection_data(self.entity, self.entity.connections@[i as int].entity()));
                return Some(d);
            }
            i = i + 1;
        }
        assert(conns@.subrange(0, conns@.len() as int) =~= conns@);
        None
    }

    /// What is known of each connection that names the port at an end.
    pub fn get_connections(&self, port: usize) -> (res: Vec<(ConnectionData, ConnectionData)>)
        ensures
            res@.map_values(|d: (ConnectionData, ConnectionData)| data_view(d)) == data_by_port(
                self.entity,
                self.entity.connections@,
                port,
            ),
    {
        let conns = &self.entity.connections;
        let mut res: Vec<(ConnectionData, ConnectionData)> = Vec::new();
        let mut i: usize = 0;
        assert(conns@.subrange(0, 0) =~= Seq::<Representation<Connection>>::empty());
        while i < conns.len()
            invariant
                0 <= i <= conns@.len(),
                res@.map_values(|d: (ConnectionData, ConnectionData)| data_view(d)) == data_by_port(
                    self.entity,
                    conns@.subrange(0, i as int),
                    port,
                ),
            decreases conns@.len() - i,
        {
            let ghost sub = conns@.subrange(0, i + 1);
            assert(sub.drop_last() =~= conns@.subrange(0, i as int));
            let ghost before = res@;
            if (&port).included_as_port(&conns[i]).is_some() {
                let d = self.connection_to_connection_data(conns[i].origin());
                res.push(d);
                assert(res@.map_values(|d: (ConnectionData, ConnectionData)| data_view(d))
                    =~= before.map_values(|d: (ConnectionData, ConnectionData)| data_view(d)).push(
                    data_view(d),
                ));
            }
            i = i + 1;
        }
        assert(conns@.subrange(0, conns@.len() as int) =~= conns@);
        res
    }

    /// What is known of each connection that names the component at an end.
    pub fn get_connections_by_component(&self, component: usize) -> (res: Vec<
        (ConnectionData, ConnectionData),
    >)
        ensures
            res@.map_values(|d: (ConnectionData, ConnectionData)| data_view(d)) == data_by_component(
                self.entity,
                self.entity.connections@,
                component,
            ),
    {
        let conns = &self.entity.connections;
        let mut res: Vec<(ConnectionData, ConnectionData)> = Vec::new();
        let mut i: usize = 0;
        assert(conns@.subrange(0, 0) =~= Seq::<Representation<Connection>>::empty());
        while i < conns.len()
            invariant
                0 <= i <= conns@.len(),
                res@.map_values(|d: (ConnectionData, ConnectionData)| data_view(d))
                    == data_by_component(self.entity, conns@.subrange(0, i as int), component),
            decreases conns@.len() - i,
        {
            let ghost sub = conns@.subrange(0, i + 1);
            assert(sub.drop_last() =~= conns@.subrange(0, i as int));
            let ghost before = res@;
            if (&component).included_as_component(&conns[i]) {
                let d = self.connection_to_connection_data(conns[i].origin());
                res.push(d);
                assert(res@.map_values(|d: (ConnectionData, ConnectionData)| data_view(d))
                    =~= before.map_values(|d: (ConnectionData, ConnectionData)| data_view(d)).push(
                    data_view(d),
                ));
            }
            i = i + 1;
        }
        assert(conns@.subrange(0, conns@.len() as int) =~= conns@);
        res
    }

    /// What is known of every connection of the composition.
    pub fn get_all_connections(&self) -> (res: Vec<(ConnectionData, ConnectionData)>)
        ensures
            res@.len() == self.entity.connections@.len(),
            forall|i: int|
                0 <= i < res@.len() ==> data_view(#[trigger] res@[i]) == connection_data(
                    self.entity,
                    self.entity.connections@[i].entity(),
                ),
    {
        let conns = &self.entity.connections;
        let mut res: Vec<(ConnectionData, ConnectionData)> = Vec::new();
        let mut i: usize = 0;
        while i < conns.len()
            invariant
                0 <= i <= conns@.len(),
                res@.len() == i,
                forall|j: int|
                    0 <= j < i ==> data_view(#[trigger] res@[j]) == connection_data(
                        self.entity,
                        conns@[j].entity(),
                    ),
            decreases conns@.len() - i,
        {
            res.push(self.connection_to_connection_data(conns[i].origin()));
            i = i + 1;
        }
        res
    }

    /// The positions of the connections whose lines are shown: visible ones whose two ports
    /// are both selected or highlighted (and shown by the filter).
    pub fn shown_connections(&self, state: &State) -> (res: Vec<usize>)
        ensures
            forall|k: int| 0 <= k < res@.len() ==> #[trigger] res@[k] < self.entity.connections@.len(),
            forall|k: int, l: int| 0 <= k < l < res@.len() ==> res@[k] < res@[l],
            forall|i: int|
                0 <= i < self.entity.connections@.len() ==> (res@.contains(i as usize) <==> {
                    let c = #[trigger] self.entity.connections@[i].entity();
                    &&& c.visibility
                    &&& state.visible(shown_port(c.joint_in))
                    &&& (state.ports@.contains(shown_port(c.joint_in))
                        || state.ports_highlighted@.contains(shown_port(c.joint_in)))
                    &&& state.visible(shown_port(c.joint_out))
                    &&& (state.ports@.contains(shown_port(c.joint_out))
                        || state.ports_highlighted@.contains(shown_port(c.joint_out)))
                }),
    {
        let mut res: Vec<usize> = Vec::new();
        let mut i: usize = 0;
        while i < self.entity.connections.len()
            invariant
                0 <= i <= self.entity.connections@.len(),
                forall|k: int| 0 <= k < res@.len() ==> #[trigger] res@[k] < i,
                forall|k: int, l: int| 0 <= k < l < res@.len() ==> res@[k] < res@[l],
                forall|j: int|
                    0 <= j < i ==> (res@.contains(j as usize) <==> {
                        let c = #[trigger] self.entity.connections@[j].entity();
                        &&& c.visibility
                        &&& state.visible(shown_port(c.joint_in))
                        &&& (state.ports@.contains(shown_port(c.joint_in))
                            || state.ports_highlighted@.contains(shown_port(c.joint_in)))
                        &&& state.visible(shown_port(c.joint_out))
                        &&& (state.ports@.contains(shown_port(c.joint_out))
                            || state.ports_highlighted@.contains(shown_port(c.joint_out)))
                    }),
                forall|j: int| i <= j < self.entity.connections@.len() ==> !#[trigger] res@.contains(j as usize),
            decreases self.entity.connections@.len() - i,
        {
            let c = self.entity.connections[i].origin();
            if c.visibility && state.is_port_selected_or_highlighted(c.in_port())
                && state.is_port_selected_or_highlighted(c.out_port()) {
                let ghost before = res@;
                res.push(i);
                assert forall|j: int| 0 <= j < i + 1 implies (#[trigger] res@.contains(j as usize) <==> before.contains(j as usize) || j == i) by {
                    if res@.contains(j as usize) {
                        let k = choose|k: int| 0 <= k < res@.len() && res@[k] == j as usize;
                        if k < before.len() {
                            assert(before[k] == res@[k]);
                        }
                    }
                    if before.contains(j as usize) {
                        let k = choose|k: int| 0 <= k < before.len() && before[k] == j as usize;
                        assert(res@[k] == before[k]);
                    }
                    if j == i {
                        assert(res@[before.len() as int] == i);
                    }
                }
                assert forall|j: int| i + 1 <= j < self.entity.connections@.len() implies !#[trigger] res@.contains(j as usize) by {
                    if res@.contains(j as usize) {
                        let k = choose|k: int| 0 <= k < res@.len() && res@[k] == j as usize;
                        if k < before.len() {
                            assert(before[k] == res@[k]);
                        }
                    }
                }
            }
            i = i + 1;
        }
        res
    }

    /// The ids of the components.
    pub fn get_all_components(&self) -> (res: Vec<usize>)
        ensures
            res@ == self.entity.components@.map_values(
                |c: Representation<Component>| c.entity().sig.id,
            ),
    {
        let cs = &self.entity.components;
        let mut res: Vec<usize> = Vec::new();
        let mut i: usize = 0;
        while i < cs.len()
            invariant
                0 <= i <= cs@.len(),
                res@ == cs@.subrange(0, i as int).map_values(
                    |c: Representation<Component>| c.entity().sig.id,
                ),
            decreases cs@.len() - i,
        {
            res.push(cs[i].origin().sig.id);
            i = i + 1;
            assert(res@ =~= cs@.subrange(0, i as int).map_values(
                |c: Representation<Component>| c.entity().sig.id,
            ));
        }
        assert(cs@.subrange(0, cs@.len() as int) =~= cs@);
        res
    }
}

proof fn lemma_first_naming_prefix(conns: Seq<Representation<Connection>>, id: usize, n: int)
    requires
        0 < n <= conns.len(),
        first_naming(conns.subrange(0, n - 1), id) == -1,
        names_port(conns[n - 1].entity(), id),
    ensures
        first_naming(conns, id) == n - 1,
    decreases conns.len(),
{
    if conns.len() > n {
        assert(conns.drop_last().subrange(0, n - 1) =~= conns.subrange(0, n - 1));
        lemma_first_naming_prefix(conns.drop_last(), id, n);
    } else {
        assert(conns.drop_last() =~= conns.subrange(0, n - 1));
    }
}

/// Where the grid places the element with the id, in pixels; the origin when it is not there.
pub open spec fn cell_at(g: Grid, id: usize) -> (int, int) {
    let k = decimal(id as nat);
    let e = g.cells();
    if has_key(e, k) {
        let i = choose|i: int| 0 <= i < e.len() && e[i].0 == k;
        ((e[i].1.1.0 * g.cell) as i32 as int, (e[i].1.1.1 * g.cell) as i32 as int)
    } else {
        (0, 0)
    }
}

/// The grid can be asked where its elements are.
pub open spec fn grid_ready(g: Grid) -> bool {
    &&& g.wf()
    &&& pixels_fit(g.cells(), g.cell)
}

/// Where the grid places the element with the id.
fn grid_spot(grid: &Grid, id: usize) -> (res: (i32, i32))
    requires
        grid_ready(*grid),
    ensures
        res.0 == cell_at(*grid, id).0,
        res.1 == cell_at(*grid, id).1,
{
    let res = grid.relative(id);
    proof {
        let k = decimal(id as nat);
        let e = grid.cells();
        if has_key(e, k) {
            let i = choose|i: int| 0 <= i < e.len() && e[i].0 == k;
            let j = choose|j: int|
                0 <= j < e.len() && e[j].0 == k && res.0 == (e[j].1.1.0 * grid.cell) as i32
                    && res.1 == (e[j].1.1.1 * grid.cell) as i32;
            if i < j {
                assert(e[i].0 != e[j].0);
            } else if j < i {
                assert(e[j].0 != e[i].0);
            }
        }
    }
    res
}

/// The container was moved to the position: its figure is there, of the same size, kind and
/// id, with the same style; a path does not move.
pub open spec fn moved_to(a: Container, b: Container, p: (int, int)) -> bool {
    &&& a.form is Path ==> b.form == a.form
    &&& !(a.form is Path) ==> b.form.raw_pos().0 == p.0 && b.form.raw_pos().1 == p.1
    &&& !(a.form is Path) ==> b.form == a.form.moved(Some(p.0 as i32), Some(p.1 as i32))
    &&& b.form.box_size() == a.form.box_size()
    &&& b.form.el_ty() == a.form.el_ty()
    &&& b.form.id_view() == a.form.id_view()
    &&& b.style == a.style
}

/// Everything that aligning reads is drawn: every component and nested composition has a
/// view, and so does everything in each nested composition that is shown.
pub open spec fn alignable(r: Render<Composition>) -> bool
    decreases r,
{
    &&& forall|i: int|
        0 <= i < r.entity.components@.len() ==> #[trigger] r.entity.components@[i] is Render
    &&& forall|i: int|
        0 <= i < r.entity.compositions@.len() ==> #[trigger] r.entity.compositions@[i] is Render
    &&& forall|i: int|
        0 <= i < r.entity.compositions@.len() ==> (#[trigger] r.entity.compositions@[i] matches Representation::Render(n)
            && (!n.hidden ==> alignable(n)))
}

/// The composition was aligned to the grid: it, each of its components, and, in each shown
/// nested composition, everything, moved to where the grid places it.
pub open spec fn aligned(a: Render<Composition>, b: Render<Composition>, g: Grid) -> bool
    decreases a,
{
    &&& b.entity.sig == a.entity.sig
    &&& b.entity.connections == a.entity.connections
    &&& b.entity.ports == a.entity.ports
    &&& b.entity.parent == a.entity.parent
    &&& b.hidden == a.hidden
    &&& b.view.elements == a.view.elements
    &&& moved_to(a.view.container, b.view.container, cell_at(g, a.entity.sig.id))
    &&& b.entity.components@.len() == a.entity.components@.len()
    &&& forall|i: int|
        0 <= i < a.entity.components@.len() ==> (#[trigger] a.entity.components@[i] matches Representation::Render(x)
            && b.entity.components@[i] matches Representation::Render(y) && y.entity == x.entity
            && y.hidden == x.hidden && y.view.elements == x.view.elements && moved_to(
            x.view.container,
            y.view.container,
            cell_at(g, x.entity.sig.id),
        ))
    &&& b.entity.compositions@.len() == a.entity.compositions@.len()
    &&& forall|i: int|
        0 <= i < a.entity.compositions@.len() ==> (#[trigger] a.entity.compositions@[i] matches Representation::Render(x)
            && b.entity.compositions@[i] matches Representation::Render(y) && (x.hidden ==> y == x)
            && (!x.hidden ==> aligned(x, y, g)))
}

impl Render<Composition> {
    /// Moves the composition, its components and everything in its shown nested compositions
    /// to where the grid places them. Fails when one of them has no view.
    pub fn align_to_grid(&mut self, grid: &Grid) -> (res: Result<(), E>)
        requires
            grid_ready(*grid),
        ensures
            res is Ok <==> alignable(*old(self)),
            res is Ok ==> aligned(*old(self), *final(self), *grid),
            res is Err ==> res == Err::<(), E>(E::RenderNotInited),
        decreases *old(self),
    {
        let ghost before = *self;
        let mut i: usize = 0;
        while i < self.entity.components.len()
            invariant
                grid_ready(*grid),
                0 <= i <= self.entity.components@.len(),
                self.entity.components@.len() == before.entity.components@.len(),
                forall|j: int|
                    0 <= j < i ==> (#[trigger] before.entity.components@[j] matches Representation::Render(x)
                        && self.entity.components@[j] matches Representation::Render(y) && y.entity
                        == x.entity && y.hidden == x.hidden && y.view.elements == x.view.elements
                        && moved_to(x.view.container, y.view.container, cell_at(*grid, x.entity.sig.id))),
                forall|j: int|
                    i <= j < self.entity.components@.len() ==> #[trigger] self.entity.components@[j]
                        == before.entity.components@[j],
                self.entity.sig == before.entity.sig,
                self.entity.connections == before.entity.connections,
                self.entity.compositions == before.entity.compositions,
                self.entity.ports == before.entity.ports,
                self.entity.parent == before.entity.parent,
                self.view == before.view,
                self.hidden == before.hidden,
                before == *old(self),
            decreases self.entity.components@.len() - i,
        {
            let id = self.entity.components[i].origin().sig.id;
            let pos = grid_spot(grid, id);
            match &mut self.entity.components[i] {
                Representation::Render(r) => {
                    r.view.container.set_coors(Some(pos.0), Some(pos.1));
                },
                Representation::Origin(_) => {
                    return Err(E::RenderNotInited);
                },
            }
            i = i + 1;
        }
        let mut k: usize = 0;
        while k < self.entity.compositions.len()
            invariant
                grid_ready(*grid),
                0 <= k <= self.entity.compositions@.len(),
                self.entity.compositions@.len() == before.entity.compositions@.len(),
                forall|j: int|
                    0 <= j < k ==> (#[trigger] before.entity.compositions@[j] matches Representation::Render(x)
                        && self.entity.compositions@[j] matches Representation::Render(y) && (x.hidden
                        ==> y == x) && (!x.hidden ==> alignable(x) && aligned(x, y, *grid))),
                forall|j: int|
                    k <= j < self.entity.compositions@.len() ==> #[trigger] self.entity.compositions@[j]
                        == before.entity.compositions@[j],
                self.entity.components@.len() == before.entity.components@.len(),
                forall|j: int|
                    0 <= j < self.entity.components@.len() ==> (#[trigger] before.entity.components@[j] matches Representation::Render(x)
                        && self.entity.components@[j] matches Representation::Render(y) && y.entity
                        == x.entity && y.hidden == x.hidden && y.view.elements == x.view.elements
                        && moved_to(x.view.container, y.view.container, cell_at(*grid, x.entity.sig.id))),
                self.entity.sig == before.entity.sig,
                self.entity.connections == before.entity.connections,
                self.entity.ports == before.entity.ports,
                self.entity.parent == before.entity.parent,
                self.view == before.view,
                self.hidden == before.hidden,
                before == *old(self),
            decreases self.entity.compositions@.len() - k,
        {
            match &mut self.entity.compositions[k] {
                Representation::Render(r) => {
                    if !r.hidden {
                        assert(decreases_to!(before => before.entity));
                        assert(decreases_to!(before.entity => before.entity.compositions));
                        assert(decreases_to!(before.entity.compositions => before.entity.compositions@));
                        assert(decreases_to!(before.entity.compositions@ => before.entity.compositions@[k as int]));
                        assert(decreases_to!(before.entity.compositions@[k as int] => before.entity.compositions@[k as int]->Render_0));
                        assert(*r == before.entity.compositions@[k as int]->Render_0);
                        match r.align_to_grid(grid) {
                            Ok(()) => {},
                            Err(e) => {
                                return Err(e);
                            },
                        }
                    }
                },
                Representation::Origin(_) => {
                    return Err(E::RenderNotInited);
                },
            }
            k = k + 1;
        }
        let pos = grid_spot(grid, self.entity.sig.id);
        self.view.container.set_coors(Some(pos.0), Some(pos.1));
        Ok(())
    }
}

/// Where an end of a connection was found: in a component, in a nested composition, or among
/// the composition's own ports.
#[derive(Debug, Clone, Copy)]
pub enum Holder {
    Component(usize),
    Composition(usize),
    Own,
}

/// The connection is drawn: it is visible and the filter shows both its components.
pub open spec fn drawn_link(c: Connection, state: State) -> bool {
    c.visibility && owner_shown(state, c.joint_in.component) && owner_shown(state, c.joint_out.component)
}

/// The port of an end: among the ports of the first component with the component's id, else
/// of the first nested composition with it; else among the composition's own ports.
pub open spec fn end_of(e: Composition, comp: usize, port: usize) -> Option<(Holder, Representation<Port>)> {
    let cs = e.components@;
    let ns = e.compositions@;
    let ci = component_index(cs, comp);
    let si = composition_index(ns, comp);
    let own = e.ports.entity().ports@;
    let via = if ci >= 0 {
        let ps = cs[ci].entity().ports.entity().ports@;
        let k = index_of_id(ps, port);
        if k >= 0 {
            Some((Holder::Component(ci as usize), ps[k]))
        } else {
            None
        }
    } else if si >= 0 {
        let ps = ns[si].entity().ports.entity().ports@;
        let k = index_of_id(ps, port);
        if k >= 0 {
            Some((Holder::Composition(si as usize), ps[k]))
        } else {
            None
        }
    } else {
        None
    };
    match via {
        Some(v) => Some(v),
        None => {
            let k = index_of_id(own, port);
            if k >= 0 {
                Some((Holder::Own, own[k]))
            } else {
                None
            }
        },
    }
}

/// The form of the holder of an end, when it has a view.
pub open spec fn holder_form(r: Render<Composition>, h: Holder) -> Option<Form> {
    match h {
        Holder::Component(i) => match r.entity.components@[i as int] {
            Representation::Render(x) => Some(x.view.container.form),
            Representation::Origin(_) => None,
        },
        Holder::Composition(i) => match r.entity.compositions@[i as int] {
            Representation::Render(x) => Some(x.view.container.form),
            Representation::Origin(_) => None,
        },
        Holder::Own => Some(r.view.container.form),
    }
}

/// The form of a port, when it has a view.
pub open spec fn port_form(p: Representation<Port>) -> Option<Form> {
    match p {
        Representation::Render(x) => Some(x.view.container.form),
        Representation::Origin(_) => None,
    }
}

/// The box of an end on the board: where the port stands from its holder, and its size.
pub open spec fn end_box(h: Form, p: Form) -> (int, int, int, int) {
    (h.coors().0 + p.coors().0, h.coors().1 + p.coors().1, p.box_size().0, p.box_size().1)
}

/// The middle of the right side of a box, and of its left side.
pub open spec fn right_mid(b: (int, int, int, int)) -> (int, int) {
    (b.0 + b.2, b.1 + div_toward_zero(b.3, 2))
}

pub open spec fn left_mid(b: (int, int, int, int)) -> (int, int) {
    (b.0, b.1 + div_toward_zero(b.3, 2))
}

/// The line of a connection: from the right side of one end to the left side of the other.
/// It starts at the out end when the in port is on the right and the connection runs through
/// the composition's own ports, or neither; else at the in end.
pub open spec fn link_points(self_link: bool, in_right: bool, i: (int, int, int, int), o: (int, int, int, int)) -> Seq<
    (int, int),
> {
    if self_link == in_right {
        seq![right_mid(o), left_mid(i)]
    } else {
        seq![right_mid(i), left_mid(o)]
    }
}

/// What setting up a connection gives: `None` when something it needs has no view,
/// `Some(None)` when it is not drawn or its ports are not found, else its line.
pub open spec fn link_outcome(r: Render<Composition>, c: Connection, state: State) -> Option<
    Option<Seq<(int, int)>>,
> {
    let e = r.entity;
    if !drawn_link(c, state) {
        Some(None)
    } else {
        match (
            end_of(e, c.joint_in.component, shown_port(c.joint_in)),
            end_of(e, c.joint_out.component, shown_port(c.joint_out)),
        ) {
            (Some((hi, pi)), Some((ho, po))) => match (
                port_form(pi),
                port_form(po),
                holder_form(r, hi),
                holder_form(r, ho),
            ) {
                (Some(fi), Some(fo), Some(gi), Some(go)) => {
                    let own = e.ports.entity().ports@;
                    let self_link = index_of_id(own, pi.entity().sig.id) >= 0 || index_of_id(
                        own,
                        po.entity().sig.id,
                    ) >= 0;
                    Some(
                        Some(
                            link_points(
                                self_link,
                                pi.entity().port_type == PortType::Right,
                                end_box(gi, fi),
                                end_box(go, fo),
                            ),
                        ),
                    )
                },
                _ => None,
            },
            _ => Some(None),
        }
    }
}

/// The numbers of an end fit the machine integers.
pub open spec fn end_fits(h: Form, p: Form) -> bool {
    let b = end_box(h, p);
    &&& h.coors_fit()
    &&& p.coors_fit()
    &&& p.box_size_fits()
    &&& i32::MIN <= b.0 <= i32::MAX
    &&& i32::MIN <= b.1 <= i32::MAX
    &&& i32::MIN <= b.0 + b.2 <= i32::MAX
    &&& i32::MIN <= b.1 + div_toward_zero(b.3, 2) <= i32::MAX
}

/// The numbers that setting up the connection computes fit the machine integers.
pub open spec fn link_fits(r: Render<Composition>, c: Connection) -> bool {
    let e = r.entity;
    match (
        end_of(e, c.joint_in.component, shown_port(c.joint_in)),
        end_of(e, c.joint_out.component, shown_port(c.joint_out)),
    ) {
        (Some((hi, pi)), Some((ho, po))) => match (
            port_form(pi),
            port_form(po),
            holder_form(r, hi),
            holder_form(r, ho),
        ) {
            (Some(fi), Some(fo), Some(gi), Some(go)) => end_fits(gi, fi) && end_fits(go, fo),
            _ => true,
        },
        _ => true,
    }
}

/// The connection's line was set up as the outcome says.
pub open spec fn link_set(
    a: Representation<Connection>,
    b: Representation<Connection>,
    outcome: Option<Option<Seq<(int, int)>>>,
    ratio: u8,
) -> bool {
    match outcome {
        Some(Some(pts)) => match (a, b) {
            (Representation::Render(x), Representation::Render(y)) => {
                &&& y.entity == x.entity
                &&& y.hidden == x.hidden
                &&& y.view.elements == x.view.elements
                &&& y.view.container.style == x.view.container.style
                &&& match y.view.container.form {
                    Form::Path(ElementType::Connection, p) => {
                        &&& p.id@ == decimal(x.entity.sig.id as nat)
                        &&& p.points@.map_values(|q: Point| (q.x as int, q.y as int)) == pts
                        &&& p.params.radius == 3 * ratio
                        &&& !p.sdot && !p.edot && !p.sarrow && !p.earrow
                    },
                    _ => false,
                }
            },
            _ => false,
        },
        _ => b == a,
    }
}

/// The connection can be set up: what it needs has a view, and it has one when it is drawn.
pub open spec fn link_ok(r: Render<Composition>, c: Representation<Connection>, state: State) -> bool {
    match link_outcome(r, c.entity(), state) {
        None => false,
        Some(None) => true,
        Some(Some(_)) => c is Render,
    }
}

/// How setting up the connections ends: it succeeds exactly when every connection's line
/// can be set up; then each connection is set up as its outcome says and all else is kept.
pub open spec fn connected(
    before: Render<Composition>,
    after: Render<Composition>,
    res: Result<(), E>,
    ratio: u8,
    state: State,
) -> bool {
    &&& res is Ok <==> forall|i: int|
        0 <= i < before.entity.connections@.len() ==> link_ok(
            before,
            #[trigger] before.entity.connections@[i],
            state,
        )
    &&& res is Err ==> res == Err::<(), E>(E::RenderNotInited)
    &&& res is Ok ==> {
        &&& after.entity.connections@.len() == before.entity.connections@.len()
        &&& forall|i: int|
            0 <= i < before.entity.connections@.len() ==> link_set(
                before.entity.connections@[i],
                #[trigger] after.entity.connections@[i],
                link_outcome(before, before.entity.connections@[i].entity(), state),
                ratio,
            )
        &&& after.entity.components == before.entity.components
        &&& after.entity.compositions == before.entity.compositions
        &&& after.entity.ports == before.entity.ports
        &&& after.entity.sig == before.entity.sig
        &&& after.entity.parent == before.entity.parent
        &&& after.view == before.view
        &&& after.hidden == before.hidden
    }
}

/// Whether an end whose port has the form `p` in the holder with the form `h` fits the
/// machine integers as `end_fits` asks.
fn end_fits_check(h: &Form, p: &Form) -> (res: bool)
    ensures
        res == end_fits(*h, *p),
{
    match (h.wide_coors(), p.wide_coors(), p.wide_size()) {
        (Some(hc), Some(pc), Some(ps)) => {
            let x = hc.0 + pc.0;
            let y = hc.1 + pc.1;
            let right = x + ps.0;
            let mid = y + ps.1 / 2;
            let lo = i32::MIN as i64;
            let hi = i32::MAX as i64;
            lo <= x && x <= hi && lo <= y && y <= hi && lo <= right && right <= hi && lo <= mid
                && mid <= hi
        },
        _ => false,
    }
}

/// Whether the connection's ends fit the machine integers as `link_fits` asks.
fn link_fits_check(r: &Render<Composition>, c: &Connection) -> (res: bool)
    ensures
        res == link_fits(*r, *c),
{
    let e = &r.entity;
    proof {
        lemma_end_in_range(*e, c.joint_in.component, shown_port(c.joint_in));
        lemma_end_in_range(*e, c.joint_out.component, shown_port(c.joint_out));
    }
    match (find_end(e, *c.in_comp(), *c.in_port()), find_end(e, *c.out_comp(), *c.out_port())) {
        (Some((hi, pi)), Some((ho, po))) => {
            let fi = match pi {
                Representation::Render(x) => &x.view.container.form,
                Representation::Origin(_) => {
                    return true;
                },
            };
            let fo = match po {
                Representation::Render(x) => &x.view.container.form,
                Representation::Origin(_) => {
                    return true;
                },
            };
            match (holder_of(r, hi), holder_of(r, ho)) {
                (Some(gi), Some(go)) => end_fits_check(gi, fi) && end_fits_check(go, fo),
                _ => true,
            }
        },
        _ => true,
    }
}

/// The port of an end, and where it was found.
fn find_end(e: &Composition, comp: usize, port: usize) -> (res: Option<(Holder, &Representation<Port>)>)
    ensures
        match end_of(*e, comp, port) {
            Some(v) => res matches Some(x) && x.0 == v.0 && *x.1 == v.1,
            None => res is None,
        },
{
    proof {
        lemma_index_bounds_c(e.components@, comp);
        lemma_index_bounds_n(e.compositions@, comp);
    }
    let via = match component_position(&e.components, comp) {
        Some(ci) => match e.components[ci].origin().ports.origin().find(&port) {
            Some(p) => Some((Holder::Component(ci), p)),
            None => None,
        },
        None => match composition_position(&e.compositions, comp) {
            Some(si) => match e.compositions[si].origin().ports.origin().find(&port) {
                Some(p) => Some((Holder::Composition(si), p)),
                None => None,
            },
            None => None,
        },
    };
    match via {
        Some(v) => Some(v),
        None => match e.ports.origin().find(&port) {
            Some(p) => Some((Holder::Own, p)),
            None => None,
        },
    }
}

/// The form of the holder of an end, when it has a view.
fn holder_of(r: &Render<Composition>, h: Holder) -> (res: Option<&Form>)
    requires
        match h {
            Holder::Component(i) => i < r.entity.components@.len(),
            Holder::Composition(i) => i < r.entity.compositions@.len(),
            Holder::Own => true,
        },
    ensures
        match holder_form(*r, h) {
            Some(f) => res matches Some(x) && *x == f,
            None => res is None,
        },
{
    match h {
        Holder::Component(i) => match &r.entity.components[i] {
            Representation::Render(x) => Some(&x.view.container.form),
            Representation::Origin(_) => None,
        },
        Holder::Composition(i) => match &r.entity.compositions[i] {
            Representation::Render(x) => Some(&x.view.container.form),
            Representation::Origin(_) => None,
        },
        Holder::Own => Some(&r.view.container.form),
    }
}

proof fn lemma_end_in_range(e: Composition, comp: usize, port: usize)
    ensures
        end_of(e, comp, port) matches Some(v) ==> match v.0 {
            Holder::Component(i) => i < e.components@.len(),
            Holder::Composition(i) => i < e.compositions@.len(),
            Holder::Own => true,
        },
{
    lemma_index_bounds_c(e.components@, comp);
    lemma_index_bounds_n(e.compositions@, comp);
}

/// The line of one connection, or nothing when it is not drawn; fails when something it needs
/// has no view.
fn plan_link(r: &Render<Composition>, c: &Connection, state: &State) -> (res: Result<
    Option<Vec<Point>>,
    E,
>)
    requires
        link_fits(*r, *c),
    ensures
        match link_outcome(*r, *c, *state) {
            None => res == Err::<Option<Vec<Point>>, E>(E::RenderNotInited),
            Some(None) => res matches Ok(x) && x is None,
            Some(Some(pts)) => res matches Ok(x) && x matches Some(v) && v@.map_values(
                |q: Point| (q.x as int, q.y as int),
            ) == pts,
        },
{
    if !(c.visibility && state.is_comp_included(c.in_comp()) && state.is_comp_included(c.out_comp())) {
        return Ok(None);
    }
    let e = &r.entity;
    proof {
        lemma_end_in_range(*e, c.joint_in.component, shown_port(c.joint_in));
        lemma_end_in_range(*e, c.joint_out.component, shown_port(c.joint_out));
    }
    let (hi, pi) = match find_end(e, *c.in_comp(), *c.in_port()) {
        Some(x) => x,
        None => {
            return Ok(None);
        },
    };
    let (ho, po) = match find_end(e, *c.out_comp(), *c.out_port()) {
        Some(x) => x,
        None => {
            return Ok(None);
        },
    };
    let fi = match pi {
        Representation::Render(x) => &x.view.container.form,
        Representation::Origin(_) => {
            return Err(E::RenderNotInited);
        },
    };
    let fo = match po {
        Representation::Render(x) => &x.view.container.form,
        Representation::Origin(_) => {
            return Err(E::RenderNotInited);
        },
    };
    let gi = match holder_of(r, hi) {
        Some(f) => f,
        None => {
            return Err(E::RenderNotInited);
        },
    };
    let go = match holder_of(r, ho) {
        Some(f) => f,
        None => {
            return Err(E::RenderNotInited);
        },
    };
    let coors_in = fi.get_coors();
    let coors_out = fo.get_coors();
    let rel_in = gi.get_coors();
    let rel_out = go.get_coors();
    let size_in = fi.get_box_size();
    let size_out = fo.get_box_size();
    let xi = rel_in.0 + coors_in.0;
    let yi = rel_in.1 + coors_in.1;
    let xo = rel_out.0 + coors_out.0;
    let yo = rel_out.1 + coors_out.1;
    let own = e.ports.origin();
    let self_link = own.find(&pi.origin().sig.id).is_some() || own.find(&po.origin().sig.id).is_some();
    let in_right = pi.origin().port_type == PortType::Right;
    let mut points: Vec<Point> = Vec::new();
    if self_link == in_right {
        points.push(Point { x: xo + size_out.0, y: yo + size_out.1 / 2 });
        points.push(Point { x: xi, y: yi + size_in.1 / 2 });
    } else {
        points.push(Point { x: xi + size_in.0, y: yi + size_in.1 / 2 });
        points.push(Point { x: xo, y: yo + size_out.1 / 2 });
    }
    proof {
        let bi = end_box(*gi, *fi);
        let bo = end_box(*go, *fo);
        assert(points@.map_values(|q: Point| (q.x as int, q.y as int)) =~= link_points(
            self_link,
            in_right,
            bi,
            bo,
        ));
    }
    Ok(Some(points))
}

impl Render<Composition> {
    /// Gives each drawn connection whose ports are found the line between its ports. Fails
    /// when one of the things a drawn connection needs has no view, and, leaving everything
    /// as it was, when a position or size it needs would not fit the machine integers.
    pub fn setup_connections(&mut self, _grid: &Grid, options: &Options, state: &State) -> (res:
        Result<(), E>)
        ensures
            ({
                let fits = old(self).view.container.form.coors_fit() && forall|i: int|
                    0 <= i < old(self).entity.connections@.len() ==> link_fits(
                        *old(self),
                        #[trigger] old(self).entity.connections@[i].entity(),
                    );
                &&& !fits ==> *final(self) == *old(self)
                &&& !fits ==> (res matches Err(e) && e is Other)
                &&& fits ==> connected(*old(self), *final(self), res, options.ratio, *state)
            }),
    {
        if self.view.container.form.wide_coors().is_none() || !self.links_fit() {
            return Err(too_large());
        }
        self.connect_links(options, state)
    }

    /// Whether every connection's ends fit the machine integers.
    fn links_fit(&self) -> (res: bool)
        ensures
            res == forall|i: int|
                0 <= i < self.entity.connections@.len() ==> link_fits(
                    *self,
                    #[trigger] self.entity.connections@[i].entity(),
                ),
    {
        let mut i: usize = 0;
        while i < self.entity.connections.len()
            invariant
                0 <= i <= self.entity.connections@.len(),
                forall|j: int|
                    0 <= j < i ==> link_fits(*self, #[trigger] self.entity.connections@[j].entity()),
            decreases self.entity.connections@.len() - i,
        {
            if !link_fits_check(self, self.entity.connections[i].origin()) {
                return false;
            }
            i = i + 1;
        }
        true
    }

    /// Sets up the lines of the connections, once their numbers are known to fit.
    fn connect_links(&mut self, options: &Options, state: &State) -> (res:
        Result<(), E>)
        requires
            old(self).view.container.form.coors_fit(),
            forall|i: int|
                0 <= i < old(self).entity.connections@.len() ==> link_fits(
                    *old(self),
                    #[trigger] old(self).entity.connections@[i].entity(),
                ),
        ensures
            res is Ok <==> forall|i: int|
                0 <= i < old(self).entity.connections@.len() ==> link_ok(
                    *old(self),
                    #[trigger] old(self).entity.connections@[i],
                    *state,
                ),
            res is Err ==> res == Err::<(), E>(E::RenderNotInited),
            res is Ok ==> final(self).entity.connections@.len() == old(self).entity.connections@.len()
                && (forall|i: int|
                0 <= i < old(self).entity.connections@.len() ==> link_set(
                    old(self).entity.connections@[i],
                    #[trigger] final(self).entity.connections@[i],
                    link_outcome(*old(self), old(self).entity.connections@[i].entity(), *state),
                    options.ratio,
                )) && final(self).entity.components == old(self).entity.components
                && final(self).entity.compositions == old(self).entity.compositions
                && final(self).entity.ports == old(self).entity.ports && final(self).entity.sig
                == old(self).entity.sig && final(self).entity.parent == old(self).entity.parent
                && final(self).view == old(self).view && final(self).hidden == old(self).hidden,
    {
        let ghost before = *self;
        let n = self.entity.connections.len();
        let mut plans: Vec<Option<Vec<Point>>> = Vec::new();
        let mut i: usize = 0;
        while i < n
            invariant
                n == before.entity.connections@.len(),
                *self == before,
                0 <= i <= n,
                plans@.len() == i,
                forall|j: int|
                    0 <= j < n ==> link_fits(before, #[trigger] before.entity.connections@[j].entity()),
                forall|j: int|
                    0 <= j < i ==> #[trigger] link_outcome(
                        before,
                        before.entity.connections@[j].entity(),
                        *state,
                    ) is Some,
                forall|j: int|
                    0 <= j < i ==> match link_outcome(
                        before,
                        before.entity.connections@[j].entity(),
                        *state,
                    ) {
                        Some(Some(pts)) => #[trigger] plans@[j] matches Some(v) && v@.map_values(
                            |q: Point| (q.x as int, q.y as int),
                        ) == pts,
                        _ => plans@[j] is None,
                    },
            decreases n - i,
        {
            assert(link_fits(before, before.entity.connections@[i as int].entity()));
            match plan_link(self, self.entity.connections[i].origin(), state) {
                Ok(p) => {
                    plans.push(p);
                },
                Err(e) => {
                    assert(!link_ok(before, before.entity.connections@[i as int], *state));
                    return Err(e);
                },
            }
            i = i + 1;
        }
        let ratio = options.ratio();
        let mut k: usize = 0;
        let mut plans = plans;
        let ghost all_plans = plans@;
        while k < n
            invariant
                n == before.entity.connections@.len(),
                0 <= k <= n,
                self.entity.connections@.len() == n,
                plans@.len() == n - k,
                forall|j: int| 0 <= j < n - k ==> #[trigger] plans@[j] == all_plans[k + j],
                forall|j: int|
                    0 <= j < n ==> #[trigger] link_outcome(
                        before,
                        before.entity.connections@[j].entity(),
                        *state,
                    ) is Some,
                forall|j: int|
                    0 <= j < n ==> match link_outcome(
                        before,
                        before.entity.connections@[j].entity(),
                        *state,
                    ) {
                        Some(Some(pts)) => #[trigger] all_plans[j] matches Some(v) && v@.map_values(
                            |q: Point| (q.x as int, q.y as int),
                        ) == pts,
                        _ => all_plans[j] is None,
                    },
                forall|j: int|
                    0 <= j < k ==> link_ok(before, #[trigger] before.entity.connections@[j], *state),
                forall|j: int|
                    0 <= j < k ==> link_set(
                        before.entity.connections@[j],
                        #[trigger] self.entity.connections@[j],
                        link_outcome(before, before.entity.connections@[j].entity(), *state),
                        options.ratio,
                    ),
                forall|j: int|
                    k <= j < n ==> #[trigger] self.entity.connections@[j]
                        == before.entity.connections@[j],
                ratio.ratio == options.ratio,
                before == *old(self),
                self.entity.components == before.entity.components,
                self.entity.compositions == before.entity.compositions,
                self.entity.ports == before.entity.ports,
                self.entity.sig == before.entity.sig,
                self.entity.parent == before.entity.parent,
                self.view == before.view,
                self.hidden == before.hidden,
            decreases n - k,
        {
            let ghost pl = plans@;
            let plan = plans.remove(0);
            assert(plan == all_plans[k as int]);
            assert forall|j: int| 0 <= j < n - (k + 1) implies #[trigger] plans@[j] == all_plans[k
                + 1 + j] by {
                assert(plans@[j] == pl[j + 1]);
            }
            match plan {
                Some(points) => {
                    match &mut self.entity.connections[k] {
                        Representation::Render(rd) => {
                            let id = rd.entity.sig.id;
                            rd.view.container.set_form(
                                Form::Path(
                                    ElementType::Connection,
                                    Path::new(usize_to_string(id), points, &ratio),
                                ),
                            );
                        },
                        Representation::Origin(_) => {
                            assert(!link_ok(before, before.entity.connections@[k as int], *state));
                            return Err(E::RenderNotInited);
                        },
                    }
                },
                None => {},
            }
            k = k + 1;
        }
        Ok(())
    }
}

/// Pairing components for the layout, host by host in the order given: a host not placed yet
/// is paired with the first component that the ordered links to it give, and both are placed.
/// Gives the pairs and the placed components.
pub open spec fn pairing(
    conns: Seq<Representation<Connection>>,
    state: State,
    hosts: Seq<(usize, usize, usize)>,
) -> (Seq<(usize, usize)>, Seq<usize>)
    decreases hosts.len(),
{
    if hosts.len() == 0 {
        (seq![], seq![])
    } else {
        let (pairs, placed) = pairing(conns, state, hosts.drop_last());
        let host = hosts.last().0;
        if placed.contains(host) {
            (pairs, placed)
        } else {
            let linked = by_weight(linked_to_tally(conns, host, placed, state));
            if linked.len() > 0 {
                (pairs.push((host, linked[0].0)), placed + seq![host, linked[0].0])
            } else {
                (pairs, placed)
            }
        }
    }
}

/// Each pair's two components are joined by one of the connections.
pub open spec fn pairs_linked(conns: Seq<Representation<Connection>>, pairs: Seq<(usize, usize)>) -> bool {
    forall|k: int| 0 <= k < pairs.len() ==> #[trigger] pair_joined(conns, pairs[k])
}

/// One of the connections joins the pair's two components.
pub open spec fn pair_joined(conns: Seq<Representation<Connection>>, p: (usize, usize)) -> bool {
    exists|i: int| 0 <= i < conns.len() && #[trigger] joins(conns[i].entity(), p.0, p.1)
}

/// No component is in two pairs.
pub open spec fn pairs_apart(pairs: Seq<(usize, usize)>) -> bool {
    forall|a: int, b: int|
        0 <= a < b < pairs.len() ==> {
            &&& #[trigger] pairs[a].0 != #[trigger] pairs[b].0
            &&& pairs[a].0 != pairs[b].1
            &&& pairs[a].1 != pairs[b].0
            &&& pairs[a].1 != pairs[b].1
        }
}

/// The placed components are those of the pairs.
pub open spec fn placed_by(pairs: Seq<(usize, usize)>, placed: Seq<usize>) -> bool {
    forall|x: usize|
        #[trigger] placed.contains(x) <==> exists|k: int| 0 <= k < pairs.len() && (pairs[k].0 == x || pairs[k].1 == x)
}

/// Each pair's first component is one of the hosts.
pub open spec fn hosted(pairs: Seq<(usize, usize)>, hosts: Seq<(usize, usize, usize)>) -> bool {
    forall|k: int| 0 <= k < pairs.len() ==> exists|j: int| 0 <= j < hosts.len() && hosts[j].0 == #[trigger] pairs[k].0
}

/// The layout pairs a host with a component joined to it by a connection; no component is in
/// two pairs; and the placed components are exactly those of the pairs.
pub proof fn law_pairs_are_linked_and_apart(
    conns: Seq<Representation<Connection>>,
    state: State,
    hosts: Seq<(usize, usize, usize)>,
)
    ensures
        pairs_linked(conns, pairing(conns, state, hosts).0),
        pairs_apart(pairing(conns, state, hosts).0),
        placed_by(pairing(conns, state, hosts).0, pairing(conns, state, hosts).1),
        hosted(pairing(conns, state, hosts).0, hosts),
    decreases hosts.len(),
{
    if hosts.len() > 0 {
        let prev = hosts.drop_last();
        law_pairs_are_linked_and_apart(conns, state, prev);
        let (pairs, placed) = pairing(conns, state, prev);
        let host = hosts.last().0;
        assert(hosts[hosts.len() - 1].0 == host);
        assert forall|k: int| 0 <= k < pairs.len() implies exists|j: int|
            0 <= j < hosts.len() && hosts[j].0 == #[trigger] pairs[k].0 by {
            let j = choose|j: int| 0 <= j < prev.len() && prev[j].0 == pairs[k].0;
            assert(hosts[j] == prev[j]);
        }
        if placed.contains(host) {
            assert(pairing(conns, state, hosts) == pairing(conns, state, prev));
        } else {
            let t = linked_to_tally(conns, host, placed, state);
            let linked = by_weight(t);
            if linked.len() == 0 {
                assert(pairing(conns, state, hosts) == pairing(conns, state, prev));
            } else {
                let o = linked[0].0;
                law_by_weight_keeps_tallies(t);
                assert(linked.contains(linked[0]));
                assert(t.contains(linked[0]));
                let q = choose|q: int| 0 <= q < t.len() && t[q] == linked[0];
                law_linked_tally_joins_host(conns, host, placed, state);
                assert(t[q].0 == o);
                assert(!placed.contains(o));
                let np = pairs.push((host, o));
                let nplaced = placed + seq![host, o];
                assert(pairing(conns, state, hosts) == (np, nplaced));
                assert forall|k: int| 0 <= k < np.len() implies #[trigger] pair_joined(conns, np[k]) by {
                    if k < pairs.len() {
                        assert(np[k] == pairs[k]);
                        assert(pair_joined(conns, pairs[k]));
                    } else {
                        assert(np[k] == (host, o));
                        let id = linked_to_tally(conns, host, placed, state)[q].0;
                        assert(id == o);
                        let i = choose|i: int| 0 <= i < conns.len() && #[trigger] joins(conns[i].entity(), host, id);
                        assert(joins(conns[i].entity(), np[k].0, np[k].1));
                        assert(pair_joined(conns, np[k]));
                    }
                }
                assert(pairs_linked(conns, np));
                assert forall|a: int, b: int| 0 <= a < b < np.len() implies {
                    &&& #[trigger] np[a].0 != #[trigger] np[b].0
                    &&& np[a].0 != np[b].1
                    &&& np[a].1 != np[b].0
                    &&& np[a].1 != np[b].1
                } by {
                    assert(np[a] == pairs[a]);
                    if b < pairs.len() {
                        assert(np[b] == pairs[b]);
                    } else {
                        assert(placed.contains(pairs[a].0));
                        assert(placed.contains(pairs[a].1));
                    }
                }
                assert forall|x: usize| #[trigger] nplaced.contains(x) <==> exists|k: int|
                    0 <= k < np.len() && (np[k].0 == x || np[k].1 == x) by {
                    if nplaced.contains(x) {
                        let m = choose|m: int| 0 <= m < nplaced.len() && nplaced[m] == x;
                        if m < placed.len() {
                            assert(placed[m] == x);
                            assert(placed.contains(x));
                            let k = choose|k: int| 0 <= k < pairs.len() && (pairs[k].0 == x || pairs[k].1 == x);
                            assert(np[k] == pairs[k]);
                        } else {
                            assert(np[pairs.len() as int] == (host, o));
                        }
                    }
                    if exists|k: int| 0 <= k < np.len() && (np[k].0 == x || np[k].1 == x) {
                        let k = choose|k: int| 0 <= k < np.len() && (np[k].0 == x || np[k].1 == x);
                        if k < pairs.len() {
                            assert(np[k] == pairs[k]);
                            assert(placed.contains(x));
                            let m = choose|m: int| 0 <= m < placed.len() && placed[m] == x;
                            assert(nplaced[m] == x);
                        } else if x == host {
                            assert(nplaced[placed.len() as int] == x);
                        } else {
                            assert(nplaced[placed.len() as int + 1] == x);
                        }
                    }
                }
                assert forall|k: int| 0 <= k < np.len() implies exists|j: int|
                    0 <= j < hosts.len() && hosts[j].0 == #[trigger] np[k].0 by {
                    if k < pairs.len() {
                        assert(np[k] == pairs[k]);
                        let j = choose|j: int| 0 <= j < hosts.len() && hosts[j].0 == pairs[k].0;
                    } else {
                        assert(hosts[hosts.len() - 1].0 == np[k].0);
                    }
                }
            }
        }
    }
}

/// The pairs of components for the layout, and the components they place: the most connected
/// components first, each with the component most connected to it among those not placed yet.
pub fn dependencies(connections: &Vec<Representation<Connection>>, state: &State) -> (res: (
    Vec<(usize, usize)>,
    Vec<usize>,
))
    ensures
        (res.0@, res.1@) == pairing(
            connections@,
            *state,
            by_weight(linked_tally(connections@, *state)),
        ),
{
    let ordered_linked = Connection::get_ordered_linked(connections.as_slice(), state);
    let ghost hosts = ordered_linked@;
    let mut pairs: Vec<(usize, usize)> = Vec::new();
    let mut located: Vec<usize> = Vec::new();
    let mut i: usize = 0;
    assert(hosts.subrange(0, 0) =~= Seq::<(usize, usize, usize)>::empty());
    while i < ordered_linked.len()
        invariant
            0 <= i <= hosts.len(),
            hosts == ordered_linked@,
            (pairs@, located@) == pairing(connections@, *state, hosts.subrange(0, i as int)),
        decreases hosts.len() - i,
    {
        let ghost sub = hosts.subrange(0, i + 1);
        assert(sub.drop_last() =~= hosts.subrange(0, i as int));
        let host = ordered_linked[i].0;
        if !holds(&located, host) {
            let linked = Connection::get_ordered_linked_to(
                connections.as_slice(),
                host,
                located.as_slice(),
                state,
            );
            if linked.len() > 0 {
                let id = linked[0].0;
                pairs.push((host, id));
                located.push(host);
                located.push(id);
                assert(located@ =~= pairing(connections@, *state, hosts.subrange(0, i as int)).1 + seq![host, id]);
            }
        }
        i = i + 1;
    }
    assert(hosts.subrange(0, hosts.len() as int) =~= hosts);
    (pairs, located)
}

/// The forms of the components with the given ids, in the order of the components.
pub open spec fn forms_of(cs: Seq<Representation<Component>>, ids: Seq<usize>) -> Seq<Form>
    decreases cs.len(),
{
    if cs.len() == 0 {
        seq![]
    } else {
        let r = forms_of(cs.drop_last(), ids);
        if ids.contains(cs.last().entity().sig.id) {
            r.push(cs.last()->Render_0.view.container.form)
        } else {
            r
        }
    }
}

/// Every component with one of the ids has a view.
pub open spec fn forms_ready(cs: Seq<Representation<Component>>, ids: Seq<usize>) -> bool {
    forall|i: int| 0 <= i < cs.len() && ids.contains(#[trigger] cs[i].entity().sig.id) ==> cs[i] is Render
}

/// The component with the id takes part in the drawing.
pub open spec fn included(state: State, id: usize) -> bool {
    match state.filtered {
        Some(f) => f.2@.contains(id),
        None => true,
    }
}

/// The pairs and the components they place, as `dependencies` gives them.
pub open spec fn layout_pairs(conns: Seq<Representation<Connection>>, state: State) -> (
    Seq<(usize, usize)>,
    Seq<usize>,
) {
    pairing(conns, state, by_weight(linked_tally(conns, state)))
}

/// The form is that of a component with a view.
pub open spec fn form_of_component(cs: Seq<Representation<Component>>, q: Seq<char>) -> bool {
    exists|i: int|
        0 <= i < cs.len() && #[trigger] cs[i] is Render && cs[i]->Render_0.view.container.form.id_view()
            == q
}

proof fn lemma_forms_of_from(cs: Seq<Representation<Component>>, ids: Seq<usize>, k: int)
    requires
        forms_ready(cs, ids),
        0 <= k < forms_of(cs, ids).len(),
    ensures
        form_of_component(cs, forms_of(cs, ids)[k].id_view()),
    decreases cs.len(),
{
    let d = cs.drop_last();
    let r = forms_of(d, ids);
    assert forall|i: int| 0 <= i < d.len() && ids.contains(#[trigger] d[i].entity().sig.id) implies d[i] is Render by {
        assert(d[i] == cs[i]);
    }
    if k < r.len() {
        lemma_forms_of_from(d, ids, k);
        let i = choose|i: int|
            0 <= i < d.len() && #[trigger] d[i] is Render && d[i]->Render_0.view.container.form.id_view()
                == r[k].id_view();
        assert(cs[i] == d[i]);
    } else {
        assert(cs[cs.len() - 1] is Render);
    }
}

/// The error a layout gives when its grid would outgrow the grid's limits.
pub(crate) fn too_large() -> (res: E)
    ensures
        res is Other,
{
    E::Other(String::from_str("The layout outgrows the grid"))
}

/// The grid sizes of the forms, with their keys and kinds.
pub open spec fn sizes_f(forms: Seq<Form>) -> Seq<(Seq<char>, ElementType, (u32, u32))> {
    forms.map_values(
        |f: Form|
            (
                f.id_view(),
                f.el_ty(),
                match f.grid_cells() {
                    Some(c) => c,
                    None => (0u32, 0u32),
                },
            ),
    )
}

/// Every form is drawn on the grid.
pub open spec fn grid_forms(forms: Seq<Form>) -> bool {
    forall|i: int| 0 <= i < forms.len() ==> #[trigger] forms[i].grid_cells() is Some
}

/// The blocks of the grid `forms_as_pair` makes: the forms of `a` in a column on the left,
/// those of `b` in a column on their right.
pub open spec fn pair_cells(a: Seq<Form>, b: Seq<Form>, o: GridOptions) -> Seq<(Seq<char>, ElementCoor)> {
    let sv = o.cells_space_vertical as int;
    put_all(
        put_all(seq![], column(sizes_f(a), 0, sv), 0, 0),
        column(
            sizes_f(b),
            (if a.len() == 0 {
                0
            } else {
                column_width(sizes_f(a)) + o.cells_space_horizontal
            }),
            sv,
        ),
        0,
        0,
    )
}

/// The size of the grid `forms_as_pair` makes.
pub open spec fn pair_dims(a: Seq<Form>, b: Seq<Form>, o: GridOptions) -> (u32, u32) {
    (pair_size(sizes_f(a), sizes_f(b), o).0 as u32, pair_size(sizes_f(a), sizes_f(b), o).1 as u32)
}

/// Placing the pair `a`, `b` on a grid of `cells`, `size` and options `go` succeeds: the
/// forms are all on the grid, and the grid, the pair's grid and its columns keep to the
/// limits.
pub open spec fn pair_fits(
    cells: Seq<(Seq<char>, ElementCoor)>,
    size: (u32, u32),
    go: GridOptions,
    a: Seq<Form>,
    b: Seq<Form>,
    o: GridOptions,
) -> bool {
    let ps = pair_size(sizes_f(a), sizes_f(b), o);
    &&& o.cells_space_vertical <= GRID_LIMIT
    &&& o.cells_space_horizontal <= GRID_LIMIT
    &&& grid_forms(a)
    &&& grid_forms(b)
    &&& column_fits(sizes_f(a), o.cells_space_vertical as int)
    &&& column_fits(sizes_f(b), o.cells_space_vertical as int)
    &&& size.0 <= GRID_LIMIT
    &&& size.1 <= GRID_LIMIT
    &&& go.hpadding <= GRID_LIMIT
    &&& go.vpadding <= GRID_LIMIT
    &&& go.cells_space_horizontal <= GRID_LIMIT
    &&& go.cells_space_vertical <= GRID_LIMIT
    &&& areas_within(cells, GRID_LIMIT as int)
    &&& 1 <= ps.0 <= GRID_LIMIT
    &&& 1 <= ps.1 <= GRID_LIMIT
    &&& areas_within(pair_cells(a, b, o), GRID_LIMIT as int)
}

/// Puts a grid made of the forms `a` (left) and `b` (right) into `g` at its first free spot.
fn place_pair(g: &mut Grid, a: Vec<&Form>, b: Vec<&Form>, options: &Options) -> (res: Result<(), E>)
    requires
        old(g).wf(),
        options.ratio > 0,
    ensures
        final(g).wf(),
        final(g).options == old(g).options,
        final(g).id == old(g).id,
        final(g).cell == old(g).cell,
        final(g).ratio == old(g).ratio,
        res is Err ==> (res matches Err(e) && (e == E::NotGridForm || e is Other)),
        res is Err ==> *final(g) == *old(g),
        res is Ok ==> forall|q: Seq<char>|
            #[trigger] has_key(final(g).cells(), q) <==> has_key(old(g).cells(), q) || keyed(a@, q)
                || keyed(b@, q),
        res is Ok <==> pair_fits(
            old(g).cells(),
            old(g).size,
            old(g).options,
            a@.map_values(|f: &Form| *f),
            b@.map_values(|f: &Form| *f),
            options.grid,
        ),
        res is Ok ==> insertion(
            old(g).cells(),
            old(g).size,
            old(g).options,
            old(g).self_key(),
            pair_cells(a@.map_values(|f: &Form| *f), b@.map_values(|f: &Form| *f), options.grid),
            pair_dims(a@.map_values(|f: &Form| *f), b@.map_values(|f: &Form| *f), options.grid),
            (final(g).cells(), final(g).size),
        ),
{
    let ghost before = *g;
    let ghost fa = a@;
    let ghost fb = b@;
    let ghost da = a@.map_values(|f: &Form| *f);
    let ghost db = b@.map_values(|f: &Form| *f);
    assert(sizes_of(fa) =~= sizes_f(da));
    assert(sizes_of(fb) =~= sizes_f(db));
    assert(all_grid_forms(fa) == grid_forms(da)) by {
        if all_grid_forms(fa) {
            assert forall|i: int| 0 <= i < da.len() implies #[trigger] da[i].grid_cells() is Some by {
                assert(fa[i].grid_cells() is Some);
            }
        }
        if grid_forms(da) {
            assert forall|i: int| 0 <= i < fa.len() implies #[trigger] fa[i].grid_cells() is Some by {
                assert(da[i].grid_cells() is Some);
            }
        }
    }
    assert(all_grid_forms(fb) == grid_forms(db)) by {
        if all_grid_forms(fb) {
            assert forall|i: int| 0 <= i < db.len() implies #[trigger] db[i].grid_cells() is Some by {
                assert(fb[i].grid_cells() is Some);
            }
        }
        if grid_forms(db) {
            assert forall|i: int| 0 <= i < fb.len() implies #[trigger] fb[i].grid_cells() is Some by {
                assert(db[i].grid_cells() is Some);
            }
        }
    }
    if options.grid.cells_space_vertical > crate::render::grid::GRID_LIMIT
        || options.grid.cells_space_horizontal > crate::render::grid::GRID_LIMIT
        || !column_within(&a, options.grid.cells_space_vertical) || !column_within(
        &b,
        options.grid.cells_space_vertical,
    ) {
        return Err(too_large());
    }
    let pair = Grid::forms_as_pair(a, b, &options.grid, options.ratio())?;
    if !(g.within_limits() && pair.within_limits() && 1 <= pair.size.0 && 1 <= pair.size.1) {
        return Err(too_large());
    }
    g.insert(&pair);
    proof {
        let (n, p) = choose|n: nat, p: (u32, u32)|
            #![trigger before.first_spot_at(grow_n(before.start_size(pair.size), n), pair.size, p)]
            {
                &&& forall|k: nat|
                    k < n ==> before.no_spot_at(#[trigger] grow_n(before.start_size(pair.size), k), pair.size)
                &&& before.first_spot_at(grow_n(before.start_size(pair.size), n), pair.size, p)
                &&& g.cells() == put_all(before.cells(), pair.cells(), p.0 as int, p.1 as int)
                &&& g.size == g.cut_size(grow_n(before.start_size(pair.size), n))
            };
        assert(forall|k: nat|
            k < n ==> crate::render::grid::no_spot(
                before.cells(),
                before.options,
                before.self_key(),
                #[trigger] grow_n(before.start_size(pair.size), k),
                pair.size,
            ));
        assert(insertion(
            before.cells(),
            before.size,
            before.options,
            before.self_key(),
            pair.cells(),
            pair.size,
            (g.cells(), g.size),
        ));
    }
    proof {
        let sv = options.grid.cells_space_vertical as int;
        let xb = if fa.len() == 0 {
            0
        } else {
            column_width(sizes_of(fa)) + options.grid.cells_space_horizontal
        };
        let ca = column(sizes_of(fa), 0, sv);
        let cb = column(sizes_of(fb), xb, sv);
        assert(pair.cells() == put_all(put_all(seq![], ca, 0, 0), cb, 0, 0));
        assert forall|q: Seq<char>|
            #[trigger] has_key(g.cells(), q) <==> has_key(before.cells(), q) || keyed(fa, q)
                || keyed(fb, q) by {
            let p = choose|p: (u32, u32)| g.cells() == put_all(before.cells(), pair.cells(), p.0 as int, p.1 as int);
            law_put_all_keeps_keys(before.cells(), pair.cells(), p.0 as int, p.1 as int, q);
            law_put_all_keeps_keys(put_all(seq![], ca, 0, 0), cb, 0, 0, q);
            law_put_all_keeps_keys(seq![], ca, 0, 0, q);
            lemma_column_keys(sizes_of(fa), 0, sv, q);
            lemma_column_keys(sizes_of(fb), xb, sv, q);
            assert(!has_key(Seq::<(Seq<char>, crate::render::grid::ElementCoor)>::empty(), q));
            if keyed(fa, q) {
                let i = choose|i: int| 0 <= i < fa.len() && #[trigger] fa[i].id_view() == q;
                assert(sizes_of(fa)[i].0 == q);
            }
            if keyed(fb, q) {
                let i = choose|i: int| 0 <= i < fb.len() && #[trigger] fb[i].id_view() == q;
                assert(sizes_of(fb)[i].0 == q);
            }
        }
    }
    Ok(())
}

/// One of the forms has the key.
pub open spec fn keyed(forms: Seq<&Form>, q: Seq<char>) -> bool {
    exists|i: int| 0 <= i < forms.len() && #[trigger] forms[i].id_view() == q
}

/// The components placed alone, in order: those that take part in the drawing and that no
/// pair placed.
pub open spec fn lone(cs: Seq<Representation<Component>>, state: State, located: Seq<usize>) -> Seq<usize>
    decreases cs.len(),
{
    if cs.len() == 0 {
        seq![]
    } else {
        let id = cs.last().entity().sig.id;
        let rest = lone(cs.drop_last(), state, located);
        if included(state, id) && !located.contains(id) {
            rest.push(id)
        } else {
            rest
        }
    }
}

/// What `pair_up` places, in order: each pair, its host on the left and the component
/// linked to it on the right, then each lone component.
pub open spec fn layout_steps(r: Render<Composition>, state: State) -> Seq<(Seq<usize>, Seq<usize>)> {
    let (pairs, located) = layout_pairs(r.entity.connections@, state);
    pairs.map_values(|p: (usize, usize)| (seq![p.0], seq![p.1])) + lone(
        r.entity.components@,
        state,
        located,
    ).map_values(|id: usize| (seq![id], Seq::<usize>::empty()))
}

/// The blocks and size of the grid after the first `k` steps, starting from an empty grid
/// of the paddings' size; `None` once a step fails.
pub open spec fn laid(
    cs: Seq<Representation<Component>>,
    steps: Seq<(Seq<usize>, Seq<usize>)>,
    options: Options,
    k: nat,
) -> Option<(Seq<(Seq<char>, ElementCoor)>, (u32, u32))>
    decreases k,
{
    if k == 0 {
        Some((seq![], ((options.grid.hpadding * 2) as u32, (options.grid.vpadding * 2) as u32)))
    } else {
        match laid(cs, steps, options, (k - 1) as nat) {
            None => None,
            Some(sh) => {
                let st = steps[k - 1];
                let a = forms_of(cs, st.0);
                let b = forms_of(cs, st.1);
                if forms_ready(cs, st.0) && forms_ready(cs, st.1) && pair_fits(
                    sh.0,
                    sh.1,
                    options.grid,
                    a,
                    b,
                    options.grid,
                ) {
                    Some(
                        choose|out: (Seq<(Seq<char>, ElementCoor)>, (u32, u32))|
                            insertion(
                                sh.0,
                                sh.1,
                                options.grid,
                                decimal(0),
                                pair_cells(a, b, options.grid),
                                pair_dims(a, b, options.grid),
                                out,
                            ),
                    )
                } else {
                    None
                }
            },
        }
    }
}

proof fn lemma_laid_fails_on(
    cs: Seq<Representation<Component>>,
    steps: Seq<(Seq<usize>, Seq<usize>)>,
    options: Options,
    k: nat,
    m: nat,
)
    requires
        k <= m,
        laid(cs, steps, options, k) is None,
    ensures
        laid(cs, steps, options, m) is None,
    decreases m - k,
{
    if k < m {
        lemma_laid_fails_on(cs, steps, options, k, (m - 1) as nat);
    }
}

proof fn lemma_laid_step(
    cs: Seq<Representation<Component>>,
    steps: Seq<(Seq<usize>, Seq<usize>)>,
    options: Options,
    k: nat,
    before: (Seq<(Seq<char>, ElementCoor)>, (u32, u32)),
    after: (Seq<(Seq<char>, ElementCoor)>, (u32, u32)),
)
    requires
        k < steps.len(),
        laid(cs, steps, options, k) == Some(before),
        forms_ready(cs, steps[k as int].0),
        forms_ready(cs, steps[k as int].1),
        pair_fits(
            before.0,
            before.1,
            options.grid,
            forms_of(cs, steps[k as int].0),
            forms_of(cs, steps[k as int].1),
            options.grid,
        ),
        insertion(
            before.0,
            before.1,
            options.grid,
            decimal(0),
            pair_cells(forms_of(cs, steps[k as int].0), forms_of(cs, steps[k as int].1), options.grid),
            pair_dims(forms_of(cs, steps[k as int].0), forms_of(cs, steps[k as int].1), options.grid),
            after,
        ),
    ensures
        laid(cs, steps, options, k + 1) == Some(after),
{
    let a = forms_of(cs, steps[k as int].0);
    let b = forms_of(cs, steps[k as int].1);
    let c = choose|out: (Seq<(Seq<char>, ElementCoor)>, (u32, u32))|
        insertion(
            before.0,
            before.1,
            options.grid,
            decimal(0),
            pair_cells(a, b, options.grid),
            pair_dims(a, b, options.grid),
            out,
        );
    lemma_insertion_unique(
        before.0,
        before.1,
        options.grid,
        decimal(0),
        pair_cells(a, b, options.grid),
        pair_dims(a, b, options.grid),
        c,
        after,
    );
}

proof fn lemma_laid_step_fails(
    cs: Seq<Representation<Component>>,
    steps: Seq<(Seq<usize>, Seq<usize>)>,
    options: Options,
    k: nat,
    before: (Seq<(Seq<char>, ElementCoor)>, (u32, u32)),
)
    requires
        k < steps.len(),
        laid(cs, steps, options, k) == Some(before),
        !(forms_ready(cs, steps[k as int].0) && forms_ready(cs, steps[k as int].1) && pair_fits(
            before.0,
            before.1,
            options.grid,
            forms_of(cs, steps[k as int].0),
            forms_of(cs, steps[k as int].1),
            options.grid,
        )),
    ensures
        laid(cs, steps, options, steps.len()) is None,
{
    assert(laid(cs, steps, options, k + 1) is None);
    lemma_laid_fails_on(cs, steps, options, k + 1, steps.len());
}

proof fn lemma_lone_prefix(cs: Seq<Representation<Component>>, state: State, located: Seq<usize>, i: int)
    requires
        0 <= i <= cs.len(),
    ensures
        lone(cs.subrange(0, i), state, located).len() <= lone(cs, state, located).len(),
        forall|j: int|
            0 <= j < lone(cs.subrange(0, i), state, located).len() ==> #[trigger] lone(
                cs.subrange(0, i),
                state,
                located,
            )[j] == lone(cs, state, located)[j],
    decreases cs.len(),
{
    if i == cs.len() {
        assert(cs.subrange(0, i) =~= cs);
    } else {
        assert(cs.subrange(0, i) =~= cs.drop_last().subrange(0, i));
        lemma_lone_prefix(cs.drop_last(), state, located, i);
    }
}

proof fn lemma_forms_of_none(cs: Seq<Representation<Component>>)
    ensures
        forms_of(cs, Seq::<usize>::empty()) == Seq::<Form>::empty(),
        forms_ready(cs, Seq::<usize>::empty()),
    decreases cs.len(),
{
    if cs.len() > 0 {
        lemma_forms_of_none(cs.drop_last());
    }
}

/// `pair_up` succeeds: the paddings are at most half a `u32` and every step of
/// `layout_steps` succeeds.
pub open spec fn pair_ok(r: Render<Composition>, state: State, options: Options) -> bool {
    let steps = layout_steps(r, state);
    &&& options.grid.hpadding <= u32::MAX / 2
    &&& options.grid.vpadding <= u32::MAX / 2
    &&& laid(r.entity.components@, steps, options, steps.len()) is Some
}

/// The width in pixels of the grid `pair_up` builds.
pub open spec fn pair_width(r: Render<Composition>, state: State, options: Options) -> int {
    let steps = layout_steps(r, state);
    laid(r.entity.components@, steps, options, steps.len()).unwrap().1.0 * (CELL * options.ratio)
}

/// What `pair_up` gives: it succeeds exactly when the paddings are at most half a `u32` and
/// every step of `layout_steps` succeeds; its grid is then the one `laid` builds step by step,
/// with a block for each form of each component it places and no other block.
pub open spec fn paired(r: Render<Composition>, state: State, options: Options, res: Result<Grid, E>) -> bool {
    let steps = layout_steps(r, state);
    let out = laid(r.entity.components@, steps, options, steps.len());
    &&& res is Ok <==> pair_ok(r, state, options)
    &&& match res {
        Ok(g) => {
            let cs = r.entity.components@;
            let (pairs, located) = layout_pairs(r.entity.connections@, state);
            &&& g.cells() == out.unwrap().0
            &&& g.size == out.unwrap().1
            &&& g.wf()
            &&& g.options == options.grid
            &&& g.id.is_none()
            &&& g.cell == CELL * options.ratio
            &&& g.ratio.ratio == options.ratio
            &&& forall|k: int, j: int|
                0 <= k < pairs.len() && 0 <= j < forms_of(cs, seq![pairs[k].0]).len()
                    ==> has_key(g.cells(), #[trigger] forms_of(cs, seq![pairs[k].0])[j].id_view())
            &&& forall|k: int, j: int|
                0 <= k < pairs.len() && 0 <= j < forms_of(cs, seq![pairs[k].1]).len()
                    ==> has_key(g.cells(), #[trigger] forms_of(cs, seq![pairs[k].1])[j].id_view())
            &&& forall|i: int, j: int|
                0 <= i < cs.len() && included(state, cs[i].entity().sig.id)
                    && !located.contains(cs[i].entity().sig.id) && 0 <= j < forms_of(
                    cs,
                    seq![cs[i].entity().sig.id],
                ).len() ==> has_key(
                    g.cells(),
                    #[trigger] forms_of(cs, seq![cs[i].entity().sig.id])[j].id_view(),
                )
            &&& forall|q: Seq<char>| #[trigger] has_key(g.cells(), q) ==> form_of_component(cs, q)
        },
        Err(e) => e == E::RenderNotInited || e == E::NotGridForm || e is Other,
    }
}

impl Render<Composition> {
    /// Places the components on a grid of their own: each pair that `dependencies` makes side
    /// by side, then each shown component left without a pair alone, each block at the first
    /// free spot. Fails when a component to place has no view, is not drawn on the grid, or
    /// the grid would outgrow its limits.
    pub fn pair_up(&self, state: &State, options: &Options) -> (res: Result<Grid, E>)
        requires
            options.ratio > 0,
        ensures
            paired(*self, *state, *options, res),
    {
        if options.grid.hpadding > u32::MAX / 2 || options.grid.vpadding > u32::MAX / 2 {
            return Err(too_large());
        }
        let ghost cs = self.entity.components@;
        let ghost steps = layout_steps(*self, *state);
        let (pairs, located) = dependencies(&self.entity.connections, state);
        let mut grid = Grid::new(&options.grid, options.ratio());
        assert(grid.cells() =~= Seq::<(Seq<char>, ElementCoor)>::empty());
        let ghost lone_all = lone(cs, *state, located@);
        assert(steps.len() == pairs@.len() + lone_all.len());
        let mut k: usize = 0;
        while k < pairs.len()
            invariant
                0 <= k <= pairs@.len(),
                options.ratio > 0,
                options.grid.hpadding <= u32::MAX / 2,
                options.grid.vpadding <= u32::MAX / 2,
                cs == self.entity.components@,
                steps == layout_steps(*self, *state),
                (pairs@, located@) == layout_pairs(self.entity.connections@, *state),
                lone_all == lone(cs, *state, located@),
                steps.len() == pairs@.len() + lone_all.len(),
                laid(cs, steps, *options, k as nat) == Some((grid.cells(), grid.size)),
                grid.wf(),
                grid.options == options.grid,
                grid.id.is_none(),
                grid.cell == CELL * options.ratio,
                grid.ratio.ratio == options.ratio,
                forall|k2: int, j: int|
                    0 <= k2 < k && 0 <= j < forms_of(cs, seq![pairs@[k2].0]).len() ==> has_key(
                        grid.cells(),
                        #[trigger] forms_of(cs, seq![pairs@[k2].0])[j].id_view(),
                    ),
                forall|k2: int, j: int|
                    0 <= k2 < k && 0 <= j < forms_of(cs, seq![pairs@[k2].1]).len() ==> has_key(
                        grid.cells(),
                        #[trigger] forms_of(cs, seq![pairs@[k2].1])[j].id_view(),
                    ),
                forall|q: Seq<char>| #[trigger] has_key(grid.cells(), q) ==> form_of_component(cs, q),
            decreases pairs@.len() - k,
        {
            let (a_id, b_id) = pairs[k];
            let a_ids = vec![a_id];
            let b_ids = vec![b_id];
            assert(a_ids@ == seq![a_id]);
            assert(b_ids@ == seq![b_id]);
            assert(steps[k as int] == (seq![a_id], seq![b_id]));
            let ghost shape = (grid.cells(), grid.size);
            let a = match get_forms_by_ids(&self.entity.components, &a_ids) {
                Ok(v) => v,
                Err(e) => {
                    proof {
                        lemma_laid_step_fails(cs, steps, *options, k as nat, shape);
                    }
                    return Err(e);
                },
            };
            let b = match get_forms_by_ids(&self.entity.components, &b_ids) {
                Ok(v) => v,
                Err(e) => {
                    proof {
                        lemma_laid_step_fails(cs, steps, *options, k as nat, shape);
                    }
                    return Err(e);
                },
            };
            let ghost fa = a@;
            let ghost fb = b@;
            let ghost old_grid = grid;
            match place_pair(&mut grid, a, b, options) {
                Ok(()) => {},
                Err(e) => {
                    proof {
                        lemma_laid_step_fails(cs, steps, *options, k as nat, shape);
                    }
                    return Err(e);
                },
            }
            proof {
                lemma_laid_step(cs, steps, *options, k as nat, shape, (grid.cells(), grid.size));
                let sa = forms_of(cs, seq![a_id]);
                let sb = forms_of(cs, seq![b_id]);
                assert(fa.len() == sa.len());
                assert(fb.len() == sb.len());
                assert forall|j: int| 0 <= j < sa.len() implies has_key(grid.cells(), #[trigger] sa[j].id_view()) by {
                    assert(*fa[j] == sa[j]);
                    assert(keyed(fa, sa[j].id_view()));
                }
                assert forall|j: int| 0 <= j < sb.len() implies has_key(grid.cells(), #[trigger] sb[j].id_view()) by {
                    assert(*fb[j] == sb[j]);
                    assert(keyed(fb, sb[j].id_view()));
                }
                assert forall|q: Seq<char>| #[trigger] has_key(grid.cells(), q) implies form_of_component(cs, q) by {
                    if !has_key(old_grid.cells(), q) {
                        if keyed(fa, q) {
                            let j = choose|j: int| 0 <= j < fa.len() && #[trigger] fa[j].id_view() == q;
                            assert(*fa[j] == sa[j]);
                            lemma_forms_of_from(cs, seq![a_id], j);
                        } else {
                            let j = choose|j: int| 0 <= j < fb.len() && #[trigger] fb[j].id_view() == q;
                            assert(*fb[j] == sb[j]);
                            lemma_forms_of_from(cs, seq![b_id], j);
                        }
                    }
                }
            }
            k = k + 1;
        }
        let mut i: usize = 0;
        assert(cs.subrange(0, 0) =~= Seq::<Representation<Component>>::empty());
        proof {
            lemma_forms_of_none(cs);
        }
        while i < self.entity.components.len()
            invariant
                0 <= i <= self.entity.components@.len(),
                options.ratio > 0,
                options.grid.hpadding <= u32::MAX / 2,
                options.grid.vpadding <= u32::MAX / 2,
                cs == self.entity.components@,
                steps == layout_steps(*self, *state),
                (pairs@, located@) == layout_pairs(self.entity.connections@, *state),
                lone_all == lone(cs, *state, located@),
                steps.len() == pairs@.len() + lone_all.len(),
                forms_of(cs, Seq::<usize>::empty()) == Seq::<Form>::empty(),
                forms_ready(cs, Seq::<usize>::empty()),
                laid(
                    cs,
                    steps,
                    *options,
                    (pairs@.len() + lone(cs.subrange(0, i as int), *state, located@).len()) as nat,
                ) == Some((grid.cells(), grid.size)),
                grid.wf(),
                grid.options == options.grid,
                grid.id.is_none(),
                grid.cell == CELL * options.ratio,
                grid.ratio.ratio == options.ratio,
                forall|k2: int, j: int|
                    0 <= k2 < pairs@.len() && 0 <= j < forms_of(cs, seq![pairs@[k2].0]).len() ==> has_key(
                        grid.cells(),
                        #[trigger] forms_of(cs, seq![pairs@[k2].0])[j].id_view(),
                    ),
                forall|k2: int, j: int|
                    0 <= k2 < pairs@.len() && 0 <= j < forms_of(cs, seq![pairs@[k2].1]).len() ==> has_key(
                        grid.cells(),
                        #[trigger] forms_of(cs, seq![pairs@[k2].1])[j].id_view(),
                    ),
                forall|i2: int, j: int|
                    0 <= i2 < i && included(*state, cs[i2].entity().sig.id) && !located@.contains(
                        cs[i2].entity().sig.id,
                    ) && 0 <= j < forms_of(cs, seq![cs[i2].entity().sig.id]).len() ==> has_key(
                        grid.cells(),
                        #[trigger] forms_of(cs, seq![cs[i2].entity().sig.id])[j].id_view(),
                    ),
                forall|q: Seq<char>| #[trigger] has_key(grid.cells(), q) ==> form_of_component(cs, q),
            decreases self.entity.components@.len() - i,
        {
            let ghost sub = cs.subrange(0, i as int);
            let ghost next = cs.subrange(0, i + 1);
            assert(next.drop_last() =~= sub);
            let id = self.entity.components[i].origin().sig.id;
            if state.is_comp_included(&id) && !holds(&located, id) {
                let ghost j = lone(sub, *state, located@).len();
                proof {
                    assert(lone(next, *state, located@) == lone(sub, *state, located@).push(id));
                    lemma_lone_prefix(cs, *state, located@, i + 1);
                    assert(lone(next, *state, located@)[j as int] == id);
                    assert(lone_all[j as int] == id);
                    assert(steps[pairs@.len() + j as int] == (seq![id], Seq::<usize>::empty()));
                }
                let ghost kk = (pairs@.len() + j) as nat;
                let ghost shape = (grid.cells(), grid.size);
                let ids = vec![id];
                assert(ids@ == seq![id]);
                let forms = match get_forms_by_ids(&self.entity.components, &ids) {
                    Ok(v) => v,
                    Err(e) => {
                        proof {
                            lemma_laid_step_fails(cs, steps, *options, kk, shape);
                        }
                        return Err(e);
                    },
                };
                let ghost fa = forms@;
                let ghost old_grid = grid;
                let empty: Vec<&Form> = Vec::new();
                assert(empty@.map_values(|f: &Form| *f) =~= Seq::<Form>::empty());
                match place_pair(&mut grid, forms, empty, options) {
                    Ok(()) => {},
                    Err(e) => {
                        proof {
                            lemma_laid_step_fails(cs, steps, *options, kk, shape);
                        }
                        return Err(e);
                    },
                }
                proof {
                    lemma_laid_step(cs, steps, *options, kk, shape, (grid.cells(), grid.size));
                    let sa = forms_of(cs, seq![id]);
                    assert(fa.len() == sa.len());
                    assert forall|j2: int| 0 <= j2 < sa.len() implies has_key(grid.cells(), #[trigger] sa[j2].id_view()) by {
                        assert(*fa[j2] == sa[j2]);
                        assert(keyed(fa, sa[j2].id_view()));
                    }
                    assert forall|q: Seq<char>| #[trigger] has_key(grid.cells(), q) implies form_of_component(cs, q) by {
                        if !has_key(old_grid.cells(), q) {
                            if keyed(fa, q) {
                                let j2 = choose|j2: int| 0 <= j2 < fa.len() && #[trigger] fa[j2].id_view() == q;
                                assert(*fa[j2] == sa[j2]);
                                lemma_forms_of_from(cs, seq![id], j2);
                            }
                        }
                    }
                }
            } else {
                assert(lone(next, *state, located@) == lone(sub, *state, located@));
            }
            i = i + 1;
        }
        assert(cs.subrange(0, cs.len() as int) =~= cs);
        Ok(grid)
    }
}

/// The rows a grid of `rows` rows of `cell` pixels has once raised to `px` pixels.
pub open spec fn raised_rows(rows: int, cell: int, px: int) -> int {
    if rows * cell < px {
        crate::render::grid::ceil_div(px, cell)
    } else {
        rows
    }
}

/// A grid of `rows` rows of `cell` pixels can be raised to `px` pixels: the cell is not empty
/// and both heights in pixels fit a `u32`.
pub open spec fn raise_ok(rows: int, cell: int, px: int) -> bool {
    &&& cell > 0
    &&& rows * cell <= u32::MAX
    &&& crate::render::grid::ceil_div(px, cell) * cell <= u32::MAX
}

/// `settle` succeeds: the composition's ports have a view, the grid can be raised to them
/// and to 50 pixels, its blocks fit in pixels, everything to align has a view, the raised
/// grid's size fits the composition's rectangle and the machine integers, and the board's
/// grid and the raised grid with the composition's own block keep to the grid's limits.
pub open spec fn settle_ok(
    before: Render<Composition>,
    grid: Grid,
    board: Grid,
    state: State,
    options: Options,
) -> bool {
    let own = if ports_height(before.entity.ports.entity(), state, options.ratio) < 0 {
        0
    } else {
        ports_height(before.entity.ports.entity(), state, options.ratio)
    };
    let rows1 = raised_rows(grid.size.1 as int, grid.cell as int, own);
    let rows2 = raised_rows(rows1, grid.cell as int, 50);
    let w = grid.size.0 * grid.cell;
    let h = rows2 * grid.cell;
    let area = (
        ElementType::Composition,
        (
            0u32,
            0u32,
            (if grid.size.0 == 0 { 0 } else { grid.size.0 - 1 }) as u32,
            (if rows2 == 0 { 0 } else { rows2 - 1 }) as u32,
        ),
    );
    &&& before.entity.ports is Render
    &&& raise_ok(grid.size.1 as int, grid.cell as int, own)
    &&& pixels_fit(grid.cells(), grid.cell)
    &&& alignable(before)
    &&& raise_ok(rows1, grid.cell as int, 50)
    &&& w <= i32::MAX
    &&& h <= i32::MAX
    &&& before.view.container.form.can_resize(Some(w as i32), Some(h as i32))
    &&& grid.size.0 <= i32::MAX
    &&& rows2 <= i32::MAX
    &&& board.bounded()
    &&& 1 <= grid.size.0 <= GRID_LIMIT
    &&& 1 <= rows2 <= GRID_LIMIT
    &&& grid.options.hpadding <= GRID_LIMIT
    &&& grid.options.vpadding <= GRID_LIMIT
    &&& grid.options.cells_space_horizontal <= GRID_LIMIT
    &&& grid.options.cells_space_vertical <= GRID_LIMIT
    &&& areas_within(
        crate::render::grid::put(grid.cells(), decimal(before.entity.sig.id as nat), area),
        GRID_LIMIT as int,
    )
}

/// Raises the grid to at least `height_px` pixels, or fails when the height in pixels would
/// not fit a `u32`.
fn raise_to(g: &mut Grid, height_px: u32) -> (res: Result<u32, E>)
    ensures
        res is Ok ==> {
            &&& final(g).size.1 == (if old(g).size.1 * old(g).cell < height_px {
                crate::render::grid::ceil_div(height_px as int, old(g).cell as int)
            } else {
                old(g).size.1 as int
            })
            &&& final(g).size.0 == old(g).size.0
            &&& final(g).map == old(g).map
            &&& final(g).options == old(g).options
            &&& final(g).id == old(g).id
            &&& final(g).cell == old(g).cell
            &&& final(g).ratio == old(g).ratio
            &&& final(g).size.1 * final(g).cell <= u32::MAX
            &&& res == Ok::<u32, E>((final(g).size.1 * final(g).cell) as u32)
        },
        res is Err ==> *final(g) == *old(g),
        res is Err ==> (res matches Err(e) && e is Other),
        res is Ok <==> raise_ok(old(g).size.1 as int, old(g).cell as int, height_px as int),
{
    let cell = g.cell;
    if cell == 0 {
        return Err(too_large());
    }
    let q = (height_px as u64 + cell as u64 - 1) / cell as u64;
    match ((g.size.1 as u64).checked_mul(cell as u64), q.checked_mul(cell as u64)) {
        (Some(high), Some(up)) => {
            if high > u32::MAX as u64 || up > u32::MAX as u64 {
                return Err(too_large());
            }
        },
        _ => {
            return Err(too_large());
        },
    }
    Ok(g.set_min_height(height_px))
}

/// How `settle` ends, from the composition, the grid, the board's grid and the outcome.
pub open spec fn settled(
    before: Render<Composition>,
    after: Render<Composition>,
    grid: Grid,
    board_before: Grid,
    board_after: Grid,
    state: State,
    options: Options,
    res: Result<(), E>,
) -> bool {
    &&& res is Err ==> (res matches Err(e) && (e == E::RenderNotInited || e is Other))
    &&& res is Ok <==> settle_ok(before, grid, board_before, state, options)
    &&& board_after.wf()
    &&& res is Ok ==> {
        let own = if ports_height(before.entity.ports.entity(), state, options.ratio) < 0 {
            0
        } else {
            ports_height(before.entity.ports.entity(), state, options.ratio)
        };
        let rows = raised_rows(raised_rows(grid.size.1 as int, grid.cell as int, own), grid.cell as int, 50);
        let w = grid.size.0 * grid.cell;
        let h = rows * grid.cell;
        &&& alignable(before)
        &&& exists|mid: Render<Composition>, g1: Grid|
            #![trigger aligned(before, mid, g1)]
            {
                &&& g1.cells() == grid.cells()
                &&& g1.cell == grid.cell
                &&& aligned(before, mid, g1)
                &&& after.entity == mid.entity
                &&& after.hidden == mid.hidden
                &&& after.view.container.form == mid.view.container.form.resized_form(
                    Some(w as i32),
                    Some(h as i32),
                )
                &&& after.view.elements@.len() == mid.view.elements@.len()
                &&& forall|i: int|
                    1 <= i < mid.view.elements@.len() ==> #[trigger] after.view.elements@[i]
                        == mid.view.elements@[i]
                &&& mid.view.elements@.len() > 0 ==> after.view.elements@[0].form
                    == mid.view.elements@[0].form.moved(Some(w as i32), None)
            }
        &&& board_after.options == board_before.options
        &&& board_after.id == board_before.id
        &&& board_after.cell == board_before.cell
        &&& forall|q: Seq<char>|
            #[trigger] has_key(board_after.cells(), q) <==> has_key(board_before.cells(), q)
                || has_key(grid.cells(), q) || q == decimal(before.entity.sig.id as nat)
    }
}

impl Render<Composition> {
    /// Finishes the layout on the grid that `pair_up` made: the grid is made at least as high
    /// as the composition's own ports, the composition and what it holds move to their places
    /// on it, the composition's rectangle takes the grid's size (at least 50 pixels high), its
    /// first extra element moves to its right edge, the grid marks the composition itself, and
    /// the grid is put into the board's grid. Fails when something to place has no view, and
    /// when a size would not fit the grid's limits.
    pub fn settle(&mut self, grid: Grid, board: &mut Grid, state: &State, options: &Options) -> (res:
        Result<(), E>)
        requires
            grid.wf(),
            old(board).wf(),
            old(self).entity.ports is Render ==> ports_height(
                old(self).entity.ports.entity(),
                *state,
                options.ratio,
            ) <= i32::MAX,
        ensures
            settled(*old(self), *final(self), grid, *old(board), *final(board), *state, *options, res),
    {
        let ghost before = *self;
        let ports_height = match &self.entity.ports {
            Representation::Render(p) => p.height(state, options),
            Representation::Origin(_) => {
                return Err(E::RenderNotInited);
            },
        };
        let ghost gin = grid;
        let mut grid = grid;
        let own = crate::render::grid::as_u32(ports_height);
        raise_to(&mut grid, own)?;
        if !grid.pixels_within() {
            return Err(too_large());
        }
        let ghost g1 = grid;
        self.align_to_grid(&grid)?;
        let ghost mid = *self;
        let height = raise_to(&mut grid, 50)?;
        let width = match (grid.size.0 as u64).checked_mul(grid.cell as u64) {
            Some(w) => w,
            None => {
                return Err(too_large());
            },
        };
        if width > i32::MAX as u64 || height > i32::MAX as u32 {
            return Err(too_large());
        }
        let width = width as i32;
        let height = height as i32;
        if self.view.container.form.can_resize_to(width, height) {
            self.view.container.set_box_size(Some(width), Some(height));
        } else {
            return Err(too_large());
        }
        if grid.size.0 > i32::MAX as u32 || grid.size.1 > i32::MAX as u32 {
            return Err(too_large());
        }
        let id = self.entity.sig.id;
        let ghost g0 = grid;
        grid.insert_self(id, ElementType::Composition);
        if self.view.elements.len() > 0 {
            self.view.elements[0].set_coors(Some(width), None);
        }
        if !(board.within_limits() && grid.within_limits() && 1 <= grid.size.0 && 1 <= grid.size.1) {
            return Err(too_large());
        }
        let ghost b0 = *board;
        board.insert(&grid);
        proof {
            assert(aligned(before, mid, g1));
            assert(self.entity == mid.entity);
            assert(self.view.elements@.len() == mid.view.elements@.len());
            assert(width == g0.size.0 * g0.cell);
            assert(self.view.container.form == mid.view.container.form.resized_form(Some(width), Some(height)));
            assert(g1.size.1 == raised_rows(gin.size.1 as int, gin.cell as int, own as int));
            assert(g0.size.1 == raised_rows(g1.size.1 as int, gin.cell as int, 50));
            assert(height == g0.size.1 * gin.cell);
            assert forall|q: Seq<char>|
                #[trigger] has_key(board.cells(), q) <==> has_key(b0.cells(), q) || has_key(g0.cells(), q)
                    || q == decimal(id as nat) by {
                let p = choose|p: (u32, u32)| board.cells() == put_all(b0.cells(), grid.cells(), p.0 as int, p.1 as int);
                law_put_all_keeps_keys(b0.cells(), grid.cells(), p.0 as int, p.1 as int, q);
                let v = (
                    ElementType::Composition,
                    (
                        0u32,
                        0u32,
                        (if g0.size.0 == 0 { 0 } else { g0.size.0 - 1 }) as u32,
                        (if g0.size.1 == 0 { 0 } else { g0.size.1 - 1 }) as u32,
                    ),
                );
                crate::render::grid::lemma_put_keys(g0.cells(), decimal(id as nat), v, q);
            }
        }
        Ok(())
    }
}

/// The forms of the components with the given ids; fails when one of them has no view.
pub fn get_forms_by_ids<'a>(components: &'a Vec<Representation<Component>>, ids: &Vec<usize>) -> (res:
    Result<Vec<&'a Form>, E>)
    ensures
        forms_ready(components@, ids@) ==> (res matches Ok(v) && v@.map_values(|f: &Form| *f)
            == forms_of(components@, ids@)),
        !forms_ready(components@, ids@) ==> res == Err::<Vec<&'a Form>, E>(E::RenderNotInited),
{
    let mut found: Vec<&Form> = Vec::new();
    let mut i: usize = 0;
    assert(components@.subrange(0, 0) =~= Seq::<Representation<Component>>::empty());
    while i < components.len()
        invariant
            0 <= i <= components@.len(),
            forms_ready(components@.subrange(0, i as int), ids@),
            found@.map_values(|f: &Form| *f) == forms_of(components@.subrange(0, i as int), ids@),
        decreases components@.len() - i,
    {
        let ghost sub = components@.subrange(0, i + 1);
        assert(sub.drop_last() =~= components@.subrange(0, i as int));
        let ghost before = found@;
        if holds(ids, components[i].origin().sig.id) {
            match &components[i] {
                Representation::Render(r) => {
                    assert(components@[i as int] is Render);
                    found.push(&r.view.container.form);
                    assert(found@.map_values(|f: &Form| *f) =~= before.map_values(|f: &Form| *f).push(
                        r.view.container.form,
                    ));
                },
                Representation::Origin(_) => {
                    assert(!forms_ready(components@, ids@)) by {
                        assert(ids@.contains(components@[i as int].entity().sig.id));
                    }
                    return Err(E::RenderNotInited);
                },
            }
        }
        proof {
            assert(!ids@.contains(components@[i as int].entity().sig.id) || components@[i as int] is Render);
            assert forall|j: int| 0 <= j < sub.len() && ids@.contains(#[trigger] sub[j].entity().sig.id) implies sub[j] is Render by {
                if j < i {
                    let prev = components@.subrange(0, i as int);
                    assert(sub[j] == prev[j]);
                    assert(ids@.contains(prev[j].entity().sig.id));
                    assert(prev[j] is Render);
                } else {
                    assert(j == i);
                    assert(sub[j] == components@[i as int]);
                }
            }
        }
        i = i + 1;
    }
    assert(components@.subrange(0, components@.len() as int) =~= components@);
    Ok(found)
}

impl Render<Composition> {
    /// Puts a component that stands for each nested composition the filter shows among the
    /// components, and stops drawing those compositions themselves. Fails when one of them
    /// has no view.
    pub fn include_compositions(&mut self, options: &Options, state: &State) -> (res: Result<(), E>)
        requires
            options.ratio > 0,
        ensures
            res is Ok <==> forall|i: int|
                0 <= i < old(self).entity.compositions@.len() && owner_shown(
                    *state,
                    #[trigger] old(self).entity.compositions@[i].entity().sig.id,
                ) ==> old(self).entity.compositions@[i] is Render,
            res is Err ==> res == Err::<(), E>(E::RenderNotInited),
            res is Ok ==> {
                let ns = old(self).entity.compositions@;
                let added = final(self).entity.components@.subrange(
                    old(self).entity.components@.len() as int,
                    final(self).entity.components@.len() as int,
                );
                &&& final(self).entity.components@.subrange(0, old(self).entity.components@.len() as int)
                    == old(self).entity.components@
                &&& added.map_values(|c: Representation<Component>| c.entity().sig.id) == shown_ids(ns, *state)
                &&& forall|k: int|
                    0 <= k < added.len() ==> #[trigger] added[k] is Render && added[k].entity().composition
                        && added[k]->Render_0.view.container.form.el_ty() == ElementType::Composition
                &&& final(self).entity.compositions@.len() == ns.len()
                &&& forall|i: int|
                    0 <= i < ns.len() ==> (if owner_shown(*state, ns[i].entity().sig.id) {
                        (#[trigger] final(self).entity.compositions@[i] matches Representation::Render(y)
                            && ns[i] matches Representation::Render(x) && y.entity == x.entity && y.view
                            == x.view && y.hidden)
                    } else {
                        final(self).entity.compositions@[i] == ns[i]
                    })
                &&& final(self).entity.connections == old(self).entity.connections
                &&& final(self).entity.ports == old(self).entity.ports
                &&& final(self).entity.sig == old(self).entity.sig
                &&& final(self).view == old(self).view
                &&& final(self).hidden == old(self).hidden
            },
    {
        let ghost before = *self;
        let ghost ns = before.entity.compositions@;
        let ghost n0 = before.entity.components@.len() as int;
        let mut i: usize = 0;
        assert(ns.subrange(0, 0) =~= Seq::<Representation<Composition>>::empty());
        while i < self.entity.compositions.len()
            invariant
                0 <= i <= ns.len(),
                options.ratio > 0,
                n0 == before.entity.components@.len(),
                ns == before.entity.compositions@,
                self.entity.compositions@.len() == ns.len(),
                forall|j: int|
                    0 <= j < i && owner_shown(*state, #[trigger] ns[j].entity().sig.id) ==> ns[j] is Render,
                self.entity.components@.subrange(0, n0) == before.entity.components@,
                self.entity.components@.len() >= n0,
                self.entity.components@.subrange(n0, self.entity.components@.len() as int).map_values(
                    |c: Representation<Component>| c.entity().sig.id,
                ) == shown_ids(ns.subrange(0, i as int), *state),
                forall|k: int|
                    n0 <= k < self.entity.components@.len() ==> #[trigger] self.entity.components@[k] is Render
                        && self.entity.components@[k].entity().composition
                        && self.entity.components@[k]->Render_0.view.container.form.el_ty()
                        == ElementType::Composition,
                forall|j: int|
                    0 <= j < i ==> (if owner_shown(*state, ns[j].entity().sig.id) {
                        (#[trigger] self.entity.compositions@[j] matches Representation::Render(y)
                            && ns[j] matches Representation::Render(x) && y.entity == x.entity && y.view
                            == x.view && y.hidden)
                    } else {
                        self.entity.compositions@[j] == ns[j]
                    }),
                forall|j: int| i <= j < ns.len() ==> #[trigger] self.entity.compositions@[j] == ns[j],
                self.entity.connections == before.entity.connections,
                self.entity.ports == before.entity.ports,
                self.entity.sig == before.entity.sig,
                self.view == before.view,
                self.hidden == before.hidden,
                before == *old(self),
            decreases ns.len() - i,
        {
            let ghost sub = ns.subrange(0, i + 1);
            assert(sub.drop_last() =~= ns.subrange(0, i as int));
            let id = self.entity.compositions[i].origin().sig.id;
            if state.is_comp_included(&id) {
                let component = self.entity.compositions[i].origin().to_component(options);
                let drawn = Render::<Component>::new(component, options, Some(ElementType::Composition));
                let ghost cs_before = self.entity.components@;
                self.entity.components.push(Representation::Render(drawn));
                proof {
                    assert(self.entity.components@.subrange(0, n0) =~= cs_before.subrange(0, n0));
                    assert(self.entity.components@.subrange(n0, self.entity.components@.len() as int)
                        =~= cs_before.subrange(n0, cs_before.len() as int).push(Representation::Render(drawn)));
                }
                match &mut self.entity.compositions[i] {
                    Representation::Render(r) => r.conceal(),
                    Representation::Origin(_) => {
                        return Err(E::RenderNotInited);
                    },
                }
            }
            i = i + 1;
        }
        assert(ns.subrange(0, ns.len() as int) =~= ns);
        Ok(())
    }
}

/// The ids of the nested compositions that the filter shows.
pub open spec fn shown_ids(ns: Seq<Representation<Composition>>, state: State) -> Seq<usize>
    decreases ns.len(),
{
    if ns.len() == 0 {
        seq![]
    } else {
        let r = shown_ids(ns.drop_last(), state);
        if owner_shown(state, ns.last().entity().sig.id) {
            r.push(ns.last().entity().sig.id)
        } else {
            r
        }
    }
}

/// Keeping the first occurrence of each id gives each id once, and the same ids.
pub proof fn law_first_occurrences(s: Seq<usize>)
    ensures
        forall|i: int, j: int|
            0 <= i < j < first_occurrences(s).len() ==> first_occurrences(s)[i] != first_occurrences(
                s,
            )[j],
        forall|x: usize| first_occurrences(s).contains(x) <==> s.contains(x),
    decreases s.len(),
{
    if s.len() > 0 {
        let d = s.drop_last();
        law_first_occurrences(d);
        let r = first_occurrences(d);
        assert forall|x: usize| first_occurrences(s).contains(x) <==> s.contains(x) by {
            if s.contains(x) && x != s.last() {
                let i = choose|i: int| 0 <= i < s.len() && s[i] == x;
                assert(d[i] == x);
            }
            if d.contains(x) {
                let i = choose|i: int| 0 <= i < d.len() && d[i] == x;
                assert(s[i] == x);
            }
            if !r.contains(s.last()) {
                assert(r.push(s.last())[r.len() as int] == s.last());
                if r.contains(x) {
                    let i = choose|i: int| 0 <= i < r.len() && r[i] == x;
                    assert(r.push(s.last())[i] == x);
                }
                if r.push(s.last()).contains(x) && x != s.last() {
                    let i = choose|i: int| 0 <= i < r.len() + 1 && r.push(s.last())[i] == x;
                    assert(r[i] == x);
                }
            }
            assert(s[s.len() - 1] == s.last());
        }
    }
}

/// A port found by id: its id, where its owner starts, and its view.
pub type FoundPort<'a> = (usize, (i32, i32), &'a Container);

/// The ports among `ps` with one of the ids that have a view, each with where its owner starts.
pub open spec fn candidates(ps: Seq<Representation<Port>>, ids: Seq<usize>, origin: (int, int)) -> Seq<
    (usize, (int, int), Container),
>
    decreases ps.len(),
{
    if ps.len() == 0 {
        seq![]
    } else {
        let r = candidates(ps.drop_last(), ids, origin);
        match ps.last() {
            Representation::Render(x) => if ids.contains(x.entity.sig.id) {
                r.push((x.entity.sig.id, origin, x.view.container))
            } else {
                r
            },
            Representation::Origin(_) => r,
        }
    }
}

/// The candidates of every component, every nested composition and then of the composition
/// itself, when each of them and its ports have views.
pub open spec fn all_candidates(r: Render<Composition>, ids: Seq<usize>) -> Option<
    Seq<(usize, (int, int), Container)>,
> {
    let cs = r.entity.components@;
    let ns = r.entity.compositions@;
    if (forall|i: int| 0 <= i < cs.len() ==> #[trigger] cs[i] is Render && cs[i].entity().ports is Render)
        && (forall|i: int| 0 <= i < ns.len() ==> #[trigger] ns[i] is Render && ns[i].entity().ports is Render)
        && r.entity.ports is Render {
        Some(
            candidates_in_components(cs, ids) + candidates_in_nested(ns, ids) + candidates(
                r.entity.ports.entity().ports@,
                ids,
                r.view.container.form.coors(),
            ),
        )
    } else {
        None
    }
}

pub open spec fn candidates_in_components(cs: Seq<Representation<Component>>, ids: Seq<usize>) -> Seq<
    (usize, (int, int), Container),
>
    decreases cs.len(),
{
    if cs.len() == 0 {
        seq![]
    } else {
        candidates_in_components(cs.drop_last(), ids) + candidates(
            cs.last().entity().ports.entity().ports@,
            ids,
            cs.last()->Render_0.view.container.form.coors(),
        )
    }
}

pub open spec fn candidates_in_nested(ns: Seq<Representation<Composition>>, ids: Seq<usize>) -> Seq<
    (usize, (int, int), Container),
>
    decreases ns.len(),
{
    if ns.len() == 0 {
        seq![]
    } else {
        candidates_in_nested(ns.drop_last(), ids) + candidates(
            ns.last().entity().ports.entity().ports@,
            ids,
            ns.last()->Render_0.view.container.form.coors(),
        )
    }
}

pub open spec fn found_view<'a>(f: Seq<FoundPort<'a>>) -> Seq<(usize, (int, int), Container)> {
    f.map_values(|e: FoundPort<'a>| (e.0, (e.1.0 as int, e.1.1 as int), *e.2))
}

/// Adds the candidates of one owner, each id once over all that was found.
fn scan_ports<'a>(
    found: &mut Vec<FoundPort<'a>>,
    ports: &'a Ports,
    ids: &Vec<usize>,
    origin: (i32, i32),
)
    ensures
        found_view(final(found)@) == first_found_from(found_view(old(found)@), candidates(ports.ports@, ids@, (origin.0 as int, origin.1 as int))),
{
    let ghost start = found_view(found@);
    let mut i: usize = 0;
    assert(ports.ports@.subrange(0, 0) =~= Seq::<Representation<Port>>::empty());
    while i < ports.ports.len()
        invariant
            0 <= i <= ports.ports@.len(),
            found_view(found@) == first_found_from(start, candidates(ports.ports@.subrange(0, i as int), ids@, (origin.0 as int, origin.1 as int))),
        decreases ports.ports@.len() - i,
    {
        let ghost sub = ports.ports@.subrange(0, i + 1);
        assert(sub.drop_last() =~= ports.ports@.subrange(0, i as int));
        match &ports.ports[i] {
            Representation::Render(x) => {
                if holds(ids, x.entity.sig.id) {
                    let id = x.entity.sig.id;
                    let mut seen = false;
                    let mut k: usize = 0;
                    while k < found.len()
                        invariant
                            0 <= k <= found@.len(),
                            seen <==> exists|j: int| 0 <= j < k && (#[trigger] found@[j]).0 == id,
                        decreases found@.len() - k,
                    {
                        if found[k].0 == id {
                            seen = true;
                        }
                        k = k + 1;
                    }
                    let ghost before = found@;
                    proof {
                        let c0 = candidates(ports.ports@.subrange(0, i as int), ids@, (origin.0 as int, origin.1 as int));
                        let e = (id, (origin.0 as int, origin.1 as int), x.view.container);
                        assert(candidates(sub, ids@, (origin.0 as int, origin.1 as int)) == c0.push(e));
                        assert(c0.push(e).drop_last() =~= c0);
                        let fv = found_view(before);
                        assert(seen <==> exists|j: int| 0 <= j < fv.len() && (#[trigger] fv[j]).0 == id) by {
                            if seen {
                                let j = choose|j: int| 0 <= j < before.len() && (#[trigger] before[j]).0 == id;
                                assert(fv[j].0 == id);
                            }
                            if exists|j: int| 0 <= j < fv.len() && (#[trigger] fv[j]).0 == id {
                                let j = choose|j: int| 0 <= j < fv.len() && (#[trigger] fv[j]).0 == id;
                                assert(before[j].0 == id);
                            }
                        }
                    }
                    if !seen {
                        found.push((id, origin, &x.view.container));
                        assert(found_view(found@) =~= found_view(before).push((id, (origin.0 as int, origin.1 as int), x.view.container)));
                    }
                }
            },
            Representation::Origin(_) => {},
        }
        i = i + 1;
    }
    assert(ports.ports@.subrange(0, ports.ports@.len() as int) =~= ports.ports@);
}

/// The entries added in turn to those already found, each id once.
pub open spec fn first_found_from(
    start: Seq<(usize, (int, int), Container)>,
    s: Seq<(usize, (int, int), Container)>,
) -> Seq<(usize, (int, int), Container)>
    decreases s.len(),
{
    if s.len() == 0 {
        start
    } else {
        let r = first_found_from(start, s.drop_last());
        if exists|i: int| 0 <= i < r.len() && (#[trigger] r[i]).0 == s.last().0 {
            r
        } else {
            r.push(s.last())
        }
    }
}

proof fn lemma_first_found_concat(
    start: Seq<(usize, (int, int), Container)>,
    a: Seq<(usize, (int, int), Container)>,
    b: Seq<(usize, (int, int), Container)>,
)
    ensures
        first_found_from(start, a + b) == first_found_from(first_found_from(start, a), b),
    decreases b.len(),
{
    if b.len() == 0 {
        assert(a + b =~= a);
    } else {
        lemma_first_found_concat(start, a, b.drop_last());
        assert((a + b).drop_last() =~= a + b.drop_last());
        assert((a + b).last() == b.last());
    }
}

impl Render<Composition> {
    /// The ports with one of the ids, each once, with where its owner starts: those of the
    /// components, then of the nested compositions, then of the composition itself. A hidden
    /// composition shows none. Fails when one of those owners or its ports has no view.
    pub fn ports_by_ids<'a>(&'a self, ids: &Vec<usize>) -> (res: Result<Vec<FoundPort<'a>>, E>)
        requires
            self.view.container.form.coors_fit(),
            forall|i: int|
                0 <= i < self.entity.components@.len() ==> (#[trigger] self.entity.components@[i] matches Representation::Render(x)
                    ==> x.view.container.form.coors_fit()),
            forall|i: int|
                0 <= i < self.entity.compositions@.len() ==> (#[trigger] self.entity.compositions@[i] matches Representation::Render(x)
                    ==> x.view.container.form.coors_fit()),
        ensures
            self.hidden ==> (res matches Ok(v) && v@.len() == 0),
            !self.hidden ==> (match all_candidates(*self, ids@) {
                None => res == Err::<Vec<FoundPort<'a>>, E>(E::RenderNotInited),
                Some(c) => res matches Ok(v) && found_view(v@) == first_found_from(seq![], c),
            }),
    {
        if self.hidden {
            return Ok(Vec::new());
        }
        let mut found: Vec<FoundPort<'a>> = Vec::new();
        let cs = &self.entity.components;
        let mut i: usize = 0;
        assert(found_view(found@) =~= Seq::<(usize, (int, int), Container)>::empty());
        assert(cs@.subrange(0, 0) =~= Seq::<Representation<Component>>::empty());
        while i < cs.len()
            invariant
                !self.hidden,
                0 <= i <= cs@.len(),
                cs@ == self.entity.components@,
                forall|j: int|
                    0 <= j < cs@.len() ==> (#[trigger] cs@[j] matches Representation::Render(x)
                        ==> x.view.container.form.coors_fit()),
                forall|j: int| 0 <= j < i ==> #[trigger] cs@[j] is Render && cs@[j].entity().ports is Render,
                found_view(found@) == first_found_from(seq![], candidates_in_components(cs@.subrange(0, i as int), ids@)),
            decreases cs@.len() - i,
        {
            let ghost sub = cs@.subrange(0, i + 1);
            assert(sub.drop_last() =~= cs@.subrange(0, i as int));
            let (origin, ports) = match &cs[i] {
                Representation::Render(x) => {
                    let o = x.view.container.get_coors();
                    match &x.entity.ports {
                        Representation::Render(p) => (o, &p.entity),
                        Representation::Origin(_) => {
                            return Err(E::RenderNotInited);
                        },
                    }
                },
                Representation::Origin(_) => {
                    return Err(E::RenderNotInited);
                },
            };
            proof {
                lemma_first_found_concat(
                    seq![],
                    candidates_in_components(cs@.subrange(0, i as int), ids@),
                    candidates(ports.ports@, ids@, (origin.0 as int, origin.1 as int)),
                );
            }
            scan_ports(&mut found, ports, ids, origin);
            i = i + 1;
        }
        assert(cs@.subrange(0, cs@.len() as int) =~= cs@);
        let ghost head = candidates_in_components(cs@, ids@);
        let ns = &self.entity.compositions;
        let mut k: usize = 0;
        assert(ns@.subrange(0, 0) =~= Seq::<Representation<Composition>>::empty());
        assert(head + candidates_in_nested(ns@.subrange(0, 0), ids@) =~= head);
        while k < ns.len()
            invariant
                !self.hidden,
                0 <= k <= ns@.len(),
                ns@ == self.entity.compositions@,
                forall|j: int|
                    0 <= j < ns@.len() ==> (#[trigger] ns@[j] matches Representation::Render(x)
                        ==> x.view.container.form.coors_fit()),
                forall|j: int| 0 <= j < k ==> #[trigger] ns@[j] is Render && ns@[j].entity().ports is Render,
                forall|j: int| 0 <= j < cs@.len() ==> #[trigger] cs@[j] is Render && cs@[j].entity().ports is Render,
                head == candidates_in_components(cs@, ids@),
                cs@ == self.entity.components@,
                found_view(found@) == first_found_from(seq![], head + candidates_in_nested(ns@.subrange(0, k as int), ids@)),
            decreases ns@.len() - k,
        {
            let ghost sub = ns@.subrange(0, k + 1);
            assert(sub.drop_last() =~= ns@.subrange(0, k as int));
            let (origin, ports) = match &ns[k] {
                Representation::Render(x) => {
                    let o = x.view.container.get_coors();
                    match &x.entity.ports {
                        Representation::Render(p) => (o, &p.entity),
                        Representation::Origin(_) => {
                            return Err(E::RenderNotInited);
                        },
                    }
                },
                Representation::Origin(_) => {
                    return Err(E::RenderNotInited);
                },
            };
            proof {
                let c = candidates(ports.ports@, ids@, (origin.0 as int, origin.1 as int));
                lemma_first_found_concat(
                    seq![],
                    head + candidates_in_nested(ns@.subrange(0, k as int), ids@),
                    c,
                );
                assert(head + candidates_in_nested(sub, ids@) =~= head + candidates_in_nested(ns@.subrange(0, k as int), ids@) + c);
            }
            scan_ports(&mut found, ports, ids, origin);
            k = k + 1;
        }
        assert(ns@.subrange(0, ns@.len() as int) =~= ns@);
        let origin = self.view.container.get_coors();
        match &self.entity.ports {
            Representation::Render(p) => {
                proof {
                    lemma_first_found_concat(
                        seq![],
                        head + candidates_in_nested(ns@, ids@),
                        candidates(p.entity.ports@, ids@, (origin.0 as int, origin.1 as int)),
                    );
                }
                scan_ports(&mut found, &p.entity, ids, origin);
                Ok(found)
            },
            Representation::Origin(_) => Err(E::RenderNotInited),
        }
    }
}

} // verus!
