use vstd::prelude::*;

use crate::entity::connection::{count_of, names_component, names_port};
use crate::entity::port::{class_names, index_of_id, short_names};
use crate::entity::{
    label_text, push_unique, texts, unique, Component, Connection, EntityProps, GetIncludedComponent,
    IsPortIncluded, Port, Ports, Signature, SignatureEqual, SignatureGetter,
};
use crate::render::options::Options;
use crate::entity::port::same_port;
use crate::render::entity::port::port_view;
use crate::render::{Render, Representation};

verus! {

#[derive(Debug)]
pub struct Composition {
    pub sig: Signature,
    pub components: Vec<Representation<Component>>,
    pub connections: Vec<Representation<Connection>>,
    pub compositions: Vec<Representation<Composition>>,
    pub ports: Representation<Ports>,
    pub parent: Option<usize>,
}

impl SignatureGetter for Composition {
    open spec fn signature(&self) -> Signature {
        self.sig
    }

    fn sig(&self) -> (res: &Signature) {
        &self.sig
    }
}

/// The class names of the components, in order.
pub open spec fn comp_class_names(cs: Seq<Representation<Component>>) -> Seq<Seq<char>> {
    cs.map_values(|r: Representation<Component>| r.entity().sig.class_name@)
}

/// The short names of the components, in order.
pub open spec fn comp_short_names(cs: Seq<Representation<Component>>) -> Seq<Seq<char>> {
    cs.map_values(|r: Representation<Component>| r.entity().sig.short_name@)
}

/// The class names of the ports of the composition and then of each component.
pub open spec fn all_port_class_names(c: Composition) -> Seq<Seq<char>> {
    unique(class_names(c.ports.entity().ports@)) + comps_port_class_names(c.components@)
}

pub open spec fn comps_port_class_names(cs: Seq<Representation<Component>>) -> Seq<Seq<char>>
    decreases cs.len(),
{
    if cs.len() == 0 {
        seq![]
    } else {
        comps_port_class_names(cs.drop_last()) + unique(
            class_names(cs.last().entity().ports.entity().ports@),
        )
    }
}

pub open spec fn all_port_short_names(c: Composition) -> Seq<Seq<char>> {
    unique(short_names(c.ports.entity().ports@)) + comps_port_short_names(c.components@)
}

pub open spec fn comps_port_short_names(cs: Seq<Representation<Component>>) -> Seq<Seq<char>>
    decreases cs.len(),
{
    if cs.len() == 0 {
        seq![]
    } else {
        comps_port_short_names(cs.drop_last()) + unique(
            short_names(cs.last().entity().ports.entity().ports@),
        )
    }
}

/// The connections, among those given, that name the port at an end.
pub open spec fn by_port(cs: Seq<Representation<Connection>>, id: usize) -> Seq<Connection>
    decreases cs.len(),
{
    if cs.len() == 0 {
        seq![]
    } else {
        let r = by_port(cs.drop_last(), id);
        if names_port(cs.last().entity(), id) {
            r.push(cs.last().entity())
        } else {
            r
        }
    }
}

/// The connections, among those given, that name the component at an end.
pub open spec fn by_component(cs: Seq<Representation<Connection>>, id: usize) -> Seq<Connection>
    decreases cs.len(),
{
    if cs.len() == 0 {
        seq![]
    } else {
        let r = by_component(cs.drop_last(), id);
        if names_component(cs.last().entity(), id) {
            r.push(cs.last().entity())
        } else {
            r
        }
    }
}

/// The position of the first component with the id, or -1.
pub open spec fn component_index(cs: Seq<Representation<Component>>, id: usize) -> int
    decreases cs.len(),
{
    if cs.len() == 0 {
        -1
    } else {
        let i = component_index(cs.drop_last(), id);
        if i >= 0 {
            i
        } else if cs.last().entity().sig.id == id {
            cs.len() - 1
        } else {
            -1
        }
    }
}

pub open spec fn derefs(v: Seq<&Connection>) -> Seq<Connection> {
    v.map_values(|c: &Connection| *c)
}

/// The components ordered by how many connections name them, fewest first; components with
/// as many connections keep their order.
pub open spec fn ordered(cs: Seq<Representation<Component>>, conns: Seq<Representation<Connection>>) -> Seq<
    Representation<Component>,
>
    decreases cs.len(),
{
    if cs.len() == 0 {
        seq![]
    } else {
        let r = ordered(cs.drop_last(), conns);
        let x = cs.last();
        r.insert(placement(r, conns, count_of(conns, x.entity().sig.id)), x)
    }
}

/// Where an element with key `k` goes in a sorted run: after every element whose key is at
/// most `k`.
pub open spec fn placement(
    r: Seq<Representation<Component>>,
    conns: Seq<Representation<Connection>>,
    k: nat,
) -> int
    decreases r.len(),
{
    if r.len() == 0 {
        0
    } else if count_of(conns, r.last().entity().sig.id) <= k {
        r.len() as int
    } else {
        placement(r.drop_last(), conns, k)
    }
}

impl Composition {
    pub fn new(sig: Signature) -> (res: Self)
        ensures
            res.sig == sig,
            res.components@.len() == 0,
            res.connections@.len() == 0,
            res.compositions@.len() == 0,
            res.ports is Origin,
            res.ports.entity().ports@.len() == 0,
            res.ports.entity().hide_invisible,
            res.parent.is_none(),
    {
        Self {
            sig,
            components: Vec::new(),
            connections: Vec::new(),
            compositions: Vec::new(),
            ports: Representation::Origin(Ports::new()),
            parent: None,
        }
    }

    pub fn push_component(&mut self, component: Component)
        ensures
            final(self).components@ == old(self).components@.push(
                Representation::Origin(component),
            ),
            final(self).connections == old(self).connections,
            final(self).compositions == old(self).compositions,
            final(self).ports == old(self).ports,
            final(self).sig == old(self).sig,
            final(self).parent == old(self).parent,
    {
        self.components.push(Representation::Origin(component))
    }

    pub fn push_connection(&mut self, connection: Connection)
        ensures
            final(self).connections@ == old(self).connections@.push(
                Representation::Origin(connection),
            ),
            final(self).components == old(self).components,
            final(self).compositions == old(self).compositions,
            final(self).ports == old(self).ports,
            final(self).sig == old(self).sig,
            final(self).parent == old(self).parent,
    {
        self.connections.push(Representation::Origin(connection))
    }

    /// Orders the components by how many connections name them, fewest first, keeping the order
    /// of components with as many.
    pub fn order(&mut self)
        ensures
            final(self).components@ == ordered(old(self).components@, old(self).connections@),
            final(self).connections == old(self).connections,
            final(self).compositions == old(self).compositions,
            final(self).ports == old(self).ports,
            final(self).sig == old(self).sig,
            final(self).parent == old(self).parent,
    {
        let ghost conns = self.connections@;
        let mut rest: Vec<Representation<Component>> = Vec::new();
        let ghost given = self.components@;
        // Take the components out, last first, so that they go back in their order.
        while self.components.len() > 0
            invariant
                self.components@ + rest@.reverse() =~= given,
                self.connections@ == conns,
                self.connections == old(self).connections,
                self.compositions == old(self).compositions,
                self.ports == old(self).ports,
                self.sig == old(self).sig,
                self.parent == old(self).parent,
            decreases self.components@.len(),
        {
            let c = self.components.pop().unwrap();
            rest.push(c);
        }
        let mut sorted: Vec<Representation<Component>> = Vec::new();
        let ghost mut n: int = 0;
        assert(given.subrange(0, 0) =~= Seq::<Representation<Component>>::empty());
        while rest.len() > 0
            invariant
                rest@.reverse() =~= given.subrange(n, given.len() as int),
                0 <= n <= given.len(),
                n + rest@.len() == given.len(),
                sorted@ == ordered(given.subrange(0, n), conns),
                sorted@.len() == n,
                self.connections@ == conns,
                self.components@.len() == 0,
                self.connections == old(self).connections,
                self.compositions == old(self).compositions,
                self.ports == old(self).ports,
                self.sig == old(self).sig,
                self.parent == old(self).parent,
            decreases rest@.len(),
        {
            let ghost before = rest@;
            assert(before.reverse()[0] == before[before.len() - 1]);
            let c = rest.pop().unwrap();
            assert(c == given[n]);
            assert(rest@.reverse() =~= before.reverse().subrange(1, before.len() as int));
            let key = Connection::count(&self.connections, &c.sig().id);
            let mut pos: usize = sorted.len();
            assert(sorted@.subrange(0, sorted@.len() as int) =~= sorted@);
            while pos > 0 && Connection::count(&self.connections, &sorted[pos - 1].sig().id) > key
                invariant
                    0 <= pos <= sorted@.len(),
                    placement(sorted@, conns, key as nat) == placement(
                        sorted@.subrange(0, pos as int),
                        conns,
                        key as nat,
                    ),
                    self.connections@ == conns,
                decreases pos,
            {
                assert(sorted@.subrange(0, pos as int).drop_last() =~= sorted@.subrange(
                    0,
                    pos - 1,
                ));
                pos = pos - 1;
            }
            proof {
                if pos > 0 {
                    let sub = sorted@.subrange(0, pos as int);
                    assert(sub.last() == sorted@[pos - 1]);
                }
                assert(sorted@.subrange(0, sorted@.len() as int) =~= sorted@);
                let o = given.subrange(0, n + 1);
                assert(o.drop_last() =~= given.subrange(0, n));
                assert(o.last() == c);
            }
            sorted.insert(pos, c);
            proof {
                n = n + 1;
            }
        }
        assert(given.subrange(0, given.len() as int) =~= given);
        self.components = sorted;
    }

    /// The connections that name the port at an end.
    pub fn find_connections_by_port(&self, id: &usize) -> (res: Vec<&Connection>)
        ensures
            derefs(res@) == by_port(self.connections@, *id),
    {
        let mut res: Vec<&Connection> = Vec::new();
        let mut i: usize = 0;
        while i < self.connections.len()
            invariant
                0 <= i <= self.connections@.len(),
                derefs(res@) == by_port(self.connections@.subrange(0, i as int), *id),
            decreases self.connections@.len() - i,
        {
            let ghost sub = self.connections@.subrange(0, i + 1);
            assert(sub.drop_last() =~= self.connections@.subrange(0, i as int));
            let c = &self.connections[i];
            if id.included_as_port(c).is_some() {
                res.push(c.origin());
            }
            assert(derefs(res@) =~= by_port(sub, *id));
            i = i + 1;
        }
        assert(self.connections@.subrange(0, self.connections@.len() as int) =~= self.connections@);
        res
    }

    /// The connections that name the component at an end.
    pub fn find_connections_by_component(&self, id: &usize) -> (res: Vec<&Connection>)
        ensures
            derefs(res@) == by_component(self.connections@, *id),
    {
        let mut res: Vec<&Connection> = Vec::new();
        let mut i: usize = 0;
        while i < self.connections.len()
            invariant
                0 <= i <= self.connections@.len(),
                derefs(res@) == by_component(self.connections@.subrange(0, i as int), *id),
            decreases self.connections@.len() - i,
        {
            let ghost sub = self.connections@.subrange(0, i + 1);
            assert(sub.drop_last() =~= self.connections@.subrange(0, i as int));
            if let Some(c) = id.get_included_component(&self.connections[i]) {
                res.push(c);
            }
            assert(derefs(res@) =~= by_component(sub, *id));
            i = i + 1;
        }
        assert(self.connections@.subrange(0, self.connections@.len() as int) =~= self.connections@);
        res
    }

    /// The first component with the id.
    pub fn get_component(&self, id: &usize) -> (res: Option<&Component>)
        ensures
            component_index(self.components@, *id) >= 0 ==> res == Some(
                &self.components@[component_index(self.components@, *id)].entity(),
            ),
            component_index(self.components@, *id) < 0 ==> res.is_none(),
    {
        let mut i: usize = 0;
        while i < self.components.len()
            invariant
                0 <= i <= self.components@.len(),
                component_index(self.components@.subrange(0, i as int), *id) == -1,
            decreases self.components@.len() - i,
        {
            let ghost sub = self.components@.subrange(0, i + 1);
            assert(sub.drop_last() =~= self.components@.subrange(0, i as int));
            if let Some(c) = id.get_if_equal(self.components[i].origin()) {
                proof {
                    lemma_component_prefix(self.components@, *id, i + 1);
                }
                return Some(c);
            }
            i = i + 1;
        }
        assert(self.components@.subrange(0, self.components@.len() as int) =~= self.components@);
        None
    }

    /// The first port of the composition itself with the id.
    pub fn get_port(&self, port_id: &usize) -> (res: Option<&Port>)
        ensures
            ({
                let ps = self.ports.entity().ports@;
                let i = index_of_id(ps, *port_id);
                &&& i >= 0 ==> res == Some(&ps[i].entity())
                &&& i < 0 ==> res.is_none()
            }),
    {
        match self.ports.origin().find(port_id) {
            Some(r) => Some(r.origin()),
            None => None,
        }
    }

    /// The names of the ports of the composition and its components, each once.
    pub fn get_ports_props(&self) -> (res: EntityProps)
        ensures
            texts(res.class_name@) == unique(all_port_class_names(*self)),
            texts(res.short_name@) == unique(all_port_short_names(*self)),
    {
        let mut props = self.ports.origin().get_props();
        let mut i: usize = 0;
        let ghost own_c = texts(props.class_name@);
        let ghost own_s = texts(props.short_name@);
        assert(comps_port_class_names(self.components@.subrange(0, 0)) =~= Seq::<Seq<char>>::empty());
        assert(comps_port_short_names(self.components@.subrange(0, 0)) =~= Seq::<Seq<char>>::empty());
        while i < self.components.len()
            invariant
                0 <= i <= self.components@.len(),
                own_c == unique(class_names(self.ports.entity().ports@)),
                own_s == unique(short_names(self.ports.entity().ports@)),
                texts(props.class_name@) == own_c + comps_port_class_names(
                    self.components@.subrange(0, i as int),
                ),
                texts(props.short_name@) == own_s + comps_port_short_names(
                    self.components@.subrange(0, i as int),
                ),
            decreases self.components@.len() - i,
        {
            let ghost sub = self.components@.subrange(0, i + 1);
            assert(sub.drop_last() =~= self.components@.subrange(0, i as int));
            props.merge(self.components[i].origin().get_ports_props());
            assert(texts(props.class_name@) =~= own_c + comps_port_class_names(sub));
            assert(texts(props.short_name@) =~= own_s + comps_port_short_names(sub));
            i = i + 1;
        }
        assert(self.components@.subrange(0, self.components@.len() as int) =~= self.components@);
        props.dedup()
    }

    /// The names of the components, each once.
    pub fn get_comps_props(&self) -> (res: EntityProps)
        ensures
            texts(res.class_name@) == unique(unique(comp_class_names(self.components@))),
            texts(res.short_name@) == unique(unique(comp_short_names(self.components@))),
    {
        let mut props = EntityProps::default();
        let mut i: usize = 0;
        assert(texts(props.class_name@) =~= unique(comp_class_names(self.components@.subrange(0, 0))));
        assert(texts(props.short_name@) =~= unique(comp_short_names(self.components@.subrange(0, 0))));
        while i < self.components.len()
            invariant
                0 <= i <= self.components@.len(),
                texts(props.class_name@) == unique(
                    comp_class_names(self.components@.subrange(0, i as int)),
                ),
                texts(props.short_name@) == unique(
                    comp_short_names(self.components@.subrange(0, i as int)),
                ),
            decreases self.components@.len() - i,
        {
            let ghost sub = self.components@.subrange(0, i + 1);
            assert(comp_class_names(sub).drop_last() =~= comp_class_names(
                self.components@.subrange(0, i as int),
            ));
            assert(comp_short_names(sub).drop_last() =~= comp_short_names(
                self.components@.subrange(0, i as int),
            ));
            let sig = self.components[i].sig();
            push_unique(&mut props.class_name, &sig.class_name);
            push_unique(&mut props.short_name, &sig.short_name);
            i = i + 1;
        }
        assert(self.components@.subrange(0, self.components@.len() as int) =~= self.components@);
        props.dedup()
    }

    pub fn get_label(&self, options: &Options) -> (res: String)
        ensures
            res@ == label_text(
                self.sig,
                options.labels.composition_short_name,
                options.labels.comp_label_max_len,
            ),
    {
        self.sig.as_label(options.labels.composition_short_name, options.labels.comp_label_max_len)
    }

    /// A component that stands for the composition: a copy of its ports, made ready to draw.
    pub fn to_component(&self, options: &Options) -> (res: Component)
        ensures
            res.sig == self.sig,
            res.composition,
            res.ports is Render,
            res.ports.entity().ports@.len() == self.ports.entity().ports@.len(),
            forall|i: int|
                0 <= i < self.ports.entity().ports@.len() ==> {
                    let p = #[trigger] res.ports.entity().ports@[i];
                    &&& p is Render
                    &&& same_port(p.entity(), self.ports.entity().ports@[i].entity())
                    &&& port_view(p->Render_0.view, p.entity(), *options)
                },
            res.ports.entity().hide_invisible == self.ports.entity().hide_invisible,
    {
        let copy = self.ports.origin().clone();
        let ghost cv = copy.ports@;
        let drawn = Render::<Ports>::new(copy, options, true);
        assert forall|i: int| 0 <= i < cv.len() implies {
            let p = #[trigger] drawn.entity.ports@[i];
            &&& p is Render
            &&& same_port(p.entity(), self.ports.entity().ports@[i].entity())
            &&& port_view(p->Render_0.view, p.entity(), *options)
        } by {
            assert(cv[i] is Origin);
        }
        Component { sig: self.sig.clone(), ports: Representation::Render(drawn), composition: true }
    }
}

proof fn lemma_component_prefix(cs: Seq<Representation<Component>>, id: usize, n: int)
    requires
        0 < n <= cs.len(),
        component_index(cs.subrange(0, n - 1), id) == -1,
        cs[n - 1].entity().sig.id == id,
    ensures
        component_index(cs, id) == n - 1,
    decreases cs.len(),
{
    if cs.len() > n {
        assert(cs.drop_last().subrange(0, n - 1) =~= cs.subrange(0, n - 1));
        lemma_component_prefix(cs.drop_last(), id, n);
    } else {
        assert(cs.drop_last() =~= cs.subrange(0, n - 1));
    }
}

/// How many connections name the component.
pub open spec fn links_of(conns: Seq<Representation<Connection>>, c: Representation<Component>) -> nat {
    count_of(conns, c.entity().sig.id)
}

/// The components come in order of how many connections name them, fewest first.
pub open spec fn by_links(cs: Seq<Representation<Component>>, conns: Seq<Representation<Connection>>) -> bool {
    forall|i: int, j: int| 0 <= i < j < cs.len() ==> links_of(conns, cs[i]) <= links_of(conns, cs[j])
}

proof fn lemma_placement_split(
    r: Seq<Representation<Component>>,
    conns: Seq<Representation<Connection>>,
    k: nat,
)
    requires
        by_links(r, conns),
    ensures
        0 <= placement(r, conns, k) <= r.len(),
        forall|i: int| 0 <= i < placement(r, conns, k) ==> links_of(conns, #[trigger] r[i]) <= k,
        forall|i: int| placement(r, conns, k) <= i < r.len() ==> links_of(conns, #[trigger] r[i]) > k,
    decreases r.len(),
{
    if r.len() > 0 {
        let d = r.drop_last();
        assert(by_links(d, conns)) by {
            assert forall|i: int, j: int| 0 <= i < j < d.len() implies links_of(conns, d[i]) <= links_of(conns, d[j]) by {
                assert(d[i] == r[i] && d[j] == r[j]);
            }
        }
        lemma_placement_split(d, conns, k);
        if count_of(conns, r.last().entity().sig.id) <= k {
            assert forall|i: int| 0 <= i < r.len() implies links_of(conns, #[trigger] r[i]) <= k by {
                if i < r.len() - 1 {
                    assert(links_of(conns, r[i]) <= links_of(conns, r[r.len() - 1]));
                }
            }
        } else {
            assert forall|i: int| 0 <= i < placement(r, conns, k) implies links_of(conns, #[trigger] r[i]) <= k by {
                assert(d[i] == r[i]);
            }
            assert forall|i: int| placement(r, conns, k) <= i < r.len() implies links_of(conns, #[trigger] r[i]) > k by {
                if i < r.len() - 1 {
                    assert(d[i] == r[i]);
                }
            }
        }
    }
}

/// Ordering gives the components in order of how many connections name them, fewest first,
/// and as many components as were given.
pub proof fn law_ordered_by_links(cs: Seq<Representation<Component>>, conns: Seq<Representation<Connection>>)
    ensures
        ordered(cs, conns).len() == cs.len(),
        by_links(ordered(cs, conns), conns),
    decreases cs.len(),
{
    if cs.len() > 0 {
        law_ordered_by_links(cs.drop_last(), conns);
        let r = ordered(cs.drop_last(), conns);
        let x = cs.last();
        let k = count_of(conns, x.entity().sig.id);
        lemma_placement_split(r, conns, k);
        let p = placement(r, conns, k);
        let o = r.insert(p, x);
        assert(ordered(cs, conns) == o);
        assert forall|i: int, j: int| 0 <= i < j < o.len() implies links_of(conns, o[i]) <= links_of(conns, o[j]) by {
            if j < p {
                assert(o[i] == r[i] && o[j] == r[j]);
            } else if j == p {
                assert(o[j] == x);
                assert(o[i] == r[i]);
            } else if i < p {
                assert(o[i] == r[i] && o[j] == r[j - 1]);
            } else if i == p {
                assert(o[i] == x && o[j] == r[j - 1]);
            } else {
                assert(o[i] == r[i - 1] && o[j] == r[j - 1]);
            }
        }
    }
}

} // verus!
