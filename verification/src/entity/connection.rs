use vstd::prelude::*;

use crate::entity::{Signature, SignatureGetter};
use crate::render::Representation;
use crate::state::{holds, State};

verus! {

/// Connections that may name a component.
pub trait IsComponentIncluded<T> {
    spec fn component_in(&self, connection: &T) -> bool;

    fn included_as_component(&self, connection: &T) -> (res: bool)
        ensures
            res == self.component_in(connection),
    ;
}

/// Connections that give themselves back when they name a component.
pub trait GetIncludedComponent<'a, I, O> {
    spec fn included(&self, connection: &'a I) -> Option<&'a O>;

    fn get_included_component(&self, connection: &'a I) -> (res: Option<&'a O>)
        ensures
            res == self.included(connection),
    ;
}

/// Connections that may name a port.
pub trait IsPortIncluded<T> {
    spec fn port_in(&self, connection: &T) -> Option<usize>;

    fn included_as_port(&self, connection: &T) -> (res: Option<usize>)
        ensures
            res == self.port_in(connection),
    ;
}

/// Connections whose input is a port.
pub trait IsInputPort<T> {
    spec fn input_is(&self, connection: &T) -> bool;

    fn is_input_port(&self, connection: &T) -> (res: bool)
        ensures
            res == self.input_is(connection),
    ;
}

/// The connection names the component at one of its ends.
pub open spec fn names_component(c: Connection, id: usize) -> bool {
    c.joint_in.component == id || c.joint_out.component == id
}

/// The connection names the port at one of its ends.
pub open spec fn names_port(c: Connection, id: usize) -> bool {
    c.joint_in.port == id || c.joint_out.port == id
}

impl IsComponentIncluded<Connection> for &usize {
    open spec fn component_in(&self, connection: &Connection) -> bool {
        names_component(*connection, **self)
    }

    fn included_as_component(&self, connection: &Connection) -> (res: bool) {
        connection.joint_in.component == **self || connection.joint_out.component == **self
    }
}

impl IsComponentIncluded<Representation<Connection>> for &usize {
    open spec fn component_in(&self, connection: &Representation<Connection>) -> bool {
        names_component(connection.entity(), **self)
    }

    fn included_as_component(&self, connection: &Representation<Connection>) -> (res: bool) {
        connection.origin().joint_in.component == **self
            || connection.origin().joint_out.component == **self
    }
}

impl<'a> GetIncludedComponent<'a, Connection, Connection> for &usize {
    open spec fn included(&self, connection: &'a Connection) -> Option<&'a Connection> {
        if names_component(*connection, **self) {
            Some(connection)
        } else {
            None
        }
    }

    fn get_included_component(&self, connection: &'a Connection) -> (res: Option<&'a Connection>) {
        if connection.joint_in.component == **self || connection.joint_out.component == **self {
            Some(connection)
        } else {
            None
        }
    }
}

impl<'a> GetIncludedComponent<'a, Representation<Connection>, Connection> for &usize {
    open spec fn included(&self, connection: &'a Representation<Connection>) -> Option<
        &'a Connection,
    > {
        if names_component(connection.entity(), **self) {
            Some(&connection.entity())
        } else {
            None
        }
    }

    fn get_included_component(&self, connection: &'a Representation<Connection>) -> (res: Option<
        &'a Connection,
    >) {
        if connection.origin().joint_in.component == **self
            || connection.origin().joint_out.component == **self {
            Some(connection.origin())
        } else {
            None
        }
    }
}

impl IsPortIncluded<Connection> for &usize {
    open spec fn port_in(&self, connection: &Connection) -> Option<usize> {
        if names_port(*connection, **self) {
            Some(**self)
        } else {
            None
        }
    }

    fn included_as_port(&self, connection: &Connection) -> (res: Option<usize>) {
        if connection.joint_in.port == **self || connection.joint_out.port == **self {
            Some(**self)
        } else {
            None
        }
    }
}

impl IsPortIncluded<Representation<Connection>> for &usize {
    open spec fn port_in(&self, connection: &Representation<Connection>) -> Option<usize> {
        if names_port(connection.entity(), **self) {
            Some(**self)
        } else {
            None
        }
    }

    fn included_as_port(&self, connection: &Representation<Connection>) -> (res: Option<usize>) {
        if connection.origin().joint_in.port == **self || connection.origin().joint_out.port
            == **self {
            Some(**self)
        } else {
            None
        }
    }
}

impl IsInputPort<Connection> for &usize {
    open spec fn input_is(&self, connection: &Connection) -> bool {
        connection.joint_in.port == **self
    }

    fn is_input_port(&self, connection: &Connection) -> (res: bool) {
        connection.joint_in.port == **self
    }
}

impl IsInputPort<Representation<Connection>> for &usize {
    open spec fn input_is(&self, connection: &Representation<Connection>) -> bool {
        connection.entity().joint_in.port == **self
    }

    fn is_input_port(&self, connection: &Representation<Connection>) -> (res: bool) {
        connection.origin().joint_in.port == **self
    }
}

#[derive(Debug, Clone, Copy, PartialEq, Eq)]
pub struct Joint {
    pub port: usize,
    pub component: usize,
    pub grouped: Option<usize>,
}

impl Joint {
    pub fn new(port_id: usize, component_id: usize) -> (res: Self)
        ensures
            res == (Joint { port: port_id, component: component_id, grouped: None }),
    {
        Self { port: port_id, component: component_id, grouped: None }
    }
}

#[derive(Debug)]
pub struct Connection {
    pub sig: Signature,
    pub joint_in: Joint,
    pub joint_out: Joint,
    pub visibility: bool,
}

impl SignatureGetter for Connection {
    open spec fn signature(&self) -> Signature {
        self.sig
    }

    fn sig(&self) -> (res: &Signature) {
        &self.sig
    }
}

/// The port an end shows: its group when it was grouped, otherwise its own port.
pub open spec fn shown_port(j: Joint) -> usize {
    match j.grouped {
        Some(id) => id,
        None => j.port,
    }
}

/// The number of connections that name the component.
pub open spec fn count_of(connections: Seq<Representation<Connection>>, id: usize) -> nat
    decreases connections.len(),
{
    if connections.len() == 0 {
        0
    } else {
        count_of(connections.drop_last(), id) + (if names_component(
            connections.last().entity(),
            id,
        ) {
            1nat
        } else {
            0nat
        })
    }
}

impl Connection {
    pub fn in_port(&self) -> (res: &usize)
        ensures
            *res == shown_port(self.joint_in),
    {
        if let Some(id) = self.joint_in.grouped.as_ref() {
            id
        } else {
            &self.joint_in.port
        }
    }

    pub fn out_port(&self) -> (res: &usize)
        ensures
            *res == shown_port(self.joint_out),
    {
        if let Some(id) = self.joint_out.grouped.as_ref() {
            id
        } else {
            &self.joint_out.port
        }
    }

    pub fn in_comp(&self) -> (res: &usize)
        ensures
            *res == self.joint_in.component,
    {
        &self.joint_in.component
    }

    pub fn out_comp(&self) -> (res: &usize)
        ensures
            *res == self.joint_out.component,
    {
        &self.joint_out.component
    }

    pub fn get_ports(&self) -> (res: [&usize; 2])
        ensures
            *res[0] == self.joint_in.port,
            *res[1] == self.joint_out.port,
    {
        [&self.joint_in.port, &self.joint_out.port]
    }

    /// The number of connections that name the component.
    pub fn count(connections: &[Representation<Connection>], component_id: &usize) -> (res: usize)
        ensures
            res == count_of(connections@, *component_id),
    {
        let mut n: usize = 0;
        let mut i: usize = 0;
        while i < connections.len()
            invariant
                0 <= i <= connections@.len(),
                n == count_of(connections@.subrange(0, i as int), *component_id),
                n <= i,
            decreases connections@.len() - i,
        {
            let ghost sub = connections@.subrange(0, i + 1);
            assert(sub.drop_last() =~= connections@.subrange(0, i as int));
            if component_id.included_as_component(connections[i].origin()) {
                n = n + 1;
            }
            i = i + 1;
        }
        assert(connections@.subrange(0, connections@.len() as int) =~= connections@);
        n
    }

    /// Marks the connection as not shown.
    pub fn conceal(&mut self)
        ensures
            *final(self) == (Connection { visibility: false, ..*old(self) }),
    {
        self.visibility = false;
    }

    pub fn new(sig: Signature, joint_in: Joint, joint_out: Joint) -> (res: Self)
        ensures
            res == (Connection { sig, joint_in, joint_out, visibility: true }),
    {
        Self { sig, joint_in, joint_out, visibility: true }
    }
}


/// An entity owns a port that the filter shows; with no filter every entity does.
pub open spec fn owner_shown(state: State, id: usize) -> bool {
    match state.filtered {
        Some(f) => f.2@.contains(id),
        None => true,
    }
}

/// The position of the first tally of the id, or -1.
pub open spec fn tally_index(t: Seq<(usize, usize, usize)>, id: usize) -> int
    decreases t.len(),
{
    if t.len() == 0 {
        -1
    } else {
        let i = tally_index(t.drop_last(), id);
        if i >= 0 {
            i
        } else if t.last().0 == id {
            t.len() - 1
        } else {
            -1
        }
    }
}

/// The tallies with `(d_in, d_out)` added to those of the id, or a new tally for it.
pub open spec fn bump(t: Seq<(usize, usize, usize)>, id: usize, d_in: int, d_out: int) -> Seq<
    (usize, usize, usize),
> {
    let i = tally_index(t, id);
    if i >= 0 {
        t.update(i, (id, (t[i].1 + d_in) as usize, (t[i].2 + d_out) as usize))
    } else {
        t.push((id, d_in as usize, d_out as usize))
    }
}

/// For each component at the ends of the shown connections: its id and how many of those
/// connections come in and go out, in the order the components first occur.
pub open spec fn linked_tally(conns: Seq<Representation<Connection>>, state: State) -> Seq<
    (usize, usize, usize),
>
    decreases conns.len(),
{
    if conns.len() == 0 {
        seq![]
    } else {
        let t = linked_tally(conns.drop_last(), state);
        let c = conns.last().entity();
        if owner_shown(state, c.joint_out.component) && owner_shown(state, c.joint_in.component) {
            bump(bump(t, c.joint_out.component, 0, 1), c.joint_in.component, 1, 0)
        } else {
            t
        }
    }
}

/// The connection links the host to a component that is not ignored.
pub open spec fn links_host(c: Connection, host: usize, ignore: Seq<usize>) -> bool {
    (c.joint_in.component == host && !ignore.contains(c.joint_out.component)) || (
    c.joint_out.component == host && !ignore.contains(c.joint_in.component))
}

/// For each component linked to the host by a shown connection: its id and how many of those
/// connections end at it and start at it, in the order the components first occur.
pub open spec fn linked_to_tally(
    conns: Seq<Representation<Connection>>,
    host: usize,
    ignore: Seq<usize>,
    state: State,
) -> Seq<(usize, usize, usize)>
    decreases conns.len(),
{
    if conns.len() == 0 {
        seq![]
    } else {
        let t = linked_to_tally(conns.drop_last(), host, ignore, state);
        let c = conns.last().entity();
        let in_connection = c.joint_in.component != host;
        let other = if in_connection {
            c.joint_in.component
        } else {
            c.joint_out.component
        };
        if links_host(c, host, ignore) && owner_shown(state, other) {
            if in_connection {
                bump(t, other, 1, 0)
            } else {
                bump(t, other, 0, 1)
            }
        } else {
            t
        }
    }
}

/// How many connections a tally counts.
pub open spec fn weight(e: (usize, usize, usize)) -> int {
    e.1 + e.2
}

/// The tallies ordered by weight, heaviest first; tallies of equal weight keep their order.
pub open spec fn by_weight(t: Seq<(usize, usize, usize)>) -> Seq<(usize, usize, usize)>
    decreases t.len(),
{
    if t.len() == 0 {
        seq![]
    } else {
        let r = by_weight(t.drop_last());
        r.insert(weight_slot(r, weight(t.last())), t.last())
    }
}

/// Where a tally of weight `k` goes in a run ordered heaviest first: after every tally at least
/// as heavy.
pub open spec fn weight_slot(r: Seq<(usize, usize, usize)>, k: int) -> int
    decreases r.len(),
{
    if r.len() == 0 {
        0
    } else if weight(r.last()) >= k {
        r.len() as int
    } else {
        weight_slot(r.drop_last(), k)
    }
}

/// Adds `(d_in, d_out)` to the tally of the id, or starts one.
fn bump_tally(
    t: &mut Vec<(usize, usize, usize)>,
    id: usize,
    d_in: usize,
    d_out: usize,
    Ghost(b_in): Ghost<int>,
    Ghost(b_out): Ghost<int>,
)
    requires
        forall|j: int| 0 <= j < old(t)@.len() ==> #[trigger] old(t)@[j].1 <= b_in,
        forall|j: int| 0 <= j < old(t)@.len() ==> #[trigger] old(t)@[j].2 <= b_out,
        d_in <= 1,
        d_out <= 1,
        0 <= b_in,
        0 <= b_out,
        b_in + d_in <= usize::MAX,
        b_out + d_out <= usize::MAX,
    ensures
        final(t)@ == bump(old(t)@, id, d_in as int, d_out as int),
        forall|j: int| 0 <= j < final(t)@.len() ==> #[trigger] final(t)@[j].1 <= b_in + d_in,
        forall|j: int| 0 <= j < final(t)@.len() ==> #[trigger] final(t)@[j].2 <= b_out + d_out,
{
    let ghost s = t@;
    proof {
        lemma_tally_index(s, id);
    }
    let mut i: usize = 0;
    while i < t.len()
        invariant
            0 <= i <= t@.len(),
            t@ == s,
            s == old(t)@,
            -1 <= tally_index(s, id) < s.len(),
            tally_index(s, id) >= 0 ==> s[tally_index(s, id)].0 == id,
            forall|j: int| 0 <= j < tally_index(s, id) ==> s[j].0 != id,
            tally_index(s, id) < 0 ==> forall|j: int| 0 <= j < s.len() ==> #[trigger] s[j].0 != id,
            forall|j: int| 0 <= j < i ==> #[trigger] s[j].0 != id,
            forall|j: int| 0 <= j < s.len() ==> #[trigger] s[j].1 <= b_in,
            forall|j: int| 0 <= j < s.len() ==> #[trigger] s[j].2 <= b_out,
            b_in + d_in <= usize::MAX,
            b_out + d_out <= usize::MAX,
        decreases t@.len() - i,
    {
        if t[i].0 == id {
            assert(tally_index(s, id) == i) by {
                if tally_index(s, id) < i {
                    assert(s[tally_index(s, id)].0 == id);
                }
            }
            let e = t[i];
            assert(e == s[i as int]);
            assert(e.1 <= b_in);
            assert(e.2 <= b_out);
            t.set(i, (e.0, e.1 + d_in, e.2 + d_out));
            return;
        }
        i = i + 1;
    }
    t.push((id, d_in, d_out));
}

proof fn lemma_tally_index(t: Seq<(usize, usize, usize)>, id: usize)
    ensures
        -1 <= tally_index(t, id) < t.len(),
        tally_index(t, id) >= 0 ==> t[tally_index(t, id)].0 == id,
        forall|j: int| 0 <= j < tally_index(t, id) ==> t[j].0 != id,
        tally_index(t, id) < 0 ==> forall|j: int| 0 <= j < t.len() ==> #[trigger] t[j].0 != id,
    decreases t.len(),
{
    if t.len() > 0 {
        let d = t.drop_last();
        lemma_tally_index(d, id);
        assert forall|j: int| 0 <= j < tally_index(t, id) implies t[j].0 != id by {
            assert(d[j] == t[j]);
        }
        if tally_index(t, id) < 0 {
            assert forall|j: int| 0 <= j < t.len() implies #[trigger] t[j].0 != id by {
                if j < t.len() - 1 {
                    assert(d[j] == t[j]);
                }
            }
        }
    }
}

/// Orders the tallies heaviest first, keeping the order of tallies of equal weight.
fn sort_by_weight(t: Vec<(usize, usize, usize)>) -> (res: Vec<(usize, usize, usize)>)
    ensures
        res@ == by_weight(t@),
{
    let mut sorted: Vec<(usize, usize, usize)> = Vec::new();
    let mut i: usize = 0;
    assert(t@.subrange(0, 0) =~= Seq::<(usize, usize, usize)>::empty());
    while i < t.len()
        invariant
            0 <= i <= t@.len(),
            sorted@ == by_weight(t@.subrange(0, i as int)),
        decreases t@.len() - i,
    {
        let x = t[i];
        let key = x.1 as u128 + x.2 as u128;
        let mut pos: usize = sorted.len();
        assert(sorted@.subrange(0, sorted@.len() as int) =~= sorted@);
        while pos > 0 && (sorted[pos - 1].1 as u128 + sorted[pos - 1].2 as u128) < key
            invariant
                0 <= pos <= sorted@.len(),
                key == weight(x),
                weight_slot(sorted@, key as int) == weight_slot(
                    sorted@.subrange(0, pos as int),
                    key as int,
                ),
            decreases pos,
        {
            assert(sorted@.subrange(0, pos as int).drop_last() =~= sorted@.subrange(0, pos - 1));
            pos = pos - 1;
        }
        proof {
            if pos > 0 {
                assert(sorted@.subrange(0, pos as int).last() == sorted@[pos - 1]);
            }
            let sub = t@.subrange(0, i + 1);
            assert(sub.drop_last() =~= t@.subrange(0, i as int));
            assert(sub.last() == x);
        }
        sorted.insert(pos, x);
        i = i + 1;
    }
    assert(t@.subrange(0, t@.len() as int) =~= t@);
    sorted
}

impl Connection {
    /// The components at the ends of the shown connections, with how many come in and go out,
    /// the most connected first.
    pub fn get_ordered_linked(connections: &[Representation<Connection>], state: &State) -> (res:
        Vec<(usize, usize, usize)>)
        ensures
            res@ == by_weight(linked_tally(connections@, *state)),
    {
        let mut tally: Vec<(usize, usize, usize)> = Vec::new();
        let mut i: usize = 0;
        while i < connections.len()
            invariant
                0 <= i <= connections@.len(),
                tally@ == linked_tally(connections@.subrange(0, i as int), *state),
                forall|j: int| 0 <= j < tally@.len() ==> #[trigger] tally@[j].1 <= i,
                forall|j: int| 0 <= j < tally@.len() ==> #[trigger] tally@[j].2 <= i,
            decreases connections@.len() - i,
        {
            let ghost sub = connections@.subrange(0, i + 1);
            assert(sub.drop_last() =~= connections@.subrange(0, i as int));
            let c = connections[i].origin();
            if state.is_port_owner_filtered(&c.joint_out.component)
                && state.is_port_owner_filtered(&c.joint_in.component) {
                bump_tally(&mut tally, c.joint_out.component, 0, 1, Ghost(i as int), Ghost(i as int));
                bump_tally(
                    &mut tally,
                    c.joint_in.component,
                    1,
                    0,
                    Ghost(i as int),
                    Ghost(i + 1),
                );
            }
            i = i + 1;
        }
        assert(connections@.subrange(0, connections@.len() as int) =~= connections@);
        sort_by_weight(tally)
    }

    /// The components linked to the host by shown connections, but for the ignored ones, with
    /// how many of those connections end and start at each, the most connected first.
    pub fn get_ordered_linked_to(
        connections: &[Representation<Connection>],
        host_id: usize,
        ignore: &[usize],
        state: &State,
    ) -> (res: Vec<(usize, usize, usize)>)
        ensures
            res@ == by_weight(linked_to_tally(connections@, host_id, ignore@, *state)),
    {
        let mut tally: Vec<(usize, usize, usize)> = Vec::new();
        let mut i: usize = 0;
        while i < connections.len()
            invariant
                0 <= i <= connections@.len(),
                tally@ == linked_to_tally(connections@.subrange(0, i as int), host_id, ignore@, *state),
                forall|j: int| 0 <= j < tally@.len() ==> #[trigger] tally@[j].1 <= i,
                forall|j: int| 0 <= j < tally@.len() ==> #[trigger] tally@[j].2 <= i,
            decreases connections@.len() - i,
        {
            let ghost sub = connections@.subrange(0, i + 1);
            assert(sub.drop_last() =~= connections@.subrange(0, i as int));
            let c = connections[i].origin();
            if (c.joint_in.component == host_id && !contains_slice(ignore, c.joint_out.component))
                || (c.joint_out.component == host_id && !contains_slice(
                ignore,
                c.joint_in.component,
            )) {
                let in_connection = c.joint_in.component != host_id;
                let connected_comp_id = if in_connection {
                    c.joint_in.component
                } else {
                    c.joint_out.component
                };
                if state.is_port_owner_filtered(&connected_comp_id) {
                    if in_connection {
                        bump_tally(&mut tally, connected_comp_id, 1, 0, Ghost(i as int), Ghost(i as int));
                    } else {
                        bump_tally(&mut tally, connected_comp_id, 0, 1, Ghost(i as int), Ghost(i as int));
                    }
                }
            }
            i = i + 1;
        }
        assert(connections@.subrange(0, connections@.len() as int) =~= connections@);
        sort_by_weight(tally)
    }
}

/// Whether the id is in the list.
fn contains_slice(ids: &[usize], id: usize) -> (res: bool)
    ensures
        res == ids@.contains(id),
{
    let mut i: usize = 0;
    while i < ids.len()
        invariant
            0 <= i <= ids@.len(),
            forall|j: int| 0 <= j < i ==> ids@[j] != id,
        decreases ids@.len() - i,
    {
        if ids[i] == id {
            assert(ids@[i as int] == id);
            return true;
        }
        i = i + 1;
    }
    false
}

/// The tallies come heaviest first.
pub open spec fn heaviest_first(t: Seq<(usize, usize, usize)>) -> bool {
    forall|i: int, j: int| 0 <= i < j < t.len() ==> weight(t[i]) >= weight(t[j])
}

proof fn lemma_weight_slot_bound(r: Seq<(usize, usize, usize)>, k: int)
    ensures
        0 <= weight_slot(r, k) <= r.len(),
    decreases r.len(),
{
    if r.len() > 0 {
        lemma_weight_slot_bound(r.drop_last(), k);
    }
}

/// Ordering the tallies by weight keeps every tally and adds none.
pub proof fn law_by_weight_keeps_tallies(t: Seq<(usize, usize, usize)>)
    ensures
        forall|x: (usize, usize, usize)| #[trigger] by_weight(t).contains(x) <==> t.contains(x),
    decreases t.len(),
{
    if t.len() > 0 {
        let d = t.drop_last();
        law_by_weight_keeps_tallies(d);
        let r = by_weight(d);
        let y = t.last();
        let p = weight_slot(r, weight(y));
        lemma_weight_slot_bound(r, weight(y));
        let o = r.insert(p, y);
        assert(by_weight(t) == o);
        assert forall|x: (usize, usize, usize)| #[trigger] o.contains(x) <==> t.contains(x) by {
            if o.contains(x) {
                let k = choose|k: int| 0 <= k < o.len() && o[k] == x;
                if k < p {
                    assert(o[k] == r[k]);
                    assert(r.contains(x));
                } else if k == p {
                    assert(t[t.len() - 1] == x);
                } else {
                    assert(o[k] == r[k - 1]);
                    assert(r.contains(x));
                }
                if r.contains(x) {
                    assert(d.contains(x));
                    let j = choose|j: int| 0 <= j < d.len() && d[j] == x;
                    assert(t[j] == x);
                }
            }
            if t.contains(x) {
                let j = choose|j: int| 0 <= j < t.len() && t[j] == x;
                if j < t.len() - 1 {
                    assert(d[j] == x);
                    assert(r.contains(x));
                    let k = choose|k: int| 0 <= k < r.len() && r[k] == x;
                    if k < p {
                        assert(o[k] == x);
                    } else {
                        assert(o[k + 1] == x);
                    }
                } else {
                    assert(o[p] == x);
                }
            }
        }
    }
}

/// The connection joins the two components, one at each end.
pub open spec fn joins(c: Connection, a: usize, b: usize) -> bool {
    ||| c.joint_in.component == a && c.joint_out.component == b
    ||| c.joint_out.component == a && c.joint_in.component == b
}

/// Each component tallied as linked to the host is joined to it by one of the connections and
/// is not among those ignored.
pub proof fn law_linked_tally_joins_host(
    conns: Seq<Representation<Connection>>,
    host: usize,
    ignore: Seq<usize>,
    state: State,
)
    ensures
        forall|k: int|
            0 <= k < linked_to_tally(conns, host, ignore, state).len() ==> {
                let id = #[trigger] linked_to_tally(conns, host, ignore, state)[k].0;
                &&& !ignore.contains(id)
                &&& exists|i: int| 0 <= i < conns.len() && #[trigger] joins(conns[i].entity(), host, id)
            },
    decreases conns.len(),
{
    if conns.len() > 0 {
        let prev = conns.drop_last();
        law_linked_tally_joins_host(prev, host, ignore, state);
        let t = linked_to_tally(prev, host, ignore, state);
        let r = linked_to_tally(conns, host, ignore, state);
        let c = conns.last().entity();
        let other = if c.joint_in.component != host {
            c.joint_in.component
        } else {
            c.joint_out.component
        };
        lemma_tally_index(t, other);
        assert forall|k: int| 0 <= k < linked_to_tally(conns, host, ignore, state).len() implies {
            let id = #[trigger] linked_to_tally(conns, host, ignore, state)[k].0;
            &&& !ignore.contains(id)
            &&& exists|i: int| 0 <= i < conns.len() && #[trigger] joins(conns[i].entity(), host, id)
        } by {
            if k < t.len() && r[k].0 == t[k].0 {
                let i = choose|i: int| 0 <= i < prev.len() && #[trigger] joins(prev[i].entity(), host, t[k].0);
                assert(conns[i] == prev[i]);
                assert(joins(conns[i].entity(), host, r[k].0));
            } else {
                assert(r[k].0 == other);
                assert(links_host(c, host, ignore));
                assert(joins(conns[conns.len() - 1].entity(), host, other));
            }
        }
    }
}

proof fn lemma_weight_slot_split(r: Seq<(usize, usize, usize)>, k: int)
    requires
        heaviest_first(r),
    ensures
        0 <= weight_slot(r, k) <= r.len(),
        forall|i: int| 0 <= i < weight_slot(r, k) ==> weight(#[trigger] r[i]) >= k,
        forall|i: int| weight_slot(r, k) <= i < r.len() ==> weight(#[trigger] r[i]) < k,
    decreases r.len(),
{
    if r.len() > 0 {
        let d = r.drop_last();
        assert(heaviest_first(d)) by {
            assert forall|i: int, j: int| 0 <= i < j < d.len() implies weight(d[i]) >= weight(d[j]) by {
                assert(d[i] == r[i] && d[j] == r[j]);
            }
        }
        lemma_weight_slot_split(d, k);
        if weight(r.last()) >= k {
            assert forall|i: int| 0 <= i < r.len() implies weight(#[trigger] r[i]) >= k by {
                if i < r.len() - 1 {
                    assert(weight(r[i]) >= weight(r[r.len() - 1]));
                }
            }
        } else {
            assert forall|i: int| 0 <= i < weight_slot(r, k) implies weight(#[trigger] r[i]) >= k by {
                assert(d[i] == r[i]);
            }
            assert forall|i: int| weight_slot(r, k) <= i < r.len() implies weight(#[trigger] r[i]) < k by {
                if i < r.len() - 1 {
                    assert(d[i] == r[i]);
                }
            }
        }
    }
}

/// Ordering the tallies by weight puts the heaviest first and keeps them all.
pub proof fn law_by_weight_heaviest_first(t: Seq<(usize, usize, usize)>)
    ensures
        by_weight(t).len() == t.len(),
        heaviest_first(by_weight(t)),
    decreases t.len(),
{
    if t.len() > 0 {
        law_by_weight_heaviest_first(t.drop_last());
        let r = by_weight(t.drop_last());
        let x = t.last();
        lemma_weight_slot_split(r, weight(x));
        let p = weight_slot(r, weight(x));
        let o = r.insert(p, x);
        assert(by_weight(t) == o);
        assert forall|i: int, j: int| 0 <= i < j < o.len() implies weight(o[i]) >= weight(o[j]) by {
            if j < p {
                assert(o[i] == r[i] && o[j] == r[j]);
            } else if j == p {
                assert(o[j] == x);
                assert(o[i] == r[i]);
            } else if i < p {
                assert(o[i] == r[i] && o[j] == r[j - 1]);
            } else if i == p {
                assert(o[i] == x && o[j] == r[j - 1]);
            } else {
                assert(o[i] == r[i - 1] && o[j] == r[j - 1]);
            }
        }
    }
}

} // verus!
