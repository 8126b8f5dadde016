use vstd::prelude::*;

use crate::entity::comosition::{by_component, by_port, component_index, derefs};
use crate::entity::connection::{names_port, shown_port};
use crate::entity::port::port_ids;
use crate::entity::{Composition, Connection, IsInputPort, SignatureGetter};
use crate::render::Representation;
use crate::state::{holds, lemma_with, lemma_without, with, without, State};

verus! {

/// The list with each of the ids added in turn.
pub open spec fn with_all(s: Seq<usize>, ids: Seq<usize>) -> Seq<usize>
    decreases ids.len(),
{
    if ids.len() == 0 {
        s
    } else {
        with(with_all(s, ids.drop_last()), ids.last())
    }
}

/// The list with each of the ids taken out in turn.
pub open spec fn without_all(s: Seq<usize>, ids: Seq<usize>) -> Seq<usize>
    decreases ids.len(),
{
    if ids.len() == 0 {
        s
    } else {
        without(without_all(s, ids.drop_last()), ids.last())
    }
}

/// The ids of the ports of the first component with the id, or none.
pub open spec fn own_ports(e: Composition, id: usize) -> Seq<usize> {
    let i = component_index(e.components@, id);
    if i >= 0 {
        port_ids(e.components@[i].entity().ports.entity().ports@)
    } else {
        seq![]
    }
}

/// The ports at both ends of each of the connections, in order.
pub open spec fn end_ports(conns: Seq<Connection>) -> Seq<usize>
    decreases conns.len(),
{
    if conns.len() == 0 {
        seq![]
    } else {
        end_ports(conns.drop_last()) + seq![conns.last().joint_in.port, conns.last().joint_out.port]
    }
}

/// The ids but those among `ex`.
pub open spec fn except(s: Seq<usize>, ex: Seq<usize>) -> Seq<usize>
    decreases s.len(),
{
    if s.len() == 0 {
        seq![]
    } else if ex.contains(s.last()) {
        except(s.drop_last(), ex)
    } else {
        except(s.drop_last(), ex).push(s.last())
    }
}

/// Every port a component touches: the ends of its connections and its own ports; none when
/// there is no such component.
pub open spec fn every_port(e: Composition, id: usize) -> Seq<usize> {
    if component_index(e.components@, id) >= 0 {
        end_ports(by_component(e.connections@, id)) + own_ports(e, id)
    } else {
        seq![]
    }
}

/// The ports at the ends of a component's connections that are not its own.
pub open spec fn linked_ports(e: Composition, id: usize) -> Seq<usize> {
    except(end_ports(by_component(e.connections@, id)), own_ports(e, id))
}

/// The selected ports, the highlighted ports and the selected components.
pub type Marks = (Seq<usize>, Seq<usize>, Seq<usize>);

pub open spec fn marks(s: State) -> Marks {
    (s.ports@, s.ports_highlighted@, s.components@)
}

/// The marks after a component is selected: its own ports selected, the ports linked to it
/// highlighted, and it selected.
pub open spec fn put_in(m: Marks, e: Composition, id: usize) -> Marks {
    (with_all(m.0, own_ports(e, id)), with_all(m.1, linked_ports(e, id)), with(m.2, id))
}

pub open spec fn put_in_all(m: Marks, e: Composition, ids: Seq<usize>) -> Marks
    decreases ids.len(),
{
    if ids.len() == 0 {
        m
    } else {
        put_in(put_in_all(m, e, ids.drop_last()), e, ids.last())
    }
}

/// The marks after a component is unselected: every port it touches unselected and not
/// highlighted, and it unselected.
pub open spec fn take_out(m: Marks, e: Composition, id: usize) -> Marks {
    (without_all(m.0, every_port(e, id)), without_all(m.1, every_port(e, id)), without(m.2, id))
}

/// The marks after a component is toggled: a selected one is taken out, and the components
/// still selected are put in again; another is put in, after all is cleared when it is chosen
/// alone.
pub open spec fn toggled(m: Marks, e: Composition, id: usize, selfishly: bool) -> Marks {
    if m.2.contains(id) {
        let t = take_out(m, e, id);
        put_in_all(t, e, t.2)
    } else if selfishly {
        put_in((seq![], seq![], seq![]), e, id)
    } else {
        put_in(m, e, id)
    }
}

proof fn lemma_except_has(s: Seq<usize>, ex: Seq<usize>)
    ensures
        forall|x: usize| #[trigger] except(s, ex).contains(x) <==> s.contains(x) && !ex.contains(x),
    decreases s.len(),
{
    if s.len() > 0 {
        let prev = s.drop_last();
        lemma_except_has(prev, ex);
        let r = except(s, ex);
        let r0 = except(prev, ex);
        assert forall|x: usize| #[trigger] r.contains(x) <==> s.contains(x) && !ex.contains(x) by {
            if r0.contains(x) {
                let k = choose|k: int| 0 <= k < r0.len() && r0[k] == x;
                if !ex.contains(s.last()) {
                    assert(r[k] == x);
                }
            }
            if r.contains(x) && !r0.contains(x) {
                assert(!ex.contains(s.last()));
                let k = choose|k: int| 0 <= k < r.len() && r[k] == x;
                assert(k == r0.len());
                assert(s[s.len() - 1] == x);
            }
            if s.contains(x) && !ex.contains(x) {
                let k = choose|k: int| 0 <= k < s.len() && s[k] == x;
                if k < s.len() - 1 {
                    assert(prev[k] == x);
                } else {
                    assert(r[r.len() - 1] == x);
                }
            }
            if prev.contains(x) {
                let k = choose|k: int| 0 <= k < prev.len() && prev[k] == x;
                assert(s[k] == x);
            }
        }
    }
}

/// The connection has the component at an end and the port at an end.
pub open spec fn touches(c: Connection, comp: usize, p: usize) -> bool {
    &&& c.joint_in.component == comp || c.joint_out.component == comp
    &&& c.joint_in.port == p || c.joint_out.port == p
}

/// The port is at an end of one of the component's connections.
pub open spec fn at_an_end(conns: Seq<Representation<Connection>>, comp: usize, p: usize) -> bool {
    exists|i: int| 0 <= i < conns.len() && #[trigger] touches(conns[i].entity(), comp, p)
}

proof fn lemma_end_ports_has(conns: Seq<Representation<Connection>>, comp: usize)
    ensures
        forall|p: usize| #[trigger] end_ports(by_component(conns, comp)).contains(p) <==> at_an_end(conns, comp, p),
    decreases conns.len(),
{
    if conns.len() > 0 {
        let prev = conns.drop_last();
        lemma_end_ports_has(prev, comp);
        let c = conns.last().entity();
        let e0 = end_ports(by_component(prev, comp));
        let e1 = end_ports(by_component(conns, comp));
        if crate::entity::connection::names_component(c, comp) {
            assert(by_component(conns, comp).drop_last() =~= by_component(prev, comp));
            assert(e1 =~= e0 + seq![c.joint_in.port, c.joint_out.port]);
        } else {
            assert(e1 == e0);
        }
        assert forall|p: usize| #[trigger] e1.contains(p) <==> at_an_end(conns, comp, p) by {
            if e0.contains(p) {
                let k = choose|k: int| 0 <= k < e0.len() && e0[k] == p;
                assert(e1[k] == p);
                assert(at_an_end(prev, comp, p));
                let i = choose|i: int| 0 <= i < prev.len() && #[trigger] touches(prev[i].entity(), comp, p);
                assert(conns[i] == prev[i]);
                assert(touches(conns[i].entity(), comp, p));
            }
            if e1.contains(p) && !e0.contains(p) {
                let k = choose|k: int| 0 <= k < e1.len() && e1[k] == p;
                assert(conns[conns.len() - 1].entity() == c);
                assert(touches(conns[conns.len() - 1].entity(), comp, p));
            }
            if at_an_end(conns, comp, p) {
                let i = choose|i: int| 0 <= i < conns.len() && #[trigger] touches(conns[i].entity(), comp, p);
                if i < conns.len() - 1 {
                    assert(prev[i] == conns[i]);
                    assert(touches(prev[i].entity(), comp, p));
                    assert(at_an_end(prev, comp, p));
                    assert(e0.contains(p));
                    let k = choose|k: int| 0 <= k < e0.len() && e0[k] == p;
                    assert(e1[k] == p);
                } else {
                    if c.joint_in.port == p {
                        assert(e1[e0.len() as int] == p);
                    } else {
                        assert(e1[e0.len() as int + 1] == p);
                    }
                }
            }
        }
    }
}

/// The ports linked to a component are the ports at an end of one of its connections that are
/// not its own.
pub proof fn law_linked_ports_of_component(e: Composition, id: usize)
    ensures
        forall|p: usize|
            #[trigger] linked_ports(e, id).contains(p) <==> at_an_end(e.connections@, id, p)
                && !own_ports(e, id).contains(p),
{
    lemma_except_has(end_ports(by_component(e.connections@, id)), own_ports(e, id));
    lemma_end_ports_has(e.connections@, id);
}

/// Every selected component shows as selected: its own ports are selected and the ports
/// linked to it are highlighted.
pub open spec fn selection_shown(m: Marks, e: Composition) -> bool {
    &&& forall|c: usize, p: usize|
        #![trigger m.2.contains(c), own_ports(e, c).contains(p)]
        m.2.contains(c) && own_ports(e, c).contains(p) ==> m.0.contains(p)
    &&& forall|c: usize, p: usize|
        #![trigger m.2.contains(c), linked_ports(e, c).contains(p)]
        m.2.contains(c) && linked_ports(e, c).contains(p) ==> m.1.contains(p)
}

proof fn lemma_with_has(s: Seq<usize>, id: usize)
    ensures
        forall|x: usize| #[trigger] with(s, id).contains(x) <==> s.contains(x) || x == id,
{
    if !s.contains(id) {
        assert forall|x: usize| #[trigger] with(s, id).contains(x) <==> s.contains(x) || x == id by {
            if x == id {
                assert(with(s, id)[s.len() as int] == id);
            }
            if s.contains(x) {
                let k = choose|k: int| 0 <= k < s.len() && s[k] == x;
                assert(with(s, id)[k] == x);
            }
            if with(s, id).contains(x) && x != id {
                let k = choose|k: int| 0 <= k < with(s, id).len() && with(s, id)[k] == x;
                assert(s[k] == x);
            }
        }
    }
}

proof fn lemma_with_all_has(s: Seq<usize>, ids: Seq<usize>)
    ensures
        forall|x: usize| #[trigger] with_all(s, ids).contains(x) <==> s.contains(x) || ids.contains(x),
    decreases ids.len(),
{
    if ids.len() > 0 {
        lemma_with_all_has(s, ids.drop_last());
        lemma_with_has(with_all(s, ids.drop_last()), ids.last());
        assert forall|x: usize| #[trigger] with_all(s, ids).contains(x) <==> s.contains(x) || ids.contains(x) by {
            if ids.drop_last().contains(x) {
                let k = choose|k: int| 0 <= k < ids.drop_last().len() && ids.drop_last()[k] == x;
                assert(ids[k] == x);
            }
            if ids.contains(x) && x != ids.last() {
                let k = choose|k: int| 0 <= k < ids.len() && ids[k] == x;
                assert(k != ids.len() - 1);
                assert(ids.drop_last()[k] == x);
            }
            if x == ids.last() {
                assert(ids[ids.len() - 1] == x);
            }
        }
    }
}

proof fn lemma_put_in_all(m: Marks, e: Composition, ids: Seq<usize>)
    ensures
        ({
            let r = put_in_all(m, e, ids);
            &&& forall|x: usize| m.0.contains(x) ==> #[trigger] r.0.contains(x)
            &&& forall|x: usize| m.1.contains(x) ==> #[trigger] r.1.contains(x)
            &&& forall|c: usize| #[trigger] r.2.contains(c) <==> m.2.contains(c) || ids.contains(c)
            &&& forall|c: usize, p: usize|
                #![trigger ids.contains(c), own_ports(e, c).contains(p)]
                ids.contains(c) && own_ports(e, c).contains(p) ==> r.0.contains(p)
            &&& forall|c: usize, p: usize|
                #![trigger ids.contains(c), linked_ports(e, c).contains(p)]
                ids.contains(c) && linked_ports(e, c).contains(p) ==> r.1.contains(p)
            &&& forall|x: usize|
                #[trigger] r.0.contains(x) ==> m.0.contains(x) || exists|c: usize|
                    ids.contains(c) && #[trigger] own_ports(e, c).contains(x)
            &&& forall|x: usize|
                #[trigger] r.1.contains(x) ==> m.1.contains(x) || exists|c: usize|
                    ids.contains(c) && #[trigger] linked_ports(e, c).contains(x)
        }),
    decreases ids.len(),
{
    if ids.len() > 0 {
        let prev = ids.drop_last();
        let q = put_in_all(m, e, prev);
        let last = ids.last();
        lemma_put_in_all(m, e, prev);
        lemma_with_all_has(q.0, own_ports(e, last));
        lemma_with_all_has(q.1, linked_ports(e, last));
        lemma_with_has(q.2, last);
        let r = put_in_all(m, e, ids);
        assert forall|c: usize| #[trigger] r.2.contains(c) <==> m.2.contains(c) || ids.contains(c) by {
            if prev.contains(c) {
                let k = choose|k: int| 0 <= k < prev.len() && prev[k] == c;
                assert(ids[k] == c);
            }
            if ids.contains(c) && c != last {
                let k = choose|k: int| 0 <= k < ids.len() && ids[k] == c;
                assert(prev[k] == c);
            }
            if c == last {
                assert(ids[ids.len() - 1] == c);
            }
        }
        assert forall|c: usize, p: usize|
            #![trigger ids.contains(c), own_ports(e, c).contains(p)]
            ids.contains(c) && own_ports(e, c).contains(p) implies r.0.contains(p) by {
            if c != last {
                let k = choose|k: int| 0 <= k < ids.len() && ids[k] == c;
                assert(prev[k] == c);
                assert(prev.contains(c));
            }
        }
        assert forall|c: usize, p: usize|
            #![trigger ids.contains(c), linked_ports(e, c).contains(p)]
            ids.contains(c) && linked_ports(e, c).contains(p) implies r.1.contains(p) by {
            if c != last {
                let k = choose|k: int| 0 <= k < ids.len() && ids[k] == c;
                assert(prev[k] == c);
                assert(prev.contains(c));
            }
        }
        assert(ids.contains(last)) by {
            assert(ids[ids.len() - 1] == last);
        }
        assert forall|x: usize| #[trigger] r.0.contains(x) implies m.0.contains(x) || exists|c: usize|
            ids.contains(c) && #[trigger] own_ports(e, c).contains(x) by {
            if q.0.contains(x) && !m.0.contains(x) {
                let c = choose|c: usize| prev.contains(c) && #[trigger] own_ports(e, c).contains(x);
                let k = choose|k: int| 0 <= k < prev.len() && prev[k] == c;
                assert(ids[k] == c);
            }
        }
        assert forall|x: usize| #[trigger] r.1.contains(x) implies m.1.contains(x) || exists|c: usize|
            ids.contains(c) && #[trigger] linked_ports(e, c).contains(x) by {
            if q.1.contains(x) && !m.1.contains(x) {
                let c = choose|c: usize| prev.contains(c) && #[trigger] linked_ports(e, c).contains(x);
                let k = choose|k: int| 0 <= k < prev.len() && prev[k] == c;
                assert(ids[k] == c);
            }
        }
    }
}

proof fn lemma_without_all_has(s: Seq<usize>, ids: Seq<usize>)
    requires
        crate::state::distinct(s),
    ensures
        crate::state::distinct(without_all(s, ids)),
        forall|x: usize| #[trigger] without_all(s, ids).contains(x) <==> s.contains(x) && !ids.contains(x),
    decreases ids.len(),
{
    if ids.len() > 0 {
        let prev = ids.drop_last();
        lemma_without_all_has(s, prev);
        lemma_without(without_all(s, prev), ids.last());
        assert forall|x: usize| #[trigger] without_all(s, ids).contains(x) <==> s.contains(x) && !ids.contains(x) by {
            let w0 = without_all(s, prev);
            assert(without_all(s, ids) == without(w0, ids.last()));
            assert(w0.contains(x) <==> s.contains(x) && !prev.contains(x));
            if x != ids.last() {
                assert(without(w0, ids.last()).contains(x) <==> w0.contains(x));
            }
            if prev.contains(x) {
                let k = choose|k: int| 0 <= k < prev.len() && prev[k] == x;
                assert(ids[k] == x);
            }
            if ids.contains(x) && x != ids.last() {
                let k = choose|k: int| 0 <= k < ids.len() && ids[k] == x;
                assert(prev[k] == x);
            }
            if x == ids.last() {
                assert(ids[ids.len() - 1] == x);
            }
        }
    }
}

/// Unselecting a component unselects and unhighlights every port it touches that no other
/// selected component shows, and keeps every other selected or highlighted port.
pub proof fn law_unselect_clears_its_ports(m: Marks, e: Composition, id: usize, selfishly: bool)
    requires
        m.2.contains(id),
        crate::state::distinct(m.0),
        crate::state::distinct(m.1),
        crate::state::distinct(m.2),
    ensures
        forall|p: usize|
            #[trigger] every_port(e, id).contains(p) && (forall|c: usize|
                m.2.contains(c) && c != id ==> !#[trigger] own_ports(e, c).contains(p))
                ==> !toggled(m, e, id, selfishly).0.contains(p),
        forall|p: usize|
            #[trigger] every_port(e, id).contains(p) && (forall|c: usize|
                m.2.contains(c) && c != id ==> !#[trigger] linked_ports(e, c).contains(p))
                ==> !toggled(m, e, id, selfishly).1.contains(p),
        forall|p: usize|
            m.0.contains(p) && !every_port(e, id).contains(p) ==> #[trigger] toggled(m, e, id, selfishly).0.contains(p),
        forall|p: usize|
            m.1.contains(p) && !every_port(e, id).contains(p) ==> #[trigger] toggled(m, e, id, selfishly).1.contains(p),
{
    let t = take_out(m, e, id);
    lemma_without(m.2, id);
    lemma_without_all_has(m.0, every_port(e, id));
    lemma_without_all_has(m.1, every_port(e, id));
    lemma_put_in_all(t, e, t.2);
}

/// Toggling a component leaves every selected component shown as selected: its own ports
/// selected and the ports linked to it highlighted. Unselecting one selects the others again,
/// and choosing one alone starts afresh; adding one keeps what was shown.
pub proof fn law_toggle_shows_selection(m: Marks, e: Composition, id: usize, selfishly: bool)
    requires
        m.2.contains(id) || selfishly || selection_shown(m, e),
    ensures
        selection_shown(toggled(m, e, id, selfishly), e),
{
    let r = toggled(m, e, id, selfishly);
    if m.2.contains(id) {
        let t = take_out(m, e, id);
        lemma_put_in_all(t, e, t.2);
        assert forall|c: usize, p: usize|
            #![trigger r.2.contains(c), own_ports(e, c).contains(p)]
            r.2.contains(c) && own_ports(e, c).contains(p) implies r.0.contains(p) by {
            assert(t.2.contains(c));
        }
        assert forall|c: usize, p: usize|
            #![trigger r.2.contains(c), linked_ports(e, c).contains(p)]
            r.2.contains(c) && linked_ports(e, c).contains(p) implies r.1.contains(p) by {
            assert(t.2.contains(c));
        }
    } else {
        let m0: Marks = if selfishly { (seq![], seq![], seq![]) } else { m };
        lemma_with_all_has(m0.0, own_ports(e, id));
        lemma_with_all_has(m0.1, linked_ports(e, id));
        lemma_with_has(m0.2, id);
        assert forall|c: usize, p: usize|
            #![trigger r.2.contains(c), own_ports(e, c).contains(p)]
            r.2.contains(c) && own_ports(e, c).contains(p) implies r.0.contains(p) by {
            if c != id {
                assert(m0.2.contains(c));
                assert(m0.0.contains(p));
            }
        }
        assert forall|c: usize, p: usize|
            #![trigger r.2.contains(c), linked_ports(e, c).contains(p)]
            r.2.contains(c) && linked_ports(e, c).contains(p) implies r.1.contains(p) by {
            if c != id {
                assert(m0.2.contains(c));
                assert(m0.1.contains(p));
            }
        }
    }
}

/// Toggling a component flips it alone: a selected one is unselected and every other
/// selected component stays selected; one not selected is selected, with the others kept
/// unless it is chosen alone.
pub proof fn law_toggle_flips_component(m: Marks, e: Composition, id: usize, selfishly: bool)
    requires
        crate::state::distinct(m.2),
    ensures
        m.2.contains(id) ==> forall|c: usize|
            #[trigger] toggled(m, e, id, selfishly).2.contains(c) <==> m.2.contains(c) && c != id,
        !m.2.contains(id) && !selfishly ==> forall|c: usize|
            #[trigger] toggled(m, e, id, selfishly).2.contains(c) <==> m.2.contains(c) || c == id,
        !m.2.contains(id) && selfishly ==> forall|c: usize|
            #[trigger] toggled(m, e, id, selfishly).2.contains(c) <==> c == id,
{
    if m.2.contains(id) {
        let t = take_out(m, e, id);
        lemma_without(m.2, id);
        lemma_put_in_all(t, e, t.2);
    } else if selfishly {
        lemma_with_has(Seq::<usize>::empty(), id);
    } else {
        lemma_with_has(m.2, id);
    }
}

/// The ids of the ports of the first component with the id.
fn own_port_ids(e: &Composition, id: usize) -> (res: Vec<usize>)
    ensures
        res@ == own_ports(*e, id),
{
    let mut res: Vec<usize> = Vec::new();
    match e.get_component(&id) {
        Some(c) => {
            let ports = &c.ports.origin().ports;
            let mut i: usize = 0;
            while i < ports.len()
                invariant
                    0 <= i <= ports@.len(),
                    res@ == port_ids(ports@.subrange(0, i as int)),
                decreases ports@.len() - i,
            {
                res.push(ports[i].sig().id);
                i = i + 1;
                assert(res@ =~= port_ids(ports@.subrange(0, i as int)));
            }
            assert(ports@.subrange(0, ports@.len() as int) =~= ports@);
        },
        None => {},
    }
    res
}

/// The ports at both ends of each connection of the component.
fn end_port_ids(e: &Composition, id: usize) -> (res: Vec<usize>)
    ensures
        res@ == end_ports(by_component(e.connections@, id)),
{
    let conns = e.find_connections_by_component(&id);
    let ghost cv = derefs(conns@);
    let mut res: Vec<usize> = Vec::new();
    let mut i: usize = 0;
    assert(cv.subrange(0, 0) =~= Seq::<Connection>::empty());
    while i < conns.len()
        invariant
            0 <= i <= conns@.len(),
            cv == derefs(conns@),
            res@ == end_ports(cv.subrange(0, i as int)),
        decreases conns@.len() - i,
    {
        let ghost sub = cv.subrange(0, i + 1);
        assert(sub.drop_last() =~= cv.subrange(0, i as int));
        let ends = conns[i].get_ports();
        res.push(*ends[0]);
        res.push(*ends[1]);
        assert(res@ =~= end_ports(sub));
        i = i + 1;
    }
    assert(cv.subrange(0, cv.len() as int) =~= cv);
    res
}

fn except_ids(s: &Vec<usize>, ex: &Vec<usize>) -> (res: Vec<usize>)
    ensures
        res@ == except(s@, ex@),
{
    let mut res: Vec<usize> = Vec::new();
    let mut i: usize = 0;
    assert(s@.subrange(0, 0) =~= Seq::<usize>::empty());
    while i < s.len()
        invariant
            0 <= i <= s@.len(),
            res@ == except(s@.subrange(0, i as int), ex@),
        decreases s@.len() - i,
    {
        let ghost sub = s@.subrange(0, i + 1);
        assert(sub.drop_last() =~= s@.subrange(0, i as int));
        if !holds(ex, s[i]) {
            res.push(s[i]);
        }
        i = i + 1;
    }
    assert(s@.subrange(0, s@.len() as int) =~= s@);
    res
}

/// Selects the component: its own ports, highlights the ports linked to it, and it.
fn put_in_state(state: &mut State, e: &Composition, id: usize)
    requires
        old(state).wf(),
    ensures
        final(state).wf(),
        marks(*final(state)) == put_in(marks(*old(state)), *e, id),
        final(state).selection == old(state).selection,
        final(state).same_view(old(state)),
{
    let own = own_port_ids(e, id);
    let ends = end_port_ids(e, id);
    let linked = except_ids(&ends, &own);
    let ghost m0 = marks(*state);
    let mut i: usize = 0;
    assert(own@.subrange(0, 0) =~= Seq::<usize>::empty());
    while i < own.len()
        invariant
            0 <= i <= own@.len(),
            state.wf(),
            state.ports@ == with_all(m0.0, own@.subrange(0, i as int)),
            state.ports_highlighted@ == m0.1,
            state.components@ == m0.2,
            state.selection == old(state).selection,
            state.same_view(old(state)),
        decreases own@.len() - i,
    {
        let ghost sub = own@.subrange(0, i + 1);
        assert(sub.drop_last() =~= own@.subrange(0, i as int));
        state.insert_port(&own[i]);
        i = i + 1;
    }
    assert(own@.subrange(0, own@.len() as int) =~= own@);
    let mut k: usize = 0;
    assert(linked@.subrange(0, 0) =~= Seq::<usize>::empty());
    while k < linked.len()
        invariant
            0 <= k <= linked@.len(),
            state.wf(),
            state.ports@ == with_all(m0.0, own@),
            state.ports_highlighted@ == with_all(m0.1, linked@.subrange(0, k as int)),
            state.components@ == m0.2,
            state.selection == old(state).selection,
            state.same_view(old(state)),
        decreases linked@.len() - k,
    {
        let ghost sub = linked@.subrange(0, k + 1);
        assert(sub.drop_last() =~= linked@.subrange(0, k as int));
        state.highlight_port(&linked[k]);
        k = k + 1;
    }
    assert(linked@.subrange(0, linked@.len() as int) =~= linked@);
    state.insert_component(&id);
}

/// Unselects the component: every port it touches is unselected and not highlighted.
fn take_out_state(state: &mut State, e: &Composition, id: usize)
    requires
        old(state).wf(),
    ensures
        final(state).wf(),
        marks(*final(state)) == take_out(marks(*old(state)), *e, id),
        final(state).selection == old(state).selection,
        final(state).same_view(old(state)),
{
    let mut all: Vec<usize> = Vec::new();
    if e.get_component(&id).is_some() {
        all = end_port_ids(e, id);
        let mut own = own_port_ids(e, id);
        all.append(&mut own);
    }
    let ghost m0 = marks(*state);
    let mut i: usize = 0;
    assert(all@.subrange(0, 0) =~= Seq::<usize>::empty());
    while i < all.len()
        invariant
            0 <= i <= all@.len(),
            state.wf(),
            state.ports@ == without_all(m0.0, all@.subrange(0, i as int)),
            state.ports_highlighted@ == without_all(m0.1, all@.subrange(0, i as int)),
            state.components@ == m0.2,
            state.selection == old(state).selection,
            state.same_view(old(state)),
        decreases all@.len() - i,
    {
        let ghost sub = all@.subrange(0, i + 1);
        assert(sub.drop_last() =~= all@.subrange(0, i as int));
        state.remove_port(&all[i]);
        state.unhighlight_port(&all[i]);
        i = i + 1;
    }
    assert(all@.subrange(0, all@.len() as int) =~= all@);
    state.remove_component(&id);
}

/// Selects the component when it is not selected, alone when asked, and unselects it when it
/// is: its own ports are selected and the ports linked to it highlighted, or every port it
/// touches is unselected and the components still selected are selected again. The selection
/// reported to the page follows; telling the page is left to the caller.
pub fn toggle_component(state: &mut State, composition: &Composition, id: usize, selfishly: bool)
    requires
        old(state).wf(),
    ensures
        final(state).wf(),
        marks(*final(state)) == toggled(marks(*old(state)), *composition, id, selfishly),
        old(state).components@.contains(id) ==> final(state).selection.components@ == without(
            old(state).selection.components@,
            id,
        ) && final(state).selection.ports@ == old(state).selection.ports@,
        !old(state).components@.contains(id) && selfishly ==> final(state).selection.components@
            == seq![id] && final(state).selection.ports@.len() == 0,
        !old(state).components@.contains(id) && !selfishly ==> final(state).selection.components@
            == with(old(state).selection.components@, id) && final(state).selection.ports@
            == old(state).selection.ports@,
        final(state).same_view(old(state)),
{
    if state.is_component_selected(&id) {
        take_out_state(state, composition, id);
        let ghost t = marks(*state);
        let again = state.components.clone();
        let ghost before = *state;
        let mut i: usize = 0;
        assert(t.2.subrange(0, 0) =~= Seq::<usize>::empty());
        while i < again.len()
            invariant
                0 <= i <= again@.len(),
                again@ == t.2,
                state.wf(),
                marks(*state) == put_in_all(t, *composition, t.2.subrange(0, i as int)),
                state.selection == before.selection,
                state.same_view(old(state)),
            decreases again@.len() - i,
        {
            let ghost sub = t.2.subrange(0, i + 1);
            assert(sub.drop_last() =~= t.2.subrange(0, i as int));
            put_in_state(state, composition, again[i]);
            i = i + 1;
        }
        assert(t.2.subrange(0, t.2.len() as int) =~= t.2);
        proof {
            lemma_without(state.selection.components@, id);
        }
        state.selection.remove_component(&id);
    } else {
        if selfishly {
            state.unselect_all();
            assert(marks(*state) =~= (Seq::<usize>::empty(), Seq::<usize>::empty(), Seq::<usize>::empty()));
        }
        put_in_state(state, composition, id);
        let ghost before = state.selection.components@;
        proof {
            lemma_with(state.selection.components@, id);
        }
        state.selection.insert_component(&id);
        proof {
            if selfishly {
                assert(before.len() == 0);
                assert(with(before, id) =~= seq![id]);
            }
        }
    }
}

/// The connections of the port that is toggled, each with the port at its other end: the
/// out port when the toggled port is at its in end, else the in port.
pub open spec fn other_port(c: Connection, id: usize) -> usize {
    if c.joint_in.port == id {
        shown_port(c.joint_out)
    } else {
        shown_port(c.joint_in)
    }
}

pub open spec fn other_ports(conns: Seq<Connection>, id: usize) -> Seq<usize>
    decreases conns.len(),
{
    if conns.len() == 0 {
        seq![]
    } else {
        other_ports(conns.drop_last(), id).push(other_port(conns.last(), id))
    }
}

/// The port at the other end of a connection that names `id`.
pub open spec fn far_end(c: Connection, id: usize, x: usize) -> bool {
    ||| c.joint_in.port == id && x == shown_port(c.joint_out)
    ||| c.joint_out.port == id && c.joint_in.port != id && x == shown_port(c.joint_in)
}

/// The ports whose highlight toggling port `id` changes are exactly the ports at the other
/// ends of its connections, as they are shown: the out end of a connection it starts, the in
/// end of one it ends.
pub proof fn law_toggled_port_other_ends(conns: Seq<Representation<Connection>>, id: usize)
    ensures
        forall|i: int|
            #![trigger conns[i]]
            0 <= i < conns.len() && conns[i].entity().joint_in.port == id ==> other_ports(
                by_port(conns, id),
                id,
            ).contains(shown_port(conns[i].entity().joint_out)),
        forall|i: int|
            #![trigger conns[i]]
            0 <= i < conns.len() && conns[i].entity().joint_out.port == id
                && conns[i].entity().joint_in.port != id ==> other_ports(by_port(conns, id), id).contains(
                shown_port(conns[i].entity().joint_in),
            ),
        forall|x: usize|
            #[trigger] other_ports(by_port(conns, id), id).contains(x) ==> exists|i: int|
                0 <= i < conns.len() && far_end(conns[i].entity(), id, x),
    decreases conns.len(),
{
    if conns.len() > 0 {
        let prev = conns.drop_last();
        let c = conns.last().entity();
        law_toggled_port_other_ends(prev, id);
        let o0 = other_ports(by_port(prev, id), id);
        let o = other_ports(by_port(conns, id), id);
        if names_port(c, id) {
            assert(by_port(conns, id) == by_port(prev, id).push(c));
            assert(by_port(conns, id).drop_last() =~= by_port(prev, id));
            assert(o == o0.push(other_port(c, id)));
        } else {
            assert(o == o0);
        }
        assert forall|x: usize| o0.contains(x) implies o.contains(x) by {
            if names_port(c, id) {
                let k = choose|k: int| 0 <= k < o0.len() && o0[k] == x;
                assert(o[k] == x);
            }
        }
        assert forall|i: int|
            #![trigger conns[i]]
            0 <= i < conns.len() && conns[i].entity().joint_in.port == id implies o.contains(
                shown_port(conns[i].entity().joint_out),
            ) by {
            if i < conns.len() - 1 {
                assert(prev[i] == conns[i]);
            } else {
                assert(o[o.len() - 1] == other_port(c, id));
            }
        }
        assert forall|i: int|
            #![trigger conns[i]]
            0 <= i < conns.len() && conns[i].entity().joint_out.port == id && conns[i].entity().joint_in.port
                != id implies o.contains(shown_port(conns[i].entity().joint_in)) by {
            if i < conns.len() - 1 {
                assert(prev[i] == conns[i]);
            } else {
                assert(o[o.len() - 1] == other_port(c, id));
            }
        }
        assert forall|x: usize| #[trigger] o.contains(x) implies exists|i: int|
            0 <= i < conns.len() && far_end(conns[i].entity(), id, x) by {
            if o0.contains(x) {
                let i = choose|i: int| 0 <= i < prev.len() && far_end(prev[i].entity(), id, x);
                assert(conns[i] == prev[i]);
            } else {
                let k = choose|k: int| 0 <= k < o.len() && o[k] == x;
                if k < o0.len() {
                    assert(o0[k] == x);
                }
                assert(far_end(conns[conns.len() - 1].entity(), id, x));
            }
        }
    }
}

/// Toggles the port, alone when asked and it is not selected, and highlights the ports at the
/// other ends of its connections when it is selected now, or takes their highlight away.
/// Tells whether the port is selected now.
pub fn toggle_port(state: &mut State, composition: &Composition, id: usize, selfishly: bool) -> (res: bool)
    requires
        old(state).wf(),
    ensures
        final(state).wf(),
        ({
            let cleared = selfishly && !(old(state).ports@.contains(id) && old(state).visible(id));
            let p0 = if cleared { Seq::<usize>::empty() } else { old(state).ports@ };
            let h0 = if cleared { Seq::<usize>::empty() } else { old(state).ports_highlighted@ };
            let others = other_ports(by_port(composition.connections@, id), id);
            &&& res == !p0.contains(id)
            &&& res ==> final(state).ports@ == p0.push(id)
            &&& !res ==> final(state).ports@ == without(p0, id)
            &&& res ==> final(state).ports_highlighted@ == with_all(h0, others)
            &&& !res ==> final(state).ports_highlighted@ == without_all(h0, others)
            &&& final(state).components@ == if cleared { Seq::<usize>::empty() } else { old(state).components@ }
        }),
        final(state).same_view(old(state)),
{
    let connections = composition.find_connections_by_port(&id);
    let ghost cv = derefs(connections@);
    if selfishly && !state.is_port_selected(&id) {
        state.unselect_all();
        assert(state.ports@ =~= Seq::<usize>::empty());
        assert(state.ports_highlighted@ =~= Seq::<usize>::empty());
        assert(state.components@ =~= Seq::<usize>::empty());
    }
    let inserted = state.toggle_port(&id);
    let ghost h0 = state.ports_highlighted@;
    let ghost p1 = state.ports@;
    let ghost c1 = state.components@;
    let mut i: usize = 0;
    assert(cv.subrange(0, 0) =~= Seq::<Connection>::empty());
    while i < connections.len()
        invariant
            0 <= i <= connections@.len(),
            cv == derefs(connections@),
            state.wf(),
            inserted ==> state.ports_highlighted@ == with_all(h0, other_ports(cv.subrange(0, i as int), id)),
            !inserted ==> state.ports_highlighted@ == without_all(h0, other_ports(cv.subrange(0, i as int), id)),
            state.same_view(old(state)),
            state.ports@ == p1,
            state.components@ == c1,
        decreases connections@.len() - i,
    {
        let ghost sub = cv.subrange(0, i + 1);
        assert(sub.drop_last() =~= cv.subrange(0, i as int));
        let ghost ps = state.ports@;
        let ghost cs = state.components@;
        let c = connections[i];
        let rel_port = if (&id).is_input_port(c) {
            *c.out_port()
        } else {
            *c.in_port()
        };
        assert(*c == cv[i as int]);
        assert(rel_port == other_port(cv[i as int], id));
        if inserted {
            state.highlight_port(&rel_port);
        } else {
            state.unhighlight_port(&rel_port);
        }
        proof {
            let os = other_ports(sub, id);
            assert(os.drop_last() =~= other_ports(cv.subrange(0, i as int), id));
            assert(os.last() == rel_port);
        }
        i = i + 1;
    }
    assert(cv.subrange(0, cv.len() as int) =~= cv);
    inserted
}

/// The group of the first holder of the port, if one holds it.
pub open spec fn first_holder(grouped: Seq<(usize, Seq<usize>)>, id: usize) -> Option<usize>
    decreases grouped.len(),
{
    if grouped.len() == 0 {
        None
    } else {
        match first_holder(grouped.drop_last(), id) {
            Some(g) => Some(g),
            None => if grouped.last().1.contains(id) {
                Some(grouped.last().0)
            } else {
                None
            },
        }
    }
}

/// The port as it is shown: the group that holds it, or itself.
pub open spec fn shown_id(grouped: Seq<(usize, Seq<usize>)>, id: usize) -> usize {
    match first_holder(grouped, id) {
        Some(g) => g,
        None => id,
    }
}

/// The ends of the pairs as they are shown, each pair in turn.
pub open spec fn pair_ends(grouped: Seq<(usize, Seq<usize>)>, left: Seq<usize>, right: Seq<usize>) -> Seq<usize>
    decreases left.len(),
{
    if left.len() == 0 {
        seq![]
    } else {
        let n = left.len() - 1;
        pair_ends(grouped, left.drop_last(), right) + seq![
            shown_id(grouped, left[n]),
            shown_id(grouped, right[n]),
        ]
    }
}

fn shown_port_id(grouped: &Vec<(usize, Vec<usize>)>, id: usize) -> (res: usize)
    ensures
        res == shown_id(grouped@.map_values(|g: (usize, Vec<usize>)| (g.0, g.1@)), id),
{
    let ghost gv = grouped@.map_values(|g: (usize, Vec<usize>)| (g.0, g.1@));
    let mut i: usize = 0;
    assert(gv.subrange(0, 0) =~= Seq::<(usize, Seq<usize>)>::empty());
    while i < grouped.len()
        invariant
            0 <= i <= grouped@.len(),
            gv == grouped@.map_values(|g: (usize, Vec<usize>)| (g.0, g.1@)),
            first_holder(gv.subrange(0, i as int), id) is None,
        decreases grouped@.len() - i,
    {
        let ghost sub = gv.subrange(0, i + 1);
        assert(sub.drop_last() =~= gv.subrange(0, i as int));
        if holds(&grouped[i].1, id) {
            proof {
                lemma_first_holder_prefix(gv, id, i + 1);
            }
            return grouped[i].0;
        }
        i = i + 1;
    }
    assert(gv.subrange(0, gv.len() as int) =~= gv);
    id
}

proof fn lemma_first_holder_prefix(g: Seq<(usize, Seq<usize>)>, id: usize, n: int)
    requires
        0 < n <= g.len(),
        first_holder(g.subrange(0, n - 1), id) is None,
        g[n - 1].1.contains(id),
    ensures
        first_holder(g, id) == Some(g[n - 1].0),
    decreases g.len(),
{
    if g.len() > n {
        assert(g.drop_last().subrange(0, n - 1) =~= g.subrange(0, n - 1));
        lemma_first_holder_prefix(g.drop_last(), id, n);
    } else {
        assert(g.drop_last() =~= g.subrange(0, n - 1));
    }
}

/// A port is shown as the first group, in order, that holds it, or as itself when no group
/// holds it.
pub proof fn law_port_shown_by_first_group(grouped: Seq<(usize, Seq<usize>)>, id: usize)
    ensures
        (exists|k: int| 0 <= k < grouped.len() && #[trigger] grouped[k].1.contains(id)) ==> exists|k: int|
            0 <= k < grouped.len() && #[trigger] grouped[k].1.contains(id) && shown_id(grouped, id) == grouped[k].0
                && forall|j: int| 0 <= j < k ==> !(#[trigger] grouped[j].1.contains(id)),
        !(exists|k: int| 0 <= k < grouped.len() && #[trigger] grouped[k].1.contains(id)) ==> shown_id(grouped, id)
            == id,
    decreases grouped.len(),
{
    if grouped.len() > 0 {
        let d = grouped.drop_last();
        law_port_shown_by_first_group(d, id);
        if exists|k: int| 0 <= k < d.len() && #[trigger] d[k].1.contains(id) {
            let k = choose|k: int|
                0 <= k < d.len() && #[trigger] d[k].1.contains(id) && shown_id(d, id) == d[k].0 && forall|j: int|
                    0 <= j < k ==> !(#[trigger] d[j].1.contains(id));
            assert(grouped[k] == d[k]);
            assert forall|j: int| 0 <= j < k implies !(#[trigger] grouped[j].1.contains(id)) by {
                assert(grouped[j] == d[j]);
            }
            assert(first_holder(d, id) == Some(d[k].0)) by {
                if first_holder(d, id) is None {
                    lemma_first_holder_none(d, id, k);
                }
            }
        } else {
            assert(first_holder(d, id) is None) by {
                if first_holder(d, id) is Some {
                    lemma_first_holder_some(d, id);
                }
            }
            assert forall|j: int| 0 <= j < grouped.len() - 1 implies !(#[trigger] grouped[j].1.contains(id)) by {
                assert(grouped[j] == d[j]);
            }
            if grouped.last().1.contains(id) {
                assert(grouped[grouped.len() - 1].1.contains(id));
            } else {
                assert forall|k: int| 0 <= k < grouped.len() implies !(#[trigger] grouped[k].1.contains(id)) by {
                    if k < grouped.len() - 1 {
                        assert(grouped[k] == d[k]);
                    }
                }
            }
        }
    }
}

proof fn lemma_first_holder_none(g: Seq<(usize, Seq<usize>)>, id: usize, k: int)
    requires
        first_holder(g, id) is None,
        0 <= k < g.len(),
    ensures
        !g[k].1.contains(id),
    decreases g.len(),
{
    let d = g.drop_last();
    if k < g.len() - 1 {
        lemma_first_holder_none(d, id, k);
        assert(g[k] == d[k]);
    }
}

proof fn lemma_first_holder_some(g: Seq<(usize, Seq<usize>)>, id: usize)
    requires
        first_holder(g, id) is Some,
    ensures
        exists|k: int| 0 <= k < g.len() && #[trigger] g[k].1.contains(id),
    decreases g.len(),
{
    if g.len() > 0 {
        let d = g.drop_last();
        if first_holder(d, id) is Some {
            lemma_first_holder_some(d, id);
            let k = choose|k: int| 0 <= k < d.len() && #[trigger] d[k].1.contains(id);
            assert(g[k] == d[k]);
        } else {
            assert(g[g.len() - 1].1.contains(id));
        }
    }
}

/// Clears the selection and selects both ports of each pair, each as it is shown: the group
/// that holds it, or itself.
pub fn show_connections_by_ports(
    state: &mut State,
    grouped: &Vec<(usize, Vec<usize>)>,
    left: &[usize],
    right: &[usize],
)
    requires
        left@.len() <= right@.len(),
    ensures
        final(state).wf(),
        final(state).ports@ == with_all(
            seq![],
            pair_ends(grouped@.map_values(|g: (usize, Vec<usize>)| (g.0, g.1@)), left@, right@),
        ),
        final(state).ports_highlighted@.len() == 0,
        final(state).components@.len() == 0,
        final(state).selection.components@.len() == 0,
        final(state).selection.ports@.len() == 0,
        final(state).same_view(old(state)),
{
    let ghost gv = grouped@.map_values(|g: (usize, Vec<usize>)| (g.0, g.1@));
    state.unselect_all();
    assert(state.ports@ =~= Seq::<usize>::empty());
    let mut n: usize = 0;
    assert(left@.subrange(0, 0) =~= Seq::<usize>::empty());
    while n < left.len()
        invariant
            0 <= n <= left@.len(),
            left@.len() <= right@.len(),
            gv == grouped@.map_values(|g: (usize, Vec<usize>)| (g.0, g.1@)),
            state.wf(),
            state.ports@ == with_all(seq![], pair_ends(gv, left@.subrange(0, n as int), right@)),
            state.ports_highlighted@.len() == 0,
            state.components@.len() == 0,
            state.selection.components@.len() == 0,
            state.selection.ports@.len() == 0,
            state.same_view(old(state)),
        decreases left@.len() - n,
    {
        let a = shown_port_id(grouped, left[n]);
        let b = shown_port_id(grouped, right[n]);
        state.insert_port(&a);
        state.insert_port(&b);
        proof {
            let prev = pair_ends(gv, left@.subrange(0, n as int), right@);
            let sub = left@.subrange(0, n + 1);
            assert(sub.drop_last() =~= left@.subrange(0, n as int));
            let now = pair_ends(gv, sub, right@);
            assert(now =~= prev + seq![a, b]);
            assert(now.drop_last() =~= prev.push(a));
            assert(now.drop_last().drop_last() =~= prev);
            assert(now.last() == b);
            assert(now.drop_last().last() == a);
            assert(with_all(seq![], now.drop_last()) == with(with_all(seq![], prev), a));
            assert(with_all(seq![], now) == with(with(with_all(seq![], prev), a), b));
        }
        n = n + 1;
    }
    assert(left@.subrange(0, left@.len() as int) =~= left@);
}

} // verus!
