use vstd::prelude::*;
use vstd::string::*;

use std::collections::HashMap;

use crate::entity::comosition::component_index;
use crate::entity::connection::shown_port;
use crate::entity::dummy::SignatureProducer;
use crate::entity::port::{contains_id, index_of_id, with_visibility};
use crate::entity::{Component, Composition, Connection, Joint, Port, PortType, Ports};
use crate::render::{Render, Representation};

verus! {

/// Pairs `(in port, out port)` of connections between two components, under the key
/// `(in component, out component)`.
pub type Group = ((usize, usize), Seq<(usize, usize)>);

/// How many ends of the connections show the port.
pub open spec fn port_uses(conns: Seq<Representation<Connection>>, id: usize) -> nat
    decreases conns.len(),
{
    if conns.len() == 0 {
        0
    } else {
        let c = conns.last().entity();
        port_uses(conns.drop_last(), id) + (if shown_port(c.joint_in) == id {
            1nat
        } else {
            0nat
        }) + (if shown_port(c.joint_out) == id {
            1nat
        } else {
            0nat
        })
    }
}

/// The port can be grouped: one end of one connection shows it, and when it is one of the
/// composition's own ports, it is connected to one component only.
pub open spec fn lone(conns: Seq<Representation<Connection>>, own: Seq<Representation<Port>>, id: usize) -> bool {
    &&& port_uses(conns, id) == 1
    &&& index_of_id(own, id) >= 0 ==> own[index_of_id(own, id)].entity().connected@.len() == 1
}

/// The position of the group with the key, or -1.
pub open spec fn key_index(gs: Seq<Group>, key: (usize, usize)) -> int
    decreases gs.len(),
{
    if gs.len() == 0 {
        -1
    } else {
        let i = key_index(gs.drop_last(), key);
        if i >= 0 {
            i
        } else if gs.last().0 == key {
            gs.len() - 1
        } else {
            -1
        }
    }
}

/// The groups with the pair added under the key: to its group, or as a new group at the end.
pub open spec fn add_pair(gs: Seq<Group>, key: (usize, usize), pair: (usize, usize)) -> Seq<Group> {
    let i = key_index(gs, key);
    if i >= 0 {
        gs.update(i, (key, gs[i].1.push(pair)))
    } else {
        gs.push((key, seq![pair]))
    }
}

/// The groups of the first `n` connections whose both ends can be grouped, keys in the order
/// they first occur.
pub open spec fn groups_of(
    all: Seq<Representation<Connection>>,
    own: Seq<Representation<Port>>,
    n: int,
) -> Seq<Group>
    decreases n,
{
    if n <= 0 {
        seq![]
    } else {
        let g = groups_of(all, own, n - 1);
        let c = all[n - 1].entity();
        if lone(all, own, shown_port(c.joint_in)) && lone(all, own, shown_port(c.joint_out)) {
            add_pair(
                g,
                (c.joint_in.component, c.joint_out.component),
                (shown_port(c.joint_in), shown_port(c.joint_out)),
            )
        } else {
            g
        }
    }
}

/// The groups of at least two pairs: those that are joined.
pub open spec fn joinable(gs: Seq<Group>) -> Seq<Group>
    decreases gs.len(),
{
    if gs.len() == 0 {
        seq![]
    } else if gs.last().1.len() >= 2 {
        joinable(gs.drop_last()).push(gs.last())
    } else {
        joinable(gs.drop_last())
    }
}

/// The groups that the connections give.
pub open spec fn grouping(conns: Seq<Representation<Connection>>, own: Seq<Representation<Port>>) -> Seq<Group> {
    joinable(groups_of(conns, own, conns.len() as int))
}

/// Some connection shows the pair at its ends, and links the two components of the key.
pub open spec fn pair_of_connection(conns: Seq<Representation<Connection>>, key: (usize, usize), pair: (
    usize,
    usize,
)) -> bool {
    exists|k: int|
        0 <= k < conns.len() && shown_port(conns[k].entity().joint_in) == pair.0 && shown_port(
            conns[k].entity().joint_out,
        ) == pair.1 && conns[k].entity().joint_in.component == key.0
            && conns[k].entity().joint_out.component == key.1
}

/// Every pair of every group holds ports that can be grouped and comes from a connection
/// between the group's components.
pub open spec fn groups_sound(
    gs: Seq<Group>,
    conns: Seq<Representation<Connection>>,
    own: Seq<Representation<Port>>,
) -> bool {
    forall|i: int, j: int|
        0 <= i < gs.len() && 0 <= j < gs[i].1.len() ==> {
            let pair = #[trigger] gs[i].1[j];
            &&& lone(conns, own, pair.0)
            &&& lone(conns, own, pair.1)
            &&& pair_of_connection(conns, gs[i].0, pair)
        }
}

proof fn lemma_groups_of_sound(all: Seq<Representation<Connection>>, own: Seq<Representation<Port>>, n: int)
    requires
        0 <= n <= all.len(),
    ensures
        groups_sound(groups_of(all, own, n), all, own),
    decreases n,
{
    if n > 0 {
        lemma_groups_of_sound(all, own, n - 1);
        let g = groups_of(all, own, n - 1);
        let c = all[n - 1].entity();
        let key = (c.joint_in.component, c.joint_out.component);
        let pair = (shown_port(c.joint_in), shown_port(c.joint_out));
        if lone(all, own, pair.0) && lone(all, own, pair.1) {
            let r = add_pair(g, key, pair);
            assert(pair_of_connection(all, key, pair)) by {
                assert(shown_port(all[n - 1].entity().joint_in) == pair.0);
            }
            lemma_key_index(g, key);
            let x = key_index(g, key);
            assert forall|i: int, j: int| 0 <= i < r.len() && 0 <= j < r[i].1.len() implies {
                let p = #[trigger] r[i].1[j];
                &&& lone(all, own, p.0)
                &&& lone(all, own, p.1)
                &&& pair_of_connection(all, r[i].0, p)
            } by {
                if x >= 0 {
                    if i == x {
                        if j < g[i].1.len() {
                            assert(r[i].1[j] == g[i].1[j]);
                        } else {
                            assert(r[i].1[j] == pair);
                        }
                    } else {
                        assert(r[i] == g[i]);
                    }
                } else {
                    if i < g.len() {
                        assert(r[i] == g[i]);
                    } else {
                        assert(r[i].1[j] == pair);
                    }
                }
            }
        }
    }
}

proof fn lemma_joinable_from(gs: Seq<Group>)
    ensures
        forall|i: int|
            0 <= i < joinable(gs).len() ==> exists|j: int| 0 <= j < gs.len() && #[trigger] joinable(gs)[i] == gs[j],
    decreases gs.len(),
{
    if gs.len() > 0 {
        let d = gs.drop_last();
        lemma_joinable_from(d);
        let r = joinable(gs);
        assert forall|i: int| 0 <= i < r.len() implies exists|j: int| 0 <= j < gs.len() && #[trigger] r[i] == gs[j] by {
            if i < joinable(d).len() {
                assert(r[i] == joinable(d)[i]);
                let j = choose|j: int| 0 <= j < d.len() && joinable(d)[i] == d[j];
                assert(d[j] == gs[j]);
            } else {
                assert(r[i] == gs[gs.len() - 1]);
            }
        }
    }
}

/// Only ports that one connection alone uses are grouped: every pair a group holds is the two
/// ends, as they are shown, of a connection between the group's two components, and each of
/// its ports is an end of that connection only.
pub proof fn law_grouped_ports_stand_alone(conns: Seq<Representation<Connection>>, own: Seq<Representation<Port>>)
    ensures
        forall|i: int, j: int|
            0 <= i < grouping(conns, own).len() && 0 <= j < grouping(conns, own)[i].1.len() ==> {
                let pair = #[trigger] grouping(conns, own)[i].1[j];
                &&& port_uses(conns, pair.0) == 1
                &&& port_uses(conns, pair.1) == 1
                &&& pair_of_connection(conns, grouping(conns, own)[i].0, pair)
            },
{
    let gs = groups_of(conns, own, conns.len() as int);
    lemma_groups_of_sound(conns, own, conns.len() as int);
    lemma_joinable_from(gs);
    let r = grouping(conns, own);
    assert forall|i: int, j: int| 0 <= i < r.len() && 0 <= j < r[i].1.len() implies {
        let pair = #[trigger] r[i].1[j];
        &&& port_uses(conns, pair.0) == 1
        &&& port_uses(conns, pair.1) == 1
        &&& pair_of_connection(conns, r[i].0, pair)
    } by {
        let k = choose|k: int| 0 <= k < gs.len() && r[i] == gs[k];
        assert(r[i].1[j] == gs[k].1[j]);
    }
}

/// A group as it is held while it is built.
pub open spec fn group_view(g: ((usize, usize), Vec<(usize, usize)>)) -> Group {
    (g.0, g.1@)
}

pub open spec fn groups_view(gs: Seq<((usize, usize), Vec<(usize, usize)>)>) -> Seq<Group> {
    gs.map_values(|g: ((usize, usize), Vec<(usize, usize)>)| group_view(g))
}

/// How many ends of the connections show the port.
fn count_uses(conns: &[Representation<Connection>], id: usize) -> (res: usize)
    requires
        conns@.len() <= usize::MAX / 2,
    ensures
        res == port_uses(conns@, id),
{
    let mut n: usize = 0;
    let mut i: usize = 0;
    assert(conns@.subrange(0, 0) =~= Seq::<Representation<Connection>>::empty());
    while i < conns.len()
        invariant
            0 <= i <= conns@.len(),
            conns@.len() <= usize::MAX / 2,
            n == port_uses(conns@.subrange(0, i as int), id),
            n <= 2 * i,
        decreases conns@.len() - i,
    {
        let ghost sub = conns@.subrange(0, i + 1);
        assert(sub.drop_last() =~= conns@.subrange(0, i as int));
        let c = conns[i].origin();
        if *c.in_port() == id {
            n = n + 1;
        }
        if *c.out_port() == id {
            n = n + 1;
        }
        i = i + 1;
    }
    assert(conns@.subrange(0, conns@.len() as int) =~= conns@);
    n
}

/// Whether the port can be grouped.
fn is_lone(conns: &[Representation<Connection>], own: &Ports, id: usize) -> (res: bool)
    requires
        conns@.len() <= usize::MAX / 2,
    ensures
        res == lone(conns@, own.ports@, id),
{
    if count_uses(conns, id) != 1 {
        return false;
    }
    match own.find(&id) {
        Some(p) => p.origin().connected.len() == 1,
        None => true,
    }
}

proof fn lemma_key_index(gs: Seq<Group>, key: (usize, usize))
    ensures
        -1 <= key_index(gs, key) < gs.len(),
        key_index(gs, key) >= 0 ==> gs[key_index(gs, key)].0 == key,
        forall|j: int| 0 <= j < key_index(gs, key) ==> gs[j].0 != key,
        key_index(gs, key) < 0 ==> forall|j: int| 0 <= j < gs.len() ==> #[trigger] gs[j].0 != key,
    decreases gs.len(),
{
    if gs.len() > 0 {
        let d = gs.drop_last();
        lemma_key_index(d, key);
        assert forall|j: int| 0 <= j < key_index(gs, key) implies gs[j].0 != key by {
            assert(d[j] == gs[j]);
        }
        if key_index(gs, key) < 0 {
            assert forall|j: int| 0 <= j < gs.len() implies #[trigger] gs[j].0 != key by {
                if j < gs.len() - 1 {
                    assert(d[j] == gs[j]);
                }
            }
        }
    }
}

/// Adds the pair under the key.
fn push_pair(
    gs: &mut Vec<((usize, usize), Vec<(usize, usize)>)>,
    key: (usize, usize),
    pair: (usize, usize),
)
    ensures
        groups_view(final(gs)@) == add_pair(groups_view(old(gs)@), key, pair),
{
    let ghost before = groups_view(gs@);
    proof {
        lemma_key_index(before, key);
    }
    let mut i: usize = 0;
    while i < gs.len()
        invariant
            0 <= i <= gs@.len(),
            before == groups_view(gs@),
            gs@ == old(gs)@,
            forall|j: int| 0 <= j < i ==> #[trigger] before[j].0 != key,
            -1 <= key_index(before, key) < before.len(),
            key_index(before, key) >= 0 ==> before[key_index(before, key)].0 == key,
            forall|j: int| 0 <= j < key_index(before, key) ==> before[j].0 != key,
            key_index(before, key) < 0 ==> forall|j: int|
                0 <= j < before.len() ==> #[trigger] before[j].0 != key,
        decreases gs@.len() - i,
    {
        if gs[i].0.0 == key.0 && gs[i].0.1 == key.1 {
            assert(before[i as int].0 == key);
            assert(key_index(before, key) == i) by {
                if key_index(before, key) < i {
                    assert(before[key_index(before, key)].0 == key);
                }
            }
            let (k, mut pairs) = gs.remove(i);
            pairs.push(pair);
            gs.insert(i, (k, pairs));
            assert(groups_view(gs@) =~= before.update(i as int, (key, before[i as int].1.push(pair))));
            return;
        }
        i = i + 1;
    }
    let mut pairs: Vec<(usize, usize)> = Vec::new();
    pairs.push(pair);
    gs.push((key, pairs));
    assert(groups_view(gs@) =~= before.push((key, seq![pair])));
}

/// The groups that the connections give.
fn collect_groups(conns: &[Representation<Connection>], own: &Ports) -> (res: Vec<
    ((usize, usize), Vec<(usize, usize)>),
>)
    requires
        conns@.len() <= usize::MAX / 2,
    ensures
        groups_view(res@) == grouping(conns@, own.ports@),
{
    let mut gs: Vec<((usize, usize), Vec<(usize, usize)>)> = Vec::new();
    let mut i: usize = 0;
    assert(groups_view(gs@) =~= Seq::<Group>::empty());
    while i < conns.len()
        invariant
            0 <= i <= conns@.len(),
            conns@.len() <= usize::MAX / 2,
            groups_view(gs@) == groups_of(conns@, own.ports@, i as int),
        decreases conns@.len() - i,
    {
        let c = conns[i].origin();
        let pin = *c.in_port();
        let pout = *c.out_port();
        if is_lone(conns, own, pin) && is_lone(conns, own, pout) {
            push_pair(&mut gs, (c.joint_in.component, c.joint_out.component), (pin, pout));
        }
        i = i + 1;
    }
    let mut res: Vec<((usize, usize), Vec<(usize, usize)>)> = Vec::new();
    let ghost all = groups_view(gs@);
    let n = gs.len();
    let mut k: usize = 0;
    assert(all.subrange(0, 0) =~= Seq::<Group>::empty());
    assert(groups_view(res@) =~= Seq::<Group>::empty());
    while k < n
        invariant
            n == all.len(),
            0 <= k <= n,
            gs@.len() == n - k,
            forall|j: int| 0 <= j < n - k ==> #[trigger] group_view(gs@[j]) == all[k + j],
            groups_view(res@) == joinable(all.subrange(0, k as int)),
        decreases n - k,
    {
        let ghost prev = gs@;
        let g = gs.remove(0);
        assert(group_view(g) == all[k as int]);
        let ghost sub = all.subrange(0, k + 1);
        assert(sub.drop_last() =~= all.subrange(0, k as int));
        if g.1.len() >= 2 {
            let ghost r = res@;
            res.push(g);
            assert(groups_view(res@) =~= groups_view(r).push(group_view(g)));
        }
        assert forall|j: int| 0 <= j < n - (k + 1) implies #[trigger] group_view(gs@[j]) == all[
            k + 1 + j] by {
            assert(gs@[j] == prev[j + 1]);
        }
        k = k + 1;
    }
    assert(all.subrange(0, n as int) =~= all);
    res
}

/// The position of the first nested composition with the id, or -1.
pub open spec fn composition_index(cs: Seq<Representation<Composition>>, id: usize) -> int
    decreases cs.len(),
{
    if cs.len() == 0 {
        -1
    } else {
        let i = composition_index(cs.drop_last(), id);
        if i >= 0 {
            i
        } else if cs.last().entity().sig.id == id {
            cs.len() - 1
        } else {
            -1
        }
    }
}

/// The short name of the entity with the id: the composition itself, else its first component
/// with the id, else its first nested composition with the id.
pub open spec fn entry_name(e: Composition, id: usize) -> Option<Seq<char>> {
    let ci = component_index(e.components@, id);
    let si = composition_index(e.compositions@, id);
    if e.sig.id == id {
        Some(e.sig.short_name@)
    } else if ci >= 0 {
        Some(e.components@[ci].entity().sig.short_name@)
    } else if si >= 0 {
        Some(e.compositions@[si].entity().sig.short_name@)
    } else {
        None
    }
}

/// The text of an optional label.
pub open spec fn label_view(l: Option<String>) -> Option<Seq<char>> {
    match l {
        Some(s) => Some(s@),
        None => None,
    }
}

pub open spec fn firsts(pairs: Seq<(usize, usize)>) -> Seq<usize> {
    pairs.map_values(|p: (usize, usize)| p.0)
}

pub open spec fn seconds(pairs: Seq<(usize, usize)>) -> Seq<usize> {
    pairs.map_values(|p: (usize, usize)| p.1)
}

/// One of the ids is the id of one of the composition's own ports.
pub open spec fn any_own(own: Seq<Representation<Port>>, ids: Seq<usize>) -> bool {
    exists|i: int| 0 <= i < ids.len() && index_of_id(own, #[trigger] ids[i]) >= 0
}

/// A port that stands for a group of ports.
pub open spec fn joined_port(
    r: Representation<Port>,
    id: usize,
    name: Seq<char>,
    ty: PortType,
    contains: Seq<usize>,
    host: usize,
    label: Option<Seq<char>>,
) -> bool {
    let p = r.entity();
    &&& r is Origin
    &&& p.sig.id == id
    &&& p.sig.class_name@ == name
    &&& p.sig.short_name@ == name
    &&& p.port_type == ty
    &&& p.provided_interface.is_none()
    &&& p.provided_required_interface.is_none()
    &&& p.required_interface.is_none()
    &&& p.contains@ == contains
    &&& p.connected@ == map![host => contains.len() as usize]
    &&& p.visibility
    &&& label_view(p.label) == label
}

/// The connection that stands for a group of connections.
pub open spec fn joined_link(r: Representation<Connection>, g: Group, base: int) -> bool {
    let c = r.entity();
    &&& r is Origin
    &&& c.joint_in == Joint { component: g.0.0, port: (base + 1) as usize, grouped: None }
    &&& c.joint_out == Joint { component: g.0.1, port: (base + 2) as usize, grouped: None }
    &&& c.sig.id == base + 3
    &&& c.sig.class_name@ == "joined connection"@
    &&& c.sig.short_name@ == "joined connection"@
    &&& c.visibility
}

/// The ports and the connection made for the group: the port on the in side, the port on the
/// out side, and the connection between them, with ids counted on from `base`.
pub open spec fn joined_ok(
    e: Composition,
    g: Group,
    base: int,
    pin: (usize, Representation<Port>),
    pout: (usize, Representation<Port>),
    link: Representation<Connection>,
) -> bool {
    let own = e.ports.entity().ports@;
    &&& pin.0 == g.0.0
    &&& joined_port(
        pin.1,
        (base + 1) as usize,
        "joined port IN"@,
        if any_own(own, firsts(g.1)) {
            PortType::Left
        } else {
            PortType::Right
        },
        firsts(g.1),
        e.sig.id,
        entry_name(e, g.0.1),
    )
    &&& pout.0 == g.0.1
    &&& joined_port(
        pout.1,
        (base + 2) as usize,
        "joined port OUT"@,
        if any_own(own, seconds(g.1)) {
            PortType::Right
        } else {
            PortType::Left
        },
        seconds(g.1),
        e.sig.id,
        entry_name(e, g.0.0),
    )
    &&& joined_link(link, g, base)
}

/// The short name of the entity with the id.
fn entry_short_name(e: &Composition, id: usize) -> (res: Option<String>)
    ensures
        label_view(res) == entry_name(*e, id),
{
    if e.sig.id == id {
        return Some(e.sig.short_name.clone());
    }
    match e.get_component(&id) {
        Some(c) => {
            return Some(c.sig.short_name.clone());
        },
        None => {},
    }
    let mut i: usize = 0;
    while i < e.compositions.len()
        invariant
            0 <= i <= e.compositions@.len(),
            composition_index(e.compositions@.subrange(0, i as int), id) == -1,
            component_index(e.components@, id) < 0,
            e.sig.id != id,
        decreases e.compositions@.len() - i,
    {
        let ghost sub = e.compositions@.subrange(0, i + 1);
        assert(sub.drop_last() =~= e.compositions@.subrange(0, i as int));
        if e.compositions[i].origin().sig.id == id {
            proof {
                lemma_composition_prefix(e.compositions@, id, i + 1);
            }
            return Some(e.compositions[i].origin().sig.short_name.clone());
        }
        i = i + 1;
    }
    assert(e.compositions@.subrange(0, e.compositions@.len() as int) =~= e.compositions@);
    None
}

proof fn lemma_composition_prefix(cs: Seq<Representation<Composition>>, id: usize, n: int)
    requires
        0 < n <= cs.len(),
        composition_index(cs.subrange(0, n - 1), id) == -1,
        cs[n - 1].entity().sig.id == id,
    ensures
        composition_index(cs, id) == n - 1,
    decreases cs.len(),
{
    if cs.len() > n {
        assert(cs.drop_last().subrange(0, n - 1) =~= cs.subrange(0, n - 1));
        lemma_composition_prefix(cs.drop_last(), id, n);
    } else {
        assert(cs.drop_last() =~= cs.subrange(0, n - 1));
    }
}

/// The first ids, or the second ids, of the pairs.
fn split_pairs(pairs: &Vec<(usize, usize)>) -> (res: (Vec<usize>, Vec<usize>))
    ensures
        res.0@ == firsts(pairs@),
        res.1@ == seconds(pairs@),
{
    let mut a: Vec<usize> = Vec::new();
    let mut b: Vec<usize> = Vec::new();
    let mut i: usize = 0;
    while i < pairs.len()
        invariant
            0 <= i <= pairs@.len(),
            a@ == firsts(pairs@.subrange(0, i as int)),
            b@ == seconds(pairs@.subrange(0, i as int)),
        decreases pairs@.len() - i,
    {
        a.push(pairs[i].0);
        b.push(pairs[i].1);
        i = i + 1;
        assert(a@ =~= firsts(pairs@.subrange(0, i as int)));
        assert(b@ =~= seconds(pairs@.subrange(0, i as int)));
    }
    assert(pairs@.subrange(0, pairs@.len() as int) =~= pairs@);
    (a, b)
}

/// Whether one of the ids is the id of one of the ports.
fn holds_own(own: &Ports, ids: &Vec<usize>) -> (res: bool)
    ensures
        res == any_own(own.ports@, ids@),
{
    let mut i: usize = 0;
    while i < ids.len()
        invariant
            0 <= i <= ids@.len(),
            forall|j: int| 0 <= j < i ==> index_of_id(own.ports@, #[trigger] ids@[j]) < 0,
        decreases ids@.len() - i,
    {
        match own.find(&ids[i]) {
            Some(_) => {
                assert(index_of_id(own.ports@, ids@[i as int]) >= 0);
                return true;
            },
            None => {},
        }
        i = i + 1;
    }
    false
}

/// A port that stands for the given ports, connected to the host as often as it holds ports.
fn joined(
    sig_producer: &mut SignatureProducer,
    name: &str,
    ty: PortType,
    contains: Vec<usize>,
    host: usize,
    label: Option<String>,
) -> (res: Representation<Port>)
    requires
        old(sig_producer).value() < usize::MAX,
    ensures
        final(sig_producer).value() == old(sig_producer).value() + 1,
        joined_port(res, final(sig_producer).value(), name@, ty, contains@, host, label_view(label)),
{
    let mut connected: HashMap<usize, usize> = HashMap::new();
    connected.insert(host, contains.len());
    assert(connected@ =~= map![host => contains@.len() as usize]);
    let sig = sig_producer.next_for(name);
    Representation::Origin(
        Port {
            provided_interface: None,
            provided_required_interface: None,
            required_interface: None,
            sig,
            port_type: ty,
            contains,
            connected,
            label,
            visibility: true,
        },
    )
}

/// The two ports and the connection that stand for the group.
fn join_group(
    e: &Composition,
    g: &((usize, usize), Vec<(usize, usize)>),
    sig_producer: &mut SignatureProducer,
) -> (res: ((usize, Representation<Port>), (usize, Representation<Port>), Representation<Connection>))
    requires
        old(sig_producer).value() + 3 <= usize::MAX,
    ensures
        final(sig_producer).value() == old(sig_producer).value() + 3,
        joined_ok(*e, group_view(*g), old(sig_producer).value() as int, res.0, res.1, res.2),
{
    let own = e.ports.origin();
    let (ports_in, ports_out) = split_pairs(&g.1);
    let in_self = holds_own(own, &ports_in);
    let out_self = holds_own(own, &ports_out);
    let label_in = entry_short_name(e, g.0.1);
    let label_out = entry_short_name(e, g.0.0);
    let port_in = joined(
        sig_producer,
        "joined port IN",
        if in_self {
            PortType::Left
        } else {
            PortType::Right
        },
        ports_in,
        e.sig.id,
        label_in,
    );
    let port_out = joined(
        sig_producer,
        "joined port OUT",
        if out_self {
            PortType::Right
        } else {
            PortType::Left
        },
        ports_out,
        e.sig.id,
        label_out,
    );
    let sig = sig_producer.next_for("joined connection");
    let link = Representation::Origin(
        Connection {
            joint_in: Joint { component: g.0.0, port: port_in.origin().sig.id, grouped: None },
            joint_out: Joint { component: g.0.1, port: port_out.origin().sig.id, grouped: None },
            sig,
            visibility: true,
        },
    );
    ((g.0.0, port_in), (g.0.1, port_out), link)
}

/// The ports and connections made for all the groups, with ids counted on from `start`, three
/// for each group.
pub open spec fn plan_ok(
    e: Composition,
    start: int,
    added: Seq<(usize, Representation<Port>)>,
    links: Seq<Representation<Connection>>,
) -> bool {
    let gs = grouping(e.connections@, e.ports.entity().ports@);
    &&& added.len() == 2 * gs.len()
    &&& links.len() == gs.len()
    &&& forall|k: int|
        0 <= k < gs.len() ==> joined_ok(
            e,
            #[trigger] gs[k],
            start + 3 * k,
            added[2 * k],
            added[2 * k + 1],
            links[k],
        )
}

/// The ports and connections that stand for the groups.
fn join_groups(
    e: &Composition,
    gs: &Vec<((usize, usize), Vec<(usize, usize)>)>,
    sig_producer: &mut SignatureProducer,
) -> (res: (Vec<(usize, Representation<Port>)>, Vec<Representation<Connection>>))
    requires
        groups_view(gs@) == grouping(e.connections@, e.ports.entity().ports@),
        old(sig_producer).value() + 3 * gs@.len() <= usize::MAX,
    ensures
        final(sig_producer).value() == old(sig_producer).value() + 3 * gs@.len(),
        plan_ok(*e, old(sig_producer).value() as int, res.0@, res.1@),
{
    let ghost start = sig_producer.value() as int;
    let ghost all = groups_view(gs@);
    let mut added: Vec<(usize, Representation<Port>)> = Vec::new();
    let mut links: Vec<Representation<Connection>> = Vec::new();
    let mut k: usize = 0;
    while k < gs.len()
        invariant
            0 <= k <= gs@.len(),
            all == groups_view(gs@),
            start + 3 * gs@.len() <= usize::MAX,
            sig_producer.value() == start + 3 * k,
            added@.len() == 2 * k,
            links@.len() == k,
            forall|j: int|
                0 <= j < k ==> joined_ok(
                    *e,
                    #[trigger] all[j],
                    start + 3 * j,
                    added@[2 * j],
                    added@[2 * j + 1],
                    links@[j],
                ),
        decreases gs@.len() - k,
    {
        let (a, b, l) = join_group(e, &gs[k], sig_producer);
        assert(group_view(gs@[k as int]) == all[k as int]);
        added.push(a);
        added.push(b);
        links.push(l);
        k = k + 1;
    }
    (added, links)
}

/// The id of the first added port that holds the port, if one does.
pub open spec fn holder(added: Seq<(usize, Representation<Port>)>, id: usize) -> Option<usize>
    decreases added.len(),
{
    if added.len() == 0 {
        None
    } else {
        match holder(added.drop_last(), id) {
            Some(h) => Some(h),
            None => if added.last().1.entity().contains@.contains(id) {
                Some(added.last().1.entity().sig.id)
            } else {
                None
            },
        }
    }
}

/// The connection after grouping: an end whose port was grouped shows the group; when both
/// ends were grouped, the connection is hidden, as the joined connection stands for it.
pub open spec fn regrouped(c: Connection, added: Seq<(usize, Representation<Port>)>) -> Connection {
    let hin = holder(added, shown_port(c.joint_in));
    let hout = holder(added, shown_port(c.joint_out));
    if hin is Some && hout is None {
        Connection { joint_in: Joint { grouped: hin, ..c.joint_in }, ..c }
    } else if hin is None && hout is Some {
        Connection { joint_out: Joint { grouped: hout, ..c.joint_out }, ..c }
    } else if hin is Some && hout is Some {
        Connection { visibility: false, ..c }
    } else {
        c
    }
}

/// The connection, held as before, with another entity.
pub open spec fn with_conn(r: Representation<Connection>, c: Connection) -> Representation<
    Connection,
> {
    match r {
        Representation::Origin(_) => Representation::Origin(c),
        Representation::Render(rd) => Representation::Render(Render { entity: c, ..rd }),
    }
}

/// The id of the first added port that holds the port.
fn holder_of(added: &Vec<(usize, Representation<Port>)>, id: usize) -> (res: Option<usize>)
    ensures
        res == holder(added@, id),
{
    let mut i: usize = 0;
    assert(added@.subrange(0, 0) =~= Seq::<(usize, Representation<Port>)>::empty());
    while i < added.len()
        invariant
            0 <= i <= added@.len(),
            holder(added@.subrange(0, i as int), id) is None,
        decreases added@.len() - i,
    {
        let ghost sub = added@.subrange(0, i + 1);
        assert(sub.drop_last() =~= added@.subrange(0, i as int));
        let p = added[i].1.origin();
        if contains_id(p.contains.as_slice(), id) {
            proof {
                lemma_holder_prefix(added@, id, i + 1);
            }
            return Some(p.sig.id);
        }
        i = i + 1;
    }
    assert(added@.subrange(0, added@.len() as int) =~= added@);
    None
}

proof fn lemma_holder_prefix(added: Seq<(usize, Representation<Port>)>, id: usize, n: int)
    requires
        0 < n <= added.len(),
        holder(added.subrange(0, n - 1), id) is None,
        added[n - 1].1.entity().contains@.contains(id),
    ensures
        holder(added, id) == Some(added[n - 1].1.entity().sig.id),
    decreases added.len(),
{
    if added.len() > n {
        assert(added.drop_last().subrange(0, n - 1) =~= added.subrange(0, n - 1));
        lemma_holder_prefix(added.drop_last(), id, n);
    } else {
        assert(added.drop_last() =~= added.subrange(0, n - 1));
    }
}

/// Points the connections at the groups that hold their ports.
fn regroup(conns: &mut Vec<Representation<Connection>>, added: &Vec<(usize, Representation<Port>)>)
    ensures
        final(conns)@ == old(conns)@.map_values(
            |r: Representation<Connection>| with_conn(r, regrouped(r.entity(), added@)),
        ),
{
    let ghost before = conns@;
    let mut j: usize = 0;
    while j < conns.len()
        invariant
            0 <= j <= conns@.len(),
            conns@.len() == before.len(),
            forall|i: int|
                0 <= i < j ==> #[trigger] conns@[i] == with_conn(
                    before[i],
                    regrouped(before[i].entity(), added@),
                ),
            forall|i: int| j <= i < conns@.len() ==> #[trigger] conns@[i] == before[i],
        decreases conns@.len() - j,
    {
        let hin = holder_of(added, *conns[j].origin().in_port());
        let hout = holder_of(added, *conns[j].origin().out_port());
        let ghost c = before[j as int].entity();
        if hin.is_some() && hout.is_none() {
            conns[j].origin_mut().joint_in.grouped = hin;
        } else if hin.is_none() && hout.is_some() {
            conns[j].origin_mut().joint_out.grouped = hout;
        } else if hin.is_some() && hout.is_some() {
            conns[j].origin_mut().conceal();
        }
        assert(conns@[j as int] == with_conn(before[j as int], regrouped(c, added@)));
        j = j + 1;
    }
    assert(conns@ =~= before.map_values(
        |r: Representation<Connection>| with_conn(r, regrouped(r.entity(), added@)),
    ));
}

/// The ports with those of the given ids made invisible.
pub open spec fn concealed(ports: Seq<Representation<Port>>, ids: Seq<usize>) -> Seq<
    Representation<Port>,
> {
    ports.map_values(
        |r: Representation<Port>|
            if ids.contains(r.entity().sig.id) {
                with_visibility(r, false)
            } else {
                r
            },
    )
}

/// The ports after a group port is added: the ports it holds made invisible, and it at the end.
pub open spec fn placed(ports: Seq<Representation<Port>>, p: Representation<Port>) -> Seq<
    Representation<Port>,
> {
    concealed(ports, p.entity().contains@).push(p)
}

/// The added ports that go to the owner, in order.
pub open spec fn adds_for(added: Seq<(usize, Representation<Port>)>, owner: usize) -> Seq<
    Representation<Port>,
>
    decreases added.len(),
{
    if added.len() == 0 {
        seq![]
    } else {
        let rest = adds_for(added.drop_first(), owner);
        if added[0].0 == owner {
            seq![added[0].1] + rest
        } else {
            rest
        }
    }
}

/// The ports after the group ports are added, the last one first.
pub open spec fn placed_all(ports: Seq<Representation<Port>>, adds: Seq<Representation<Port>>) -> Seq<
    Representation<Port>,
>
    decreases adds.len(),
{
    if adds.len() == 0 {
        ports
    } else {
        placed(placed_all(ports, adds.drop_first()), adds[0])
    }
}

/// Two held sets of ports differ in their ports alone.
pub open spec fn same_ports_shell(a: Representation<Ports>, b: Representation<Ports>) -> bool {
    &&& a is Origin <==> b is Origin
    &&& a is Render ==> a->Render_0.view == b->Render_0.view && a->Render_0.hidden
        == b->Render_0.hidden
    &&& a.entity().hide_invisible == b.entity().hide_invisible
    &&& a.entity().sig == b.entity().sig
}

/// Two held components differ in the ports they hold alone.
pub open spec fn same_component_shell(a: Representation<Component>, b: Representation<Component>) -> bool {
    &&& a is Origin <==> b is Origin
    &&& a is Render ==> a->Render_0.view == b->Render_0.view && a->Render_0.hidden
        == b->Render_0.hidden
    &&& a.entity().sig == b.entity().sig
    &&& a.entity().composition == b.entity().composition
    &&& same_ports_shell(a.entity().ports, b.entity().ports)
}

/// Two held compositions differ in their own ports alone.
pub open spec fn same_composition_shell(
    a: Representation<Composition>,
    b: Representation<Composition>,
) -> bool {
    &&& a is Origin <==> b is Origin
    &&& a is Render ==> a->Render_0.view == b->Render_0.view && a->Render_0.hidden
        == b->Render_0.hidden
    &&& a.entity().sig == b.entity().sig
    &&& a.entity().components == b.entity().components
    &&& a.entity().connections == b.entity().connections
    &&& a.entity().compositions == b.entity().compositions
    &&& a.entity().parent == b.entity().parent
    &&& same_ports_shell(a.entity().ports, b.entity().ports)
}

/// The added ports went to their owners: each to the first component with the owner's id,
/// else to the first nested composition with it, else to the composition itself when it has
/// that id (else nowhere); each owner made invisible the ports its group ports hold.
pub open spec fn ports_placed(
    before: Composition,
    after: Composition,
    added: Seq<(usize, Representation<Port>)>,
) -> bool {
    let cs = before.components@;
    let ns = before.compositions@;
    &&& after.components@.len() == cs.len()
    &&& forall|i: int|
        0 <= i < cs.len() ==> {
            let a = #[trigger] after.components@[i];
            let id = cs[i].entity().sig.id;
            let ports = cs[i].entity().ports.entity().ports@;
            &&& same_component_shell(cs[i], a)
            &&& a.entity().ports.entity().ports@ == if component_index(cs, id) == i {
                placed_all(ports, adds_for(added, id))
            } else {
                ports
            }
        }
    &&& after.compositions@.len() == ns.len()
    &&& forall|i: int|
        0 <= i < ns.len() ==> {
            let a = #[trigger] after.compositions@[i];
            let id = ns[i].entity().sig.id;
            let ports = ns[i].entity().ports.entity().ports@;
            &&& same_composition_shell(ns[i], a)
            &&& a.entity().ports.entity().ports@ == if component_index(cs, id) < 0
                && composition_index(ns, id) == i {
                placed_all(ports, adds_for(added, id))
            } else {
                ports
            }
        }
    &&& same_ports_shell(before.ports, after.ports)
    &&& after.ports.entity().ports@ == if component_index(cs, before.sig.id) < 0
        && composition_index(ns, before.sig.id) < 0 {
        placed_all(before.ports.entity().ports@, adds_for(added, before.sig.id))
    } else {
        before.ports.entity().ports@
    }
}

/// Adds a group port: the ports it holds are made invisible, and it goes at the end.
fn place_port(ports: &mut Ports, p: Representation<Port>)
    ensures
        final(ports).ports@ == placed(old(ports).ports@, p),
        final(ports).hide_invisible == old(ports).hide_invisible,
        final(ports).sig == old(ports).sig,
{
    ports.conceal(p.origin().contains.as_slice());
    let ghost mid = ports.ports@;
    assert(mid =~= concealed(old(ports).ports@, p.entity().contains@));
    ports.add(p, None);
}

/// The position of the first component with the id.
pub(crate) fn component_position(cs: &Vec<Representation<Component>>, id: usize) -> (res: Option<usize>)
    ensures
        match res {
            Some(i) => i == component_index(cs@, id),
            None => component_index(cs@, id) < 0,
        },
{
    let mut i: usize = 0;
    while i < cs.len()
        invariant
            0 <= i <= cs@.len(),
            component_index(cs@.subrange(0, i as int), id) == -1,
        decreases cs@.len() - i,
    {
        let ghost sub = cs@.subrange(0, i + 1);
        assert(sub.drop_last() =~= cs@.subrange(0, i as int));
        if cs[i].origin().sig.id == id {
            proof {
                lemma_component_position(cs@, id, i + 1);
            }
            return Some(i);
        }
        i = i + 1;
    }
    assert(cs@.subrange(0, cs@.len() as int) =~= cs@);
    None
}

proof fn lemma_component_position(cs: Seq<Representation<Component>>, id: usize, n: int)
    requires
        0 < n <= cs.len(),
        component_index(cs.subrange(0, n - 1), id) == -1,
        cs[n - 1].entity().sig.id == id,
    ensures
        component_index(cs, id) == n - 1,
    decreases cs.len(),
{
    if cs.len() > n {
        assert(cs.drop_last().subrange(0, n - 1) =~= cs.subrange(0, n - 1));
        lemma_component_position(cs.drop_last(), id, n);
    } else {
        assert(cs.drop_last() =~= cs.subrange(0, n - 1));
    }
}

/// The position of the first nested composition with the id.
pub(crate) fn composition_position(cs: &Vec<Representation<Composition>>, id: usize) -> (res: Option<usize>)
    ensures
        match res {
            Some(i) => i == composition_index(cs@, id),
            None => composition_index(cs@, id) < 0,
        },
{
    let mut i: usize = 0;
    while i < cs.len()
        invariant
            0 <= i <= cs@.len(),
            composition_index(cs@.subrange(0, i as int), id) == -1,
        decreases cs@.len() - i,
    {
        let ghost sub = cs@.subrange(0, i + 1);
        assert(sub.drop_last() =~= cs@.subrange(0, i as int));
        if cs[i].origin().sig.id == id {
            proof {
                lemma_composition_prefix(cs@, id, i + 1);
            }
            return Some(i);
        }
        i = i + 1;
    }
    assert(cs@.subrange(0, cs@.len() as int) =~= cs@);
    None
}

pub(crate) proof fn lemma_index_bounds_c(cs: Seq<Representation<Component>>, id: usize)
    ensures
        -1 <= component_index(cs, id) < cs.len(),
        component_index(cs, id) >= 0 ==> cs[component_index(cs, id)].entity().sig.id == id,
    decreases cs.len(),
{
    if cs.len() > 0 {
        lemma_index_bounds_c(cs.drop_last(), id);
    }
}

pub(crate) proof fn lemma_index_bounds_n(cs: Seq<Representation<Composition>>, id: usize)
    ensures
        -1 <= composition_index(cs, id) < cs.len(),
        composition_index(cs, id) >= 0 ==> cs[composition_index(cs, id)].entity().sig.id == id,
    decreases cs.len(),
{
    if cs.len() > 0 {
        lemma_index_bounds_n(cs.drop_last(), id);
    }
}

/// The ports of the first added entry go first once the rest are placed.
proof fn lemma_adds_for_step(added: Seq<(usize, Representation<Port>)>, t: int, owner: usize)
    requires
        0 < t <= added.len(),
    ensures
        adds_for(added.subrange(t - 1, added.len() as int), owner) == if added[t - 1].0 == owner {
            seq![added[t - 1].1] + adds_for(added.subrange(t, added.len() as int), owner)
        } else {
            adds_for(added.subrange(t, added.len() as int), owner)
        },
{
    let s = added.subrange(t - 1, added.len() as int);
    assert(s.drop_first() =~= added.subrange(t, added.len() as int));
    assert(s[0] == added[t - 1]);
}

proof fn lemma_placed_all_step(ports: Seq<Representation<Port>>, p: Representation<Port>, rest: Seq<Representation<Port>>)
    ensures
        placed_all(ports, seq![p] + rest) == placed(placed_all(ports, rest), p),
{
    let s = seq![p] + rest;
    assert(s.drop_first() =~= rest);
    assert(s[0] == p);
}

proof fn lemma_component_index_same(
    a: Seq<Representation<Component>>,
    b: Seq<Representation<Component>>,
    id: usize,
)
    requires
        a.len() == b.len(),
        forall|i: int| 0 <= i < a.len() ==> #[trigger] a[i].entity().sig.id == b[i].entity().sig.id,
    ensures
        component_index(a, id) == component_index(b, id),
    decreases a.len(),
{
    if a.len() > 0 {
        lemma_component_index_same(a.drop_last(), b.drop_last(), id);
        assert(a.last().entity().sig.id == b.last().entity().sig.id);
    }
}

proof fn lemma_composition_index_same(
    a: Seq<Representation<Composition>>,
    b: Seq<Representation<Composition>>,
    id: usize,
)
    requires
        a.len() == b.len(),
        forall|i: int| 0 <= i < a.len() ==> #[trigger] a[i].entity().sig.id == b[i].entity().sig.id,
    ensures
        composition_index(a, id) == composition_index(b, id),
    decreases a.len(),
{
    if a.len() > 0 {
        lemma_composition_index_same(a.drop_last(), b.drop_last(), id);
        assert(a.last().entity().sig.id == b.last().entity().sig.id);
    }
}

/// Gives each added port to its owner, the last one first.
fn place_ports(entity: &mut Composition, added: Vec<(usize, Representation<Port>)>)
    ensures
        ports_placed(*old(entity), *final(entity), added@),
        final(entity).sig == old(entity).sig,
        final(entity).connections == old(entity).connections,
        final(entity).parent == old(entity).parent,
{
    let ghost all = added@;
    let ghost n = added@.len() as int;
    let ghost before = *entity;
    let mut added = added;
    assert(all.subrange(n, n) =~= Seq::<(usize, Representation<Port>)>::empty());
    assert forall|i: int| 0 <= i < before.components@.len() implies same_component_shell(
        before.components@[i],
        #[trigger] entity.components@[i],
    ) by {}
    assert forall|i: int| 0 <= i < before.compositions@.len() implies same_composition_shell(
        before.compositions@[i],
        #[trigger] entity.compositions@[i],
    ) by {}
    while added.len() > 0
        invariant
            added@ == all.subrange(0, added@.len() as int),
            added@.len() <= n,
            n == all.len(),
            entity.sig == before.sig,
            entity.connections == before.connections,
            entity.parent == before.parent,
            ports_placed(before, *entity, all.subrange(added@.len() as int, n)),
        decreases added@.len(),
    {
        let ghost t = added@.len() as int;
        let (owner, port) = added.pop().unwrap();
        assert(all[t - 1] == (owner, port));
        assert(added@ =~= all.subrange(0, t - 1));
        let ghost old_entity = *entity;
        let ghost cs = before.components@;
        let ghost ns = before.compositions@;
        proof {
            lemma_index_bounds_c(cs, owner);
            lemma_index_bounds_n(ns, owner);
            assert forall|i: int| 0 <= i < cs.len() implies #[trigger] cs[i].entity().sig.id
                == entity.components@[i].entity().sig.id by {
                assert(same_component_shell(cs[i], entity.components@[i]));
            }
            assert forall|i: int| 0 <= i < ns.len() implies #[trigger] ns[i].entity().sig.id
                == entity.compositions@[i].entity().sig.id by {
                assert(same_composition_shell(ns[i], entity.compositions@[i]));
            }
            lemma_component_index_same(cs, entity.components@, owner);
            lemma_composition_index_same(ns, entity.compositions@, owner);
        }
        match component_position(&entity.components, owner) {
            Some(ci) => {
                place_port(entity.components[ci].origin_mut().ports.origin_mut(), port);
                proof {
                    assert forall|i: int| 0 <= i < cs.len() implies {
                        let a = #[trigger] entity.components@[i];
                        let id = cs[i].entity().sig.id;
                        let ports = cs[i].entity().ports.entity().ports@;
                        &&& same_component_shell(cs[i], a)
                        &&& a.entity().ports.entity().ports@ == if component_index(cs, id) == i {
                            placed_all(ports, adds_for(all.subrange(t - 1, n), id))
                        } else {
                            ports
                        }
                    } by {
                        lemma_adds_for_step(all, t, cs[i].entity().sig.id);
                        if i != ci {
                            assert(entity.components@[i] == old_entity.components@[i]);
                        } else {
                            lemma_placed_all_step(
                                cs[i].entity().ports.entity().ports@,
                                port,
                                adds_for(all.subrange(t, n), owner),
                            );
                        }
                    }
                    assert forall|i: int| 0 <= i < ns.len() implies {
                        let a = #[trigger] entity.compositions@[i];
                        let id = ns[i].entity().sig.id;
                        let ports = ns[i].entity().ports.entity().ports@;
                        &&& same_composition_shell(ns[i], a)
                        &&& a.entity().ports.entity().ports@ == if component_index(cs, id) < 0
                            && composition_index(ns, id) == i {
                            placed_all(ports, adds_for(all.subrange(t - 1, n), id))
                        } else {
                            ports
                        }
                    } by {
                        lemma_adds_for_step(all, t, ns[i].entity().sig.id);
                        assert(entity.compositions@[i] == old_entity.compositions@[i]);
                    }
                    lemma_adds_for_step(all, t, before.sig.id);
                }
            },
            None => {
                match composition_position(&entity.compositions, owner) {
                    Some(si) => {
                        place_port(entity.compositions[si].origin_mut().ports.origin_mut(), port);
                        proof {
                            assert forall|i: int| 0 <= i < cs.len() implies {
                                let a = #[trigger] entity.components@[i];
                                let id = cs[i].entity().sig.id;
                                let ports = cs[i].entity().ports.entity().ports@;
                                &&& same_component_shell(cs[i], a)
                                &&& a.entity().ports.entity().ports@ == if component_index(cs, id)
                                    == i {
                                    placed_all(ports, adds_for(all.subrange(t - 1, n), id))
                                } else {
                                    ports
                                }
                            } by {
                                lemma_adds_for_step(all, t, cs[i].entity().sig.id);
                                assert(entity.components@[i] == old_entity.components@[i]);
                            }
                            assert forall|i: int| 0 <= i < ns.len() implies {
                                let a = #[trigger] entity.compositions@[i];
                                let id = ns[i].entity().sig.id;
                                let ports = ns[i].entity().ports.entity().ports@;
                                &&& same_composition_shell(ns[i], a)
                                &&& a.entity().ports.entity().ports@ == if component_index(cs, id)
                                    < 0 && composition_index(ns, id) == i {
                                    placed_all(ports, adds_for(all.subrange(t - 1, n), id))
                                } else {
                                    ports
                                }
                            } by {
                                lemma_adds_for_step(all, t, ns[i].entity().sig.id);
                                if i != si {
                                    assert(entity.compositions@[i] == old_entity.compositions@[i]);
                                } else {
                                    lemma_placed_all_step(
                                        ns[i].entity().ports.entity().ports@,
                                        port,
                                        adds_for(all.subrange(t, n), owner),
                                    );
                                }
                            }
                            lemma_adds_for_step(all, t, before.sig.id);
                        }
                    },
                    None => {
                        if entity.sig.id == owner {
                            place_port(entity.ports.origin_mut(), port);
                            proof {
                                lemma_placed_all_step(
                                    before.ports.entity().ports@,
                                    port,
                                    adds_for(all.subrange(t, n), owner),
                                );
                            }
                        }
                        proof {
                            assert forall|i: int| 0 <= i < cs.len() implies {
                                let a = #[trigger] entity.components@[i];
                                let id = cs[i].entity().sig.id;
                                let ports = cs[i].entity().ports.entity().ports@;
                                &&& same_component_shell(cs[i], a)
                                &&& a.entity().ports.entity().ports@ == if component_index(cs, id)
                                    == i {
                                    placed_all(ports, adds_for(all.subrange(t - 1, n), id))
                                } else {
                                    ports
                                }
                            } by {
                                lemma_adds_for_step(all, t, cs[i].entity().sig.id);
                                assert(entity.components@[i] == old_entity.components@[i]);
                            }
                            assert forall|i: int| 0 <= i < ns.len() implies {
                                let a = #[trigger] entity.compositions@[i];
                                let id = ns[i].entity().sig.id;
                                let ports = ns[i].entity().ports.entity().ports@;
                                &&& same_composition_shell(ns[i], a)
                                &&& a.entity().ports.entity().ports@ == if component_index(cs, id)
                                    < 0 && composition_index(ns, id) == i {
                                    placed_all(ports, adds_for(all.subrange(t - 1, n), id))
                                } else {
                                    ports
                                }
                            } by {
                                lemma_adds_for_step(all, t, ns[i].entity().sig.id);
                                assert(entity.compositions@[i] == old_entity.compositions@[i]);
                            }
                            lemma_adds_for_step(all, t, before.sig.id);
                        }
                    },
                }
            },
        }
    }
    assert(all.subrange(0, n) =~= all);
}

/// Groups the connections that run between the same two components, when each of their ports
/// is connected once: each such run of two or more connections gets a port on each side that
/// holds their ports, and one connection between those two ports. The grouped ports are made
/// invisible, each connection shows the group port of an end that was grouped, and a
/// connection whose both ends were grouped is hidden.
/// The composition as grouping its connections leaves it, with the ids it makes up counted
/// from `start`: the groups planned, the connections regrouped with the joining links after
/// them, the group ports placed, and everything else as it was.
pub open spec fn grouped_as(before: Composition, after: Composition, start: int) -> bool {
    &&& exists|added: Seq<(usize, Representation<Port>)>, links: Seq<Representation<Connection>>|
        {
            &&& plan_ok(before, start, added, links)
            &&& after.connections@ == before.connections@.map_values(
                |r: Representation<Connection>| with_conn(r, regrouped(r.entity(), added)),
            ) + links
            &&& ports_placed(before, after, added)
        }
    &&& after.sig == before.sig
    &&& after.parent == before.parent
    &&& after.components@.len() == before.components@.len()
    &&& forall|i: int|
        0 <= i < before.components@.len() ==> same_component_shell(
            before.components@[i],
            #[trigger] after.components@[i],
        )
    &&& after.compositions@.len() == before.compositions@.len()
    &&& forall|i: int|
        0 <= i < before.compositions@.len() ==> same_composition_shell(
            before.compositions@[i],
            #[trigger] after.compositions@[i],
        )
    &&& same_ports_shell(before.ports, after.ports)
}

pub fn group_ports(entity: &mut Composition, sig_producer: &mut SignatureProducer)
    requires
        old(entity).connections@.len() <= usize::MAX / 2,
        old(sig_producer).value() + 3 * grouping(
            old(entity).connections@,
            old(entity).ports.entity().ports@,
        ).len() <= usize::MAX,
    ensures
        final(sig_producer).value() == old(sig_producer).value() + 3 * grouping(
            old(entity).connections@,
            old(entity).ports.entity().ports@,
        ).len(),
        grouped_as(*old(entity), *final(entity), old(sig_producer).value() as int),
        grouping(old(entity).connections@, old(entity).ports.entity().ports@).len()
            <= old(entity).connections@.len(),
        final(entity).connections@.len() == old(entity).connections@.len() + grouping(
            old(entity).connections@,
            old(entity).ports.entity().ports@,
        ).len(),
{
    let ghost start = sig_producer.value() as int;
    let ghost before = *entity;
    proof {
        lemma_grouping_len(before.connections@, before.ports.entity().ports@);
    }
    let gs = collect_groups(entity.connections.as_slice(), entity.ports.origin());
    let (added, mut links) = join_groups(entity, &gs, sig_producer);
    let ghost added_v = added@;
    let ghost links_v = links@;
    assert(plan_ok(before, start, added_v, links_v));
    regroup(&mut entity.connections, &added);
    entity.connections.append(&mut links);
    let ghost mid = *entity;
    place_ports(entity, added);
    assert(ports_placed(before, *entity, added_v)) by {
        assert(mid.components == before.components);
        assert(mid.compositions == before.compositions);
        assert(mid.ports == before.ports);
    }
}

proof fn lemma_add_pair_len(gs: Seq<Group>, key: (usize, usize), pair: (usize, usize))
    ensures
        add_pair(gs, key, pair).len() <= gs.len() + 1,
{
    lemma_key_index(gs, key);
}

proof fn lemma_groups_of_len(
    all: Seq<Representation<Connection>>,
    own: Seq<Representation<Port>>,
    n: int,
)
    requires
        0 <= n,
    ensures
        groups_of(all, own, n).len() <= n,
    decreases n,
{
    if n > 0 {
        lemma_groups_of_len(all, own, n - 1);
        let g = groups_of(all, own, n - 1);
        let c = all[n - 1].entity();
        lemma_add_pair_len(
            g,
            (c.joint_in.component, c.joint_out.component),
            (shown_port(c.joint_in), shown_port(c.joint_out)),
        );
    }
}

proof fn lemma_joinable_len(gs: Seq<Group>)
    ensures
        joinable(gs).len() <= gs.len(),
    decreases gs.len(),
{
    if gs.len() > 0 {
        lemma_joinable_len(gs.drop_last());
    }
}

pub proof fn lemma_grouping_len(all: Seq<Representation<Connection>>, own: Seq<Representation<Port>>)
    ensures
        grouping(all, own).len() <= all.len(),
{
    lemma_groups_of_len(all, own, all.len() as int);
    lemma_joinable_len(groups_of(all, own, all.len() as int));
}

/// The ids of the ports that neither are connected nor hold other ports.
pub open spec fn unbound_ids(ports: Seq<Representation<Port>>) -> Seq<usize>
    decreases ports.len(),
{
    if ports.len() == 0 {
        seq![]
    } else {
        let p = ports.last().entity();
        if p.connected@.is_empty() && p.contains@.len() == 0 {
            unbound_ids(ports.drop_last()).push(p.sig.id)
        } else {
            unbound_ids(ports.drop_last())
        }
    }
}

/// The ports are gathered: there are at least two unbound ones.
pub open spec fn gathers(ports: Seq<Representation<Port>>) -> bool {
    unbound_ids(ports).len() >= 2
}

/// The port that stands for the unbound ports.
pub open spec fn unbound_port(r: Representation<Port>, id: usize, contains: Seq<usize>) -> bool {
    let p = r.entity();
    &&& r is Origin
    &&& p.sig.id == id
    &&& p.sig.class_name@ == "unbound grouped"@
    &&& p.sig.short_name@ == "unbound grouped"@
    &&& p.port_type == PortType::Left
    &&& p.provided_interface.is_none()
    &&& p.provided_required_interface.is_none()
    &&& p.required_interface.is_none()
    &&& p.contains@ == contains
    &&& p.connected@ == Map::<usize, usize>::empty()
    &&& p.visibility
    &&& p.label.is_none()
}

/// The ports after gathering: when at least two are unbound, those are made invisible and a
/// port with the id that holds them comes first; otherwise nothing changes.
pub open spec fn gathered(before: Seq<Representation<Port>>, after: Seq<Representation<Port>>, id: int) -> bool {
    let u = unbound_ids(before);
    if gathers(before) {
        &&& after.len() == before.len() + 1
        &&& unbound_port(after[0], id as usize, u)
        &&& after.drop_first() == concealed(before, u)
    } else {
        after == before
    }
}

/// How many of the first `n` components gather their ports.
pub open spec fn gatherings(cs: Seq<Representation<Component>>, n: int) -> nat
    decreases n,
{
    if n <= 0 {
        0
    } else {
        gatherings(cs, n - 1) + if gathers(cs[n - 1].entity().ports.entity().ports@) {
            1nat
        } else {
            0nat
        }
    }
}

/// How many ports of the composition itself are gathered: one group or none.
pub open spec fn own_gathering(e: Composition) -> nat {
    if gathers(e.ports.entity().ports@) {
        1
    } else {
        0
    }
}

/// The ids of the unbound ports.
fn collect_unbound(ports: &Ports) -> (res: Vec<usize>)
    ensures
        res@ == unbound_ids(ports.ports@),
{
    let mut res: Vec<usize> = Vec::new();
    let mut i: usize = 0;
    assert(ports.ports@.subrange(0, 0) =~= Seq::<Representation<Port>>::empty());
    while i < ports.ports.len()
        invariant
            0 <= i <= ports.ports@.len(),
            res@ == unbound_ids(ports.ports@.subrange(0, i as int)),
        decreases ports.ports@.len() - i,
    {
        let ghost sub = ports.ports@.subrange(0, i + 1);
        assert(sub.drop_last() =~= ports.ports@.subrange(0, i as int));
        let p = ports.ports[i].origin();
        if p.connected.is_empty() && p.contains.len() == 0 {
            res.push(p.sig.id);
        }
        i = i + 1;
    }
    assert(ports.ports@.subrange(0, ports.ports@.len() as int) =~= ports.ports@);
    res
}

/// Gathers the unbound ports, when there are at least two, under a port placed first.
fn gather_unbound(ports: &mut Ports, sig_producer: &mut SignatureProducer)
    requires
        gathers(old(ports).ports@) ==> old(sig_producer).value() < usize::MAX,
    ensures
        final(sig_producer).value() == old(sig_producer).value() + if gathers(old(ports).ports@) {
            1int
        } else {
            0int
        },
        gathered(old(ports).ports@, final(ports).ports@, final(sig_producer).value() as int),
        final(ports).hide_invisible == old(ports).hide_invisible,
        final(ports).sig == old(ports).sig,
{
    let unbound = collect_unbound(ports);
    if unbound.len() == 0 || unbound.len() == 1 {
        return;
    }
    ports.conceal(unbound.as_slice());
    let ghost mid = ports.ports@;
    assert(mid =~= concealed(old(ports).ports@, unbound@));
    let sig = sig_producer.next_for("unbound grouped");
    let port = Port {
        provided_interface: None,
        provided_required_interface: None,
        required_interface: None,
        sig,
        port_type: PortType::Left,
        contains: unbound,
        connected: HashMap::new(),
        visibility: true,
        label: None,
    };
    ports.add(Representation::Origin(port), Some(0));
    assert(ports.ports@.drop_first() =~= mid);
}

proof fn lemma_gatherings_le(cs: Seq<Representation<Component>>, n: int)
    requires
        0 <= n <= cs.len(),
    ensures
        gatherings(cs, n) <= n,
    decreases n,
{
    if n > 0 {
        lemma_gatherings_le(cs, n - 1);
    }
}

/// Gathers the ports that are neither connected nor hold other ports, of the composition and
/// of each component, where there are at least two: they are made invisible and one port that
/// holds them is put first.
/// The composition as gathering unbound ports leaves it, with the ids it makes up counted
/// from `start`: its own ports gathered first, then the ports of each component in turn, and
/// everything else as it was.
pub open spec fn gathered_as(before: Composition, after: Composition, start: int) -> bool {
    &&& same_ports_shell(before.ports, after.ports)
    &&& gathered(before.ports.entity().ports@, after.ports.entity().ports@, start + 1)
    &&& after.components@.len() == before.components@.len()
    &&& forall|i: int|
        0 <= i < before.components@.len() ==> {
            let b = before.components@[i];
            let a = #[trigger] after.components@[i];
            &&& same_component_shell(b, a)
            &&& gathered(
                b.entity().ports.entity().ports@,
                a.entity().ports.entity().ports@,
                start + own_gathering(before) + gatherings(before.components@, i) + 1,
            )
        }
    &&& after.sig == before.sig
    &&& after.connections == before.connections
    &&& after.compositions == before.compositions
    &&& after.parent == before.parent
}

pub fn group_unbound_ports(entity: &mut Composition, sig_producer: &mut SignatureProducer)
    requires
        old(sig_producer).value() + own_gathering(*old(entity)) + gatherings(
            old(entity).components@,
            old(entity).components@.len() as int,
        ) <= usize::MAX,
    ensures
        final(sig_producer).value() == old(sig_producer).value() + own_gathering(*old(entity))
            + gatherings(old(entity).components@, old(entity).components@.len() as int),
        gathered_as(*old(entity), *final(entity), old(sig_producer).value() as int),
{
    let ghost start = sig_producer.value() as int;
    let ghost before = *entity;
    let ghost cs = before.components@;
    proof {
        lemma_gatherings_le(cs, cs.len() as int);
    }
    gather_unbound(entity.ports.origin_mut(), sig_producer);
    let ghost base = start + own_gathering(before);
    let mut i: usize = 0;
    while i < entity.components.len()
        invariant
            0 <= i <= entity.components@.len(),
            entity.components@.len() == cs.len(),
            base + gatherings(cs, cs.len() as int) <= usize::MAX,
            sig_producer.value() == base + gatherings(cs, i as int),
            forall|j: int|
                0 <= j < i ==> {
                    let a = #[trigger] entity.components@[j];
                    &&& same_component_shell(cs[j], a)
                    &&& gathered(
                        cs[j].entity().ports.entity().ports@,
                        a.entity().ports.entity().ports@,
                        base + gatherings(cs, j) + 1,
                    )
                },
            forall|j: int| i <= j < cs.len() ==> #[trigger] entity.components@[j] == cs[j],
            entity.sig == before.sig,
            entity.connections == before.connections,
            entity.compositions == before.compositions,
            entity.parent == before.parent,
            same_ports_shell(before.ports, entity.ports),
            gathered(before.ports.entity().ports@, entity.ports.entity().ports@, start + 1),
        decreases cs.len() - i,
    {
        proof {
            lemma_gatherings_mono(cs, i as int + 1, cs.len() as int);
        }
        gather_unbound(entity.components[i].origin_mut().ports.origin_mut(), sig_producer);
        i = i + 1;
    }
}

proof fn lemma_gatherings_mono(cs: Seq<Representation<Component>>, a: int, b: int)
    requires
        0 <= a <= b,
    ensures
        gatherings(cs, a) <= gatherings(cs, b),
    decreases b - a,
{
    if a < b {
        lemma_gatherings_mono(cs, a, b - 1);
    }
}

/// Gathering takes at most one signature for the composition and one for each component.
pub proof fn lemma_gatherings_bound(e: Composition)
    ensures
        own_gathering(e) + gatherings(e.components@, e.components@.len() as int) <= 1
            + e.components@.len(),
{
    lemma_gatherings_le(e.components@, e.components@.len() as int);
}

proof fn lemma_holder_some(added: Seq<(usize, Representation<Port>)>, id: usize, k: int)
    requires
        0 <= k < added.len(),
        added[k].1.entity().contains@.contains(id),
    ensures
        holder(added, id) is Some,
    decreases added.len(),
{
    if k < added.len() - 1 {
        lemma_holder_some(added.drop_last(), id, k);
    }
}

/// A connection whose in port is held by the in side of a group and whose out port is held by
/// the out side of a group is hidden by grouping: the joined connection stands for it.
pub proof fn law_grouped_connection_hidden(
    e: Composition,
    start: int,
    added: Seq<(usize, Representation<Port>)>,
    links: Seq<Representation<Connection>>,
    c: Connection,
    k: int,
    m: int,
)
    requires
        plan_ok(e, start, added, links),
        0 <= k < grouping(e.connections@, e.ports.entity().ports@).len(),
        0 <= m < grouping(e.connections@, e.ports.entity().ports@).len(),
        firsts(grouping(e.connections@, e.ports.entity().ports@)[k].1).contains(shown_port(c.joint_in)),
        seconds(grouping(e.connections@, e.ports.entity().ports@)[m].1).contains(shown_port(c.joint_out)),
    ensures
        !regrouped(c, added).visibility,
{
    let gs = grouping(e.connections@, e.ports.entity().ports@);
    assert(joined_ok(e, gs[k], start + 3 * k, added[2 * k], added[2 * k + 1], links[k]));
    assert(joined_ok(e, gs[m], start + 3 * m, added[2 * m], added[2 * m + 1], links[m]));
    lemma_holder_some(added, shown_port(c.joint_in), 2 * k);
    lemma_holder_some(added, shown_port(c.joint_out), 2 * m + 1);
}

/// Making the same ports invisible twice is the same as doing it once.
pub proof fn law_conceal_twice(ports: Seq<Representation<Port>>, ids: Seq<usize>)
    ensures
        concealed(concealed(ports, ids), ids) == concealed(ports, ids),
{
    let once = concealed(ports, ids);
    let twice = concealed(once, ids);
    assert forall|i: int| 0 <= i < ports.len() implies #[trigger] twice[i] == once[i] by {
        let r = ports[i];
        if ids.contains(r.entity().sig.id) {
            assert(once[i] == with_visibility(r, false));
            assert(once[i].entity().sig.id == r.entity().sig.id);
            match r {
                Representation::Origin(p) => {},
                Representation::Render(rd) => {},
            }
        }
    }
    assert(twice =~= once);
}

} // verus!
