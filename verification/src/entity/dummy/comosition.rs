use vstd::prelude::*;

use crate::entity::dummy::{random_in, Dummy, SignatureProducer};
use crate::entity::{Component, Composition, Connection, Joint, PortType};
use crate::render::Representation;

verus! {

/// The ports a component holds.
pub open spec fn port_count(c: Component) -> nat {
    c.ports.entity().ports@.len()
}

/// How many connections a made-up composition gets from the pair of components at `k` and
/// `k + 1` and the pairs after it: as many as the smaller of the two has ports, pair by pair.
pub open spec fn pair_links(cs: Seq<Representation<Component>>, k: int) -> nat
    decreases cs.len() - k,
{
    if 0 <= k && k + 1 < cs.len() {
        let a = port_count(cs[k].entity());
        let b = port_count(cs[k + 1].entity());
        (if a < b {
            a
        } else {
            b
        }) + pair_links(cs, k + 2)
    } else {
        0
    }
}

/// Lists of components with the same port counts get the same links.
proof fn lemma_pair_links_same(a: Seq<Representation<Component>>, b: Seq<Representation<Component>>, k: int)
    requires
        a.len() == b.len(),
        forall|j: int| 0 <= j < a.len() ==> port_count(#[trigger] a[j].entity()) == port_count(b[j].entity()),
    ensures
        pair_links(a, k) == pair_links(b, k),
    decreases a.len() - k,
{
    if 0 <= k && k + 1 < a.len() {
        assert(port_count(a[k].entity()) == port_count(b[k].entity()));
        assert(port_count(a[k + 1].entity()) == port_count(b[k + 1].entity()));
        lemma_pair_links_same(a, b, k + 2);
    }
}

/// The connection joins a component of the list to the one after it.
pub open spec fn joins_neighbours(c: Connection, cs: Seq<Representation<Component>>) -> bool {
    exists|m: int|
        0 <= m && m + 1 < cs.len() && c.joint_in.component == cs[m].entity().sig.id
            && c.joint_out.component == #[trigger] cs[m + 1].entity().sig.id
}

/// Links the ports at `selected` of the components at `k` and `k + 1`, the first one as the
/// start of the connection.
fn link_pair(
    instance: &mut Composition,
    connections: &mut Vec<Connection>,
    producer: &mut SignatureProducer,
    k: usize,
    selected: usize,
) 
    requires
        k + 1 < old(instance).components.len(),
        selected < port_count(old(instance).components@[k as int].entity()),
        selected < port_count(old(instance).components@[k + 1].entity()),
        old(producer).value() < usize::MAX,
    ensures
        final(producer).value() == old(producer).value() + 1,
        final(instance).components@.len() == old(instance).components@.len(),
        forall|j: int|
            0 <= j < old(instance).components@.len() ==> #[trigger] port_count(
                final(instance).components@[j].entity(),
            ) == port_count(old(instance).components@[j].entity()),
        forall|j: int|
            0 <= j < old(instance).components@.len() ==> (#[trigger] final(instance).components@[j]).entity().sig
                == old(instance).components@[j].entity().sig,
        final(instance).sig == old(instance).sig,
        final(instance).connections == old(instance).connections,
        final(instance).compositions == old(instance).compositions,
        final(instance).parent == old(instance).parent,
        final(connections)@.len() == old(connections)@.len() + 1,
        final(connections)@.drop_last() == old(connections)@,
        final(connections)@.last().joint_in.component == old(instance).components@[k as int].entity().sig.id,
        final(connections)@.last().joint_out.component == old(instance).components@[k + 1].entity().sig.id,
{
    instance.components[k].origin_mut().ports.origin_mut().get_mut(selected).set_type(
        PortType::Left,
    );
    let k1 = k + 1;
    instance.components[k1].origin_mut().ports.origin_mut().get_mut(selected).set_type(
        PortType::Right,
    );
    let left = &instance.components[k];
    let right = &instance.components[k + 1];
    let sig = producer.next();
    connections.push(
        Connection::new(
            sig,
            Joint::new(left.origin().ports.origin().get(selected).sig.id, left.origin().sig.id),
            Joint::new(right.origin().ports.origin().get(selected).sig.id, right.origin().sig.id),
        ),
    );
}

/// `.0`: how many components, `.1`: how many ports each; both ranges include their ends.
impl Dummy<Composition, ((usize, usize), (usize, usize))> for Composition {
    open spec fn signatures_needed(options: ((usize, usize), (usize, usize))) -> nat {
        (1 + options.0.1 * (1 + 2 * options.1.1)) as nat
    }

    open spec fn accepts(options: ((usize, usize), (usize, usize))) -> bool {
        options.0.0 <= options.0.1 && options.1.0 <= options.1.1
    }

    fn dummy(producer: &mut SignatureProducer, options: ((usize, usize), (usize, usize))) -> (res:
        Composition)
        ensures
            res.sig.id == old(producer).value() + 1,
            options.0.0 <= res.components@.len() <= options.0.1,
            forall|i: int|
                0 <= i < res.components@.len() ==> options.1.0 <= port_count(
                    #[trigger] res.components@[i].entity(),
                ) <= options.1.1,
            res.connections@.len() == pair_links(res.components@, 0),
            forall|i: int|
                0 <= i < res.connections@.len() ==> joins_neighbours(
                    #[trigger] res.connections@[i].entity(),
                    res.components@,
                ),
            res.compositions@.len() == 0,
            res.parent.is_none(),
    {
        let (components, ports) = options;
        let ghost start = producer.value() as int;
        let ghost chi = components.1 as int;
        let ghost phi = ports.1 as int;
        assert(0 <= chi * (1 + 2 * phi)) by (nonlinear_arith)
            requires
                0 <= chi,
                0 <= phi,
        ;
        let mut instance = Composition::new(producer.next());
        let mut connections: Vec<Connection> = Vec::new();
        let count = random_in(components.0, components.1);
        let mut i: usize = 0;
        while i < count
            invariant
                0 <= i <= count <= chi,
                0 <= phi,
                ports.0 <= ports.1 == phi,
                start + 1 + chi * (1 + 2 * phi) <= usize::MAX,
                producer.value() <= start + 1 + i * (1 + phi),
                producer.value() >= start + 1,
                instance.sig.id == start + 1,
                instance.components@.len() == i,
                instance.connections@.len() == 0,
                instance.compositions@.len() == 0,
                instance.parent.is_none(),
                forall|j: int|
                    0 <= j < i ==> ports.0 <= port_count(#[trigger] instance.components@[j].entity())
                        <= phi,
            decreases count - i,
        {
            assert((i + 1) * (1 + phi) <= chi * (1 + 2 * phi)) by (nonlinear_arith)
                requires
                    i + 1 <= chi,
                    0 <= phi,
            ;
            assert((i + 1) * (1 + phi) == i * (1 + phi) + 1 + phi) by (nonlinear_arith);
            let component = Component::dummy(producer, ports);
            instance.push_component(component);
            i = i + 1;
        }
        let ghost cs = instance.components@;
        let mut k: usize = 0;
        while count - k > 1
            invariant
                0 <= k <= count <= chi,
                cs.len() == count,
                producer.value() >= start + 1,
                0 <= phi,
                start + 1 + chi * (1 + 2 * phi) <= usize::MAX,
                producer.value() <= start + 1 + count * (1 + phi) + k * phi,
                instance.sig.id == start + 1,
                instance.components@.len() == count,
                instance.connections@.len() == 0,
                instance.compositions@.len() == 0,
                instance.parent.is_none(),
                forall|j: int|
                    0 <= j < count ==> port_count(#[trigger] instance.components@[j].entity())
                        == port_count(cs[j].entity()) && instance.components@[j].entity().sig
                        == cs[j].entity().sig,
                forall|j: int|
                    0 <= j < count ==> ports.0 <= port_count(#[trigger] cs[j].entity()) <= phi,
                connections@.len() + pair_links(cs, k as int) == pair_links(cs, 0),
                forall|j: int|
                    0 <= j < connections@.len() ==> joins_neighbours(#[trigger] connections@[j], cs),
            decreases count - k,
        {
            let left_len = instance.components[k].origin().ports.origin().len();
            let right_len = instance.components[k + 1].origin().ports.origin().len();
            let min = if left_len < right_len {
                left_len
            } else {
                right_len
            };
            assert(count * (1 + phi) + (k + 2) * phi <= chi * (1 + 2 * phi)) by (nonlinear_arith)
                requires
                    k + 2 <= count <= chi,
                    0 <= phi,
            ;
            assert((k + 2) * phi == k * phi + 2 * phi) by (nonlinear_arith);
            assert(port_count(cs[k as int].entity()) == left_len);
            assert(port_count(cs[k + 1].entity()) == right_len);
            let ghost before = connections@.len();
            let mut n: usize = 0;
            while n < min
                invariant
                    0 <= n <= min,
                    k + 1 < count,
                    cs.len() == count,
                    min <= port_count(cs[k as int].entity()),
                    min <= port_count(cs[k + 1].entity()),
                    min <= phi,
                    start + 1 + count * (1 + phi) + k * phi + phi <= usize::MAX,
                    producer.value() <= start + 1 + count * (1 + phi) + k * phi + n,
                    producer.value() >= start + 1,
                    instance.sig.id == start + 1,
                    instance.components@.len() == count,
                    instance.connections@.len() == 0,
                    instance.compositions@.len() == 0,
                    instance.parent.is_none(),
                    forall|j: int|
                        0 <= j < count ==> port_count(#[trigger] instance.components@[j].entity())
                            == port_count(cs[j].entity()) && instance.components@[j].entity().sig
                            == cs[j].entity().sig,
                    connections@.len() == before + n,
                    forall|j: int|
                        0 <= j < connections@.len() ==> joins_neighbours(#[trigger] connections@[j], cs),
                decreases min - n,
            {
                let selected = random_in(0, min - 1);
                let ghost old_conns = connections@;
                link_pair(&mut instance, &mut connections, producer, k, selected);
                assert forall|j: int| 0 <= j < connections@.len() implies joins_neighbours(
                    #[trigger] connections@[j],
                    cs,
                ) by {
                    if j < old_conns.len() {
                        assert(connections@[j] == connections@.drop_last()[j]);
                    } else {
                        assert(connections@[j] == connections@.last());
                        assert(cs[k + 1].entity().sig.id == connections@[j].joint_out.component);
                    }
                }
                n = n + 1;
            }
            k = k + 2;
        }
        assert(count * (1 + phi) + k * phi <= chi * (1 + 2 * phi)) by (nonlinear_arith)
            requires
                k <= count <= chi,
                0 <= phi,
        ;
        let ghost final_cs = instance.components@;
        proof {
            lemma_pair_links_same(cs, final_cs, 0);
        }
        let ghost made = connections@;
        let mut c: usize = 0;
        let n_conns = connections.len();
        while c < n_conns
            invariant
                0 <= c <= n_conns,
                made.len() == n_conns,
                connections@ == made.subrange(c as int, n_conns as int),
                instance.connections@.len() == c,
                forall|j: int|
                    0 <= j < c ==> (#[trigger] instance.connections@[j]).entity() == made[j],
                instance.sig.id == start + 1,
                instance.components@ == final_cs,
                instance.compositions@.len() == 0,
                instance.parent.is_none(),
                cs.len() == count,
                count <= chi,
                start + 1 <= producer.value() <= start + 1 + chi * (1 + 2 * phi),
            decreases n_conns - c,
        {
            let conn = connections.remove(0);
            assert(conn == made[c as int]);
            instance.push_connection(conn);
            assert(connections@ =~= made.subrange(c + 1, n_conns as int));
            c = c + 1;
        }
        assert forall|i: int| 0 <= i < instance.connections@.len() implies joins_neighbours(
            #[trigger] instance.connections@[i].entity(),
            instance.components@,
        ) by {
            assert(joins_neighbours(made[i], cs));
            let m = choose|m: int|
                0 <= m && m + 1 < cs.len() && made[i].joint_in.component == cs[m].entity().sig.id
                    && made[i].joint_out.component == #[trigger] cs[m + 1].entity().sig.id;
            assert(final_cs[m].entity().sig == cs[m].entity().sig);
            assert(final_cs[m + 1].entity().sig == cs[m + 1].entity().sig);
        }
        instance
    }
}

} // verus!
