use vstd::prelude::*;

use std::collections::HashMap;

use crate::entity::dummy::{random_bool, random_in, Dummy, SignatureProducer};
use crate::entity::{Port, PortType, Ports};
use crate::render::Representation;

verus! {

impl Dummy<Port, ()> for Port {
    open spec fn signatures_needed(options: ()) -> nat {
        1
    }

    open spec fn accepts(options: ()) -> bool {
        true
    }

    fn dummy(producer: &mut SignatureProducer, options: ()) -> (res: Port)
        ensures
            final(producer).value() == old(producer).value() + 1,
            res.sig.id == final(producer).value(),
            res.contains@.len() == 0,
            res.connected@.is_empty(),
            res.visibility,
            res.label.is_none(),
            res.provided_interface.is_none(),
            res.provided_required_interface.is_none(),
            res.required_interface.is_none(),
    {
        let sig = producer.next();
        Port {
            provided_interface: None,
            provided_required_interface: None,
            required_interface: None,
            sig,
            port_type: if random_bool() {
                PortType::Left
            } else {
                PortType::Right
            },
            contains: Vec::new(),
            connected: HashMap::new(),
            visibility: true,
            label: None,
        }
    }
}

/// Counts of ports from `.0` to `.1`, both included.
impl Dummy<Ports, (usize, usize)> for Ports {
    open spec fn signatures_needed(options: (usize, usize)) -> nat {
        options.1 as nat
    }

    open spec fn accepts(options: (usize, usize)) -> bool {
        options.0 <= options.1
    }

    fn dummy(producer: &mut SignatureProducer, options: (usize, usize)) -> (res: Ports)
        ensures
            options.0 <= res.ports@.len() <= options.1,
            final(producer).value() == old(producer).value() + res.ports@.len(),
            forall|i: int|
                0 <= i < res.ports@.len() ==> #[trigger] res.ports@[i] is Origin
                    && res.ports@[i].entity().sig.id == old(producer).value() + i + 1,
            res.hide_invisible,
    {
        let count = random_in(options.0, options.1);
        let mut instance = Ports::new();
        let mut i: usize = 0;
        while i < count
            invariant
                0 <= i <= count,
                count <= options.1,
                old(producer).value() + options.1 <= usize::MAX,
                producer.value() == old(producer).value() + i,
                instance.ports@.len() == i,
                instance.hide_invisible,
                forall|j: int|
                    0 <= j < i ==> #[trigger] instance.ports@[j] is Origin
                        && instance.ports@[j].entity().sig.id == old(producer).value() + j + 1,
            decreases count - i,
        {
            let port = Port::dummy(producer, ());
            instance.push(port);
            i = i + 1;
        }
        instance
    }
}

} // verus!
