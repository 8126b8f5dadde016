use vstd::prelude::*;

use crate::entity::dummy::{Dummy, SignatureProducer};
use crate::entity::{Component, Ports};
use crate::render::Representation;

verus! {

/// Counts of ports from `.0` to `.1`, both included.
impl Dummy<Component, (usize, usize)> for Component {
    open spec fn signatures_needed(options: (usize, usize)) -> nat {
        (1 + options.1) as nat
    }

    open spec fn accepts(options: (usize, usize)) -> bool {
        options.0 <= options.1
    }

    fn dummy(producer: &mut SignatureProducer, options: (usize, usize)) -> (res: Component)
        ensures
            res.sig.id == old(producer).value() + 1,
            res.ports is Origin,
            options.0 <= res.ports.entity().ports@.len() <= options.1,
            final(producer).value() == old(producer).value() + 1 + res.ports.entity().ports@.len(),
            forall|i: int|
                0 <= i < res.ports.entity().ports@.len() ==> #[trigger] res.ports.entity().ports@[i] is Origin,
            !res.composition,
    {
        let sig = producer.next();
        let ports = Ports::dummy(producer, options);
        Component { sig, ports: Representation::Origin(ports), composition: false }
    }
}

} // verus!
