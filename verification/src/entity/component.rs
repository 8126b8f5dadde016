use vstd::prelude::*;

use crate::entity::port::{class_names, index_of_id, short_names};
use crate::entity::{label_text, texts, unique, EntityProps, Port, Ports, Signature, SignatureGetter};
use crate::render::options::Options;
use crate::render::Representation;

verus! {

#[derive(Debug)]
pub struct Component {
    pub sig: Signature,
    pub ports: Representation<Ports>,
    pub composition: bool,
}

impl SignatureGetter for Component {
    open spec fn signature(&self) -> Signature {
        self.sig
    }

    fn sig(&self) -> (res: &Signature) {
        &self.sig
    }
}

impl Component {
    pub fn get_label(&self, options: &Options) -> (res: String)
        ensures
            res@ == label_text(
                self.sig,
                options.labels.components_short_name,
                options.labels.comp_label_max_len,
            ),
    {
        self.sig.as_label(options.labels.components_short_name, options.labels.comp_label_max_len)
    }

    /// The first port of the component with the id.
    pub fn get_port(&self, port_id: &usize) -> (res: Option<&Port>)
        ensures
            ({
                let ps = self.ports.entity().ports@;
                let i = index_of_id(ps, *port_id);
                &&& i >= 0 ==> res == Some(&ps[i].entity())
                &&& i < 0 ==> res.is_none()
            }),
    {
        match self.ports.origin().find(port_id) {
            Some(r) => Some(r.origin()),
            None => None,
        }
    }

    pub fn get_ports_props(&self) -> (res: EntityProps)
        ensures
            texts(res.class_name@) == unique(class_names(self.ports.entity().ports@)),
            texts(res.short_name@) == unique(short_names(self.ports.entity().ports@)),
    {
        self.ports.origin().get_props()
    }
}

} // verus!
