use vstd::prelude::*;

use std::collections::HashMap;

use crate::entity::{label_text, EntityProps, Signature, SignatureGetter, push_unique, texts, unique};
use crate::render::options::Options;
use crate::render::Representation;
use crate::text::{contains_text, lowercase, occurs_in, to_lowercase};

verus! {

#[derive(Debug, Clone, Copy, PartialEq, Eq, Structural)]
pub enum PortType {
    Left,
    Right,
}

#[derive(Debug)]
pub struct Port {
    pub sig: Signature,
    pub port_type: PortType,
    pub provided_interface: Option<Signature>,
    pub provided_required_interface: Option<Signature>,
    pub required_interface: Option<Signature>,
    pub contains: Vec<usize>,
    pub connected: HashMap<usize, usize>,
    pub visibility: bool,
    pub label: Option<String>,
}

/// Two ports hold the same data.
pub open spec fn same_port(a: Port, b: Port) -> bool {
    &&& a.sig == b.sig
    &&& a.port_type == b.port_type
    &&& a.provided_interface == b.provided_interface
    &&& a.provided_required_interface == b.provided_required_interface
    &&& a.required_interface == b.required_interface
    &&& a.contains@ == b.contains@
    &&& a.connected@ == b.connected@
    &&& a.visibility == b.visibility
    &&& a.label == b.label
}

fn clone_sig(s: &Option<Signature>) -> (res: Option<Signature>)
    ensures
        res == *s,
{
    match s {
        Some(v) => Some(v.clone()),
        None => None,
    }
}

fn clone_ids(v: &Vec<usize>) -> (res: Vec<usize>)
    ensures
        res@ == v@,
{
    let mut res: Vec<usize> = Vec::new();
    let mut i: usize = 0;
    while i < v.len()
        invariant
            0 <= i <= v@.len(),
            res@ == v@.subrange(0, i as int),
        decreases v@.len() - i,
    {
        res.push(v[i]);
        i = i + 1;
        assert(res@ =~= v@.subrange(0, i as int));
    }
    assert(v@.subrange(0, v@.len() as int) =~= v@);
    res
}

impl Port {
    /// A copy of the port.
    pub fn duplicate(&self) -> (res: Port)
        ensures
            same_port(res, *self),
    {
        Port {
            sig: self.sig.clone(),
            port_type: self.port_type,
            provided_interface: clone_sig(&self.provided_interface),
            provided_required_interface: clone_sig(&self.provided_required_interface),
            required_interface: clone_sig(&self.required_interface),
            contains: clone_ids(&self.contains),
            connected: self.connected.clone(),
            visibility: self.visibility,
            label: match &self.label {
                Some(l) => Some(l.clone()),
                None => None,
            },
        }
    }

    pub fn set_type(&mut self, port_type: PortType)
        ensures
            *final(self) == (Port { port_type, ..*old(self) }),
    {
        self.port_type = port_type;
    }

    pub fn get_label(&self, options: &Options) -> (res: String)
        ensures
            res@ == label_text(
                self.sig,
                options.labels.ports_short_name,
                options.labels.port_label_max_len,
            ),
    {
        self.sig.as_label(options.labels.ports_short_name, options.labels.port_label_max_len)
    }
}

impl SignatureGetter for Port {
    open spec fn signature(&self) -> Signature {
        self.sig
    }

    fn sig(&self) -> (res: &Signature) {
        &self.sig
    }
}

#[derive(Debug)]
pub struct Ports {
    pub ports: Vec<Representation<Port>>,
    pub hide_invisible: bool,
    pub sig: Signature,
}

impl SignatureGetter for Ports {
    open spec fn signature(&self) -> Signature {
        self.sig
    }

    fn sig(&self) -> (res: &Signature) {
        &self.sig
    }
}

/// The ports held, whichever way each is held.
pub open spec fn entities(ports: Seq<Representation<Port>>) -> Seq<Port> {
    ports.map_values(|r: Representation<Port>| r.entity())
}

/// The ids of the ports.
pub open spec fn port_ids(ports: Seq<Representation<Port>>) -> Seq<usize> {
    ports.map_values(|r: Representation<Port>| r.entity().sig.id)
}

/// The position of the first port with the id, or -1.
pub open spec fn index_of_id(ports: Seq<Representation<Port>>, id: usize) -> int
    decreases ports.len(),
{
    if ports.len() == 0 {
        -1
    } else {
        let i = index_of_id(ports.drop_last(), id);
        if i >= 0 {
            i
        } else if ports.last().entity().sig.id == id {
            ports.len() - 1
        } else {
            -1
        }
    }
}

/// The short name of the port holds the filter, both lowercased.
pub open spec fn name_matches(filter: Seq<char>, p: Port) -> bool {
    occurs_in(lowercase(p.sig.short_name@), lowercase(filter))
}

/// One of the ids names a port of `all` whose name holds the filter.
pub open spec fn holds_match(all: Seq<Representation<Port>>, filter: Seq<char>, ids: Seq<usize>) -> bool {
    exists|k: int|
        0 <= k < ids.len() && index_of_id(all, #[trigger] ids[k]) >= 0 && name_matches(
            filter,
            all[index_of_id(all, ids[k])].entity(),
        )
}

/// A visible port is selected by the filter through its own name or, for a group, through a
/// member's name.
pub open spec fn selected(all: Seq<Representation<Port>>, filter: Seq<char>, p: Port) -> bool {
    &&& p.visibility
    &&& if p.contains@.len() == 0 {
        name_matches(filter, p)
    } else {
        holds_match(all, filter, p.contains@)
    }
}

/// The ids of the ports of `part` that the filter selects among `all`.
pub open spec fn selected_ids(
    all: Seq<Representation<Port>>,
    filter: Seq<char>,
    part: Seq<Representation<Port>>,
) -> Seq<usize>
    decreases part.len(),
{
    if part.len() == 0 {
        seq![]
    } else {
        let r = selected_ids(all, filter, part.drop_last());
        if selected(all, filter, part.last().entity()) {
            r.push(part.last().entity().sig.id)
        } else {
            r
        }
    }
}

/// The port is picked by the filter: it is visible, and its short name in lowercase holds the
/// filter in lowercase; or, for a group, the short name of one of its members does.
pub open spec fn picked_port(all: Seq<Representation<Port>>, filter: Seq<char>, p: Port) -> bool {
    &&& p.visibility
    &&& p.contains@.len() == 0 ==> occurs_in(lowercase(p.sig.short_name@), lowercase(filter))
    &&& p.contains@.len() > 0 ==> exists|j: int|
        0 <= j < p.contains@.len() && index_of_id(all, #[trigger] p.contains@[j]) >= 0 && occurs_in(
            lowercase(all[index_of_id(all, p.contains@[j])].entity().sig.short_name@),
            lowercase(filter),
        )
}

/// The filter picks exactly the ids of the ports it matches by short name, a group by the
/// short name of a member; the class name plays no part, and a hidden port is never picked.
pub proof fn law_filter_picks_by_short_name(
    all: Seq<Representation<Port>>,
    filter: Seq<char>,
    part: Seq<Representation<Port>>,
)
    ensures
        forall|x: usize|
            #[trigger] selected_ids(all, filter, part).contains(x) <==> exists|k: int|
                0 <= k < part.len() && part[k].entity().sig.id == x && picked_port(all, filter, part[k].entity()),
    decreases part.len(),
{
    if part.len() > 0 {
        let prev = part.drop_last();
        law_filter_picks_by_short_name(all, filter, prev);
        let o0 = selected_ids(all, filter, prev);
        let o = selected_ids(all, filter, part);
        let last = part.last().entity();
        assert(selected(all, filter, last) == picked_port(all, filter, last));
        assert forall|x: usize| #[trigger] o.contains(x) <==> exists|k: int|
            0 <= k < part.len() && part[k].entity().sig.id == x && picked_port(all, filter, part[k].entity()) by {
            if o.contains(x) {
                let q = choose|q: int| 0 <= q < o.len() && o[q] == x;
                if q < o0.len() {
                    assert(o0[q] == x);
                    assert(o0.contains(x));
                    let k = choose|k: int|
                        0 <= k < prev.len() && prev[k].entity().sig.id == x && picked_port(all, filter, prev[k].entity());
                    assert(part[k] == prev[k]);
                } else {
                    assert(part[part.len() - 1].entity().sig.id == x);
                }
            }
            if exists|k: int|
                0 <= k < part.len() && part[k].entity().sig.id == x && picked_port(all, filter, part[k].entity()) {
                let k = choose|k: int|
                    0 <= k < part.len() && part[k].entity().sig.id == x && picked_port(all, filter, part[k].entity());
                if k < part.len() - 1 {
                    assert(prev[k] == part[k]);
                    assert(o0.contains(x));
                    let q = choose|q: int| 0 <= q < o0.len() && o0[q] == x;
                    assert(o[q] == x);
                } else {
                    assert(o[o.len() - 1] == x);
                }
            }
        }
    }
}

/// The members among `ids` whose names hold the filter, each paired with the group.
pub open spec fn matching_members(
    all: Seq<Representation<Port>>,
    filter: Seq<char>,
    ids: Seq<usize>,
    parent: usize,
) -> Seq<(usize, Option<usize>)>
    decreases ids.len(),
{
    if ids.len() == 0 {
        seq![]
    } else {
        let r = matching_members(all, filter, ids.drop_last(), parent);
        let j = index_of_id(all, ids.last());
        if j >= 0 && name_matches(filter, all[j].entity()) {
            r.push((ids.last(), Some(parent)))
        } else {
            r
        }
    }
}

/// What one port adds to the expanded matches.
pub open spec fn expand_port(all: Seq<Representation<Port>>, filter: Seq<char>, p: Port) -> Seq<
    (usize, Option<usize>),
> {
    if !p.visibility {
        seq![]
    } else if p.contains@.len() == 0 {
        if name_matches(filter, p) {
            seq![(p.sig.id, None)]
        } else {
            seq![]
        }
    } else {
        matching_members(all, filter, p.contains@, p.sig.id)
    }
}

/// The expanded matches of the ports of `part`.
pub open spec fn expanded(
    all: Seq<Representation<Port>>,
    filter: Seq<char>,
    part: Seq<Representation<Port>>,
) -> Seq<(usize, Option<usize>)>
    decreases part.len(),
{
    if part.len() == 0 {
        seq![]
    } else {
        expanded(all, filter, part.drop_last()) + expand_port(all, filter, part.last().entity())
    }
}

/// The groups among the ports: each group's id with the ids it holds.
pub open spec fn groups(part: Seq<Representation<Port>>) -> Seq<(usize, Seq<usize>)>
    decreases part.len(),
{
    if part.len() == 0 {
        seq![]
    } else {
        let r = groups(part.drop_last());
        let p = part.last().entity();
        if p.contains@.len() == 0 {
            r
        } else {
            r.push((p.sig.id, p.contains@))
        }
    }
}

pub open spec fn group_views(v: Seq<(usize, Vec<usize>)>) -> Seq<(usize, Seq<usize>)> {
    v.map_values(|g: (usize, Vec<usize>)| (g.0, g.1@))
}

/// The class names of the ports, in order.
pub open spec fn class_names(part: Seq<Representation<Port>>) -> Seq<Seq<char>> {
    part.map_values(|r: Representation<Port>| r.entity().sig.class_name@)
}

/// The short names of the ports, in order.
pub open spec fn short_names(part: Seq<Representation<Port>>) -> Seq<Seq<char>> {
    part.map_values(|r: Representation<Port>| r.entity().sig.short_name@)
}

/// The port with its visibility set.
pub open spec fn with_visibility(r: Representation<Port>, v: bool) -> Representation<Port> {
    match r {
        Representation::Origin(p) => Representation::Origin(Port { visibility: v, ..p }),
        Representation::Render(rd) => Representation::Render(
            crate::render::Render { entity: Port { visibility: v, ..rd.entity }, ..rd },
        ),
    }
}

/// Whether the id is in the list.
pub fn contains_id(ids: &[usize], id: usize) -> (res: bool)
    ensures
        res == ids@.contains(id),
{
    let mut i: usize = 0;
    while i < ids.len()
        invariant
            0 <= i <= ids@.len(),
            forall|j: int| 0 <= j < i ==> ids@[j] != id,
        decreases ids@.len() - i,
    {
        if ids[i] == id {
            assert(ids@[i as int] == id);
            return true;
        }
        i = i + 1;
    }
    false
}

impl Default for Ports {
    fn default() -> (res: Self)
        ensures
            res.ports@.len() == 0,
            res.hide_invisible,
            res.sig.id == 0,
            res.sig.class_name@ == "fake"@,
            res.sig.short_name@ == "fake"@,
    {
        Self { ports: Vec::new(), hide_invisible: true, sig: Signature::default() }
    }
}

impl Ports {
    pub fn new() -> (res: Self)
        ensures
            res.ports@.len() == 0,
            res.hide_invisible,
            res.sig.id == 0,
            res.sig.class_name@ == "fake"@,
            res.sig.short_name@ == "fake"@,
    {
        Self { ports: Vec::new(), hide_invisible: true, sig: Signature::default() }
    }

    pub fn len(&self) -> (res: usize)
        ensures
            res == self.ports@.len(),
    {
        self.ports.len()
    }

    pub fn push(&mut self, port: Port)
        ensures
            final(self).ports@ == old(self).ports@.push(Representation::Origin(port)),
            final(self).hide_invisible == old(self).hide_invisible,
            final(self).sig == old(self).sig,
    {
        self.ports.push(Representation::Origin(port));
    }

    pub fn get(&self, index: usize) -> (res: &Port)
        requires
            index < self.ports@.len(),
        ensures
            *res == self.ports@[index as int].entity(),
    {
        self.ports[index].origin()
    }

    /// The port at the index, to change in place.
    pub fn get_mut(&mut self, index: usize) -> (res: &mut Port)
        requires
            index < old(self).ports@.len(),
        ensures
            *res == old(self).ports@[index as int].entity(),
            final(self).ports@.len() == old(self).ports@.len(),
            final(self).ports@[index as int].entity() == *final(res),
            final(self).ports@[index as int] is Origin <==> old(self).ports@[index as int] is Origin,
            forall|j: int|
                0 <= j < old(self).ports@.len() && j != index ==> #[trigger] final(self).ports@[j]
                    == old(self).ports@[j],
            final(self).hide_invisible == old(self).hide_invisible,
            final(self).sig == old(self).sig,
    {
        self.ports[index].origin_mut()
    }

    /// The position of the first port with the id.
    pub fn position(&self, port_id: usize) -> (res: Option<usize>)
        ensures
            match res {
                Some(i) => i == index_of_id(self.ports@, port_id),
                None => index_of_id(self.ports@, port_id) == -1,
            },
    {
        let mut i: usize = 0;
        while i < self.ports.len()
            invariant
                0 <= i <= self.ports@.len(),
                index_of_id(self.ports@.subrange(0, i as int), port_id) == -1,
            decreases self.ports@.len() - i,
        {
            let ghost sub = self.ports@.subrange(0, i + 1);
            assert(sub.drop_last() =~= self.ports@.subrange(0, i as int));
            if self.ports[i].sig().id == port_id {
                proof {
                    lemma_index_prefix(self.ports@, port_id, i + 1);
                }
                return Some(i);
            }
            i = i + 1;
        }
        assert(self.ports@.subrange(0, self.ports@.len() as int) =~= self.ports@);
        None
    }

    pub fn find(&self, port_id: &usize) -> (res: Option<&Representation<Port>>)
        ensures
            index_of_id(self.ports@, *port_id) >= 0 ==> res == Some(
                &self.ports@[index_of_id(self.ports@, *port_id)],
            ),
            index_of_id(self.ports@, *port_id) < 0 ==> res.is_none(),
    {
        proof {
            lemma_index_range(self.ports@, *port_id);
        }
        match self.position(*port_id) {
            Some(i) => Some(&self.ports[i]),
            None => None,
        }
    }

    pub fn get_props(&self) -> (res: EntityProps)
        ensures
            texts(res.class_name@) == unique(class_names(self.ports@)),
            texts(res.short_name@) == unique(short_names(self.ports@)),
    {
        let mut props = EntityProps::default();
        let mut i: usize = 0;
        assert(texts(props.class_name@) =~= unique(class_names(self.ports@.subrange(0, 0))));
        assert(texts(props.short_name@) =~= unique(short_names(self.ports@.subrange(0, 0))));
        while i < self.ports.len()
            invariant
                0 <= i <= self.ports@.len(),
                texts(props.class_name@) == unique(class_names(self.ports@.subrange(0, i as int))),
                texts(props.short_name@) == unique(short_names(self.ports@.subrange(0, i as int))),
            decreases self.ports@.len() - i,
        {
            let ghost sub = self.ports@.subrange(0, i + 1);
            assert(class_names(sub).drop_last() =~= class_names(self.ports@.subrange(0, i as int)));
            assert(short_names(sub).drop_last() =~= short_names(self.ports@.subrange(0, i as int)));
            let sig = self.ports[i].sig();
            push_unique(&mut props.class_name, &sig.class_name);
            push_unique(&mut props.short_name, &sig.short_name);
            i = i + 1;
        }
        assert(self.ports@.subrange(0, self.ports@.len() as int) =~= self.ports@);
        props
    }

    /// Copies of the ports, each held as it was given.
    pub fn cloned_ports(&self) -> (res: Vec<Representation<Port>>)
        ensures
            res@.len() == self.ports@.len(),
            forall|i: int|
                0 <= i < res@.len() ==> #[trigger] res@[i] is Origin && same_port(
                    res@[i].entity(),
                    self.ports@[i].entity(),
                ),
    {
        let mut res: Vec<Representation<Port>> = Vec::new();
        let mut i: usize = 0;
        while i < self.ports.len()
            invariant
                0 <= i <= self.ports@.len(),
                res@.len() == i,
                forall|j: int|
                    0 <= j < i ==> #[trigger] res@[j] is Origin && same_port(
                        res@[j].entity(),
                        self.ports@[j].entity(),
                    ),
            decreases self.ports@.len() - i,
        {
            res.push(Representation::Origin(self.ports[i].origin().duplicate()));
            i = i + 1;
        }
        res
    }

    /// A copy of the ports, with a default signature.
    pub fn clone(&self) -> (res: Ports)
        ensures
            res.ports@.len() == self.ports@.len(),
            forall|i: int|
                0 <= i < res.ports@.len() ==> #[trigger] res.ports@[i] is Origin && same_port(
                    res.ports@[i].entity(),
                    self.ports@[i].entity(),
                ),
            res.hide_invisible == self.hide_invisible,
            res.sig.id == 0,
            res.sig.class_name@ == "fake"@,
            res.sig.short_name@ == "fake"@,
    {
        Ports {
            ports: self.cloned_ports(),
            hide_invisible: self.hide_invisible,
            sig: Signature::default(),
        }
    }

    /// Makes the ports with the given ids invisible.
    pub fn conceal(&mut self, ids: &[usize])
        ensures
            final(self).ports@.len() == old(self).ports@.len(),
            forall|i: int|
                0 <= i < old(self).ports@.len() ==> #[trigger] final(self).ports@[i] == (if ids@.contains(
                    old(self).ports@[i].entity().sig.id,
                ) {
                    with_visibility(old(self).ports@[i], false)
                } else {
                    old(self).ports@[i]
                }),
            final(self).hide_invisible == old(self).hide_invisible,
            final(self).sig == old(self).sig,
    {
        let mut i: usize = 0;
        while i < self.ports.len()
            invariant
                0 <= i <= self.ports@.len(),
                self.ports@.len() == old(self).ports@.len(),
                self.hide_invisible == old(self).hide_invisible,
                self.sig == old(self).sig,
                forall|j: int|
                    0 <= j < i ==> #[trigger] self.ports@[j] == (if ids@.contains(
                        old(self).ports@[j].entity().sig.id,
                    ) {
                        with_visibility(old(self).ports@[j], false)
                    } else {
                        old(self).ports@[j]
                    }),
                forall|j: int| i <= j < self.ports@.len() ==> #[trigger] self.ports@[j] == old(
                    self,
                ).ports@[j],
            decreases self.ports@.len() - i,
        {
            let id = self.ports[i].sig().id;
            if contains_id(ids, id) {
                let mut r = self.ports.remove(i);
                set_visibility(&mut r, false);
                self.ports.insert(i, r);
            }
            i = i + 1;
        }
    }

    /// Inserts the port at the position, or adds it at the end.
    pub fn add(&mut self, port: Representation<Port>, pos: Option<usize>)
        requires
            match pos {
                Some(p) => p <= old(self).ports@.len(),
                None => true,
            },
        ensures
            final(self).ports@ == (match pos {
                Some(p) => old(self).ports@.insert(p as int, port),
                None => old(self).ports@.push(port),
            }),
            final(self).hide_invisible == old(self).hide_invisible,
            final(self).sig == old(self).sig,
    {
        if let Some(pos) = pos {
            self.ports.insert(pos, port);
        } else {
            self.ports.push(port);
        }
    }

    /// The groups: each port that holds others, with the ids it holds.
    pub fn get_grouped(&self) -> (res: Vec<(usize, Vec<usize>)>)
        ensures
            group_views(res@) == groups(self.ports@),
    {
        let mut ports: Vec<(usize, Vec<usize>)> = Vec::new();
        let mut i: usize = 0;
        while i < self.ports.len()
            invariant
                0 <= i <= self.ports@.len(),
                group_views(ports@) == groups(self.ports@.subrange(0, i as int)),
            decreases self.ports@.len() - i,
        {
            let ghost sub = self.ports@.subrange(0, i + 1);
            assert(sub.drop_last() =~= self.ports@.subrange(0, i as int));
            let p = self.ports[i].origin();
            if p.contains.len() != 0 {
                ports.push((p.sig.id, clone_ids(&p.contains)));
                assert(group_views(ports@) =~= groups(sub));
            }
            i = i + 1;
        }
        assert(self.ports@.subrange(0, self.ports@.len() as int) =~= self.ports@);
        ports
    }

    /// The name of the port holds the lowercased filter.
    fn is_filtered(filter_lower: &String, origin: &Port) -> (res: bool)
        ensures
            res == occurs_in(lowercase(origin.sig.short_name@), filter_lower@),
    {
        let name = to_lowercase(origin.sig.short_name.as_str());
        contains_text(name.as_str(), filter_lower.as_str())
    }

    /// A member of the group, found among the ports, has a name that holds the filter.
    fn member_matches(&self, filter_lower: &String, contains: &Vec<usize>, Ghost(filter): Ghost<
        Seq<char>,
    >) -> (res: bool)
        requires
            filter_lower@ == lowercase(filter),
        ensures
            res == holds_match(self.ports@, filter, contains@),
    {
        let mut k: usize = 0;
        while k < contains.len()
            invariant
                0 <= k <= contains@.len(),
                filter_lower@ == lowercase(filter),
                forall|j: int|
                    0 <= j < k ==> !(index_of_id(self.ports@, #[trigger] contains@[j]) >= 0
                        && name_matches(
                        filter,
                        self.ports@[index_of_id(self.ports@, contains@[j])].entity(),
                    )),
            decreases contains@.len() - k,
        {
            proof {
                lemma_index_range(self.ports@, contains@[k as int]);
            }
            if let Some(j) = self.position(contains[k]) {
                if Ports::is_filtered(filter_lower, self.ports[j].origin()) {
                    assert(index_of_id(self.ports@, contains@[k as int]) >= 0);
                    return true;
                }
            }
            k = k + 1;
        }
        false
    }

    /// The ids of the visible ports whose name, or a member's name, holds the filter, ignoring
    /// case.
    pub fn get_filtered_ports(&self, filter: &str) -> (res: Vec<usize>)
        ensures
            res@ == selected_ids(self.ports@, filter@, self.ports@),
    {
        let filter_lower = to_lowercase(filter);
        let mut res: Vec<usize> = Vec::new();
        let mut i: usize = 0;
        while i < self.ports.len()
            invariant
                0 <= i <= self.ports@.len(),
                filter_lower@ == lowercase(filter@),
                res@ == selected_ids(self.ports@, filter@, self.ports@.subrange(0, i as int)),
            decreases self.ports@.len() - i,
        {
            let ghost sub = self.ports@.subrange(0, i + 1);
            assert(sub.drop_last() =~= self.ports@.subrange(0, i as int));
            let origin = self.ports[i].origin();
            let keep = if !origin.visibility {
                false
            } else if origin.contains.len() == 0 {
                Ports::is_filtered(&filter_lower, origin)
            } else {
                self.member_matches(&filter_lower, &origin.contains, Ghost(filter@))
            };
            if keep {
                res.push(origin.sig.id);
            }
            i = i + 1;
        }
        assert(self.ports@.subrange(0, self.ports@.len() as int) =~= self.ports@);
        res
    }

    /// The matches of the filter, with each member of a group paired with its group.
    pub fn get_filtered_ports_expanded(&self, filter: &str) -> (res: Vec<(usize, Option<usize>)>)
        ensures
            res@ == expanded(self.ports@, filter@, self.ports@),
    {
        let filter_lower = to_lowercase(filter);
        let mut res: Vec<(usize, Option<usize>)> = Vec::new();
        let mut i: usize = 0;
        while i < self.ports.len()
            invariant
                0 <= i <= self.ports@.len(),
                filter_lower@ == lowercase(filter@),
                res@ == expanded(self.ports@, filter@, self.ports@.subrange(0, i as int)),
            decreases self.ports@.len() - i,
        {
            let ghost sub = self.ports@.subrange(0, i + 1);
            assert(sub.drop_last() =~= self.ports@.subrange(0, i as int));
            let ghost before = res@;
            let origin = self.ports[i].origin();
            if origin.visibility {
                if origin.contains.len() == 0 {
                    if Ports::is_filtered(&filter_lower, origin) {
                        res.push((origin.sig.id, None));
                    }
                } else {
                    let parent = Some(origin.sig.id);
                    let mut k: usize = 0;
                    while k < origin.contains.len()
                        invariant
                            0 <= k <= origin.contains@.len(),
                            filter_lower@ == lowercase(filter@),
                            parent == Some(origin.sig.id),
                            res@ == before + matching_members(
                                self.ports@,
                                filter@,
                                origin.contains@.subrange(0, k as int),
                                origin.sig.id,
                            ),
                        decreases origin.contains@.len() - k,
                    {
                        let ghost cs = origin.contains@.subrange(0, k + 1);
                        assert(cs.drop_last() =~= origin.contains@.subrange(0, k as int));
                        let port_id = origin.contains[k];
                        proof {
                            lemma_index_range(self.ports@, port_id);
                        }
                        if let Some(j) = self.position(port_id) {
                            if Ports::is_filtered(&filter_lower, self.ports[j].origin()) {
                                res.push((port_id, parent));
                            }
                        }
                        assert(res@ =~= before + matching_members(
                            self.ports@,
                            filter@,
                            cs,
                            origin.sig.id,
                        ));
                        k = k + 1;
                    }
                    assert(origin.contains@.subrange(0, origin.contains@.len() as int)
                        =~= origin.contains@);
                }
            }
            assert(res@ =~= before + expand_port(self.ports@, filter@, *origin));
            i = i + 1;
        }
        assert(self.ports@.subrange(0, self.ports@.len() as int) =~= self.ports@);
        res
    }
}

/// Sets the visibility of the port, whichever way it is held.
fn set_visibility(r: &mut Representation<Port>, v: bool)
    ensures
        *final(r) == with_visibility(*old(r), v),
{
    match r {
        Representation::Origin(p) => {
            p.visibility = v;
        },
        Representation::Render(rd) => {
            rd.entity.visibility = v;
        },
    }
}

proof fn lemma_index_range(ports: Seq<Representation<Port>>, id: usize)
    ensures
        -1 <= index_of_id(ports, id) < ports.len(),
        index_of_id(ports, id) >= 0 ==> ports[index_of_id(ports, id)].entity().sig.id == id,
        index_of_id(ports, id) < 0 ==> forall|j: int| 0 <= j < ports.len() ==> #[trigger] ports[j].entity().sig.id != id,
    decreases ports.len(),
{
    if ports.len() > 0 {
        lemma_index_range(ports.drop_last(), id);
        if index_of_id(ports, id) < 0 {
            assert forall|j: int| 0 <= j < ports.len() implies #[trigger] ports[j].entity().sig.id
                != id by {
                if j < ports.len() - 1 {
                    assert(ports.drop_last()[j] == ports[j]);
                }
            }
        }
    }
}

/// The first index in a prefix that ends with the first port of the id.
proof fn lemma_index_prefix(ports: Seq<Representation<Port>>, id: usize, n: int)
    requires
        0 < n <= ports.len(),
        index_of_id(ports.subrange(0, n - 1), id) == -1,
        ports[n - 1].entity().sig.id == id,
    ensures
        index_of_id(ports, id) == n - 1,
    decreases ports.len(),
{
    if ports.len() > n {
        assert(ports.drop_last().subrange(0, n - 1) =~= ports.subrange(0, n - 1));
        lemma_index_prefix(ports.drop_last(), id, n);
    } else {
        assert(ports.drop_last() =~= ports.subrange(0, n - 1));
    }
}

} // verus!
