use std::collections::HashMap;

use board::entity::dummy::{Dummy, SignatureProducer};
use board::entity::{Component, Composition, Connection, Joint, Port, PortType, Ports, Signature};
use board::error::E;
use board::render::entity::grouping::{group_ports, group_unbound_ports};
use board::render::entity::port::abbreviation;
use board::render::options::Options;
use board::render::{Render, Representation};
use board::representation::form::{
    Form as LayoutForm, Rectangle as LayoutRectangle, StartPoint,
};

fn sig(id: usize, name: &str) -> Signature {
    Signature { id, class_name: format!("{name}Class"), short_name: name.to_string() }
}

fn port(id: usize, name: &str, ty: PortType) -> Port {
    Port {
        sig: sig(id, name),
        port_type: ty,
        provided_interface: None,
        provided_required_interface: None,
        required_interface: None,
        contains: Vec::new(),
        connected: HashMap::new(),
        visibility: true,
        label: None,
    }
}

fn component(id: usize, name: &str, ports: Vec<Port>) -> Component {
    let mut list = Ports::new();
    for p in ports {
        list.push(p);
    }
    Component { sig: sig(id, name), ports: Representation::Origin(list), composition: false }
}

fn link(id: usize, in_port: usize, in_comp: usize, out_port: usize, out_comp: usize) -> Connection {
    Connection::new(sig(id, "link"), Joint::new(in_port, in_comp), Joint::new(out_port, out_comp))
}

/// Two components linked twice, each link from a port connected once.
fn pair_composition() -> Composition {
    let mut c = Composition::new(sig(1, "Root"));
    c.push_component(component(2, "Alpha", vec![port(10, "a1", PortType::Left), port(11, "a2", PortType::Left)]));
    c.push_component(component(3, "Beta", vec![port(20, "b1", PortType::Right), port(21, "b2", PortType::Right)]));
    c.push_connection(link(30, 10, 2, 20, 3));
    c.push_connection(link(31, 11, 2, 21, 3));
    c
}

#[test]
fn abbreviation_of_two_words_keeps_uppercase() {
    assert_eq!(abbreviation("ProvidedInterface"), "PI");
    assert_eq!(abbreviation("portName"), "N");
}

#[test]
fn abbreviation_of_many_words_takes_initials_but_interface() {
    assert_eq!(abbreviation("TheBigRedInterface"), "TBR");
    assert_eq!(abbreviation("a b c"), "abc");
    assert_eq!(abbreviation(""), "");
}

#[test]
fn signature_text_falls_back_to_id() {
    let s = Signature { id: 42, class_name: "unknown".to_string(), short_name: "unknown".to_string() };
    assert_eq!(s.to_string(), "42");
    let s = Signature { id: 42, class_name: "Klass".to_string(), short_name: "unknown".to_string() };
    assert_eq!(s.to_string(), "Klass");
}

#[test]
fn signature_label_is_cut_after_the_length() {
    let s = sig(7, "VeryLongName");
    assert_eq!(s.as_label(true, 4), "Very...");
    assert_eq!(s.as_label(true, 40), "VeryLongName");
    assert_eq!(s.as_label(false, 4), "7");
}

#[test]
fn producer_counts_up() {
    let mut p = SignatureProducer::new(0);
    let a = p.next();
    assert_eq!(a.id, 1);
    assert_eq!(a.class_name, "DummyClass_1");
    assert_eq!(a.short_name, "DummySN_1");
    let b = p.next_for("joined port IN");
    assert_eq!(b.id, 2);
    assert_eq!(b.class_name, "joined port IN");
}

#[test]
fn dummy_ports_stay_in_range() {
    let mut p = SignatureProducer::new(5);
    let ports = Ports::dummy(&mut p, (2, 4));
    assert!(ports.len() >= 2 && ports.len() <= 4);
    for i in 0..ports.len() {
        assert_eq!(ports.get(i).sig.id, 6 + i);
    }
}

#[test]
fn dummy_composition_links_pairs() {
    let mut p = SignatureProducer::new(0);
    let c = Composition::dummy(&mut p, ((2, 2), (1, 1)));
    assert_eq!(c.sig.id, 1);
    assert_eq!(c.components.len(), 2);
    assert_eq!(c.connections.len(), 1);
    let link = c.connections[0].origin();
    assert_eq!(link.joint_in.component, c.components[0].origin().sig.id);
    assert_eq!(link.joint_out.component, c.components[1].origin().sig.id);
    assert!(c.compositions.is_empty());
    assert!(c.parent.is_none());
}

#[test]
fn dummy_composition_links_each_pair_by_its_smaller_side() {
    let mut p = SignatureProducer::new(0);
    let c = Composition::dummy(&mut p, ((5, 5), (2, 3)));
    assert_eq!(c.components.len(), 5);
    let counts: Vec<usize> = c.components.iter().map(|r| r.origin().ports.origin().len()).collect();
    assert!(counts.iter().all(|n| (2..=3).contains(n)));
    let expected = counts[0].min(counts[1]) + counts[2].min(counts[3]);
    assert_eq!(c.connections.len(), expected);
    for r in c.connections.iter() {
        let link = r.origin();
        let at = c.components.iter().position(|x| x.origin().sig.id == link.joint_in.component);
        let at = at.expect("links start at a component");
        assert_eq!(c.components[at + 1].origin().sig.id, link.joint_out.component);
    }
}

#[test]
fn grouping_joins_parallel_links() {
    let mut c = pair_composition();
    let mut producer = SignatureProducer::new(100);
    group_ports(&mut c, &mut producer);
    assert_eq!(c.connections.len(), 3);
    assert!(!c.connections[0].origin().visibility);
    assert!(!c.connections[1].origin().visibility);
    let joined = c.connections[2].origin();
    assert_eq!(joined.sig.id, 103);
    assert_eq!(joined.sig.class_name, "joined connection");
    assert_eq!(joined.joint_in.port, 101);
    assert_eq!(joined.joint_in.component, 2);
    assert_eq!(joined.joint_out.port, 102);
    assert_eq!(joined.joint_out.component, 3);
    let alpha = c.components[0].origin().ports.origin();
    assert_eq!(alpha.len(), 3);
    assert!(!alpha.get(0).visibility && !alpha.get(1).visibility);
    let group = alpha.get(2);
    assert_eq!(group.sig.id, 101);
    assert_eq!(group.contains, vec![10, 11]);
    assert_eq!(group.port_type, PortType::Right);
    assert_eq!(group.label.as_deref(), Some("Beta"));
    assert_eq!(group.connected.get(&1), Some(&2));
    let beta = c.components[1].origin().ports.origin();
    assert_eq!(beta.get(2).sig.id, 102);
    assert_eq!(beta.get(2).contains, vec![20, 21]);
    assert_eq!(beta.get(2).port_type, PortType::Left);
    assert_eq!(beta.get(2).label.as_deref(), Some("Alpha"));
}

#[test]
fn grouping_leaves_a_single_link() {
    let mut c = Composition::new(sig(1, "Root"));
    c.push_component(component(2, "Alpha", vec![port(10, "a1", PortType::Left)]));
    c.push_component(component(3, "Beta", vec![port(20, "b1", PortType::Right)]));
    c.push_connection(link(30, 10, 2, 20, 3));
    let mut producer = SignatureProducer::new(100);
    group_ports(&mut c, &mut producer);
    assert_eq!(c.connections.len(), 1);
    assert!(c.connections[0].origin().visibility);
    assert_eq!(c.connections[0].origin().joint_in.grouped, None);
    assert_eq!(c.components[0].origin().ports.origin().len(), 1);
}

#[test]
fn unbound_ports_are_gathered_first() {
    let mut c = Composition::new(sig(1, "Root"));
    c.push_component(component(2, "Alpha", vec![port(10, "a1", PortType::Left), port(11, "a2", PortType::Right)]));
    c.push_component(component(3, "Beta", vec![port(20, "b1", PortType::Left)]));
    let mut producer = SignatureProducer::new(50);
    group_unbound_ports(&mut c, &mut producer);
    let alpha = c.components[0].origin().ports.origin();
    assert_eq!(alpha.len(), 3);
    assert_eq!(alpha.get(0).sig.id, 51);
    assert_eq!(alpha.get(0).sig.short_name, "unbound grouped");
    assert_eq!(alpha.get(0).contains, vec![10, 11]);
    assert!(!alpha.get(1).visibility && !alpha.get(2).visibility);
    assert_eq!(c.components[1].origin().ports.origin().len(), 1);
}

#[test]
fn order_puts_less_linked_components_first() {
    let mut c = Composition::new(sig(1, "Root"));
    c.push_component(component(2, "Hub", vec![]));
    c.push_component(component(3, "Leaf", vec![]));
    c.push_component(component(4, "Other", vec![]));
    c.push_connection(link(30, 10, 2, 20, 4));
    c.push_connection(link(31, 11, 2, 21, 3));
    c.push_connection(link(32, 12, 2, 22, 4));
    c.order();
    let ids: Vec<usize> = c.components.iter().map(|r| r.origin().sig.id).collect();
    assert_eq!(ids, vec![3, 4, 2]);
}

#[test]
fn ordered_links_put_busiest_first() {
    let c = pair_composition();
    let state = board::state::State::new(0, 0);
    let linked = Connection::get_ordered_linked(&c.connections, &state);
    assert_eq!(linked, vec![(3, 0, 2), (2, 2, 0)]);
}

#[test]
fn connection_ends_show_groups() {
    let mut l = link(30, 10, 2, 20, 3);
    assert_eq!(*l.in_port(), 10);
    l.joint_in.grouped = Some(99);
    assert_eq!(*l.in_port(), 99);
    assert_eq!(*l.get_ports()[0], 10);
    l.conceal();
    assert!(!l.visibility);
}

#[test]
fn render_of_an_origin_fails() {
    let r: Representation<Port> = Representation::Origin(port(1, "p", PortType::Left));
    assert!(matches!(r.render(), Err(E::RenderNotInited)));
    assert_eq!(E::RenderNotInited.message(), "Render isn't inited");
    assert_eq!(E::NoParent("7".to_string()).message(), "Entity 7 doesn't have parent");
    assert_eq!(E::DOM("x".to_string()).message(), "DOM error: x");
    assert_eq!(E::Serde("y".to_string()).message(), "Serde parsing error: y");
    assert_eq!(E::NoCanvasContext.message(), "Canvas context ins't setup");
    assert_eq!(E::NotGridForm.message(), "Form isn't belong to grid");
    assert_eq!(E::NotSupported.message(), "Static error message");
    assert_eq!(E::Other("z".to_string()).message(), "z");
}

#[test]
fn rendered_composition_has_views() {
    let options = Options::default();
    let mut producer = SignatureProducer::new(100);
    let render = Render::<Composition>::new(pair_composition(), true, &options, &mut producer);
    assert!(render.entity.components.iter().all(|c| c.render().is_ok()));
    assert!(render.entity.connections.iter().all(|c| c.render().is_ok()));
    assert_eq!(render.entity.connections.len(), 3);
    assert_eq!(render.view.container.id(), "1");
    assert_eq!(render.view.container.get_box_size(), (100, 100));
}

#[test]
fn widest_free_square_is_found_in_a_long_box() {
    let a = LayoutForm::Rectangle(LayoutRectangle { x: 0, y: 0, w: 1, h: 1 });
    let b = LayoutForm::Rectangle(LayoutRectangle { x: 99990, y: 90, w: 10, h: 10 });
    let forms = [&a, &b];
    assert_eq!(LayoutForm::box_size(&forms), Some((0, 0, 100000, 100)));
    let corner = LayoutForm::box_map(&forms).expect("a corner is free");
    assert_eq!(corner.0, StartPoint::BL);
    assert_eq!(corner.1, 10000);
    assert!(LayoutForm::box_map(&[]).is_none());
}
