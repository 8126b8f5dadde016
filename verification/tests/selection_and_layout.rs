use std::collections::HashMap;

use board::board::{show_connections_by_ports, toggle_component, toggle_port};
use board::entity::dummy::SignatureProducer;
use board::entity::{Component, Composition, Connection, Joint, Port, PortType, Ports, Signature};
use board::error::E;
use board::render::entity::comosition::{count_ids_needed, dependencies, get_forms_by_ids};
use board::render::form::{Form, Point};
use board::render::grid::Grid;
use board::render::options::Options;
use board::render::ratio::Ratio;
use board::render::{Render, Representation};
use board::state::State;

fn sig(id: usize, name: &str) -> Signature {
    Signature { id, class_name: format!("{name}Class"), short_name: name.to_string() }
}

fn port(id: usize, name: &str, ty: PortType) -> Port {
    Port {
        sig: sig(id, name),
        port_type: ty,
        provided_interface: None,
        provided_required_interface: None,
        required_interface: None,
        contains: Vec::new(),
        connected: HashMap::new(),
        visibility: true,
        label: None,
    }
}

fn component(id: usize, name: &str, ports: Vec<Port>) -> Component {
    let mut list = Ports::new();
    for p in ports {
        list.push(p);
    }
    Component { sig: sig(id, name), ports: Representation::Origin(list), composition: false }
}

fn link(id: usize, in_port: usize, in_comp: usize, out_port: usize, out_comp: usize) -> Connection {
    Connection::new(sig(id, "link"), Joint::new(in_port, in_comp), Joint::new(out_port, out_comp))
}

fn pair_composition() -> Composition {
    let mut c = Composition::new(sig(1, "Root"));
    c.push_component(component(2, "Alpha", vec![port(10, "a1", PortType::Left), port(11, "a2", PortType::Left)]));
    c.push_component(component(3, "Beta", vec![port(20, "b1", PortType::Right), port(21, "b2", PortType::Right)]));
    c.push_connection(link(30, 10, 2, 20, 3));
    c.push_connection(link(31, 11, 2, 21, 3));
    c
}

fn plain_options() -> Options {
    let mut options = Options::default();
    options.ports.grouping = false;
    options.ports.group_unbound = false;
    options
}

fn grouped_render() -> Render<Composition> {
    let mut options = Options::default();
    options.ports.group_unbound = false;
    let mut producer = SignatureProducer::new(100);
    Render::<Composition>::new(pair_composition(), true, &options, &mut producer)
}

#[test]
fn toggling_a_component_twice_clears_it() {
    let c = pair_composition();
    let mut state = State::new(0, 0);
    toggle_component(&mut state, &c, 2, false);
    assert_eq!(state.ports, vec![10, 11]);
    assert_eq!(state.ports_highlighted, vec![20, 21]);
    assert_eq!(state.components, vec![2]);
    assert_eq!(state.selection.components, vec![2]);
    toggle_component(&mut state, &c, 2, false);
    assert!(state.ports.is_empty());
    assert!(state.ports_highlighted.is_empty());
    assert!(state.components.is_empty());
    assert!(state.selection.components.is_empty());
}

#[test]
fn toggling_a_component_alone_drops_the_others() {
    let c = pair_composition();
    let mut state = State::new(0, 0);
    toggle_component(&mut state, &c, 2, false);
    toggle_component(&mut state, &c, 3, true);
    assert_eq!(state.components, vec![3]);
    assert_eq!(state.ports, vec![20, 21]);
    assert_eq!(state.ports_highlighted, vec![10, 11]);
    assert_eq!(state.selection.components, vec![3]);
}

#[test]
fn toggling_a_port_highlights_its_partner() {
    let c = pair_composition();
    let mut state = State::new(0, 0);
    assert!(toggle_port(&mut state, &c, 10, false));
    assert_eq!(state.ports, vec![10]);
    assert_eq!(state.ports_highlighted, vec![20]);
    assert!(!toggle_port(&mut state, &c, 10, false));
    assert!(state.ports.is_empty());
    assert!(state.ports_highlighted.is_empty());
}

#[test]
fn pairs_are_shown_by_their_groups() {
    let mut state = State::new(0, 0);
    let grouped = vec![(101usize, vec![10usize, 11])];
    show_connections_by_ports(&mut state, &grouped, &[10, 11], &[20, 21]);
    assert_eq!(state.ports, vec![101, 20, 21]);
}

#[test]
fn state_toggles_undo_each_other() {
    let mut state = State::new(0, 0);
    assert!(state.insert_component(&5));
    assert!(!state.insert_component(&5));
    assert!(state.remove_component(&5));
    assert!(state.components.is_empty());
    assert!(state.highlight_port(&7));
    assert!(state.unhighlight_port(&7));
    assert!(state.ports_highlighted.is_empty());
    assert!(state.hover(&3));
    assert!(!state.hover(&3));
    assert!(state.unhover());
}

#[test]
fn ratio_scales_and_scales_back() {
    let r = Ratio { ratio: 2 };
    assert_eq!(r.get(5i32), 10);
    assert_eq!(r.invert(r.get(-7i32)), -7);
    assert_eq!(r.invert(-7i32), -3);
    assert_eq!(r.get(3u32), 6);
}

#[test]
fn filter_finds_group_ports_and_their_partners() {
    let mut render = grouped_render();
    let found = render.get_filtered_ports(Some("A1".to_string())).unwrap();
    assert_eq!(found.0, vec![101]);
    assert_eq!(found.1, vec![102]);
    assert_eq!(found.2, vec![2, 3]);
    assert!(render.get_filtered_ports(None).is_none());
}

#[test]
fn matches_hold_each_id_once() {
    let mut render = grouped_render();
    let matches = render.get_matches(Some("a".to_string())).unwrap();
    assert_eq!(matches, vec![101, 2, 3]);
    let extended = render.get_matches_extended(Some("a1".to_string())).unwrap();
    assert_eq!(extended, vec![(10, Some(101), 2)]);
}

#[test]
fn targeted_components_bring_their_partners() {
    let mut render = grouped_render();
    let found = render.get_targeted_components(Some("alp".to_string())).unwrap();
    assert_eq!(found.0, vec![2]);
    assert_eq!(found.1, vec![3, 3, 3]);
    assert!(render.get_targeted_components_by_ids(Vec::new()).is_none());
    assert_eq!(render.get_components_linked_to(vec![3]), vec![2, 2, 2]);
}

#[test]
fn connection_data_tells_the_group_members() {
    let render = grouped_render();
    let all = render.get_connection(101).unwrap();
    assert_eq!(all.0, (102, vec![20, 21], 3));
    assert_eq!(all.1, (101, vec![10, 11], 2));
    let by_port = render.get_connections(10);
    assert_eq!(by_port.len(), 1);
    assert_eq!(by_port[0].0, (20, vec![], 3));
    assert_eq!(render.get_connections_by_component(2).len(), 3);
    assert_eq!(render.get_all_connections().len(), 3);
    assert_eq!(render.get_all_components(), vec![2, 3]);
    assert_eq!(render.get_port(101).map(|p| p.sig.id), Some(101));
    assert!(render.get_port(999).is_none());
    assert_eq!(render.get_grouped_ports().unwrap(), vec![(101, vec![10, 11]), (102, vec![20, 21])]);
}

#[test]
fn pairing_places_linked_components_together() {
    let c = pair_composition();
    let state = State::new(0, 0);
    let (pairs, placed) = dependencies(&c.connections, &state);
    assert_eq!(pairs, vec![(3, 2)]);
    assert_eq!(placed, vec![3, 2]);
}

#[test]
fn layout_aligns_and_draws_lines() {
    let options = plain_options();
    let mut producer = SignatureProducer::new(100);
    let mut render = Render::<Composition>::new(pair_composition(), true, &options, &mut producer);
    let pair = {
        let left = get_forms_by_ids(&render.entity.components, &vec![2]).unwrap();
        let right = get_forms_by_ids(&render.entity.components, &vec![3]).unwrap();
        Grid::forms_as_pair(left, right, &options.grid, options.ratio()).unwrap()
    };
    assert_eq!(pair.relative(2), (0, 0));
    assert_eq!(pair.relative(3), (150, 0));
    assert_eq!(pair.relative(99), (0, 0));
    render.align_to_grid(&pair).unwrap();
    let beta = render.entity.components[1].render().unwrap();
    assert_eq!(beta.view.container.get_coors(), (150, 0));
    let state = State::new(0, 0);
    render.setup_connections(&pair, &options, &state).unwrap();
    match &render.entity.connections[0].render().unwrap().view.container.form {
        Form::Path(_, path) => {
            assert_eq!(path.points, vec![Point { x: 158, y: 4 }, Point { x: 0, y: 4 }]);
            assert_eq!(path.id, "30");
        },
        _ => panic!("a connection is drawn as a path"),
    }
}

#[test]
fn layout_fails_without_views() {
    let c = pair_composition();
    let render = Render {
        entity: c,
        view: Render::<Composition>::new(Composition::new(sig(9, "x")), false, &plain_options(), &mut SignatureProducer::new(0)).view,
        hidden: false,
    };
    assert!(matches!(
        get_forms_by_ids(&render.entity.components, &vec![2]),
        Err(E::RenderNotInited)
    ));
    let mut render = render;
    let grid = Grid::new(&plain_options().grid, Ratio { ratio: 1 });
    assert!(matches!(render.align_to_grid(&grid), Err(E::RenderNotInited)));
}

#[test]
fn ports_are_stacked_on_their_sides() {
    let options = plain_options();
    let mut producer = SignatureProducer::new(100);
    let mut render = Render::<Composition>::new(pair_composition(), true, &options, &mut producer);
    let state = State::new(0, 0);
    let beta = match &mut render.entity.components[1] {
        Representation::Render(r) => r,
        Representation::Origin(_) => panic!("components are drawn"),
    };
    assert_eq!(beta.origin().sig.id, 3);
    let ports = match &mut beta.entity.ports {
        Representation::Render(p) => p,
        Representation::Origin(_) => panic!("ports are drawn"),
    };
    ports.place_blocks(&state, 75, &options).unwrap();
    let first = ports.entity.ports[0].render().unwrap();
    let second = ports.entity.ports[1].render().unwrap();
    assert_eq!(first.view.container.get_coors(), (71, 8));
    assert_eq!(second.view.container.get_coors(), (71, 33));
    assert_eq!(ports.height(&state, &options), 75);
    ports.place_labels(&state, 75, 20, 4, 25).unwrap();
    assert_eq!(ports.entity.ports[1].render().unwrap().view.container.get_coors(), (55, 29));
}

#[test]
fn components_grow_with_their_ports() {
    let options = plain_options();
    let many = component(
        2,
        "Many",
        vec![
            port(10, "p0", PortType::Left),
            port(11, "p1", PortType::Left),
            port(12, "p2", PortType::Left),
            port(13, "p3", PortType::Left),
        ],
    );
    let mut render = Render::<Component>::new(many, &options, None);
    let state = State::new(0, 0);
    assert_eq!(render.view.container.get_box_size(), (75, 75));
    render.fit_height(&state, &options).unwrap();
    assert_eq!(render.view.container.get_box_size(), (75, 125));
    assert!(!render.is_composition());
}

#[test]
fn port_labels_tell_their_links() {
    let mut options = plain_options();
    options.ports.representation = board::render::options::PortsRepresentation::Labels;
    let mut p = port(10, "p", PortType::Right);
    p.connected.insert(1, 3);
    p.connected.insert(7, 2);
    let mut render = Render::<Port>::new(p, &options, false);
    render.annotate(1);
    match &render.view.container.form {
        Form::Label(_, label) => {
            assert_eq!(label.subtitle.as_deref(), Some("3 linked"));
            let badge = label.subbadge.as_ref().unwrap();
            assert_eq!(badge.0, "2");
            assert_eq!(label.label, "p");
        },
        _ => panic!("ports are drawn as labels"),
    }
}

#[test]
fn ports_and_cells_are_found_by_ids() {
    let options = plain_options();
    let mut producer = SignatureProducer::new(100);
    let render = Render::<Composition>::new(pair_composition(), true, &options, &mut producer);
    let found = render.ports_by_ids(&vec![10, 20, 10]).unwrap();
    let ids: Vec<usize> = found.iter().map(|f| f.0).collect();
    assert_eq!(ids, vec![10, 20]);
    assert_eq!(found[0].1, (0, 0));
    let left = get_forms_by_ids(&render.entity.components, &vec![2]).unwrap();
    let right = get_forms_by_ids(&render.entity.components, &vec![3]).unwrap();
    let pair = Grid::forms_as_pair(left, right, &options.grid, options.ratio()).unwrap();
    let entries = pair.entries_by_ids(&vec![3]);
    assert_eq!(entries.len(), 1);
    assert_eq!(entries[0].0, 3);
    assert_eq!(entries[0].2, (6, 0, 8, 2));
    let crossing = pair.blocks_crossing((0, 0, 1, 1));
    assert_eq!(crossing.len(), 1);
    assert_eq!(crossing[0].0, "2");
}

#[test]
fn nested_compositions_are_shown_as_components() {
    let mut root = pair_composition();
    let mut nested = Composition::new(sig(5, "Inner"));
    nested.ports = Representation::Origin({
        let mut p = Ports::new();
        p.push(port(50, "in", PortType::Left));
        p
    });
    root.compositions.push(Representation::Origin(nested));
    let options = plain_options();
    let mut producer = SignatureProducer::new(100);
    let mut render = Render::<Composition>::new(root, true, &options, &mut producer);
    let state = State::new(0, 0);
    render.include_compositions(&options, &state).unwrap();
    assert_eq!(render.entity.components.len(), 3);
    let added = render.entity.components[2].render().unwrap();
    assert_eq!(added.origin().sig.id, 5);
    assert!(added.origin().composition);
    assert!(added.is_composition());
    assert!(render.entity.compositions[0].render().unwrap().hidden);
}

#[test]
fn components_are_painted_by_their_state() {
    let options = plain_options();
    let mut render = Render::<Component>::new(component(2, "Alpha", Vec::new()), &options, None);
    let mut state = State::new(0, 0);
    render.restyle(&state);
    assert_eq!(render.view.container.style.fill_style, "rgb(250,250,250)");
    state.insert_component(&2);
    render.restyle(&state);
    assert_eq!(render.view.container.style.fill_style, "rgb(100,150,100)");
    state.hover(&2);
    render.restyle(&state);
    assert_eq!(render.view.container.style.fill_style, "rgb(200,200,200)");
    state.set_matches(Some(vec![2]), None);
    render.restyle(&state);
    assert_eq!(render.view.container.style.stroke_style, "rgb(50,50,50)");
    assert_eq!(render.view.container.style.fill_style, "rgb(195,190,190)");
    state.set_highlighted(Some(vec![2]));
    render.restyle(&state);
    assert_eq!(render.view.container.style.fill_style, "rgb(185,230,255)");
}

#[test]
fn nested_compositions_keep_their_color() {
    let options = plain_options();
    let ty = Some(board::render::grid::ElementType::Composition);
    let mut render = Render::<Component>::new(component(2, "Inner", Vec::new()), &options, ty);
    let mut state = State::new(0, 0);
    state.insert_component(&2);
    render.restyle(&state);
    assert_eq!(render.view.container.style.fill_style, "rgb(250,200,200)");
}

#[test]
fn ports_are_painted_by_their_state() {
    let options = plain_options();
    let mut render = Render::<Port>::new(port(10, "p", PortType::Left), &options, false);
    let mut state = State::new(0, 0);
    render.restyle(&state);
    assert_eq!(render.view.container.style.fill_style, "rgb(240,240,240)");
    state.highlight_port(&10);
    render.restyle(&state);
    assert_eq!(render.view.container.style.fill_style, "rgb(220,250,220)");
    state.insert_port(&10);
    render.restyle(&state);
    assert_eq!(render.view.container.style.fill_style, "rgb(150,250,150)");
    state.set_filtered(Some((vec![11], Vec::new(), vec![2])));
    render.restyle(&state);
    assert_eq!(render.view.container.style.fill_style, "rgb(220,250,220)");
    state.set_filtered(Some((vec![11], vec![10], vec![2])));
    state.unselect_all();
    render.restyle(&state);
    assert_eq!(render.view.container.style.stroke_style, "rgb(150,150,150)");
    assert_eq!(render.view.container.style.fill_style, "rgb(250,250,250)");
}

#[test]
fn hidden_and_filtered_ports_are_not_drawn() {
    let mut state = State::new(0, 0);
    let mut p = port(10, "p", PortType::Left);
    assert!(board::render::entity::port::is_drawn(&p, true, &state));
    p.visibility = false;
    assert!(!board::render::entity::port::is_drawn(&p, true, &state));
    assert!(board::render::entity::port::is_drawn(&p, false, &state));
    state.set_filtered(Some((vec![11], Vec::new(), Vec::new())));
    assert!(!board::render::entity::port::is_drawn(&p, false, &state));
}

#[test]
fn layout_places_every_component_and_the_composition() {
    let options = plain_options();
    let mut producer = SignatureProducer::new(100);
    let mut render = Render::<Composition>::new(pair_composition(), true, &options, &mut producer);
    let state = State::new(0, 0);
    let grid = render.pair_up(&state, &options).unwrap();
    let placed = grid.entries_by_ids(&vec![2, 3]);
    assert_eq!(placed.len(), 2);
    let board_options = board::render::options::GridOptions { vpadding: 0, hpadding: 0, ..options.grid };
    let mut board = Grid::new(&board_options, options.ratio());
    let (w, _) = grid.get_size_px();
    render.settle(grid, &mut board, &state, &options).unwrap();
    let mut found: Vec<usize> = board.entries_by_ids(&vec![1, 2, 3]).iter().map(|e| e.0).collect();
    found.sort();
    assert_eq!(found, vec![1, 2, 3]);
    assert_eq!(render.view.container.get_box_size().0, w as i32);
    assert!(render.view.container.get_box_size().1 >= 50);
    let beta = render.entity.components[1].render().unwrap();
    let alpha = render.entity.components[0].render().unwrap();
    assert_ne!(beta.view.container.get_coors(), alpha.view.container.get_coors());
}

#[test]
fn layout_needs_drawn_components() {
    let render = Render {
        entity: pair_composition(),
        view: Render::<Composition>::new(Composition::new(sig(9, "x")), false, &plain_options(), &mut SignatureProducer::new(0)).view,
        hidden: false,
    };
    let state = State::new(0, 0);
    assert!(matches!(render.pair_up(&state, &plain_options()), Err(E::RenderNotInited)));
}

#[test]
fn hidden_composition_shows_no_ports() {
    let options = plain_options();
    let mut producer = SignatureProducer::new(100);
    let mut render = Render::<Composition>::new(pair_composition(), true, &options, &mut producer);
    render.conceal();
    assert!(render.ports_by_ids(&vec![10, 20]).unwrap().is_empty());
}

#[test]
fn connections_out_of_range_are_refused() {
    let options = plain_options();
    let mut producer = SignatureProducer::new(100);
    let mut render = Render::<Composition>::new(pair_composition(), true, &options, &mut producer);
    match &mut render.entity.components[0] {
        Representation::Render(r) => r.view.container.set_coors(Some(i32::MAX - 1), None),
        Representation::Origin(_) => panic!("components are drawn"),
    }
    let state = State::new(0, 0);
    let grid = Grid::new(&options.grid, options.ratio());
    assert!(matches!(render.setup_connections(&grid, &options, &state), Err(E::Other(_))));
    match &render.entity.connections[0].render().unwrap().view.container.form {
        Form::Path(_, path) => assert!(path.points.is_empty()),
        _ => panic!("a connection is drawn as a path"),
    }
}

#[test]
fn only_connections_between_selected_ports_are_shown() {
    let options = plain_options();
    let mut producer = SignatureProducer::new(100);
    let render = Render::<Composition>::new(pair_composition(), true, &options, &mut producer);
    let mut state = State::new(0, 0);
    assert!(render.shown_connections(&state).is_empty());
    state.insert_port(&10);
    assert!(render.shown_connections(&state).is_empty());
    state.highlight_port(&20);
    assert_eq!(render.shown_connections(&state), vec![0]);
}

#[test]
fn one_call_lays_out_ports_heights_and_blocks() {
    let options = plain_options();
    let mut producer = SignatureProducer::new(100);
    let mut render = Render::<Composition>::new(pair_composition(), true, &options, &mut producer);
    let state = State::new(0, 0);
    let board_options = board::render::options::GridOptions { vpadding: 0, hpadding: 0, ..options.grid };
    let mut board = Grid::new(&board_options, options.ratio());
    render.lay_out(&mut board, &state, &options, 18).unwrap();
    let mut found: Vec<usize> = board.entries_by_ids(&vec![1, 2, 3]).iter().map(|e| e.0).collect();
    found.sort();
    assert_eq!(found, vec![1, 2, 3]);
    let alpha = render.entity.components[0].render().unwrap();
    // Two ports on a side take three cells, more than the least height of 64.
    assert_eq!(alpha.view.container.get_box_size().1, 75);
    let ports = alpha.entity.ports.render().unwrap();
    let first = ports.entity.ports[0].render().unwrap();
    let second = ports.entity.ports[1].render().unwrap();
    // Blocks start half a cell down less half a block, a cell apart.
    assert_eq!(first.view.container.get_coors().1, 8);
    assert_eq!(second.view.container.get_coors().1, 33);
    let w = first.view.container.get_box_size().0;
    assert_eq!(first.view.container.get_coors().0, -(w / 2));
}

#[test]
fn port_labels_stand_inside_the_edges() {
    let mut options = plain_options();
    options.ports.representation = board::render::options::PortsRepresentation::Labels;
    let mut producer = SignatureProducer::new(100);
    let mut render = Render::<Composition>::new(pair_composition(), true, &options, &mut producer);
    let state = State::new(0, 0);
    let board_options = board::render::options::GridOptions { vpadding: 0, hpadding: 0, ..options.grid };
    let mut board = Grid::new(&board_options, options.ratio());
    render.lay_out(&mut board, &state, &options, 18).unwrap();
    let beta = render.entity.components[1].render().unwrap();
    let width = beta.view.container.get_box_size().0;
    let ports = beta.entity.ports.render().unwrap();
    let first = ports.entity.ports[0].render().unwrap();
    let raw = |f: &Form| match f {
        Form::Label(_, l) => (l.x, l.y),
        Form::Rectangle(_, r) => (r.x, r.y),
        _ => panic!("a port is a label or a rectangle"),
    };
    // A label 18 high leaves 7 of a 25 cell: the first row starts 4 down.
    assert_eq!(raw(&first.view.container.form).1, 4);
    assert_eq!(raw(&ports.entity.ports[1].render().unwrap().view.container.form).1, 29);
    let over = std::cmp::min(width / 2, 20);
    assert_eq!(raw(&first.view.container.form).0, width - over);
}

#[test]
fn a_drawn_line_points_from_its_start() {
    let options = plain_options();
    let mut r = Render::<Connection>::new(link(30, 10, 2, 20, 3), &options);
    r.mark_ends();
    match &r.view.container.form {
        Form::Path(_, p) => {
            assert!(p.sarrow && !p.sdot && p.edot && !p.earrow);
            assert_eq!(p.id, "30");
        }
        _ => panic!("a connection is drawn as a path"),
    }
}

#[test]
fn ids_needed_are_counted_before_laying_out() {
    let c = pair_composition();
    // Three for each connection of a root that groups, one for the composition and one for
    // each component that gathers unbound ports.
    assert_eq!(count_ids_needed(&c, true, true, true), Some(9));
    assert_eq!(count_ids_needed(&c, false, true, true), Some(3));
    assert_eq!(count_ids_needed(&c, true, true, false), Some(6));
    assert_eq!(count_ids_needed(&c, true, false, false), Some(0));
}

#[test]
fn pairing_refuses_paddings_too_wide() {
    let mut options = plain_options();
    let mut producer = SignatureProducer::new(100);
    let render = Render::<Composition>::new(pair_composition(), true, &options, &mut producer);
    options.grid.hpadding = u32::MAX / 2 + 1;
    assert!(matches!(render.pair_up(&State::new(0, 0), &options), Err(E::Other(_))));
}

#[test]
fn laying_out_needs_drawn_components() {
    let options = plain_options();
    let mut render = Render {
        entity: pair_composition(),
        view: Render::<Composition>::new(Composition::new(sig(9, "x")), false, &options, &mut SignatureProducer::new(0)).view,
        hidden: false,
    };
    let mut board = Grid::new(&options.grid, options.ratio());
    assert!(matches!(render.lay_out(&mut board, &State::new(0, 0), &options, 18), Err(E::RenderNotInited)));
}
