use vstd::prelude::*;

use vstd::string::*;
use vstd::view::View as _;

use crate::entity::{label_text, Port, PortType, Ports, SignatureGetter};
use crate::render::form::{label, Label, Rectangle};
use crate::render::grid::{ElementType, CELL};
use crate::render::options::{Options, PortsRepresentation};
use crate::render::{Container, Form, Render, Representation, Style, View};
use crate::state::State;
use std::collections::HashMap;
use vstd::std_specs::hash::spec_hash_map_iter;
use vstd::std_specs::iter::IteratorSpec;

use crate::error::E;
use crate::render::entity::comosition::moved_to;
use crate::render::ratio::{div_toward_zero, RatioScalar};
use crate::text::{decimal, is_uppercase, push_char, uppercase, usize_to_string};

verus! {

/// Splitting a text into words, as far as the text goes: the words done, and the word being
/// read. A space ends a word; an uppercase character starts one.
pub open spec fn words_acc(s: Seq<char>) -> (Seq<Seq<char>>, Seq<char>)
    decreases s.len(),
{
    if s.len() == 0 {
        (seq![], seq![])
    } else {
        let (done, cur) = words_acc(s.drop_last());
        let c = s.last();
        let closed = if cur.len() > 0 {
            done.push(cur)
        } else {
            done
        };
        if c == ' ' {
            (closed, seq![])
        } else if uppercase(c) {
            (closed, seq![c])
        } else {
            (done, cur.push(c))
        }
    }
}

/// The words of a text: the non-empty runs between spaces, with a new word at each uppercase
/// character.
pub open spec fn words(s: Seq<char>) -> Seq<Seq<char>> {
    let (done, cur) = words_acc(s);
    if cur.len() > 0 {
        done.push(cur)
    } else {
        done
    }
}

/// The uppercase characters of a text, in order.
pub open spec fn uppers(s: Seq<char>) -> Seq<char>
    decreases s.len(),
{
    if s.len() == 0 {
        seq![]
    } else if uppercase(s.last()) {
        uppers(s.drop_last()).push(s.last())
    } else {
        uppers(s.drop_last())
    }
}

/// The first letter of each word but "Interface", where that letter takes one byte.
pub open spec fn initials(ws: Seq<Seq<char>>) -> Seq<char>
    decreases ws.len(),
{
    if ws.len() == 0 {
        seq![]
    } else {
        let w = ws.last();
        if w == "Interface"@ || w.len() == 0 || (w[0] as u32) >= 0x80 {
            initials(ws.drop_last())
        } else {
            initials(ws.drop_last()).push(w[0])
        }
    }
}

/// The short form of a name: with at most two words, its uppercase characters; else the
/// initials of its words.
pub open spec fn abbreviated(s: Seq<char>) -> Seq<char> {
    if words(s).len() <= 2 {
        uppers(s)
    } else {
        initials(words(s))
    }
}

/// Whether the characters spell the text.
fn chars_eq(w: &Vec<char>, s: &str) -> (res: bool)
    ensures
        res == (w@ == s@),
{
    let n = s.unicode_len();
    if w.len() != n {
        return false;
    }
    let mut i: usize = 0;
    while i < n
        invariant
            n == s@.len(),
            n == w@.len(),
            0 <= i <= n,
            forall|j: int| 0 <= j < i ==> w@[j] == s@[j],
        decreases n - i,
    {
        if w[i] != s.get_char(i) {
            return false;
        }
        i = i + 1;
    }
    assert(w@ =~= s@);
    true
}

/// Adds the word being read to the words done, when it is not empty.
fn close_word(done: &mut Vec<Vec<char>>, cur: Vec<char>)
    ensures
        final(done)@.map_values(|w: Vec<char>| w@) == (if cur@.len() > 0 {
            old(done)@.map_values(|w: Vec<char>| w@).push(cur@)
        } else {
            old(done)@.map_values(|w: Vec<char>| w@)
        }),
{
    if cur.len() > 0 {
        let ghost before = done@;
        done.push(cur);
        assert(done@.map_values(|w: Vec<char>| w@) =~= before.map_values(|w: Vec<char>| w@).push(
            cur@,
        ));
    }
}

/// The words of the text.
fn split_words(input: &str) -> (res: Vec<Vec<char>>)
    ensures
        res@.map_values(|w: Vec<char>| w@) == words(input@),
{
    let n = input.unicode_len();
    let mut done: Vec<Vec<char>> = Vec::new();
    let mut cur: Vec<char> = Vec::new();
    let mut i: usize = 0;
    assert(input@.subrange(0, 0) =~= Seq::<char>::empty());
    while i < n
        invariant
            n == input@.len(),
            0 <= i <= n,
            (done@.map_values(|w: Vec<char>| w@), cur@) == words_acc(input@.subrange(0, i as int)),
        decreases n - i,
    {
        let c = input.get_char(i);
        let ghost sub = input@.subrange(0, i + 1);
        assert(sub.drop_last() =~= input@.subrange(0, i as int));
        assert(sub.last() == c);
        if c == ' ' {
            close_word(&mut done, cur);
            cur = Vec::new();
        } else if is_uppercase(c) {
            close_word(&mut done, cur);
            cur = Vec::new();
            cur.push(c);
            assert(cur@ =~= seq![c]);
        } else {
            cur.push(c);
        }
        i = i + 1;
    }
    assert(input@.subrange(0, n as int) =~= input@);
    close_word(&mut done, cur);
    done
}

/// The short form of a name: with at most two words, its uppercase characters; else the first
/// letter of each word but "Interface".
pub fn abbreviation(input: &str) -> (res: String)
    ensures
        res@ == abbreviated(input@),
{
    let ws = split_words(input);
    let ghost wv = ws@.map_values(|w: Vec<char>| w@);
    let mut res = String::new();
    if ws.len() <= 2 {
        let n = input.unicode_len();
        let mut i: usize = 0;
        assert(input@.subrange(0, 0) =~= Seq::<char>::empty());
        while i < n
            invariant
                n == input@.len(),
                0 <= i <= n,
                res@ == uppers(input@.subrange(0, i as int)),
            decreases n - i,
        {
            let c = input.get_char(i);
            let ghost sub = input@.subrange(0, i + 1);
            assert(sub.drop_last() =~= input@.subrange(0, i as int));
            if is_uppercase(c) {
                push_char(&mut res, c);
            }
            i = i + 1;
        }
        assert(input@.subrange(0, n as int) =~= input@);
    } else {
        let interface = "Interface";
        let mut i: usize = 0;
        assert(wv.subrange(0, 0) =~= Seq::<Seq<char>>::empty());
        while i < ws.len()
            invariant
                wv == ws@.map_values(|w: Vec<char>| w@),
                0 <= i <= ws@.len(),
                res@ == initials(wv.subrange(0, i as int)),
                interface@ == "Interface"@,
            decreases ws@.len() - i,
        {
            let w = &ws[i];
            let ghost sub = wv.subrange(0, i + 1);
            assert(sub.drop_last() =~= wv.subrange(0, i as int));
            assert(sub.last() == w@);
            if !chars_eq(w, interface) && w.len() > 0 && (w[0] as u32) < 0x80 {
                push_char(&mut res, w[0]);
            }
            i = i + 1;
        }
        assert(wv.subrange(0, ws@.len() as int) =~= wv);
    }
    res
}

/// The side of a port drawn as a block.
pub const PORT_SIDE: i32 = 8;

/// The text that names a port: its label, the id of the one port it holds, or how many it
/// holds.
pub open spec fn port_caption(p: Port, options: Options) -> Seq<char> {
    if p.contains@.len() == 0 {
        label_text(p.sig, options.labels.ports_short_name, options.labels.port_label_max_len)
    } else if p.contains@.len() == 1 {
        decimal(p.contains@[0] as nat)
    } else {
        decimal(p.contains@.len()) + " ports"@
    }
}

/// The badge of a port: the short form of the first interface it has, with the colors of that
/// kind of interface.
pub open spec fn port_badge(p: Port) -> Option<(Seq<char>, Seq<char>, Seq<char>)> {
    match p.provided_interface {
        Some(i) => Some((abbreviated(i.class_name@), "rgb(200,200,200)"@, "rgb(0,0,0)"@)),
        None => match p.provided_required_interface {
            Some(i) => Some((abbreviated(i.class_name@), "rgb(40,40,40)"@, "rgb(255,255,255)"@)),
            None => match p.required_interface {
                Some(i) => Some(
                    (abbreviated(i.class_name@), "rgb(100,100,100)"@, "rgb(255,255,255)"@),
                ),
                None => None,
            },
        },
    }
}

/// The texts of a badge.
pub open spec fn badge_view(b: Option<(String, String, String)>) -> Option<
    (Seq<char>, Seq<char>, Seq<char>),
> {
    match b {
        Some(t) => Some((t.0@, t.1@, t.2@)),
        None => None,
    }
}

/// How the label of a port is aligned: ports on the right side are aligned to the left.
pub open spec fn port_align(t: PortType) -> label::Align {
    match t {
        PortType::Right => label::Align::Left,
        PortType::Left => label::Align::Right,
    }
}

/// The view of a port as it is made: a block or a label, placed at the origin.
pub open spec fn port_view(v: View, p: Port, options: Options) -> bool {
    &&& v.elements@.len() == 0
    &&& match options.ports.representation {
        PortsRepresentation::Blocks => {
            &&& v.container.form matches Form::Rectangle(ElementType::Port, r)
                && r.x == 0 && r.y == 0 && r.w == PORT_SIDE * options.ratio && r.h == PORT_SIDE
                * options.ratio && r.id@ == decimal(p.sig.id as nat)
            &&& v.container.style.stroke_style@ == "rgb(0,0,0)"@
            &&& v.container.style.fill_style@ == "rgb(50,50,50)"@
        },
        PortsRepresentation::Labels => {
            &&& v.container.form matches Form::Label(ElementType::Port, l) && l.x == 0 && l.y == 0
                && l.w == 0 && l.h == 0 && l.label@ == port_caption(p, options) && l.subtitle.is_none()
                && badge_view(l.badge) == port_badge(p) && l.subbadge.is_none() && l.padding == 4
                * options.ratio && l.id@ == decimal(p.sig.id as nat) && l.align == port_align(
                p.port_type,
            )
            &&& v.container.style.stroke_style@ == "rgb(0,0,0)"@
            &&& v.container.style.fill_style@ == "rgb(220,220,220)"@
        },
    }
}

/// A badge of the short form of the interface's class, with the given colors.
fn badge(class_name: &String, fill: &str, text: &str) -> (res: (String, String, String))
    ensures
        res.0@ == abbreviated(class_name@),
        res.1@ == fill@,
        res.2@ == text@,
{
    (abbreviation(class_name.as_str()), String::from_str(fill), String::from_str(text))
}

/// The text that names the port.
fn caption(entity: &Port, options: &Options) -> (res: String)
    ensures
        res@ == port_caption(*entity, *options),
{
    if entity.contains.len() == 0 {
        entity.get_label(options)
    } else if entity.contains.len() == 1 {
        usize_to_string(entity.contains[0])
    } else {
        let mut text = usize_to_string(entity.contains.len());
        text.append(" ports");
        text
    }
}

impl Render<Port> {
    pub fn new(entity: Port, options: &Options, belong_to_inner_composition: bool) -> (res: Self)
        ensures
            res.entity == entity,
            !res.hidden,
            port_view(res.view, entity, *options),
    {
        let id = entity.sig.id;
        let ratio = options.ratio();
        let container = match options.ports.representation {
            PortsRepresentation::Blocks => Container {
                form: Form::Rectangle(
                    ElementType::Port,
                    Rectangle {
                        x: 0,
                        y: 0,
                        w: ratio.get(PORT_SIDE),
                        h: ratio.get(PORT_SIDE),
                        id: usize_to_string(id),
                    },
                ),
                style: Style {
                    stroke_style: String::from_str("rgb(0,0,0)"),
                    fill_style: String::from_str("rgb(50,50,50)"),
                },
            },
            PortsRepresentation::Labels => {
                let text = caption(&entity, options);
                let align = match entity.port_type {
                    PortType::Right => label::Align::Left,
                    PortType::Left => label::Align::Right,
                };
                let badge = match &entity.provided_interface {
                    Some(i) => Some(badge(&i.class_name, "rgb(200,200,200)", "rgb(0,0,0)")),
                    None => match &entity.provided_required_interface {
                        Some(i) => Some(badge(&i.class_name, "rgb(40,40,40)", "rgb(255,255,255)")),
                        None => match &entity.required_interface {
                            Some(i) => Some(
                                badge(&i.class_name, "rgb(100,100,100)", "rgb(255,255,255)"),
                            ),
                            None => None,
                        },
                    },
                };
                Container {
                    form: Form::Label(
                        ElementType::Port,
                        Label::new(
                            0,
                            0,
                            0,
                            0,
                            text,
                            None,
                            badge,
                            None,
                            4,
                            usize_to_string(id),
                            align,
                            &ratio,
                        ),
                    ),
                    style: Style {
                        stroke_style: String::from_str("rgb(0,0,0)"),
                        fill_style: String::from_str("rgb(220,220,220)"),
                    },
                }
            },
        };
        Self { entity, view: View { container, elements: Vec::new() }, hidden: false }
    }
}

/// The port is drawn on the board: it is visible or invisible ports are drawn too, and the
/// filter shows it.
pub open spec fn shown(p: Port, hide_invisible: bool, state: State) -> bool {
    (p.visibility || !hide_invisible) && state.visible(p.sig.id)
}

/// How many drawn ports of the given side there are.
pub open spec fn side_count(
    ports: Seq<Representation<Port>>,
    side: PortType,
    hide_invisible: bool,
    state: State,
) -> nat
    decreases ports.len(),
{
    if ports.len() == 0 {
        0
    } else {
        let p = ports.last().entity();
        side_count(ports.drop_last(), side, hide_invisible, state) + if p.port_type == side
            && shown(p, hide_invisible, state) {
            1nat
        } else {
            0nat
        }
    }
}

/// The height the ports take: a step of a cell for each port of the fuller side, and one more.
pub open spec fn ports_height(ports: Ports, state: State, ratio: u8) -> int {
    if ports.ports@.len() == 0 {
        0
    } else {
        let l = side_count(ports.ports@, PortType::Left, ports.hide_invisible, state);
        let r = side_count(ports.ports@, PortType::Right, ports.hide_invisible, state);
        let most = if l >= r {
            l
        } else {
            r
        };
        (most + 1) * (CELL * ratio)
    }
}

proof fn lemma_side_count_le(
    ports: Seq<Representation<Port>>,
    side: PortType,
    hide_invisible: bool,
    state: State,
)
    ensures
        side_count(ports, side, hide_invisible, state) <= ports.len(),
    decreases ports.len(),
{
    if ports.len() > 0 {
        lemma_side_count_le(ports.drop_last(), side, hide_invisible, state);
    }
}

/// Whether the port is drawn on the board, among ports that hide invisible ones or not.
pub fn is_drawn(p: &Port, hide_invisible: bool, state: &State) -> (res: bool)
    ensures
        res == shown(*p, hide_invisible, *state),
{
    (p.visibility || !hide_invisible) && state.is_port_filtered_or_linked(p)
}

/// How many drawn ports of the side there are.
fn count_side(ports: &Ports, side: PortType, state: &State) -> (res: usize)
    ensures
        res == side_count(ports.ports@, side, ports.hide_invisible, *state),
{
    let mut n: usize = 0;
    let mut i: usize = 0;
    assert(ports.ports@.subrange(0, 0) =~= Seq::<Representation<Port>>::empty());
    while i < ports.ports.len()
        invariant
            0 <= i <= ports.ports@.len(),
            n == side_count(ports.ports@.subrange(0, i as int), side, ports.hide_invisible, *state),
        decreases ports.ports@.len() - i,
    {
        let ghost sub = ports.ports@.subrange(0, i + 1);
        assert(sub.drop_last() =~= ports.ports@.subrange(0, i as int));
        proof {
            lemma_side_count_le(sub, side, ports.hide_invisible, *state);
        }
        let p = ports.ports[i].origin();
        if p.port_type == side && is_drawn(p, ports.hide_invisible, state) {
            n = n + 1;
        }
        i = i + 1;
    }
    assert(ports.ports@.subrange(0, ports.ports@.len() as int) =~= ports.ports@);
    n
}

/// The ports as they are, or made ready to draw.
fn render_port(r: Representation<Port>, options: &Options, belong_to_inner_composition: bool) -> (res:
    Representation<Port>)
    ensures
        res is Render,
        res.entity() == r.entity(),
        r is Render ==> res == r,
        r is Origin ==> port_view(res->Render_0.view, r.entity(), *options)
            && !res->Render_0.hidden,
{
    match r {
        Representation::Origin(port) => Representation::Render(
            Render::<Port>::new(port, options, belong_to_inner_composition),
        ),
        Representation::Render(_) => r,
    }
}

impl Render<Ports> {
    pub fn new(entity: Ports, options: &Options, belong_to_inner_composition: bool) -> (res: Self)
        ensures
            res.entity.ports@.len() == entity.ports@.len(),
            forall|i: int|
                0 <= i < entity.ports@.len() ==> {
                    let before = #[trigger] entity.ports@[i];
                    let after = res.entity.ports@[i];
                    &&& after is Render
                    &&& after.entity() == before.entity()
                    &&& before is Render ==> after == before
                    &&& before is Origin ==> port_view(after->Render_0.view, before.entity(), *options)
                        && !after->Render_0.hidden
                },
            res.entity.hide_invisible == entity.hide_invisible,
            res.entity.sig == entity.sig,
            !res.hidden,
            res.view.elements@.len() == 0,
            res.view.container.form matches Form::Rectangle(ElementType::Port, r) && r.x == 0
                && r.y == 0 && r.w == 0 && r.h == 0 && r.id@.len() == 0,
            res.view.container.style.stroke_style@ == "rgb(0,0,0)"@,
            res.view.container.style.fill_style@ == "rgb(0,0,0)"@,
    {
        let Ports { ports: mut source, hide_invisible, sig } = entity;
        let ghost before = source@;
        let mut ports: Vec<Representation<Port>> = Vec::new();
        let mut i: usize = 0;
        let n = source.len();
        while i < n
            invariant
                n == before.len(),
                0 <= i <= n,
                source@ == before.subrange(i as int, n as int),
                ports@.len() == i,
                forall|j: int|
                    0 <= j < i ==> {
                        let b = #[trigger] before[j];
                        let a = ports@[j];
                        &&& a is Render
                        &&& a.entity() == b.entity()
                        &&& b is Render ==> a == b
                        &&& b is Origin ==> port_view(a->Render_0.view, b.entity(), *options)
                            && !a->Render_0.hidden
                    },
            decreases n - i,
        {
            let r = source.remove(0);
            assert(r == before[i as int]);
            ports.push(render_port(r, options, belong_to_inner_composition));
            assert(source@ =~= before.subrange(i + 1, n as int));
            i = i + 1;
        }
        Self {
            entity: Ports { ports, hide_invisible, sig },
            view: View {
                container: Container {
                    form: Form::Rectangle(
                        ElementType::Port,
                        Rectangle { x: 0, y: 0, w: 0, h: 0, id: String::new() },
                    ),
                    style: Style {
                        stroke_style: String::from_str("rgb(0,0,0)"),
                        fill_style: String::from_str("rgb(0,0,0)"),
                    },
                },
                elements: Vec::new(),
            },
            hidden: false,
        }
    }

    /// The height the drawn ports take.
    pub fn height(&self, state: &State, options: &Options) -> (res: i32)
        requires
            ports_height(self.entity, *state, options.ratio) <= i32::MAX,
        ensures
            res == ports_height(self.entity, *state, options.ratio),
    {
        if self.entity.ports.len() == 0 {
            return 0;
        }
        let max_in = count_side(&self.entity, PortType::Left, state);
        let max_out = count_side(&self.entity, PortType::Right, state);
        let most = if max_in >= max_out {
            max_in
        } else {
            max_out
        };
        let padding = options.ratio().get(CELL as i32);
        if padding == 0 {
            return 0;
        }
        proof {
            lemma_side_count_le(self.entity.ports@, PortType::Left, self.entity.hide_invisible, *state);
            assert((most + 1) * padding <= i32::MAX);
            assert(0 <= padding);
            assert(most * padding <= (most + 1) * padding) by (nonlinear_arith)
                requires
                    0 <= padding,
            ;
            assert(0 <= most * padding) by (nonlinear_arith)
                requires
                    0 <= padding,
                    0 <= most,
            ;
            assert(most <= most * padding) by (nonlinear_arith)
                requires
                    1 <= padding,
                    0 <= most,
            ;
            assert((most + 1) * padding == most * padding + padding) by (nonlinear_arith);
        }
        let m = most as i32;
        m * padding + padding
    }
}

/// Where the port of a side goes across: at the anchor, or centred on it.
pub open spec fn across(anchor: int, centred: bool, f: Form) -> int {
    if centred {
        anchor - div_toward_zero(f.box_size().0, 2)
    } else {
        anchor
    }
}

/// The drawn ports of a side can be stacked within the machine integers.
pub open spec fn stack_fits(
    ports: Ports,
    state: State,
    side: PortType,
    anchor: int,
    centred: bool,
    start: int,
    step: int,
) -> bool {
    &&& 0 <= step
    &&& i32::MIN <= start
    &&& start + side_count(ports.ports@, side, ports.hide_invisible, state) * step <= i32::MAX
    &&& forall|i: int|
        0 <= i < ports.ports@.len() ==> match #[trigger] ports.ports@[i] {
            Representation::Render(r) => r.entity.port_type == side && shown(
                r.entity,
                ports.hide_invisible,
                state,
            ) ==> r.view.container.form.box_size_fits() && i32::MIN <= across(
                anchor,
                centred,
                r.view.container.form,
            ) <= i32::MAX,
            Representation::Origin(_) => true,
        }
}

/// The drawn ports of a side were stacked: the k-th of them moved to `start + k * step` down,
/// at the anchor across; the other ports are as they were.
pub open spec fn stacked(
    before: Ports,
    after: Ports,
    state: State,
    side: PortType,
    anchor: int,
    centred: bool,
    start: int,
    step: int,
) -> bool {
    &&& after.ports@.len() == before.ports@.len()
    &&& after.hide_invisible == before.hide_invisible
    &&& after.sig == before.sig
    &&& forall|i: int|
        0 <= i < before.ports@.len() ==> {
            let b = before.ports@[i];
            let a = #[trigger] after.ports@[i];
            if b.entity().port_type == side && shown(b.entity(), before.hide_invisible, state) {
                match (b, a) {
                    (Representation::Render(x), Representation::Render(y)) => {
                        &&& y.entity == x.entity
                        &&& y.hidden == x.hidden
                        &&& y.view.elements == x.view.elements
                        &&& moved_to(
                            x.view.container,
                            y.view.container,
                            (
                                across(anchor, centred, x.view.container.form),
                                start + side_count(
                                    before.ports@.subrange(0, i),
                                    side,
                                    before.hide_invisible,
                                    state,
                                ) * step,
                            ),
                        )
                    },
                    _ => false,
                }
            } else {
                a == b
            }
        }
}

/// Every drawn port of the side has a view.
pub open spec fn side_ready(ports: Ports, state: State, side: PortType) -> bool {
    forall|i: int|
        0 <= i < ports.ports@.len() && (#[trigger] ports.ports@[i]).entity().port_type == side
            && shown(ports.ports@[i].entity(), ports.hide_invisible, state) ==> ports.ports@[i] is Render
}

proof fn lemma_side_count_mono(
    ports: Seq<Representation<Port>>,
    side: PortType,
    hide_invisible: bool,
    state: State,
    a: int,
    b: int,
)
    requires
        0 <= a <= b <= ports.len(),
    ensures
        side_count(ports.subrange(0, a), side, hide_invisible, state) <= side_count(
            ports.subrange(0, b),
            side,
            hide_invisible,
            state,
        ),
    decreases b - a,
{
    if a < b {
        lemma_side_count_mono(ports, side, hide_invisible, state, a, b - 1);
        let s = ports.subrange(0, b);
        assert(s.drop_last() =~= ports.subrange(0, b - 1));
    }
}

/// Stacks the drawn ports of a side down from `start`, `step` apart, at the anchor across (or
/// centred on it). Fails when one of them has no view.
pub fn stack_side(
    ports: &mut Ports,
    state: &State,
    side: PortType,
    anchor: i32,
    centred: bool,
    start: i32,
    step: i32,
) -> (res: Result<(), E>)
    requires
        stack_fits(*old(ports), *state, side, anchor as int, centred, start as int, step as int),
    ensures
        res is Ok <==> side_ready(*old(ports), *state, side),
        res is Err ==> res == Err::<(), E>(E::RenderNotInited),
        res is Ok ==> stacked(
            *old(ports),
            *final(ports),
            *state,
            side,
            anchor as int,
            centred,
            start as int,
            step as int,
        ),
{
    let ghost before = *ports;
    let ghost total = side_count(before.ports@, side, before.hide_invisible, *state);
    let hide = ports.hide_invisible;
    let mut cursor: i32 = start;
    let mut i: usize = 0;
    assert(before.ports@.subrange(0, 0) =~= Seq::<Representation<Port>>::empty());
    assert(side_count(before.ports@.subrange(0, 0), side, hide, *state) == 0);
    assert(0 * step == 0) by (nonlinear_arith);
    while i < ports.ports.len()
        invariant
            0 <= i <= before.ports@.len(),
            ports.ports@.len() == before.ports@.len(),
            ports.hide_invisible == before.hide_invisible,
            ports.sig == before.sig,
            hide == before.hide_invisible,
            before == *old(ports),
            stack_fits(before, *state, side, anchor as int, centred, start as int, step as int),
            total == side_count(before.ports@, side, before.hide_invisible, *state),
            cursor == start + side_count(before.ports@.subrange(0, i as int), side, hide, *state)
                * step,
            forall|j: int|
                0 <= j < i && (#[trigger] before.ports@[j]).entity().port_type == side && shown(
                    before.ports@[j].entity(),
                    hide,
                    *state,
                ) ==> before.ports@[j] is Render,
            forall|j: int|
                0 <= j < i ==> {
                    let b = before.ports@[j];
                    let a = #[trigger] ports.ports@[j];
                    if b.entity().port_type == side && shown(b.entity(), hide, *state) {
                        match (b, a) {
                            (Representation::Render(x), Representation::Render(y)) => {
                                &&& y.entity == x.entity
                                &&& y.hidden == x.hidden
                                &&& y.view.elements == x.view.elements
                                &&& moved_to(
                                    x.view.container,
                                    y.view.container,
                                    (
                                        across(anchor as int, centred, x.view.container.form),
                                        start + side_count(before.ports@.subrange(0, j), side, hide, *state)
                                            * step,
                                    ),
                                )
                            },
                            _ => false,
                        }
                    } else {
                        a == b
                    }
                },
            forall|j: int| i <= j < ports.ports@.len() ==> #[trigger] ports.ports@[j] == before.ports@[j],
        decreases before.ports@.len() - i,
    {
        let ghost sub = before.ports@.subrange(0, i + 1);
        assert(sub.drop_last() =~= before.ports@.subrange(0, i as int));
        proof {
            lemma_side_count_mono(before.ports@, side, hide, *state, i + 1, before.ports@.len() as int);
            assert(before.ports@.subrange(0, before.ports@.len() as int) =~= before.ports@);
            assert(side_count(sub, side, hide, *state) * step <= total * step) by (nonlinear_arith)
                requires
                    side_count(sub, side, hide, *state) <= total,
                    0 <= step,
            ;
            assert(0 <= side_count(before.ports@.subrange(0, i as int), side, hide, *state) * step) by (nonlinear_arith)
                requires
                    0 <= step,
            ;
        }
        let p = ports.ports[i].origin();
        let drawn = p.port_type == side && (p.visibility || !hide) && state.is_port_filtered_or_linked(p);
        if drawn {
            match &mut ports.ports[i] {
                Representation::Render(r) => {
                    let (w, _h) = r.view.container.get_box_size();
                    let x = if centred {
                        anchor - w / 2
                    } else {
                        anchor
                    };
                    r.view.container.set_coors(Some(x), Some(cursor));
                },
                Representation::Origin(_) => {
                    return Err(E::RenderNotInited);
                },
            }
            assert(side_count(sub, side, hide, *state) == side_count(
                before.ports@.subrange(0, i as int),
                side,
                hide,
                *state,
            ) + 1);
            assert((side_count(before.ports@.subrange(0, i as int), side, hide, *state) + 1) * step
                == side_count(before.ports@.subrange(0, i as int), side, hide, *state) * step + step)
                by (nonlinear_arith);
            cursor = cursor + step;
        }
        i = i + 1;
    }
    Ok(())
}

/// Whether the drawn ports of a side can be stacked within the machine integers.
pub fn fits_stack(
    ports: &Ports,
    state: &State,
    side: PortType,
    anchor: i32,
    centred: bool,
    start: i32,
    step: i32,
) -> (res: bool)
    ensures
        res == stack_fits(*ports, *state, side, anchor as int, centred, start as int, step as int),
{
    if step < 0 {
        return false;
    }
    let n = count_side(ports, side, state);
    assert((n as int) * (step as int) <= 0x1_0000_0000_0000_0000 * 0x8000_0000) by (nonlinear_arith)
        requires
            0 <= n <= usize::MAX,
            usize::MAX < 0x1_0000_0000_0000_0000,
            0 <= step <= i32::MAX,
    ;
    assert(0 <= (n as int) * (step as int)) by (nonlinear_arith)
        requires
            0 <= n,
            0 <= step,
    ;
    let top: i128 = start as i128 + (n as i128) * (step as i128);
    if top > i32::MAX as i128 {
        return false;
    }
    let hide = ports.hide_invisible;
    let mut i: usize = 0;
    while i < ports.ports.len()
        invariant
            0 <= i <= ports.ports@.len(),
            hide == ports.hide_invisible,
            forall|j: int|
                0 <= j < i ==> match #[trigger] ports.ports@[j] {
                    Representation::Render(r) => r.entity.port_type == side && shown(
                        r.entity,
                        ports.hide_invisible,
                        *state,
                    ) ==> r.view.container.form.box_size_fits() && i32::MIN <= across(
                        anchor as int,
                        centred,
                        r.view.container.form,
                    ) <= i32::MAX,
                    Representation::Origin(_) => true,
                },
        decreases ports.ports@.len() - i,
    {
        match &ports.ports[i] {
            Representation::Render(r) => {
                if r.entity.port_type == side && is_drawn(&r.entity, hide, state) {
                    match r.view.container.form.wide_size() {
                        None => {
                            return false;
                        },
                        Some((w, _h)) => {
                            let half: i64 = if w >= 0 {
                                w / 2
                            } else {
                                -((-w) / 2)
                            };
                            let x: i64 = if centred {
                                anchor as i64 - half
                            } else {
                                anchor as i64
                            };
                            if x < i32::MIN as i64 || x > i32::MAX as i64 {
                                return false;
                            }
                        },
                    }
                }
            },
            Representation::Origin(_) => {},
        }
        i = i + 1;
    }
    true
}

/// Whether the height the ports take fits the machine integers.
pub fn fits_height(ports: &Ports, state: &State, options: &Options) -> (res: bool)
    ensures
        res == (ports_height(*ports, *state, options.ratio) <= i32::MAX),
{
    if ports.ports.len() == 0 {
        return true;
    }
    let l = count_side(ports, PortType::Left, state);
    let r = count_side(ports, PortType::Right, state);
    let most = if l >= r {
        l
    } else {
        r
    };
    let cell: i128 = CELL as i128 * options.ratio as i128;
    assert(((most as int) + 1) * (cell as int) <= 0x1_0000_0000_0000_0000 * 0x1_0000) by (nonlinear_arith)
        requires
            0 <= most <= usize::MAX,
            usize::MAX < 0x1_0000_0000_0000_0000,
            0 <= cell <= 25 * 255,
    ;
    assert(0 <= ((most as int) + 1) * (cell as int)) by (nonlinear_arith)
        requires
            0 <= most,
            0 <= cell,
    ;
    (most as i128 + 1) * cell <= i32::MAX as i128
}

impl Render<Ports> {
    /// Places the drawn ports as blocks: those of the left side centred on the left edge and
    /// those of the right side centred on the right edge, a cell apart from half a cell down.
    pub fn place_blocks(&mut self, state: &State, container_width: i32, options: &Options) -> (res:
        Result<(), E>)
        requires
            ({
                let padding = CELL * options.ratio;
                let start = div_toward_zero(padding, 2) - div_toward_zero(PORT_SIDE * options.ratio, 2);
                &&& stack_fits(old(self).entity, *state, PortType::Left, 0, true, start, padding)
                &&& stack_fits(
                    old(self).entity,
                    *state,
                    PortType::Right,
                    container_width as int,
                    true,
                    start,
                    padding,
                )
            }),
        ensures
            ({
                let padding = CELL * options.ratio;
                let start = div_toward_zero(padding, 2) - div_toward_zero(PORT_SIDE * options.ratio, 2);
                &&& res is Ok <==> side_ready(old(self).entity, *state, PortType::Left) && side_ready(
                    old(self).entity,
                    *state,
                    PortType::Right,
                )
                &&& res is Err ==> res == Err::<(), E>(E::RenderNotInited)
                &&& res is Ok ==> exists|mid: Ports|
                    stacked(old(self).entity, mid, *state, PortType::Left, 0, true, start, padding)
                        && stacked(
                        mid,
                        final(self).entity,
                        *state,
                        PortType::Right,
                        container_width as int,
                        true,
                        start,
                        padding,
                    )
                &&& final(self).view == old(self).view
                &&& final(self).hidden == old(self).hidden
            }),
    {
        let ratio = options.ratio();
        let padding = ratio.get(CELL as i32);
        let side = ratio.get(PORT_SIDE);
        let start = padding / 2 - side / 2;
        let ghost before = self.entity;
        match stack_side(&mut self.entity, state, PortType::Left, 0, true, start, padding) {
            Ok(()) => {},
            Err(e) => {
                return Err(e);
            },
        }
        let ghost mid = self.entity;
        proof {
            lemma_stacked_keeps_side_ready(before, mid, *state, PortType::Left, 0, true, start as int, padding as int, PortType::Right);
            lemma_stacked_keeps_fits(before, mid, *state, PortType::Left, 0, true, start as int, padding as int, PortType::Right, container_width as int, true);
        }
        stack_side(&mut self.entity, state, PortType::Right, container_width, true, start, padding)
    }

    /// Places the drawn ports as labels, `over` inside each edge, stacked from `start`, `step`
    /// apart.
    pub fn place_labels(
        &mut self,
        state: &State,
        container_width: i32,
        over: i32,
        start: i32,
        step: i32,
    ) -> (res: Result<(), E>)
        requires
            i32::MIN <= container_width - over <= i32::MAX,
            stack_fits(old(self).entity, *state, PortType::Left, over as int, false, start as int, step as int),
            stack_fits(
                old(self).entity,
                *state,
                PortType::Right,
                container_width - over,
                false,
                start as int,
                step as int,
            ),
        ensures
            res is Ok <==> side_ready(old(self).entity, *state, PortType::Left) && side_ready(
                old(self).entity,
                *state,
                PortType::Right,
            ),
            res is Err ==> res == Err::<(), E>(E::RenderNotInited),
            res is Ok ==> exists|mid: Ports|
                stacked(old(self).entity, mid, *state, PortType::Left, over as int, false, start as int, step as int)
                    && stacked(
                    mid,
                    final(self).entity,
                    *state,
                    PortType::Right,
                    container_width - over,
                    false,
                    start as int,
                    step as int,
                ),
            final(self).view == old(self).view,
            final(self).hidden == old(self).hidden,
    {
        let ghost before = self.entity;
        match stack_side(&mut self.entity, state, PortType::Left, over, false, start, step) {
            Ok(()) => {},
            Err(e) => {
                return Err(e);
            },
        }
        let ghost mid = self.entity;
        proof {
            lemma_stacked_keeps_side_ready(before, mid, *state, PortType::Left, over as int, false, start as int, step as int, PortType::Right);
            lemma_stacked_keeps_fits(before, mid, *state, PortType::Left, over as int, false, start as int, step as int, PortType::Right, container_width - over, false);
        }
        stack_side(&mut self.entity, state, PortType::Right, container_width - over, false, start, step)
    }
}

/// Stacking one side keeps which ports of the other side are drawn and have views.
proof fn lemma_stacked_keeps_side_ready(
    before: Ports,
    after: Ports,
    state: State,
    side: PortType,
    anchor: int,
    centred: bool,
    start: int,
    step: int,
    other: PortType,
)
    requires
        stacked(before, after, state, side, anchor, centred, start, step),
        other != side,
    ensures
        side_ready(after, state, other) == side_ready(before, state, other),
{
    assert forall|i: int| 0 <= i < before.ports@.len() && (#[trigger] before.ports@[i]).entity().port_type == other implies after.ports@[i] == before.ports@[i] by {}
    if side_ready(before, state, other) {
        assert forall|i: int|
            0 <= i < after.ports@.len() && (#[trigger] after.ports@[i]).entity().port_type == other
                && shown(after.ports@[i].entity(), after.hide_invisible, state) implies after.ports@[i] is Render by {
            let b = before.ports@[i];
            if b.entity().port_type == side && shown(b.entity(), before.hide_invisible, state) {
                match (b, after.ports@[i]) {
                    (Representation::Render(x), Representation::Render(y)) => {},
                    _ => {},
                }
            }
        }
    }
    if side_ready(after, state, other) {
        assert forall|i: int|
            0 <= i < before.ports@.len() && (#[trigger] before.ports@[i]).entity().port_type == other
                && shown(before.ports@[i].entity(), before.hide_invisible, state) implies before.ports@[i] is Render by {
            assert(after.ports@[i] == before.ports@[i]);
        }
    }
}

proof fn lemma_same_entities_count(
    a: Seq<Representation<Port>>,
    b: Seq<Representation<Port>>,
    side: PortType,
    hide_invisible: bool,
    state: State,
)
    requires
        a.len() == b.len(),
        forall|i: int| 0 <= i < a.len() ==> #[trigger] a[i].entity() == b[i].entity(),
    ensures
        side_count(a, side, hide_invisible, state) == side_count(b, side, hide_invisible, state),
    decreases a.len(),
{
    if a.len() > 0 {
        lemma_same_entities_count(a.drop_last(), b.drop_last(), side, hide_invisible, state);
        assert(a.last().entity() == b.last().entity());
    }
}

/// Stacking the ports of a side moves them and keeps how high the ports are.
pub proof fn lemma_stacked_keeps_height(
    before: Ports,
    after: Ports,
    state: State,
    side: PortType,
    anchor: int,
    centred: bool,
    start: int,
    step: int,
    ratio: u8,
)
    requires
        stacked(before, after, state, side, anchor, centred, start, step),
    ensures
        ports_height(after, state, ratio) == ports_height(before, state, ratio),
{
    assert forall|i: int| 0 <= i < before.ports@.len() implies #[trigger] before.ports@[i].entity()
        == after.ports@[i].entity() by {
        let b = before.ports@[i];
        if b.entity().port_type == side && shown(b.entity(), before.hide_invisible, state) {
            match (b, after.ports@[i]) {
                (Representation::Render(x), Representation::Render(y)) => {},
                _ => {},
            }
        }
    }
    lemma_same_entities_count(before.ports@, after.ports@, PortType::Left, before.hide_invisible, state);
    lemma_same_entities_count(before.ports@, after.ports@, PortType::Right, before.hide_invisible, state);
}

/// Stacking one side keeps the other side within the machine integers.
proof fn lemma_stacked_keeps_fits(
    before: Ports,
    after: Ports,
    state: State,
    side: PortType,
    anchor: int,
    centred: bool,
    start: int,
    step: int,
    other: PortType,
    other_anchor: int,
    other_centred: bool,
)
    requires
        stacked(before, after, state, side, anchor, centred, start, step),
        other != side,
        stack_fits(before, state, other, other_anchor, other_centred, start, step),
    ensures
        stack_fits(after, state, other, other_anchor, other_centred, start, step),
{
    assert forall|i: int| 0 <= i < before.ports@.len() implies #[trigger] before.ports@[i].entity()
        == after.ports@[i].entity() by {
        let b = before.ports@[i];
        if b.entity().port_type == side && shown(b.entity(), before.hide_invisible, state) {
            match (b, after.ports@[i]) {
                (Representation::Render(x), Representation::Render(y)) => {},
                _ => {},
            }
        }
    }
    lemma_same_entities_count(before.ports@, after.ports@, other, before.hide_invisible, state);
    assert forall|i: int| 0 <= i < after.ports@.len() implies match #[trigger] after.ports@[i] {
        Representation::Render(r) => r.entity.port_type == other && shown(
            r.entity,
            after.hide_invisible,
            state,
        ) ==> r.view.container.form.box_size_fits() && i32::MIN <= across(
            other_anchor,
            other_centred,
            r.view.container.form,
        ) <= i32::MAX,
        Representation::Origin(_) => true,
    } by {
        let b = before.ports@[i];
        if !(b.entity().port_type == side && shown(b.entity(), before.hide_invisible, state)) {
            assert(after.ports@[i] == b);
        }
    }
}

/// The entries of the map, each once, in the order the map walks them; that order comes from
/// the hasher the map was made with, so no order is stated.
fn entries(m: &HashMap<usize, usize>) -> (res: Vec<(usize, usize)>)
    ensures
        forall|i: int|
            0 <= i < res@.len() ==> m@.contains_key(#[trigger] res@[i].0) && m@[res@[i].0] == res@[i].1,
        forall|k: usize| m@.contains_key(k) ==> exists|i: int| 0 <= i < res@.len() && #[trigger] res@[i].0 == k,
{
    broadcast use vstd::std_specs::hash::group_hash_axioms;
    let mut res: Vec<(usize, usize)> = Vec::new();
    let ghost all = spec_hash_map_iter(m).remaining();
    for kv in it: m.iter()
        invariant
            all == spec_hash_map_iter(m).remaining(),
            it.seq() == all,
            res@.len() == it.index(),
            forall|i: int| 0 <= i < it.index() ==> #[trigger] res@[i] == (*all[i].0, *all[i].1),
    {
        let (k, v) = kv;
        res.push((*k, *v));
    }
    proof {
        assert forall|i: int| 0 <= i < res@.len() implies m@.contains_key(#[trigger] res@[i].0) && m@[res@[i].0] == res@[i].1 by {
            assert(res@[i] == (*all[i].0, *all[i].1));
            assert(m@.contains_key(*all[i].0));
        }
        assert forall|k: usize| m@.contains_key(k) implies exists|i: int| 0 <= i < res@.len() && #[trigger] res@[i].0 == k by {
            assert(all.contains((&k, &m@[k])));
            let i = choose|i: int| 0 <= i < all.len() && all[i] == (&k, &m@[k]);
            assert(res@[i] == (*all[i].0, *all[i].1));
        }
    }
    res
}

/// How many links to the component a port has, as its map tells.
pub open spec fn links_to(p: Port, root: usize) -> usize {
    if p.connected@.contains_key(root) {
        p.connected@[root]
    } else {
        0
    }
}

/// The texts of an optional subtitle.
pub open spec fn text_view(t: Option<String>) -> Option<Seq<char>> {
    match t {
        Some(s) => Some(s@),
        None => None,
    }
}

/// The stroke and fill of a port: a highlight wins over a match, which wins over the hover,
/// which wins over being selected (and shown), being linked to a selection, and being linked
/// to a filtered port, in that order.
pub open spec fn port_colors(state: State, id: usize) -> (Seq<char>, Seq<char>) {
    let highlighted = match state.highlighted {
        Some(m) => m@.contains(id),
        None => false,
    };
    let matched = match state.matches {
        Some(m) => m@.contains(id),
        None => false,
    };
    let linked = match state.filtered {
        Some(f) => f.1@.contains(id),
        None => false,
    };
    if highlighted {
        ("rgb(50,50,50)"@, "rgb(185,230,255)"@)
    } else if matched {
        ("rgb(50,50,50)"@, "rgb(195,190,190)"@)
    } else if state.hovered == Some(id) {
        ("rgb(50,50,50)"@, "rgb(200,200,200)"@)
    } else if state.ports@.contains(id) && state.visible(id) {
        ("rgb(0,0,0)"@, "rgb(150,250,150)"@)
    } else if state.ports_highlighted@.contains(id) {
        ("rgb(0,0,0)"@, "rgb(220,250,220)"@)
    } else if linked {
        ("rgb(150,150,150)"@, "rgb(250,250,250)"@)
    } else {
        ("rgb(50,50,50)"@, "rgb(240,240,240)"@)
    }
}

impl Render<Port> {
    /// Paints the port as it stands now in the state.
    pub fn restyle(&mut self, state: &State)
        ensures
            final(self).entity == old(self).entity,
            final(self).hidden == old(self).hidden,
            final(self).view.elements == old(self).view.elements,
            final(self).view.container.form == old(self).view.container.form,
            final(self).view.container.style.stroke_style@ == port_colors(*state, old(self).entity.sig.id).0,
            final(self).view.container.style.fill_style@ == port_colors(*state, old(self).entity.sig.id).1,
    {
        let id = self.entity.sig.id;
        let style = if state.is_highlighted(&id) {
            Style::of("rgb(50,50,50)", "rgb(185,230,255)")
        } else if state.is_match(&id) {
            Style::of("rgb(50,50,50)", "rgb(195,190,190)")
        } else if state.is_hovered(&id) {
            Style::of("rgb(50,50,50)", "rgb(200,200,200)")
        } else if state.is_port_selected(&id) {
            Style::of("rgb(0,0,0)", "rgb(150,250,150)")
        } else if state.is_port_highlighted(&id) {
            Style::of("rgb(0,0,0)", "rgb(220,250,220)")
        } else if state.is_port_linked(&self.entity) {
            Style::of("rgb(150,150,150)", "rgb(250,250,250)")
        } else {
            Style::of("rgb(50,50,50)", "rgb(240,240,240)")
        };
        self.view.container.style = style;
    }
}

impl Render<Port> {
    /// Writes on the label of the port how often it is linked to the component, when more
    /// than once, and a badge with how often it is linked to some other component, when it is.
    pub fn annotate(&mut self, root: usize)
        ensures
            final(self).entity == old(self).entity,
            final(self).hidden == old(self).hidden,
            final(self).view.elements == old(self).view.elements,
            final(self).view.container.style == old(self).view.container.style,
            match old(self).view.container.form {
                Form::Label(ty, a) => match final(self).view.container.form {
                    Form::Label(ty2, b) => {
                        &&& ty2 == ty
                        &&& b.x == a.x && b.y == a.y && b.w == a.w && b.h == a.h
                        &&& b.label == a.label && b.badge == a.badge && b.padding == a.padding
                        &&& b.id == a.id && b.align == a.align && b.params == a.params
                        &&& text_view(b.subtitle) == if links_to(old(self).entity, root) <= 1 {
                            None
                        } else {
                            Some(decimal(links_to(old(self).entity, root) as nat) + " linked"@)
                        }
                        &&& match b.subbadge {
                            None => forall|k: usize|
                                old(self).entity.connected@.contains_key(k) ==> k == root,
                            Some(t) => exists|k: usize|
                                k != root && old(self).entity.connected@.contains_key(k) && t.0@
                                    == decimal(old(self).entity.connected@[k] as nat) && t.1@
                                    == "rgb(240,240,240)"@ && t.2@ == "rgb(25,25,25)"@,
                        }
                    },
                    _ => false,
                },
                _ => final(self).view == old(self).view,
            },
    {
        let connected = match self.entity.connected.get(&root) {
            Some(n) => *n,
            None => 0,
        };
        let subtitle = if connected <= 1 {
            None
        } else {
            let mut text = usize_to_string(connected);
            text.append(" linked");
            Some(text)
        };
        let all = entries(&self.entity.connected);
        let mut other: Option<(usize, usize)> = None;
        let mut i: usize = 0;
        while i < all.len() && other.is_none()
            invariant
                0 <= i <= all@.len(),
                other is None ==> forall|j: int| 0 <= j < i ==> #[trigger] all@[j].0 == root,
                other matches Some(e) ==> e.0 != root && self.entity.connected@.contains_key(e.0)
                    && self.entity.connected@[e.0] == e.1,
                forall|j: int|
                    0 <= j < all@.len() ==> self.entity.connected@.contains_key(#[trigger] all@[j].0)
                        && self.entity.connected@[all@[j].0] == all@[j].1,
            decreases all@.len() - i,
        {
            if all[i].0 != root {
                other = Some(all[i]);
            }
            i = i + 1;
        }
        proof {
            if other is None {
                assert forall|k: usize| self.entity.connected@.contains_key(k) implies k == root by {
                    let j = choose|j: int| 0 <= j < all@.len() && #[trigger] all@[j].0 == k;
                }
            }
        }
        let subbadge = match other {
            Some((_, c)) => Some(
                (
                    usize_to_string(c),
                    String::from_str("rgb(240,240,240)"),
                    String::from_str("rgb(25,25,25)"),
                ),
            ),
            None => None,
        };
        if let Form::Label(_, form) = &mut self.view.container.form {
            form.subtitle = subtitle;
            form.subbadge = subbadge;
        }
    }
}

} // verus!
