use vstd::prelude::*;

use crate::entity::Port;

verus! {

/// The position of the first occurrence of the id, or -1.
pub open spec fn first_pos(s: Seq<usize>, id: usize) -> int
    decreases s.len(),
{
    if s.len() == 0 {
        -1
    } else {
        let i = first_pos(s.drop_last(), id);
        if i >= 0 {
            i
        } else if s.last() == id {
            s.len() - 1
        } else {
            -1
        }
    }
}

/// The list without the first occurrence of the id.
pub open spec fn without(s: Seq<usize>, id: usize) -> Seq<usize> {
    let i = first_pos(s, id);
    if i >= 0 {
        s.remove(i)
    } else {
        s
    }
}

/// The list with the id added at the end unless it is there.
pub open spec fn with(s: Seq<usize>, id: usize) -> Seq<usize> {
    if s.contains(id) {
        s
    } else {
        s.push(id)
    }
}

/// No id occurs twice.
pub open spec fn distinct(s: Seq<usize>) -> bool {
    forall|i: int, j: int| 0 <= i < j < s.len() ==> s[i] != s[j]
}

pub proof fn lemma_first_pos(s: Seq<usize>, id: usize)
    ensures
        -1 <= first_pos(s, id) < s.len(),
        first_pos(s, id) >= 0 <==> s.contains(id),
        first_pos(s, id) >= 0 ==> s[first_pos(s, id)] == id,
        forall|j: int| 0 <= j < first_pos(s, id) ==> s[j] != id,
    decreases s.len(),
{
    if s.len() > 0 {
        let d = s.drop_last();
        lemma_first_pos(d, id);
        if d.contains(id) {
            let k = choose|k: int| 0 <= k < d.len() && d[k] == id;
            assert(s[k] == id);
        }
        if s.contains(id) && first_pos(d, id) < 0 {
            let k = choose|k: int| 0 <= k < s.len() && s[k] == id;
            if k < s.len() - 1 {
                assert(d[k] == id);
            }
        }
        assert forall|j: int| 0 <= j < first_pos(s, id) implies s[j] != id by {
            if first_pos(d, id) >= 0 {
                assert(d[j] == s[j]);
            } else {
                assert(d[j] == s[j]);
            }
        }
    }
}

/// Removing an id keeps the others distinct and drops only that id.
pub proof fn lemma_without(s: Seq<usize>, id: usize)
    requires
        distinct(s),
    ensures
        distinct(without(s, id)),
        !without(s, id).contains(id),
        forall|x: usize| x != id ==> (without(s, id).contains(x) <==> s.contains(x)),
{
    lemma_first_pos(s, id);
    let w = without(s, id);
    let i = first_pos(s, id);
    if i >= 0 {
        assert forall|a: int, b: int| 0 <= a < b < w.len() implies w[a] != w[b] by {
            let a2 = if a < i { a } else { a + 1 };
            let b2 = if b < i { b } else { b + 1 };
            assert(w[a] == s[a2]);
            assert(w[b] == s[b2]);
        }
        assert forall|x: usize| x != id implies (w.contains(x) <==> s.contains(x)) by {
            if s.contains(x) {
                let k = choose|k: int| 0 <= k < s.len() && s[k] == x;
                if k < i {
                    assert(w[k] == x);
                } else {
                    assert(k != i);
                    assert(w[k - 1] == x);
                }
            }
            if w.contains(x) {
                let k = choose|k: int| 0 <= k < w.len() && w[k] == x;
                if k < i {
                    assert(s[k] == x);
                } else {
                    assert(s[k + 1] == x);
                }
            }
        }
        if w.contains(id) {
            let k = choose|k: int| 0 <= k < w.len() && w[k] == id;
            if k < i {
                assert(s[k] == id);
            } else {
                assert(s[k + 1] == id);
                assert(s[i] == id);
            }
        }
    }
}

/// Adding an id keeps the list distinct and holds exactly one more id.
pub proof fn lemma_with(s: Seq<usize>, id: usize)
    requires
        distinct(s),
    ensures
        distinct(with(s, id)),
        with(s, id).contains(id),
        forall|x: usize| x != id ==> (with(s, id).contains(x) <==> s.contains(x)),
{
    let w = with(s, id);
    if !s.contains(id) {
        assert(w[s.len() as int] == id);
        assert forall|x: usize| x != id implies (w.contains(x) <==> s.contains(x)) by {
            if s.contains(x) {
                let k = choose|k: int| 0 <= k < s.len() && s[k] == x;
                assert(w[k] == x);
            }
            if w.contains(x) {
                let k = choose|k: int| 0 <= k < w.len() && w[k] == x;
                assert(s[k] == x);
            }
        }
    }
}

/// Whether the id is in the list.
pub fn holds(v: &Vec<usize>, id: usize) -> (res: bool)
    ensures
        res == v@.contains(id),
{
    let mut i: usize = 0;
    while i < v.len()
        invariant
            0 <= i <= v@.len(),
            forall|j: int| 0 <= j < i ==> v@[j] != id,
        decreases v@.len() - i,
    {
        if v[i] == id {
            assert(v@[i as int] == id);
            return true;
        }
        i = i + 1;
    }
    false
}

/// The position of the first occurrence of the id.
pub fn position(v: &Vec<usize>, id: usize) -> (res: Option<usize>)
    ensures
        match res {
            Some(i) => i == first_pos(v@, id),
            None => first_pos(v@, id) == -1,
        },
{
    proof {
        lemma_first_pos(v@, id);
    }
    let mut i: usize = 0;
    while i < v.len()
        invariant
            0 <= i <= v@.len(),
            forall|j: int| 0 <= j < i ==> v@[j] != id,
            -1 <= first_pos(v@, id) < v@.len(),
            first_pos(v@, id) >= 0 <==> v@.contains(id),
            first_pos(v@, id) >= 0 ==> v@[first_pos(v@, id)] == id,
            forall|j: int| 0 <= j < first_pos(v@, id) ==> v@[j] != id,
        decreases v@.len() - i,
    {
        if v[i] == id {
            return Some(i);
        }
        i = i + 1;
    }
    None
}

/// Adds the id unless it is in the list; tells whether it was added.
fn insert_id(v: &mut Vec<usize>, id: usize) -> (res: bool)
    ensures
        final(v)@ == with(old(v)@, id),
        res == !old(v)@.contains(id),
{
    if !holds(v, id) {
        v.push(id);
        true
    } else {
        false
    }
}

/// Removes the first occurrence of the id; tells whether there was one.
fn remove_id(v: &mut Vec<usize>, id: usize) -> (res: bool)
    ensures
        final(v)@ == without(old(v)@, id),
        res == old(v)@.contains(id),
{
    proof {
        lemma_first_pos(v@, id);
    }
    if let Some(pos) = position(v, id) {
        v.remove(pos);
        true
    } else {
        false
    }
}

/// The components and ports that the user selected, as reported to the page.
#[derive(Debug)]
pub struct Selection {
    pub components: Vec<usize>,
    pub ports: Vec<usize>,
}

impl Selection {
    pub fn new() -> (res: Self)
        ensures
            res.components@.len() == 0,
            res.ports@.len() == 0,
    {
        Self { components: Vec::new(), ports: Vec::new() }
    }

    pub fn insert_component(&mut self, id: &usize)
        ensures
            final(self).components@ == with(old(self).components@, *id),
            final(self).ports@ == old(self).ports@,
    {
        insert_id(&mut self.components, *id);
    }

    pub fn remove_component(&mut self, id: &usize)
        ensures
            final(self).components@ == without(old(self).components@, *id),
            final(self).ports@ == old(self).ports@,
    {
        remove_id(&mut self.components, *id);
    }

    pub fn insert_port(&mut self, id: &usize)
        ensures
            final(self).ports@ == with(old(self).ports@, *id),
            final(self).components@ == old(self).components@,
    {
        insert_id(&mut self.ports, *id);
    }

    pub fn remove_port(&mut self, id: &usize)
        ensures
            final(self).ports@ == without(old(self).ports@, *id),
            final(self).components@ == old(self).components@,
    {
        remove_id(&mut self.ports, *id);
    }

    pub fn clear(&mut self)
        ensures
            final(self).ports@.len() == 0,
            final(self).components@.len() == 0,
    {
        self.ports.clear();
        self.components.clear();
    }
}

/// What the filter found: the matching ports, the ports linked to them and the owners of both.
pub type Filtered = (Vec<usize>, Vec<usize>, Vec<usize>);

/// The selection, highlights, hover and filter of the board, and where the view stands.
#[derive(Debug)]
pub struct State {
    pub selection: Selection,
    pub components: Vec<usize>,
    pub ports: Vec<usize>,
    pub ports_highlighted: Vec<usize>,
    pub hovered: Option<usize>,
    pub hmargin: i32,
    pub vmargin: i32,
    pub filtered: Option<Filtered>,
    pub matches_extended: Option<Vec<(usize, Option<usize>, usize)>>,
    pub matches: Option<Vec<usize>>,
    pub highlighted: Option<Vec<usize>>,
    pub x: i32,
    pub y: i32,
}

impl State {
    /// The lists of the state hold each id once.
    pub open spec fn wf(&self) -> bool {
        &&& distinct(self.components@)
        &&& distinct(self.ports@)
        &&& distinct(self.ports_highlighted@)
        &&& distinct(self.selection.components@)
        &&& distinct(self.selection.ports@)
    }

    /// The port is shown under the filter: no filter is set, or it matched or is linked.
    pub open spec fn visible(&self, id: usize) -> bool {
        match self.filtered {
            Some(f) => f.0@.contains(id) || f.1@.contains(id),
            None => true,
        }
    }

    /// The parts of the state that selecting does not touch are as in `other`.
    pub open spec fn same_view(&self, other: &State) -> bool {
        &&& self.hovered == other.hovered
        &&& self.hmargin == other.hmargin
        &&& self.vmargin == other.vmargin
        &&& self.filtered == other.filtered
        &&& self.matches_extended == other.matches_extended
        &&& self.matches == other.matches
        &&& self.highlighted == other.highlighted
        &&& self.x == other.x
        &&& self.y == other.y
    }

    pub fn new(hmargin: i32, vmargin: i32) -> (res: Self)
        ensures
            res.wf(),
            res.selection.components@.len() == 0,
            res.selection.ports@.len() == 0,
            res.components@.len() == 0,
            res.ports@.len() == 0,
            res.ports_highlighted@.len() == 0,
            res.hovered.is_none(),
            res.filtered.is_none(),
            res.matches.is_none(),
            res.matches_extended.is_none(),
            res.highlighted.is_none(),
            res.hmargin == hmargin,
            res.vmargin == vmargin,
            res.x == 0,
            res.y == 0,
    {
        Self {
            selection: Selection::new(),
            components: Vec::new(),
            ports: Vec::new(),
            ports_highlighted: Vec::new(),
            hovered: None,
            filtered: None,
            matches: None,
            matches_extended: None,
            highlighted: None,
            hmargin,
            vmargin,
            x: 0,
            y: 0,
        }
    }

    pub fn x_margin(&self) -> (res: i32)
        requires
            i32::MIN <= self.x + self.hmargin <= i32::MAX,
        ensures
            res == self.x + self.hmargin,
    {
        self.x + self.hmargin
    }

    pub fn y_margin(&self) -> (res: i32)
        requires
            i32::MIN <= self.y + self.vmargin <= i32::MAX,
        ensures
            res == self.y + self.vmargin,
    {
        self.y + self.vmargin
    }

    /// Moves the view; the zoom is kept beside the state.
    pub fn set_view_state(&mut self, x: i32, y: i32)
        ensures
            *final(self) == (State { x, y, ..*old(self) }),
    {
        self.x = x;
        self.y = y;
    }

    pub fn set_filtered(&mut self, filtered: Option<Filtered>)
        ensures
            *final(self) == (State { filtered, ..*old(self) }),
    {
        self.filtered = filtered;
    }

    pub fn get_filtered(&self) -> (res: Option<&Vec<usize>>)
        ensures
            match self.filtered {
                Some(f) => res == Some(&f.0),
                None => res.is_none(),
            },
    {
        match &self.filtered {
            Some(f) => Some(&f.0),
            None => None,
        }
    }

    pub fn set_matches(
        &mut self,
        matches: Option<Vec<usize>>,
        extended: Option<Vec<(usize, Option<usize>, usize)>>,
    )
        ensures
            *final(self) == (State { matches, matches_extended: extended, ..*old(self) }),
    {
        self.matches = matches;
        self.matches_extended = extended;
    }

    pub fn get_matches(&self) -> (res: Option<&Vec<usize>>)
        ensures
            match self.matches {
                Some(m) => res == Some(&m),
                None => res.is_none(),
            },
    {
        match &self.matches {
            Some(m) => Some(m),
            None => None,
        }
    }

    pub fn get_extended_matches(&self) -> (res: Option<&Vec<(usize, Option<usize>, usize)>>)
        ensures
            match self.matches_extended {
                Some(m) => res == Some(&m),
                None => res.is_none(),
            },
    {
        match &self.matches_extended {
            Some(m) => Some(m),
            None => None,
        }
    }

    pub fn is_match(&self, port_id: &usize) -> (res: bool)
        ensures
            res == (match self.matches {
                Some(m) => m@.contains(*port_id),
                None => false,
            }),
    {
        match &self.matches {
            Some(ids) => holds(ids, *port_id),
            None => false,
        }
    }

    pub fn set_highlighted(&mut self, highlighted: Option<Vec<usize>>)
        ensures
            *final(self) == (State { highlighted, ..*old(self) }),
    {
        self.highlighted = highlighted;
    }

    pub fn get_highlighted(&self) -> (res: Option<&Vec<usize>>)
        ensures
            match self.highlighted {
                Some(m) => res == Some(&m),
                None => res.is_none(),
            },
    {
        match &self.highlighted {
            Some(m) => Some(m),
            None => None,
        }
    }

    pub fn is_highlighted(&self, id: &usize) -> (res: bool)
        ensures
            res == (match self.highlighted {
                Some(m) => m@.contains(*id),
                None => false,
            }),
    {
        match &self.highlighted {
            Some(ids) => holds(ids, *id),
            None => false,
        }
    }

    /// The port is linked to a port the filter found.
    pub fn is_port_linked(&self, port: &Port) -> (res: bool)
        ensures
            res == (match self.filtered {
                Some(f) => f.1@.contains(port.sig.id),
                None => false,
            }),
    {
        match &self.filtered {
            Some(f) => holds(&f.1, port.sig.id),
            None => false,
        }
    }

    /// The entity owns a port the filter shows; with no filter every entity does.
    pub fn is_port_owner_filtered(&self, id: &usize) -> (res: bool)
        ensures
            res == (match self.filtered {
                Some(f) => f.2@.contains(*id),
                None => true,
            }),
    {
        match &self.filtered {
            Some(f) => holds(&f.2, *id),
            None => true,
        }
    }

    /// The component takes part in the drawing: it owns a port the filter shows, or no
    /// filter is set.
    pub fn is_comp_included(&self, id: &usize) -> (res: bool)
        ensures
            res == (match self.filtered {
                Some(f) => f.2@.contains(*id),
                None => true,
            }),
    {
        self.is_port_owner_filtered(id)
    }

    pub fn is_port_filtered_or_linked(&self, port: &Port) -> (res: bool)
        ensures
            res == self.visible(port.sig.id),
    {
        self.is_visible(port.sig.id)
    }

    /// The port is shown under the filter.
    fn is_visible(&self, id: usize) -> (res: bool)
        ensures
            res == self.visible(id),
    {
        match &self.filtered {
            Some(f) => holds(&f.0, id) || holds(&f.1, id),
            None => true,
        }
    }

    /// Selects the port when it is not selected, and unselects it when it is; tells whether it
    /// is selected now. The selection that is reported follows.
    pub fn toggle_port(&mut self, id: &usize) -> (res: bool)
        requires
            old(self).wf(),
        ensures
            final(self).wf(),
            res == !old(self).ports@.contains(*id),
            res ==> final(self).ports@ == old(self).ports@.push(*id),
            res ==> final(self).selection.ports@ == with(old(self).selection.ports@, *id),
            !res ==> final(self).ports@ == without(old(self).ports@, *id),
            !res ==> final(self).selection.ports@ == without(old(self).selection.ports@, *id),
            final(self).selection.components@ == old(self).selection.components@,
            final(self).components@ == old(self).components@,
            final(self).ports_highlighted@ == old(self).ports_highlighted@,
            final(self).same_view(old(self)),
    {
        proof {
            lemma_first_pos(self.ports@, *id);
            lemma_without(self.ports@, *id);
            lemma_with(self.ports@, *id);
            lemma_without(self.selection.ports@, *id);
            lemma_with(self.selection.ports@, *id);
        }
        if let Some(pos) = position(&self.ports, *id) {
            self.ports.remove(pos);
            self.selection.remove_port(id);
            false
        } else {
            self.selection.insert_port(id);
            self.ports.push(*id);
            true
        }
    }

    pub fn insert_component(&mut self, id: &usize) -> (res: bool)
        requires
            old(self).wf(),
        ensures
            final(self).wf(),
            res == !old(self).components@.contains(*id),
            final(self).components@ == with(old(self).components@, *id),
            final(self).ports@ == old(self).ports@,
            final(self).ports_highlighted@ == old(self).ports_highlighted@,
            final(self).selection == old(self).selection,
            final(self).same_view(old(self)),
    {
        proof {
            lemma_with(self.components@, *id);
        }
        insert_id(&mut self.components, *id)
    }

    pub fn remove_component(&mut self, id: &usize) -> (res: bool)
        requires
            old(self).wf(),
        ensures
            final(self).wf(),
            res == old(self).components@.contains(*id),
            final(self).components@ == without(old(self).components@, *id),
            final(self).ports@ == old(self).ports@,
            final(self).ports_highlighted@ == old(self).ports_highlighted@,
            final(self).selection == old(self).selection,
            final(self).same_view(old(self)),
    {
        proof {
            lemma_without(self.components@, *id);
        }
        remove_id(&mut self.components, *id)
    }

    pub fn insert_port(&mut self, id: &usize) -> (res: bool)
        requires
            old(self).wf(),
        ensures
            final(self).wf(),
            res == !old(self).ports@.contains(*id),
            final(self).ports@ == with(old(self).ports@, *id),
            final(self).components@ == old(self).components@,
            final(self).ports_highlighted@ == old(self).ports_highlighted@,
            final(self).selection == old(self).selection,
            final(self).same_view(old(self)),
    {
        proof {
            lemma_with(self.ports@, *id);
        }
        insert_id(&mut self.ports, *id)
    }

    pub fn remove_port(&mut self, id: &usize) -> (res: bool)
        requires
            old(self).wf(),
        ensures
            final(self).wf(),
            res == old(self).ports@.contains(*id),
            final(self).ports@ == without(old(self).ports@, *id),
            final(self).components@ == old(self).components@,
            final(self).ports_highlighted@ == old(self).ports_highlighted@,
            final(self).selection == old(self).selection,
            final(self).same_view(old(self)),
    {
        proof {
            lemma_without(self.ports@, *id);
        }
        remove_id(&mut self.ports, *id)
    }

    /// Clears the selection and the highlights; the page is told unless silenced, which the
    /// caller does.
    pub fn unselect_all(&mut self)
        ensures
            final(self).wf(),
            final(self).ports@.len() == 0,
            final(self).ports_highlighted@.len() == 0,
            final(self).components@.len() == 0,
            final(self).selection.ports@.len() == 0,
            final(self).selection.components@.len() == 0,
            final(self).same_view(old(self)),
    {
        self.ports.clear();
        self.ports_highlighted.clear();
        self.components.clear();
        self.selection.clear();
    }

    /// Hovers the entity; tells whether that changed anything.
    pub fn hover(&mut self, id: &usize) -> (res: bool)
        ensures
            res == (old(self).hovered != Some(*id)),
            final(self).hovered == Some(*id),
            *final(self) == (State { hovered: Some(*id), ..*old(self) }),
    {
        if self.hovered == Some(*id) {
            false
        } else {
            self.hovered = Some(*id);
            true
        }
    }

    /// Drops the hover; tells whether there was one.
    pub fn unhover(&mut self) -> (res: bool)
        ensures
            res == old(self).hovered.is_some(),
            *final(self) == (State { hovered: None, ..*old(self) }),
    {
        if self.hovered.is_some() {
            self.hovered = None;
            true
        } else {
            false
        }
    }

    pub fn is_hovered(&self, id: &usize) -> (res: bool)
        ensures
            res == (self.hovered == Some(*id)),
    {
        self.hovered == Some(*id)
    }

    pub fn highlight_port(&mut self, id: &usize) -> (res: bool)
        requires
            old(self).wf(),
        ensures
            final(self).wf(),
            res == !old(self).ports_highlighted@.contains(*id),
            final(self).ports_highlighted@ == with(old(self).ports_highlighted@, *id),
            final(self).ports@ == old(self).ports@,
            final(self).components@ == old(self).components@,
            final(self).selection == old(self).selection,
            final(self).same_view(old(self)),
    {
        proof {
            lemma_with(self.ports_highlighted@, *id);
        }
        insert_id(&mut self.ports_highlighted, *id)
    }

    pub fn unhighlight_port(&mut self, id: &usize) -> (res: bool)
        requires
            old(self).wf(),
        ensures
            final(self).wf(),
            res == old(self).ports_highlighted@.contains(*id),
            final(self).ports_highlighted@ == without(old(self).ports_highlighted@, *id),
            final(self).ports@ == old(self).ports@,
            final(self).components@ == old(self).components@,
            final(self).selection == old(self).selection,
            final(self).same_view(old(self)),
    {
        proof {
            lemma_without(self.ports_highlighted@, *id);
        }
        remove_id(&mut self.ports_highlighted, *id)
    }

    pub fn is_port_highlighted(&self, id: &usize) -> (res: bool)
        ensures
            res == self.ports_highlighted@.contains(*id),
    {
        holds(&self.ports_highlighted, *id)
    }

    pub fn is_port_selected(&self, id: &usize) -> (res: bool)
        ensures
            res == (self.ports@.contains(*id) && self.visible(*id)),
    {
        let visible = self.is_visible(*id);
        holds(&self.ports, *id) && visible
    }

    pub fn is_port_selected_or_highlighted(&self, id: &usize) -> (res: bool)
        ensures
            res == (self.visible(*id) && (self.ports@.contains(*id)
                || self.ports_highlighted@.contains(*id))),
    {
        let visible = self.is_visible(*id);
        if !visible {
            return false;
        }
        holds(&self.ports, *id) || self.is_port_highlighted(id)
    }

    pub fn is_component_selected(&self, id: &usize) -> (res: bool)
        ensures
            res == self.components@.contains(*id),
    {
        holds(&self.components, *id)
    }
}

/// Selecting an id that was not selected and then unselecting it gives back the list as it
/// was: toggling a port, a component or a highlight twice undoes the first toggle.
pub proof fn law_select_then_unselect(s: Seq<usize>, id: usize)
    requires
        distinct(s),
        !s.contains(id),
    ensures
        without(with(s, id), id) == s,
        without(s.push(id), id) == s,
{
    let w = s.push(id);
    lemma_first_pos(w, id);
    assert(w[s.len() as int] == id);
    assert(first_pos(w, id) == s.len()) by {
        if first_pos(w, id) < s.len() {
            assert(s[first_pos(w, id)] == id);
        }
    }
    assert(w.remove(s.len() as int) =~= s);
}

/// Unselecting a selected id and selecting it again keeps the same ids selected, each once
/// (it moves to the end).
pub proof fn law_unselect_then_select(s: Seq<usize>, id: usize)
    requires
        distinct(s),
        s.contains(id),
    ensures
        distinct(with(without(s, id), id)),
        forall|x: usize| with(without(s, id), id).contains(x) <==> s.contains(x),
        with(without(s, id), id).len() == s.len(),
{
    lemma_without(s, id);
    lemma_with(without(s, id), id);
    lemma_first_pos(s, id);
}

} // verus!
