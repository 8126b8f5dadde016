use vstd::prelude::*;

pub mod path;
pub mod rectangle;

pub use path::Path;
pub use rectangle::Rectangle;

use crate::elements::relative::Relative;
use crate::render::form::path::{extent, seq_max, seq_min};
use crate::render::ratio::div_toward_zero;

verus! {

/// The longest side of a square whose area still fits an `i32`.
pub const SQUARE_LIMIT: i32 = 46340;

/// The side of a cell that `box_map` divides the box into.
pub const BOX_CELL: i32 = 10;

#[derive(Debug, Clone, Copy, PartialEq, Eq)]
pub enum StartPoint {
    TL,
    TR,
    BL,
    BR,
}

#[derive(Debug)]
pub enum Form {
    Rectangle(Rectangle),
    Path(Path),
}

/// A free corner found in a box: where it starts, the area of the free square and the square.
pub type Corner = (StartPoint, i32, (i32, i32, i32, i32));

impl Form {
    /// Where the form stands; a path stands at the origin.
    pub open spec fn coors(&self) -> (int, int) {
        match self {
            Form::Rectangle(r) => (r.x as int, r.y as int),
            Form::Path(_) => (0, 0),
        }
    }

    pub open spec fn width(&self) -> int {
        match self {
            Form::Rectangle(r) => r.w as int,
            Form::Path(p) => extent(path::xs(p.points@)),
        }
    }

    pub open spec fn height(&self) -> int {
        match self {
            Form::Rectangle(r) => r.h as int,
            Form::Path(p) => extent(path::ys(p.points@)),
        }
    }

    /// The far corner of the form, and a path's width and height, fit an `i32`.
    pub open spec fn within(&self) -> bool {
        match self {
            Form::Rectangle(r) => {
                &&& i32::MIN <= r.x + r.w <= i32::MAX
                &&& i32::MIN <= r.y + r.h <= i32::MAX
            },
            Form::Path(p) => p.spread_fits(),
        }
    }

    pub fn box_height(&self) -> (res: i32)
        requires
            self.within(),
        ensures
            res == self.height(),
    {
        match self {
            Self::Rectangle(figure) => figure.box_height(),
            Self::Path(figure) => figure.box_height(),
        }
    }

    pub fn box_width(&self) -> (res: i32)
        requires
            self.within(),
        ensures
            res == self.width(),
    {
        match self {
            Self::Rectangle(figure) => figure.box_width(),
            Self::Path(figure) => figure.box_width(),
        }
    }

    pub fn set_box_height(&mut self, h: i32)
        ensures
            match *old(self) {
                Form::Rectangle(r) => *final(self) == Form::Rectangle(Rectangle { h, ..r }),
                Form::Path(_) => *final(self) == *old(self),
            },
    {
        match self {
            Self::Rectangle(figure) => figure.set_box_height(h),
            Self::Path(_) => {},
        }
    }

    pub fn set_coors(&mut self, x: Option<i32>, y: Option<i32>)
        ensures
            match *old(self) {
                Form::Rectangle(r) => *final(self) == Form::Rectangle(
                    Rectangle {
                        x: match x {
                            Some(v) => v,
                            None => r.x,
                        },
                        y: match y {
                            Some(v) => v,
                            None => r.y,
                        },
                        ..r
                    },
                ),
                Form::Path(_) => *final(self) == *old(self),
            },
    {
        match self {
            Self::Rectangle(figure) => figure.set_coors(x, y),
            Self::Path(_) => {},
        }
    }

    pub fn get_coors(&self) -> (res: (i32, i32))
        ensures
            res.0 == self.coors().0,
            res.1 == self.coors().1,
    {
        match self {
            Self::Rectangle(figure) => figure.get_coors(),
            Self::Path(_) => (0, 0),
        }
    }

    /// The offset of a rectangle; a path has none.
    pub fn relative(&self) -> (res: Relative)
        requires
            *self is Rectangle,
        ensures
            res.ox() == self.coors().0,
            res.oy() == self.coors().1,
    {
        match self {
            Self::Rectangle(figure) => figure.relative(),
            Self::Path(_) => Relative::new(0, 0),
        }
    }

    // Returns box size: (x,y,w,h)
    pub fn box_size(forms: &[&Form]) -> (res: Option<(i32, i32, i32, i32)>)
        requires
            forall|i: int| 0 <= i < forms@.len() ==> #[trigger] forms@[i].within(),
            forms@.len() > 0 ==> spans_fit(forms@),
        ensures
            forms@.len() == 0 ==> res.is_none(),
            forms@.len() > 0 ==> res == Some(box_of(forms@)),
    {
        if forms.len() == 0 {
            return None;
        }
        let ghost b = box_of(forms@);
        proof {
            lemma_form_bounds(forms@[0]);
        }
        let mut x0: i32 = forms[0].get_coors().0;
        let mut y0: i32 = forms[0].get_coors().1;
        let mut x1: i32 = forms[0].box_width() + forms[0].get_coors().0;
        let mut y1: i32 = forms[0].box_height() + forms[0].get_coors().1;
        assert(lefts(forms@).subrange(0, 1) =~= seq![lefts(forms@)[0]]);
        assert(tops(forms@).subrange(0, 1) =~= seq![tops(forms@)[0]]);
        assert(rights(forms@).subrange(0, 1) =~= seq![rights(forms@)[0]]);
        assert(bottoms(forms@).subrange(0, 1) =~= seq![bottoms(forms@)[0]]);
        let mut i: usize = 1;
        while i < forms.len()
            invariant
                1 <= i <= forms@.len(),
                forall|j: int| 0 <= j < forms@.len() ==> #[trigger] forms@[j].within(),
                x0 == seq_min(lefts(forms@).subrange(0, i as int)),
                y0 == seq_min(tops(forms@).subrange(0, i as int)),
                x1 == seq_max(rights(forms@).subrange(0, i as int)),
                y1 == seq_max(bottoms(forms@).subrange(0, i as int)),
            decreases forms@.len() - i,
        {
            proof {
                lemma_form_bounds(forms@[i as int]);
                assert(lefts(forms@).subrange(0, i + 1).drop_last() =~= lefts(forms@).subrange(0, i as int));
                assert(tops(forms@).subrange(0, i + 1).drop_last() =~= tops(forms@).subrange(0, i as int));
                assert(rights(forms@).subrange(0, i + 1).drop_last() =~= rights(forms@).subrange(
                    0,
                    i as int,
                ));
                assert(bottoms(forms@).subrange(0, i + 1).drop_last() =~= bottoms(forms@).subrange(
                    0,
                    i as int,
                ));
            }
            let (cx, cy) = forms[i].get_coors();
            let rx = forms[i].box_width() + cx;
            let by = forms[i].box_height() + cy;
            if cx < x0 {
                x0 = cx;
            }
            if cy < y0 {
                y0 = cy;
            }
            if rx > x1 {
                x1 = rx;
            }
            if by > y1 {
                y1 = by;
            }
            i = i + 1;
        }
        assert(lefts(forms@).subrange(0, forms@.len() as int) =~= lefts(forms@));
        assert(tops(forms@).subrange(0, forms@.len() as int) =~= tops(forms@));
        assert(rights(forms@).subrange(0, forms@.len() as int) =~= rights(forms@));
        assert(bottoms(forms@).subrange(0, forms@.len() as int) =~= bottoms(forms@));
        Some((x0, y0, x1 - x0, y1 - y0))
    }

    fn is_point_in(point: (i32, i32), area: (i32, i32, i32, i32)) -> (res: bool)
        ensures
            res == in_area((point.0 as int, point.1 as int), area),
    {
        let (x, y) = point;
        let (a_x, a_y, a_x1, a_y1) = area;
        !(x < a_x || x > a_x1 || y < a_y || y > a_y1)
    }

    /// Area (x,y,x1,y1): some corner of some form lies in it.
    pub fn is_area_busy(area: (i32, i32, i32, i32), forms: &[&Form]) -> (res: bool)
        requires
            forall|i: int| 0 <= i < forms@.len() ==> #[trigger] forms@[i].within(),
        ensures
            res == busy(forms@, area),
    {
        let mut i: usize = 0;
        while i < forms.len()
            invariant
                0 <= i <= forms@.len(),
                forall|j: int| 0 <= j < forms@.len() ==> #[trigger] forms@[j].within(),
                forall|j: int| 0 <= j < i ==> !corner_in(#[trigger] forms@[j], area),
            decreases forms@.len() - i,
        {
            let form = forms[i];
            proof {
                lemma_form_bounds(form);
            }
            let (f_x, f_y) = form.get_coors();
            let (f_x1, f_y1) = (form.box_width() + f_x, form.box_height() + f_y);
            if Form::is_point_in((f_x, f_y), area) || Form::is_point_in((f_x, f_y1), area)
                || Form::is_point_in((f_x1, f_y), area) || Form::is_point_in((f_x1, f_y1), area) {
                assert(corner_in(forms@[i as int], area));
                return true;
            }
            i = i + 1;
        }
        false
    }

    /// The cell `(cx, cy)` of the box lies in the box and holds no corner of a form.
    fn cell_free(forms: &[&Form], b: (i32, i32, i32, i32), cx: i32, cy: i32) -> (res: bool)
        requires
            forall|i: int| 0 <= i < forms@.len() ==> #[trigger] forms@[i].within(),
            box_ok(b),
        ensures
            res == cell_free_at(forms@, b, cx as int, cy as int),
    {
        let cxc = b.2 / BOX_CELL;
        let cyc = b.3 / BOX_CELL;
        if !(0 <= cx && cx < cxc && 0 <= cy && cy < cyc) {
            return false;
        }
        let x_ = b.0 + cx * BOX_CELL;
        let y_ = b.1 + cy * BOX_CELL;
        !Form::is_area_busy((x_, y_, x_ + BOX_CELL, y_ + BOX_CELL), forms)
    }

    /// Every cell of the square of side `s` at the corner is free.
    fn square_free(forms: &[&Form], b: (i32, i32, i32, i32), corner: StartPoint, s: i32) -> (res:
        bool)
        requires
            forall|i: int| 0 <= i < forms@.len() ==> #[trigger] forms@[i].within(),
            box_ok(b),
            0 <= s <= cells_max(b),
        ensures
            res == square_free_at(forms@, b, corner, s as int),
    {
        let cxc = b.2 / BOX_CELL;
        let cyc = b.3 / BOX_CELL;
        let (x_lo, y_lo) = match corner {
            StartPoint::TL => (0, 0),
            StartPoint::BL => (0, cyc - s),
            StartPoint::TR => (cxc - s, 0),
            StartPoint::BR => (cxc - s, cyc - s),
        };
        let mut cur_x = x_lo;
        while cur_x < x_lo + s
            invariant
                forall|i: int| 0 <= i < forms@.len() ==> #[trigger] forms@[i].within(),
                box_ok(b),
                0 <= s <= cells_max(b),
                cxc == cell_counts(b).0,
                cyc == cell_counts(b).1,
                (x_lo as int, y_lo as int) == square_origin(b, corner, s as int),
                x_lo <= cur_x <= x_lo + s,
                forall|cx: int, cy: int|
                    x_lo <= cx < cur_x && y_lo <= cy < y_lo + s ==> #[trigger] cell_free_at(
                        forms@,
                        b,
                        cx,
                        cy,
                    ),
            decreases x_lo + s - cur_x,
        {
            let mut cur_y = y_lo;
            while cur_y < y_lo + s
                invariant
                    forall|i: int| 0 <= i < forms@.len() ==> #[trigger] forms@[i].within(),
                    box_ok(b),
                    0 <= s <= cells_max(b),
                    cxc == cell_counts(b).0,
                    cyc == cell_counts(b).1,
                    (x_lo as int, y_lo as int) == square_origin(b, corner, s as int),
                    x_lo <= cur_x < x_lo + s,
                    y_lo <= cur_y <= y_lo + s,
                    forall|cx: int, cy: int|
                        (x_lo <= cx < cur_x && y_lo <= cy < y_lo + s) || (cx == cur_x && y_lo <= cy
                            < cur_y) ==> #[trigger] cell_free_at(forms@, b, cx, cy),
                decreases y_lo + s - cur_y,
            {
                if !Form::cell_free(forms, b, cur_x, cur_y) {
                    return false;
                }
                cur_y = cur_y + 1;
            }
            cur_x = cur_x + 1;
        }
        true
    }

    /// How many squares, growing from the corner, are free in turn.
    fn corner_steps(forms: &[&Form], b: (i32, i32, i32, i32), corner: StartPoint) -> (res: i32)
        requires
            forall|i: int| 0 <= i < forms@.len() ==> #[trigger] forms@[i].within(),
            box_ok(b),
        ensures
            res == steps_from(forms@, b, corner, 0),
            0 <= res,
            res <= cells_max(b) || res == 0,
    {
        let cxc = b.2 / BOX_CELL;
        let cyc = b.3 / BOX_CELL;
        let max_size = if cxc < cyc {
            cxc
        } else {
            cyc
        };
        let mut steps: i32 = 0;
        let mut s: i32 = 0;
        while s < max_size
            invariant
                forall|i: int| 0 <= i < forms@.len() ==> #[trigger] forms@[i].within(),
                box_ok(b),
                max_size == cells_max(b),
                0 <= s <= max_size || (max_size < 0 && s == 0),
                steps == s,
                steps_from(forms@, b, corner, 0) == s + steps_from(forms@, b, corner, s as int),
            decreases max_size - s,
        {
            if !Form::square_free(forms, b, corner, s) {
                return steps;
            }
            steps = steps + 1;
            s = s + 1;
        }
        steps
    }

    /// Every corner of the box whose first cell is free, in the order top-left, bottom-left,
    /// top-right, bottom-right, with the largest free square that grows from it.
    pub fn box_corners(forms: &[&Form]) -> (res: Vec<Corner>)
        requires
            forall|i: int| 0 <= i < forms@.len() ==> #[trigger] forms@[i].within(),
            forms@.len() > 0 ==> spans_fit(forms@) && box_fits(box_of(forms@)),
        ensures
            forms@.len() == 0 ==> res@.len() == 0,
            forms@.len() > 0 ==> res@ == corners_of(forms@, box_of(forms@)),
    {
        let mut res: Vec<Corner> = Vec::new();
        proof {
            if forms@.len() > 0 {
                lemma_box_bounds(forms@);
            }
        }
        if let Some(b) = Form::box_size(forms) {
            let (x, y, w, h) = b;
            let cxc = w / BOX_CELL;
            let cyc = h / BOX_CELL;
            let ghost fs = forms@;
            assert(res@ =~= Seq::<Corner>::empty());
            assert(corners_upto(fs, b, 0) =~= Seq::<Corner>::empty());
            if Form::cell_free(forms, b, 0, 0) {
                let steps = Form::corner_steps(forms, b, StartPoint::TL);
                res.push(corner_square(b, StartPoint::TL, steps));
            }
            assert(res@ =~= corners_upto(fs, b, 1));
            if Form::cell_free(forms, b, 0, cyc - 1) {
                let steps = Form::corner_steps(forms, b, StartPoint::BL);
                res.push(corner_square(b, StartPoint::BL, steps));
            }
            assert(res@ =~= corners_upto(fs, b, 2));
            if Form::cell_free(forms, b, cxc - 1, 0) {
                let steps = Form::corner_steps(forms, b, StartPoint::TR);
                res.push(corner_square(b, StartPoint::TR, steps));
            }
            assert(res@ =~= corners_upto(fs, b, 3));
            if Form::cell_free(forms, b, cxc - 1, cyc - 1) {
                let steps = Form::corner_steps(forms, b, StartPoint::BR);
                res.push(corner_square(b, StartPoint::BR, steps));
            }
            assert(res@ =~= corners_upto(fs, b, 4));
        }
        res
    }

    /// The corner with the largest free square; on ties the one found first.
    pub fn box_map(forms: &[&Form]) -> (res: Option<Corner>)
        requires
            forall|i: int| 0 <= i < forms@.len() ==> #[trigger] forms@[i].within(),
            forms@.len() > 0 ==> spans_fit(forms@) && box_fits(box_of(forms@)),
        ensures
            forms@.len() == 0 ==> res.is_none(),
            forms@.len() > 0 ==> res == best_corner(corners_of(forms@, box_of(forms@))),
    {
        let corners = Form::box_corners(forms);
        let mut area: Option<Corner> = None;
        let mut i: usize = 0;
        assert(corners@.subrange(0, 0) =~= Seq::<Corner>::empty());
        while i < corners.len()
            invariant
                0 <= i <= corners@.len(),
                area == best_corner(corners@.subrange(0, i as int)),
            decreases corners@.len() - i,
        {
            let c = corners[i];
            assert(corners@.subrange(0, i + 1).drop_last() =~= corners@.subrange(0, i as int));
            let better = match area {
                Some(a) => c.1 > a.1,
                None => true,
            };
            if better {
                area = Some(c);
            }
            i = i + 1;
        }
        assert(corners@.subrange(0, corners@.len() as int) =~= corners@);
        area
    }
}

proof fn lemma_form_bounds(f: &Form)
    requires
        f.within(),
    ensures
        i32::MIN <= f.width() + f.coors().0 <= i32::MAX,
        i32::MIN <= f.height() + f.coors().1 <= i32::MAX,
        i32::MIN <= f.coors().0 <= i32::MAX,
        i32::MIN <= f.coors().1 <= i32::MAX,
{
}

proof fn lemma_box_bounds(forms: Seq<&Form>)
    requires
        forms.len() > 0,
        forall|i: int| 0 <= i < forms.len() ==> #[trigger] forms[i].within(),
    ensures
        i32::MIN <= seq_min(lefts(forms)) <= i32::MAX,
        i32::MIN <= seq_min(tops(forms)) <= i32::MAX,
        i32::MIN <= seq_max(rights(forms)) <= i32::MAX,
        i32::MIN <= seq_max(bottoms(forms)) <= i32::MAX,
{
    assert forall|i: int| 0 <= i < forms.len() implies i32::MIN <= #[trigger] lefts(forms)[i]
        <= i32::MAX by {
        lemma_form_bounds(forms[i]);
    }
    assert forall|i: int| 0 <= i < forms.len() implies i32::MIN <= #[trigger] tops(forms)[i]
        <= i32::MAX by {
        lemma_form_bounds(forms[i]);
    }
    assert forall|i: int| 0 <= i < forms.len() implies i32::MIN <= #[trigger] rights(forms)[i]
        <= i32::MAX by {
        lemma_form_bounds(forms[i]);
    }
    assert forall|i: int| 0 <= i < forms.len() implies i32::MIN <= #[trigger] bottoms(forms)[i]
        <= i32::MAX by {
        lemma_form_bounds(forms[i]);
    }
    crate::render::form::path::lemma_seq_bounds(lefts(forms), i32::MIN as int, i32::MAX as int);
    crate::render::form::path::lemma_seq_bounds(tops(forms), i32::MIN as int, i32::MAX as int);
    crate::render::form::path::lemma_seq_bounds(rights(forms), i32::MIN as int, i32::MAX as int);
    crate::render::form::path::lemma_seq_bounds(bottoms(forms), i32::MIN as int, i32::MAX as int);
}

/// The width and the height of the box that holds the forms fit an `i32`.
pub open spec fn spans_fit(forms: Seq<&Form>) -> bool {
    &&& i32::MIN <= seq_max(rights(forms)) - seq_min(lefts(forms)) <= i32::MAX
    &&& i32::MIN <= seq_max(bottoms(forms)) - seq_min(tops(forms)) <= i32::MAX
}

pub open spec fn lefts(forms: Seq<&Form>) -> Seq<int> {
    forms.map_values(|f: &Form| f.coors().0)
}

pub open spec fn tops(forms: Seq<&Form>) -> Seq<int> {
    forms.map_values(|f: &Form| f.coors().1)
}

pub open spec fn rights(forms: Seq<&Form>) -> Seq<int> {
    forms.map_values(|f: &Form| f.width() + f.coors().0)
}

pub open spec fn bottoms(forms: Seq<&Form>) -> Seq<int> {
    forms.map_values(|f: &Form| f.height() + f.coors().1)
}

/// The box `(x, y, w, h)` that holds all the forms.
pub open spec fn box_of(forms: Seq<&Form>) -> (i32, i32, i32, i32) {
    let x = seq_min(lefts(forms));
    let y = seq_min(tops(forms));
    (
        x as i32,
        y as i32,
        (seq_max(rights(forms)) - x) as i32,
        (seq_max(bottoms(forms)) - y) as i32,
    )
}

/// `(x, y)` lies in the closed area `(x, y, x1, y1)`.
pub open spec fn in_area(p: (int, int), a: (i32, i32, i32, i32)) -> bool {
    !(p.0 < a.0 || p.0 > a.2 || p.1 < a.1 || p.1 > a.3)
}

/// A corner of the form's box lies in the area.
pub open spec fn corner_in(f: &Form, a: (i32, i32, i32, i32)) -> bool {
    let (x, y) = f.coors();
    let x1 = f.width() + x;
    let y1 = f.height() + y;
    in_area((x, y), a) || in_area((x, y1), a) || in_area((x1, y), a) || in_area((x1, y1), a)
}

/// Some form has a corner in the area.
pub open spec fn busy(forms: Seq<&Form>, a: (i32, i32, i32, i32)) -> bool {
    exists|i: int| 0 <= i < forms.len() && corner_in(#[trigger] forms[i], a)
}

/// The area of the largest square the box can hold fits an `i32`: its shorter side is at
/// most `SQUARE_LIMIT`.
pub open spec fn box_fits(b: (i32, i32, i32, i32)) -> bool {
    b.2 <= SQUARE_LIMIT || b.3 <= SQUARE_LIMIT
}

pub open spec fn box_ok(b: (i32, i32, i32, i32)) -> bool {
    &&& i32::MIN <= b.0 + b.2 <= i32::MAX
    &&& i32::MIN <= b.1 + b.3 <= i32::MAX
    &&& box_fits(b)
}

/// The number of whole cells across and down the box.
pub open spec fn cell_counts(b: (i32, i32, i32, i32)) -> (int, int) {
    (div_toward_zero(b.2 as int, BOX_CELL as int), div_toward_zero(b.3 as int, BOX_CELL as int))
}

/// The side of the largest square that fits the cells of the box.
pub open spec fn cells_max(b: (i32, i32, i32, i32)) -> int {
    let (cx, cy) = cell_counts(b);
    if cx < cy {
        cx
    } else {
        cy
    }
}

/// The cell lies in the box and no form has a corner in it.
pub open spec fn cell_free_at(forms: Seq<&Form>, b: (i32, i32, i32, i32), cx: int, cy: int) -> bool {
    let (cxc, cyc) = cell_counts(b);
    let x_ = b.0 + cx * BOX_CELL;
    let y_ = b.1 + cy * BOX_CELL;
    &&& 0 <= cx < cxc
    &&& 0 <= cy < cyc
    &&& !busy(forms, (x_ as i32, y_ as i32, (x_ + BOX_CELL) as i32, (y_ + BOX_CELL) as i32))
}

/// The first cell of the square of side `s` that grows from the corner.
pub open spec fn square_origin(b: (i32, i32, i32, i32), corner: StartPoint, s: int) -> (int, int) {
    let (cxc, cyc) = cell_counts(b);
    match corner {
        StartPoint::TL => (0, 0),
        StartPoint::BL => (0, cyc - s),
        StartPoint::TR => (cxc - s, 0),
        StartPoint::BR => (cxc - s, cyc - s),
    }
}

/// Every cell of the square of side `s` at the corner is free.
pub open spec fn square_free_at(
    forms: Seq<&Form>,
    b: (i32, i32, i32, i32),
    corner: StartPoint,
    s: int,
) -> bool {
    let (x0, y0) = square_origin(b, corner, s);
    forall|cx: int, cy: int|
        x0 <= cx < x0 + s && y0 <= cy < y0 + s ==> #[trigger] cell_free_at(forms, b, cx, cy)
}

/// How many squares, from side `k` on, are free in turn before one is not or the box ends.
pub open spec fn steps_from(forms: Seq<&Form>, b: (i32, i32, i32, i32), corner: StartPoint, k: int) -> int
    decreases cells_max(b) - k,
{
    if k < 0 || k >= cells_max(b) {
        0
    } else if !square_free_at(forms, b, corner, k) {
        0
    } else {
        1 + steps_from(forms, b, corner, k + 1)
    }
}

/// The free square of `steps` cells at the corner, with its area.
pub open spec fn square_at(b: (i32, i32, i32, i32), corner: StartPoint, steps: int) -> Corner {
    let (x, y, w, h) = (b.0 as int, b.1 as int, b.2 as int, b.3 as int);
    let d = steps * BOX_CELL;
    (
        corner,
        (d * d) as i32,
        match corner {
            StartPoint::TL => (x as i32, y as i32, (x + d) as i32, (y + d) as i32),
            StartPoint::BL => (x as i32, (y + h - d) as i32, (x + d) as i32, (y + h) as i32),
            StartPoint::TR => ((x + w - d) as i32, y as i32, (x + w) as i32, (y + d) as i32),
            StartPoint::BR => ((x + w - d) as i32, (y + h - d) as i32, (x + w) as i32, (y + h) as i32),
        },
    )
}

/// The first cell that a corner's square starts from.
pub open spec fn first_cell(b: (i32, i32, i32, i32), corner: StartPoint) -> (int, int) {
    let (cxc, cyc) = cell_counts(b);
    match corner {
        StartPoint::TL => (0, 0),
        StartPoint::BL => (0, cyc - 1),
        StartPoint::TR => (cxc - 1, 0),
        StartPoint::BR => (cxc - 1, cyc - 1),
    }
}

pub open spec fn corner_order(i: int) -> StartPoint {
    if i == 0 {
        StartPoint::TL
    } else if i == 1 {
        StartPoint::BL
    } else if i == 2 {
        StartPoint::TR
    } else {
        StartPoint::BR
    }
}

/// The corners, among the first `n` in order, whose first cell is free.
pub open spec fn corners_upto(forms: Seq<&Form>, b: (i32, i32, i32, i32), n: int) -> Seq<Corner>
    decreases n,
{
    if n <= 0 {
        seq![]
    } else {
        let c = corner_order(n - 1);
        let first = first_cell(b, c);
        let before = corners_upto(forms, b, n - 1);
        if cell_free_at(forms, b, first.0, first.1) {
            before.push(square_at(b, c, steps_from(forms, b, c, 0)))
        } else {
            before
        }
    }
}

pub open spec fn corners_of(forms: Seq<&Form>, b: (i32, i32, i32, i32)) -> Seq<Corner> {
    corners_upto(forms, b, 4)
}

/// The corner with the largest area; an earlier one wins a tie.
pub open spec fn best_corner(cs: Seq<Corner>) -> Option<Corner>
    decreases cs.len(),
{
    if cs.len() == 0 {
        None
    } else {
        match best_corner(cs.drop_last()) {
            Some(a) => if cs.last().1 > a.1 {
                Some(cs.last())
            } else {
                Some(a)
            },
            None => Some(cs.last()),
        }
    }
}

/// The square of `steps` cells at the corner of the box.
fn corner_square(b: (i32, i32, i32, i32), corner: StartPoint, steps: i32) -> (res: Corner)
    requires
        box_ok(b),
        b.2 >= 0,
        b.3 >= 0,
        0 <= steps <= cells_max(b),
    ensures
        res == square_at(b, corner, steps as int),
{
    let (x, y, w, h) = b;
    proof {
        assert(steps * BOX_CELL <= b.2) by (nonlinear_arith)
            requires
                steps <= cells_max(b),
                cells_max(b) <= b.2 / BOX_CELL,
                b.2 >= 0,
        ;
        assert(steps * BOX_CELL <= b.3) by (nonlinear_arith)
            requires
                steps <= cells_max(b),
                cells_max(b) <= b.3 / BOX_CELL,
                b.3 >= 0,
        ;
        assert(steps * BOX_CELL * (steps * BOX_CELL) <= SQUARE_LIMIT * SQUARE_LIMIT) by (nonlinear_arith)
            requires
                0 <= steps * BOX_CELL <= b.2,
                steps * BOX_CELL <= b.3,
                b.2 <= SQUARE_LIMIT || b.3 <= SQUARE_LIMIT,
        ;
    }
    let d = steps * BOX_CELL;
    let sq = d * d;
    match corner {
        StartPoint::TL => (corner, sq, (x, y, x + d, y + d)),
        StartPoint::BL => (corner, sq, (x, y + h - d, x + d, y + h)),
        StartPoint::TR => (corner, sq, (x + w - d, y, x + w, y + d)),
        StartPoint::BR => (corner, sq, (x + w - d, y + h - d, x + w, y + h)),
    }
}

} // verus!
