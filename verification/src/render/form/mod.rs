use vstd::prelude::*;

pub mod button;
pub mod grid_rectangle;
pub mod label;
pub mod path;
pub mod rectangle;

pub use button::Button;
pub use grid_rectangle::GridRectangle;
pub use label::Label;
pub use path::{Path, Point};
pub use rectangle::Rectangle;

use crate::error::E;
use vstd::view::View as _;
use crate::render::grid::ElementType;
use crate::render::ratio::RatioScalar;
use crate::render::style::Style;
use grid_rectangle::snappable;
use path::{extent, seq_max, seq_min, xs, ys};

verus! {

#[derive(Debug)]
pub struct View {
    pub container: Container,
    pub elements: Vec<Container>,
}

#[derive(Debug)]
pub struct Container {
    pub form: Form,
    pub style: Style,
}

#[derive(Debug)]
pub enum Form {
    GridRectangle(ElementType, GridRectangle),
    Rectangle(ElementType, Rectangle),
    Path(ElementType, Path),
    Button(ElementType, Button),
    Label(ElementType, Label),
}

impl Form {
    /// The kind of element the form stands for.
    pub open spec fn el_ty(&self) -> ElementType {
        match self {
            Form::GridRectangle(ty, _) => *ty,
            Form::Rectangle(ty, _) => *ty,
            Form::Path(ty, _) => *ty,
            Form::Button(ty, _) => *ty,
            Form::Label(ty, _) => *ty,
        }
    }

    /// The id of the figure.
    pub open spec fn id_view(&self) -> Seq<char> {
        match self {
            Form::GridRectangle(_, f) => f.id@,
            Form::Rectangle(_, f) => f.id@,
            Form::Path(_, f) => f.id@,
            Form::Button(_, f) => f.id@,
            Form::Label(_, f) => f.id@,
        }
    }

    /// Width and height of the figure's box.
    pub open spec fn box_size(&self) -> (int, int) {
        match self {
            Form::GridRectangle(_, f) => (f.w as int, f.h as int),
            Form::Rectangle(_, f) => (f.w as int, f.h as int),
            Form::Path(_, f) => (extent(xs(f.points@)), extent(ys(f.points@))),
            Form::Button(_, f) => (f.w as int, f.h as int),
            Form::Label(_, f) => (f.w as int, f.h as int),
        }
    }

    /// The stored position of the figure; a path has none and stands at (0, 0).
    pub open spec fn raw_pos(&self) -> (i32, i32) {
        match self {
            Form::GridRectangle(_, f) => (f.x, f.y),
            Form::Rectangle(_, f) => (f.x, f.y),
            Form::Path(_, _) => (0, 0),
            Form::Button(_, f) => (f.x, f.y),
            Form::Label(_, f) => (f.x, f.y),
        }
    }

    /// Where the figure starts on the canvas.
    pub open spec fn coors(&self) -> (int, int) {
        match self {
            Form::GridRectangle(_, f) => (f.x as int, f.y as int),
            Form::Rectangle(_, f) => (f.x as int, f.y as int),
            Form::Path(_, _) => (0, 0),
            Form::Button(_, f) => f.coors(),
            Form::Label(_, f) => f.coors(),
        }
    }

    /// The cells a grid rectangle covers; `None` for forms outside the grid.
    pub open spec fn grid_cells(&self) -> Option<(u32, u32)> {
        match self {
            Form::GridRectangle(_, f) => Some(f.cells),
            _ => None,
        }
    }

    /// The box size of the figure fits the machine integers.
    pub open spec fn box_size_fits(&self) -> bool {
        match self {
            Form::Path(_, f) => {
                &&& i32::MIN <= seq_max(xs(f.points@)) - seq_min(xs(f.points@)) <= i32::MAX
                &&& i32::MIN <= seq_max(ys(f.points@)) - seq_min(ys(f.points@)) <= i32::MAX
            },
            _ => true,
        }
    }

    /// The position of the figure fits the machine integers.
    pub open spec fn coors_fit(&self) -> bool {
        match self {
            Form::Button(_, f) => {
                &&& i32::fits(f.coors().0)
                &&& i32::fits(f.coors().1)
                &&& i32::fits(f.w + button::div_half(f.params.pad_hor as int))
            },
            Form::Label(_, f) => {
                &&& i32::fits(f.coors().0)
                &&& i32::fits(f.x - f.w)
            },
            _ => true,
        }
    }

    /// The figure keeps its size when it is resized (all but rectangles).
    pub open spec fn resizable(&self) -> bool {
        self is GridRectangle || self is Rectangle
    }

    /// The box size a resize to `w`, `h` gives.
    pub open spec fn resized(&self, w: Option<i32>, h: Option<i32>) -> (int, int) {
        match self {
            Form::GridRectangle(_, f) => (
                grid_rectangle::cells_for(
                    (match w { Some(v) => v, None => f.w }) as int,
                    f.params.cell as int,
                ) * f.params.cell,
                grid_rectangle::cells_for(
                    (match h { Some(v) => v, None => f.h }) as int,
                    f.params.cell as int,
                ) * f.params.cell,
            ),
            Form::Rectangle(_, f) => (
                (match w { Some(v) => v, None => f.w }) as int,
                (match h { Some(v) => v, None => f.h }) as int,
            ),
            _ => self.box_size(),
        }
    }

    /// A resize to `w`, `h` can be done.
    pub open spec fn can_resize(&self, w: Option<i32>, h: Option<i32>) -> bool {
        match self {
            Form::GridRectangle(_, f) => {
                &&& snappable((match w { Some(v) => v, None => f.w }) as int, f.params.cell as int)
                &&& snappable((match h { Some(v) => v, None => f.h }) as int, f.params.cell as int)
            },
            _ => true,
        }
    }

    /// The form moved to `x`, `y` where given, everything else kept; a path does not move.
    pub open spec fn moved(self, x: Option<i32>, y: Option<i32>) -> Form {
        match self {
            Form::GridRectangle(t, f) => Form::GridRectangle(t, GridRectangle {
                x: match x { Some(v) => v, None => f.x },
                y: match y { Some(v) => v, None => f.y },
                ..f
            }),
            Form::Rectangle(t, f) => Form::Rectangle(t, Rectangle {
                x: match x { Some(v) => v, None => f.x },
                y: match y { Some(v) => v, None => f.y },
                ..f
            }),
            Form::Path(_, _) => self,
            Form::Button(t, f) => Form::Button(t, Button {
                x: match x { Some(v) => v, None => f.x },
                y: match y { Some(v) => v, None => f.y },
                ..f
            }),
            Form::Label(t, f) => Form::Label(t, Label {
                x: match x { Some(v) => v, None => f.x },
                y: match y { Some(v) => v, None => f.y },
                ..f
            }),
        }
    }

    /// The form resized to `w`, `h` where given, everything else kept: a grid rectangle is
    /// rounded up to whole cells; paths, buttons and labels keep their size.
    pub open spec fn resized_form(self, w: Option<i32>, h: Option<i32>) -> Form {
        match self {
            Form::GridRectangle(t, f) => Form::GridRectangle(t, f.resized_to(w, h)),
            Form::Rectangle(t, f) => Form::Rectangle(t, Rectangle {
                w: match w { Some(v) => v, None => f.w },
                h: match h { Some(v) => v, None => f.h },
                ..f
            }),
            _ => self,
        }
    }

    /// Where the figure starts, when that fits the machine integers as `coors_fit` asks.
    pub fn wide_coors(&self) -> (res: Option<(i64, i64)>)
        ensures
            res is Some <==> self.coors_fit(),
            res matches Some(c) ==> c.0 == self.coors().0 && c.1 == self.coors().1,
    {
        match self {
            Self::Button(_, f) => {
                let half = f.params.pad_hor as i64 / 2;
                let (x, y) = match f.align {
                    button::Align::_Left => (f.x as i64, f.y as i64),
                    button::Align::Right => (
                        f.x as i64 - (f.w as i64 + half),
                        f.y as i64 + f.params.r_off as i64,
                    ),
                };
                let span = f.w as i64 + half;
                if i32::MIN as i64 <= x && x <= i32::MAX as i64 && i32::MIN as i64 <= y && y
                    <= i32::MAX as i64 && i32::MIN as i64 <= span && span <= i32::MAX as i64 {
                    Some((x, y))
                } else {
                    None
                }
            },
            Self::Label(_, f) => {
                let x = match f.align {
                    label::Align::Left => f.x as i64 + f.padding as i64,
                    label::Align::Right => f.x as i64 - f.w as i64 - f.padding as i64,
                };
                let back = f.x as i64 - f.w as i64;
                if i32::MIN as i64 <= x && x <= i32::MAX as i64 && i32::MIN as i64 <= back && back
                    <= i32::MAX as i64 {
                    Some((x, f.y as i64))
                } else {
                    None
                }
            },
            Self::GridRectangle(_, f) => Some((f.x as i64, f.y as i64)),
            Self::Rectangle(_, f) => Some((f.x as i64, f.y as i64)),
            Self::Path(_, _) => Some((0, 0)),
        }
    }

    /// The width and height of the figure, when they fit the machine integers as
    /// `box_size_fits` asks.
    pub fn wide_size(&self) -> (res: Option<(i64, i64)>)
        ensures
            res is Some <==> self.box_size_fits(),
            res matches Some(c) ==> c.0 == self.box_size().0 && c.1 == self.box_size().1,
    {
        match self {
            Self::Path(_, f) => {
                if f.points.len() == 0 {
                    return Some((0, 0));
                }
                let w = path::extreme(&f.points, true, true) as i64 - path::extreme(&f.points, true, false) as i64;
                let h = path::extreme(&f.points, false, true) as i64 - path::extreme(&f.points, false, false) as i64;
                if i32::MIN as i64 <= w && w <= i32::MAX as i64 && i32::MIN as i64 <= h && h
                    <= i32::MAX as i64 {
                    Some((if w < 0 { 0 } else { w }, if h < 0 { 0 } else { h }))
                } else {
                    None
                }
            },
            Self::GridRectangle(_, f) => Some((f.w as i64, f.h as i64)),
            Self::Rectangle(_, f) => Some((f.w as i64, f.h as i64)),
            Self::Button(_, f) => Some((f.w as i64, f.h as i64)),
            Self::Label(_, f) => Some((f.w as i64, f.h as i64)),
        }
    }

    /// Whether the figure can take the height `h`, its width kept.
    pub fn can_resize_height(&self, h: i32) -> (res: bool)
        ensures
            res == self.can_resize(None, Some(h)),
    {
        match self {
            Self::GridRectangle(_, f) => self.can_resize_to(f.w, h),
            _ => true,
        }
    }

    /// Whether the form can be resized to `w` by `h`.
    pub fn can_resize_to(&self, w: i32, h: i32) -> (res: bool)
        ensures
            res == self.can_resize(Some(w), Some(h)),
    {
        match self {
            Self::GridRectangle(_, f) => {
                let cell = f.params.cell;
                0 <= w && 0 <= h && 0 < cell && cell <= i32::MAX as u32 && w <= i32::MAX - cell as i32
                    && h <= i32::MAX - cell as i32
            },
            _ => true,
        }
    }

    pub fn get_el_ty(&self) -> (res: &ElementType)
        ensures
            *res == self.el_ty(),
    {
        match self {
            Self::Rectangle(ty, _) => ty,
            Self::GridRectangle(ty, _) => ty,
            Self::Path(ty, _) => ty,
            Self::Button(ty, _) => ty,
            Self::Label(ty, _) => ty,
        }
    }

    pub fn get_box_size(&self) -> (res: (i32, i32))
        requires
            self.box_size_fits(),
        ensures
            res.0 == self.box_size().0,
            res.1 == self.box_size().1,
    {
        match self {
            Self::Rectangle(_, figure) => figure.get_box_size(),
            Self::GridRectangle(_, figure) => figure.get_box_size(),
            Self::Path(_, figure) => figure.get_box_size(),
            Self::Button(_, figure) => figure.get_box_size(),
            Self::Label(_, figure) => figure.get_box_size(),
        }
    }

    pub fn set_box_size(&mut self, w: Option<i32>, h: Option<i32>)
        requires
            old(self).can_resize(w, h),
        ensures
            final(self).box_size() == old(self).resized(w, h),
            final(self).el_ty() == old(self).el_ty(),
            final(self).id_view() == old(self).id_view(),
            final(self).raw_pos() == old(self).raw_pos(),
            final(self).resizable() == old(self).resizable(),
            !old(self).resizable() ==> *final(self) == *old(self),
            *final(self) == old(self).resized_form(w, h),
    {
        match self {
            Self::Rectangle(_, figure) => figure.set_box_size(w, h),
            Self::GridRectangle(_, figure) => figure.set_box_size(w, h),
            Self::Path(_, _) => {},
            Self::Button(_, _) => {},
            Self::Label(_, _) => {},
        }
    }

    pub fn set_coors(&mut self, x: Option<i32>, y: Option<i32>)
        ensures
            !(*old(self) is Path) ==> final(self).raw_pos() == (
                match x { Some(v) => v, None => old(self).raw_pos().0 },
                match y { Some(v) => v, None => old(self).raw_pos().1 },
            ),
            *old(self) is Path ==> *final(self) == *old(self),
            final(self).box_size() == old(self).box_size(),
            final(self).el_ty() == old(self).el_ty(),
            final(self).id_view() == old(self).id_view(),
            final(self).resizable() == old(self).resizable(),
            *final(self) == old(self).moved(x, y),
    {
        match self {
            Self::Rectangle(_, figure) => figure.set_coors(x, y),
            Self::GridRectangle(_, figure) => figure.set_coors(x, y),
            Self::Path(_, _) => {},
            Self::Button(_, figure) => figure.set_coors(x, y),
            Self::Label(_, figure) => figure.set_coors(x, y),
        }
    }

    pub fn get_coors(&self) -> (res: (i32, i32))
        requires
            self.coors_fit(),
        ensures
            res.0 == self.coors().0,
            res.1 == self.coors().1,
    {
        match self {
            Self::Rectangle(_, figure) => figure.get_coors(),
            Self::GridRectangle(_, figure) => figure.get_coors(),
            Self::Path(_, _) => (0, 0),
            Self::Button(_, figure) => figure.get_coors(),
            Self::Label(_, figure) => figure.get_coors(),
        }
    }

    /// The cells a grid rectangle covers; other forms do not belong to the grid.
    pub fn cells(&self) -> (res: Result<(u32, u32), E>)
        ensures
            match self {
                Form::GridRectangle(_, f) => res == Ok::<(u32, u32), E>(f.cells),
                _ => res == Err::<(u32, u32), E>(E::NotGridForm),
            },
    {
        match self {
            Self::Rectangle(_, _) => Err(E::NotGridForm),
            Self::GridRectangle(_, figure) => Ok(figure.cells),
            Self::Path(_, _) => Err(E::NotGridForm),
            Self::Button(_, _) => Err(E::NotGridForm),
            Self::Label(_, _) => Err(E::NotGridForm),
        }
    }

    pub fn id(&self) -> (res: String)
        ensures
            res@ == self.id_view(),
    {
        match self {
            Self::Rectangle(_, figure) => figure.id.clone(),
            Self::GridRectangle(_, figure) => figure.id.clone(),
            Self::Path(_, figure) => figure.id.clone(),
            Self::Button(_, figure) => figure.id.clone(),
            Self::Label(_, figure) => figure.id.clone(),
        }
    }
}

impl Container {
    pub fn set_form(&mut self, form: Form)
        ensures
            final(self).form == form,
            final(self).style == old(self).style,
    {
        self.form = form;
    }

    pub fn get_box_size(&self) -> (res: (i32, i32))
        requires
            self.form.box_size_fits(),
        ensures
            res.0 == self.form.box_size().0,
            res.1 == self.form.box_size().1,
    {
        self.form.get_box_size()
    }

    pub fn set_box_size(&mut self, w: Option<i32>, h: Option<i32>)
        requires
            old(self).form.can_resize(w, h),
        ensures
            final(self).form.box_size() == old(self).form.resized(w, h),
            final(self).form.el_ty() == old(self).form.el_ty(),
            final(self).form.id_view() == old(self).form.id_view(),
            final(self).form.raw_pos() == old(self).form.raw_pos(),
            !old(self).form.resizable() ==> final(self).form == old(self).form,
            final(self).form == old(self).form.resized_form(w, h),
            final(self).style == old(self).style,
    {
        self.form.set_box_size(w, h)
    }

    pub fn set_coors(&mut self, x: Option<i32>, y: Option<i32>)
        ensures
            !(old(self).form is Path) ==> final(self).form.raw_pos() == (
                match x { Some(v) => v, None => old(self).form.raw_pos().0 },
                match y { Some(v) => v, None => old(self).form.raw_pos().1 },
            ),
            old(self).form is Path ==> final(self).form == old(self).form,
            final(self).form.box_size() == old(self).form.box_size(),
            final(self).form.el_ty() == old(self).form.el_ty(),
            final(self).form.id_view() == old(self).form.id_view(),
            final(self).form == old(self).form.moved(x, y),
            final(self).style == old(self).style,
    {
        self.form.set_coors(x, y)
    }

    pub fn get_coors(&self) -> (res: (i32, i32))
        requires
            self.form.coors_fit(),
        ensures
            res.0 == self.form.coors().0,
            res.1 == self.form.coors().1,
    {
        self.form.get_coors()
    }

    pub fn id(&self) -> (res: String)
        ensures
            res@ == self.form.id_view(),
    {
        self.form.id()
    }
}

} // verus!
