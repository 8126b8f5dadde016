use vstd::prelude::*;

use crate::render::grid;
use crate::render::ratio::Ratio;

verus! {

#[derive(Debug)]
pub struct Params {
    pub cell: u32,
}

impl Params {
    pub fn new(ratio: &Ratio) -> (res: Self)
        ensures
            res.cell == grid::CELL * ratio.ratio,
    {
        Self { cell: ratio.get(grid::CELL) }
    }
}

#[derive(Debug)]
pub struct GridRectangle {
    pub x: i32,
    pub y: i32,
    pub w: i32,
    pub h: i32,
    pub cells: (u32, u32),
    pub id: String,
    pub params: Params,
}

/// The number of cells of size `cell` that cover `len` pixels: at least one.
pub open spec fn cells_for(len: int, cell: int) -> int {
    if len <= cell {
        1
    } else {
        (len + cell - 1) / cell
    }
}

/// A side of `len` pixels can be snapped to cells of size `cell`.
pub open spec fn snappable(len: int, cell: int) -> bool {
    0 <= len && 0 < cell && len + cell <= i32::MAX
}

proof fn lemma_cells_for(len: int, cell: int)
    requires
        snappable(len, cell),
    ensures
        1 <= cells_for(len, cell),
        len <= cells_for(len, cell) * cell,
        cells_for(len, cell) * cell <= len + cell,
        cells_for(len, cell) * cell <= i32::MAX,
{
    if len > cell {
        let c = (len + cell - 1) / cell;
        let r = (len + cell - 1) % cell;
        assert(len + cell - 1 == c * cell + r && 0 <= r < cell) by (nonlinear_arith)
            requires
                c == (len + cell - 1) / cell,
                r == (len + cell - 1) % cell,
                cell > 0,
        ;
        assert(1 <= c) by (nonlinear_arith)
            requires
                len + cell - 1 == c * cell + r,
                0 <= r < cell,
                len > cell,
        ;
        assert(len <= c * cell);
    }
}

/// The count that `sync` computes from the floor quotient `q` of `len` by `cell`.
proof fn lemma_sync_count(len: int, cell: int, q: int)
    requires
        snappable(len, cell),
        q == len / cell,
    ensures
        cells_for(len, cell) == (if q == 0 {
            1
        } else if q * cell < len {
            q + 1
        } else {
            q
        }),
{
    let r = len % cell;
    assert(len == q * cell + r && 0 <= r < cell) by (nonlinear_arith)
        requires
            q == len / cell,
            r == len % cell,
            cell > 0,
    ;
    if len > cell {
        let c = (len + cell - 1) / cell;
        if r == 0 {
            assert(len + cell - 1 == q * cell + (cell - 1));
            assert(c == q) by (nonlinear_arith)
                requires
                    len + cell - 1 == q * cell + (cell - 1),
                    c == (len + cell - 1) / cell,
                    cell > 0,
            ;
            assert(q >= 1) by (nonlinear_arith)
                requires len == q * cell, len > cell, cell > 0;
        } else {
            assert(len + cell - 1 == (q + 1) * cell + (r - 1)) by (nonlinear_arith)
                requires len == q * cell + r;
            assert(c == q + 1) by (nonlinear_arith)
                requires
                    len + cell - 1 == (q + 1) * cell + (r - 1),
                    0 <= r - 1 < cell,
                    c == (len + cell - 1) / cell,
                    cell > 0,
            ;
            assert(q >= 1) by (nonlinear_arith)
                requires len == q * cell + r, len > cell, r < cell, cell > 0;
        }
    } else {
        if q >= 1 {
            assert(q == 1 && r == 0) by (nonlinear_arith)
                requires len == q * cell + r, len <= cell, 0 <= r < cell, q >= 1, cell > 0;
        }
    }
}

impl GridRectangle {
    /// The rectangle resized to `w`, `h` where given, each side rounded up to whole cells
    /// (at least one); everything else is kept.
    pub open spec fn resized_to(self, w: Option<i32>, h: Option<i32>) -> GridRectangle {
        let c0 = cells_for((match w { Some(v) => v, None => self.w }) as int, self.params.cell as int);
        let c1 = cells_for((match h { Some(v) => v, None => self.h }) as int, self.params.cell as int);
        GridRectangle {
            w: (c0 * self.params.cell) as i32,
            h: (c1 * self.params.cell) as i32,
            cells: (c0 as u32, c1 as u32),
            ..self
        }
    }

    fn sync(&mut self)
        requires
            snappable(old(self).w as int, old(self).params.cell as int),
            snappable(old(self).h as int, old(self).params.cell as int),
        ensures
            final(self).cells.0 == cells_for(old(self).w as int, old(self).params.cell as int),
            final(self).cells.1 == cells_for(old(self).h as int, old(self).params.cell as int),
            final(self).w == final(self).cells.0 * final(self).params.cell,
            final(self).h == final(self).cells.1 * final(self).params.cell,
            final(self).x == old(self).x,
            final(self).y == old(self).y,
            final(self).id == old(self).id,
            final(self).params == old(self).params,
    {
        let cell = self.params.cell;
        proof {
            lemma_cells_for(self.w as int, cell as int);
            lemma_cells_for(self.h as int, cell as int);
        }
        let w = self.w as u32;
        let h = self.h as u32;
        let mut cells: (u32, u32) = (w / cell, h / cell);
        proof {
            lemma_sync_count(w as int, cell as int, cells.0 as int);
            lemma_sync_count(h as int, cell as int, cells.1 as int);
            assert(cells.0 * cell <= w) by (nonlinear_arith)
                requires cells.0 == w / cell, cell > 0;
            assert(cells.1 * cell <= h) by (nonlinear_arith)
                requires cells.1 == h / cell, cell > 0;
        }
        let ghost q = cells;
        if cells.0 == 0 {
            cells.0 = 1
        }
        if cells.1 == 0 {
            cells.1 = 1
        }
        if cells.0 * cell < w {
            cells.0 = cells.0 + 1;
        }
        if cells.1 * cell < h {
            cells.1 = cells.1 + 1;
        }
        assert(cells.0 == cells_for(w as int, cell as int));
        assert(cells.1 == cells_for(h as int, cell as int));
        self.w = (cells.0 * cell) as i32;
        self.h = (cells.1 * cell) as i32;
        self.cells = cells;
    }

    pub fn new(id: String, x: i32, y: i32, w: i32, h: i32, ratio: &Ratio) -> (res: Self)
        requires
            ratio.ratio > 0,
            snappable(w as int, grid::CELL * ratio.ratio),
            snappable(h as int, grid::CELL * ratio.ratio),
        ensures
            res.x == x,
            res.y == y,
            res.id@ == id@,
            res.params.cell == grid::CELL * ratio.ratio,
            res.cells.0 == cells_for(w as int, res.params.cell as int),
            res.cells.1 == cells_for(h as int, res.params.cell as int),
            res.w == res.cells.0 * res.params.cell,
            res.h == res.cells.1 * res.params.cell,
    {
        let params = Params::new(ratio);
        let mut instance = Self { x, y, w, h, cells: (1, 1), id, params };
        instance.sync();
        instance
    }

    pub fn get_box_size(&self) -> (res: (i32, i32))
        ensures
            res == (self.w, self.h),
    {
        (self.w, self.h)
    }

    pub fn set_box_size(&mut self, w: Option<i32>, h: Option<i32>)
        requires
            snappable(
                (match w { Some(v) => v, None => old(self).w }) as int,
                old(self).params.cell as int,
            ),
            snappable(
                (match h { Some(v) => v, None => old(self).h }) as int,
                old(self).params.cell as int,
            ),
        ensures
            final(self).cells.0 == cells_for(
                (match w { Some(v) => v, None => old(self).w }) as int,
                old(self).params.cell as int,
            ),
            final(self).cells.1 == cells_for(
                (match h { Some(v) => v, None => old(self).h }) as int,
                old(self).params.cell as int,
            ),
            final(self).w == final(self).cells.0 * final(self).params.cell,
            final(self).h == final(self).cells.1 * final(self).params.cell,
            *final(self) == old(self).resized_to(w, h),
    {
        if let Some(w) = w {
            self.w = w;
        }
        if let Some(h) = h {
            self.h = h;
        }
        self.sync();
    }

    /// Moves the rectangle to `x`, `y` where given; everything else is kept.
    pub fn set_coors(&mut self, x: Option<i32>, y: Option<i32>)
        ensures
            *final(self) == (GridRectangle {
                x: match x { Some(v) => v, None => old(self).x },
                y: match y { Some(v) => v, None => old(self).y },
                ..*old(self)
            }),
    {
        if let Some(x) = x {
            self.x = x;
        }
        if let Some(y) = y {
            self.y = y;
        }
    }

    pub fn get_coors(&self) -> (res: (i32, i32))
        ensures
            res == (self.x, self.y),
    {
        (self.x, self.y)
    }
}

} // verus!
