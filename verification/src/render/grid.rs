use vstd::prelude::*;

use crate::error::E;
use crate::render::elements::{areas_cross, is_area_cross, is_point_in, max, point_in};
use crate::render::form::Form;
use crate::render::options::GridOptions;
use crate::render::ratio::{div_toward_zero, Ratio, RatioScalar};
use crate::state::holds;
use crate::text::{decimal, parse_id, parsed, usize_to_string};

verus! {

/// The side of a grid cell, in layout pixels, before the ratio applies.
pub const CELL: u32 = 25;

/// The bound on the sizes, paddings and coordinates that a grid placement takes in.
pub const GRID_LIMIT: u32 = 0x100_0000;

/// The bound on the sizes and coordinates that a grid placement gives back.
pub const GRID_HIGH: u32 = 0x1400_0000;

#[derive(Debug, Clone, Copy, PartialEq, Eq, Structural)]
pub enum ElementType {
    Unknown,
    Component,
    Composition,
    Connection,
    Port,
    Element,
}

/// What a grid knows of an element: its kind and the cells `(x, y, x1, y1)` it occupies.
pub type ElementCoor = (ElementType, (u32, u32, u32, u32));

/// The id of a form, its kind and its size in cells.
pub type FormSize = (String, ElementType, (u32, u32));

/// A negative number clamped to zero.
pub fn as_u32(n: i32) -> (res: u32)
    ensures
        res == (if n < 0 { 0 } else { n as int }),
{
    (if n < 0 { 0 } else { n }) as u32
}

/// The entries of a grid's map, with the keys taken by their text.
pub open spec fn entries(map: Seq<(String, ElementCoor)>) -> Seq<(Seq<char>, ElementCoor)> {
    map.map_values(|e: (String, ElementCoor)| (e.0@, e.1))
}

/// No key occurs twice.
pub open spec fn keys_distinct(e: Seq<(Seq<char>, ElementCoor)>) -> bool {
    forall|i: int, j: int| 0 <= i < j < e.len() ==> e[i].0 != e[j].0
}

pub open spec fn has_key(e: Seq<(Seq<char>, ElementCoor)>, k: Seq<char>) -> bool {
    exists|i: int| 0 <= i < e.len() && e[i].0 == k
}

/// The entries after `k` is mapped to `v`: an entry with key `k` is replaced in place,
/// otherwise the entry is appended.
pub open spec fn put(e: Seq<(Seq<char>, ElementCoor)>, k: Seq<char>, v: ElementCoor) -> Seq<
    (Seq<char>, ElementCoor),
> {
    if has_key(e, k) {
        let i = choose|i: int| 0 <= i < e.len() && e[i].0 == k;
        e.update(i, (k, v))
    } else {
        e.push((k, v))
    }
}

/// An area moved by `(dx, dy)` cells.
pub open spec fn shift(c: ElementCoor, dx: int, dy: int) -> ElementCoor {
    (
        c.0,
        (
            (c.1.0 + dx) as u32,
            (c.1.1 + dy) as u32,
            (c.1.2 + dx) as u32,
            (c.1.3 + dy) as u32,
        ),
    )
}

/// The entries after every entry of `others`, moved by `(dx, dy)`, is put in turn.
pub open spec fn put_all(
    e: Seq<(Seq<char>, ElementCoor)>,
    others: Seq<(Seq<char>, ElementCoor)>,
    dx: int,
    dy: int,
) -> Seq<(Seq<char>, ElementCoor)>
    decreases others.len(),
{
    if others.len() == 0 {
        e
    } else {
        put(
            put_all(e, others.drop_last(), dx, dy),
            others.last().0,
            shift(others.last().1, dx, dy),
        )
    }
}

/// The pixel position of every entry fits an unsigned integer.
pub open spec fn pixels_fit(e: Seq<(Seq<char>, ElementCoor)>, cell: u32) -> bool {
    forall|i: int|
        0 <= i < e.len() ==> #[trigger] e[i].1.1.0 * cell <= u32::MAX && e[i].1.1.1 * cell
            <= u32::MAX
}

/// The greatest right edge of the entries, 0 for none.
pub open spec fn max_x1(e: Seq<(Seq<char>, ElementCoor)>) -> int
    decreases e.len(),
{
    if e.len() == 0 {
        0
    } else {
        let m = max_x1(e.drop_last());
        if e.last().1.1.2 > m {
            e.last().1.1.2 as int
        } else {
            m
        }
    }
}

/// The greatest bottom edge of the entries, 0 for none.
pub open spec fn max_y1(e: Seq<(Seq<char>, ElementCoor)>) -> int
    decreases e.len(),
{
    if e.len() == 0 {
        0
    } else {
        let m = max_y1(e.drop_last());
        if e.last().1.1.3 > m {
            e.last().1.1.3 as int
        } else {
            m
        }
    }
}

/// All coordinates of the entries are at most `bound`.
pub open spec fn areas_within(e: Seq<(Seq<char>, ElementCoor)>, bound: int) -> bool {
    forall|i: int|
        0 <= i < e.len() ==> {
            &&& #[trigger] e[i].1.1.0 <= bound
            &&& e[i].1.1.1 <= bound
            &&& e[i].1.1.2 <= bound
            &&& e[i].1.1.3 <= bound
        }
}

pub open spec fn max3(a: int, b: int, c: int) -> int {
    if a >= b && a >= c {
        a
    } else if b >= c {
        b
    } else {
        c
    }
}

/// `a` divided by `b`, rounded up.
pub open spec fn ceil_div(a: int, b: int) -> int {
    (a + b - 1) / b
}

/// How the grid grows when a placement does not fit: the shorter side catches up.
pub open spec fn grow(s: (u32, u32)) -> (u32, u32) {
    if s.0 < s.1 {
        ((s.0 + ceil_div(s.1 + 1, s.0 as int)) as u32, (s.1 + 1) as u32)
    } else if s.1 < s.0 {
        ((s.0 + 1) as u32, (s.1 + ceil_div(s.0 + 1, s.1 as int)) as u32)
    } else {
        ((s.0 + 1) as u32, (s.1 + 1) as u32)
    }
}

/// The size after `n` growth steps.
pub open spec fn grow_n(s: (u32, u32), n: nat) -> (u32, u32)
    decreases n,
{
    if n == 0 {
        s
    } else {
        grow(grow_n(s, (n - 1) as nat))
    }
}

pub open spec fn max2(a: int, b: int) -> int {
    if a >= b {
        a
    } else {
        b
    }
}

pub open spec fn min2(a: int, b: int) -> int {
    if a <= b {
        a
    } else {
        b
    }
}

proof fn lemma_grow(s: (u32, u32))
    requires
        1 <= s.0,
        1 <= s.1,
        s.0 + s.1 + 4 <= u32::MAX,
    ensures
        grow(s).0 >= s.0 + 1,
        grow(s).1 >= s.1 + 1,
        grow(s).0 <= max2(s.0 as int, s.1 as int) + 2,
        grow(s).1 <= max2(s.0 as int, s.1 as int) + 2,
{
    if s.0 < s.1 {
        lemma_ceil_step(s.0 as int, s.1 as int);
    } else if s.1 < s.0 {
        lemma_ceil_step(s.1 as int, s.0 as int);
    }
}

/// For `a < b`, `a + ceil((b + 1) / a)` exceeds `a` and stays within `b + 2`.
proof fn lemma_ceil_step(a: int, b: int)
    requires
        1 <= a < b,
    ensures
        1 <= ceil_div(b + 1, a),
        a + ceil_div(b + 1, a) <= b + 2,
{
    let n = b + 1 + a - 1;
    let q = n / a;
    let r = n % a;
    assert(n == q * a + r && 0 <= r < a) by (nonlinear_arith)
        requires
            q == n / a,
            r == n % a,
            a >= 1,
    ;
    assert(q >= 1) by (nonlinear_arith)
        requires
            n == q * a + r,
            0 <= r < a,
            n >= 2 * a,
    ;
    if a == 1 {
        assert(q == b + 1) by (nonlinear_arith)
            requires
                n == q * a + r,
                0 <= r < a,
                a == 1,
                n == b + 1,
        ;
    } else {
        assert(q <= b + 1 - a) by (nonlinear_arith)
            requires
                n == q * a + r,
                0 <= r < a,
                a >= 2,
                b >= a + 1,
                n == b + a,
        ;
    }
}

/// The point is inside the padded grid of size `s` and in no element but the one keyed `key`.
pub open spec fn point_free(
    cells: Seq<(Seq<char>, ElementCoor)>,
    o: GridOptions,
    key: Seq<char>,
    s: (u32, u32),
    p: (u32, u32),
) -> bool {
    &&& !(p.0 < o.hpadding || p.0 > s.0 + o.hpadding * 2 || p.1 < o.vpadding || p.1 > s.1
        + o.vpadding * 2)
    &&& forall|i: int|
        0 <= i < cells.len() && #[trigger] cells[i].0 != key ==> !point_in(p, cells[i].1.1)
}

/// The area widened by the spaces that elements keep between them.
pub open spec fn extended(o: GridOptions, t: (u32, u32, u32, u32)) -> (u32, u32, u32, u32) {
    let sh = o.cells_space_horizontal;
    let sv = o.cells_space_vertical;
    (
        (if t.0 > sh {
            t.0 - sh
        } else {
            0
        }) as u32,
        (if t.1 > sv {
            t.1 - sv
        } else {
            0
        }) as u32,
        (t.2 + sh) as u32,
        (t.3 + sv) as u32,
    )
}

/// The area fits in the padded grid of size `s` and, with its spaces, meets no element.
pub open spec fn block_free(
    cells: Seq<(Seq<char>, ElementCoor)>,
    o: GridOptions,
    s: (u32, u32),
    t: (u32, u32, u32, u32),
) -> bool {
    &&& !(s.0 - o.hpadding < t.2 || s.1 - o.vpadding < t.3)
    &&& forall|i: int| 0 <= i < cells.len() ==> !areas_cross(extended(o, t), #[trigger] cells[i].1.1)
}

/// A block of `g` cells can be placed with its corner at `(x, y)` in a grid of size `s`.
pub open spec fn spot(
    cells: Seq<(Seq<char>, ElementCoor)>,
    o: GridOptions,
    key: Seq<char>,
    s: (u32, u32),
    g: (u32, u32),
    x: u32,
    y: u32,
) -> bool {
    &&& point_free(cells, o, key, s, (x, y))
    &&& block_free(cells, o, s, (x, y, (x + g.0 - 1) as u32, (y + g.1 - 1) as u32))
}

/// No corner in a grid of size `s` takes a block of `g` cells.
pub open spec fn no_spot(
    cells: Seq<(Seq<char>, ElementCoor)>,
    o: GridOptions,
    key: Seq<char>,
    s: (u32, u32),
    g: (u32, u32),
) -> bool {
    forall|x: u32, y: u32| x < s.0 && y < s.1 ==> !#[trigger] spot(cells, o, key, s, g, x, y)
}

/// `p` is the first corner, row by row, that takes a block of `g` cells.
pub open spec fn first_spot(
    cells: Seq<(Seq<char>, ElementCoor)>,
    o: GridOptions,
    key: Seq<char>,
    s: (u32, u32),
    g: (u32, u32),
    p: (u32, u32),
) -> bool {
    &&& p.0 < s.0
    &&& p.1 < s.1
    &&& spot(cells, o, key, s, g, p.0, p.1)
    &&& forall|x: u32, y: u32|
        (y < p.1 && x < s.0) || (y == p.1 && x < p.0) ==> !#[trigger] spot(cells, o, key, s, g, x, y)
}

/// What putting a grid of `pcells`, `psize` cells into one of `cells`, `size` gives, as
/// `Grid::insert` does it: grown from the size both take, step by step, to the first size
/// with a free corner; the blocks put at the first such corner, row by row; then the space
/// right of and below the elements cut, the paddings kept.
pub open spec fn insertion(
    cells: Seq<(Seq<char>, ElementCoor)>,
    size: (u32, u32),
    o: GridOptions,
    key: Seq<char>,
    pcells: Seq<(Seq<char>, ElementCoor)>,
    psize: (u32, u32),
    out: (Seq<(Seq<char>, ElementCoor)>, (u32, u32)),
) -> bool {
    let s0 = (
        max3(size.0 as int, psize.0 as int, o.hpadding * 2) as u32,
        max3(size.1 as int, psize.1 as int, o.vpadding * 2) as u32,
    );
    exists|n: nat, p: (u32, u32)|
        #![trigger first_spot(cells, o, key, grow_n(s0, n), psize, p)]
        {
            &&& forall|k: nat| k < n ==> no_spot(cells, o, key, #[trigger] grow_n(s0, k), psize)
            &&& first_spot(cells, o, key, grow_n(s0, n), psize, p)
            &&& out.0 == put_all(cells, pcells, p.0 as int, p.1 as int)
            &&& out.1 == (
                min2(max_x1(out.0) + o.hpadding + 1, grow_n(s0, n).0 as int) as u32,
                min2(max_y1(out.0) + o.vpadding + 1, grow_n(s0, n).1 as int) as u32,
            )
        }
}

/// An insertion has one outcome.
pub proof fn lemma_insertion_unique(
    cells: Seq<(Seq<char>, ElementCoor)>,
    size: (u32, u32),
    o: GridOptions,
    key: Seq<char>,
    pcells: Seq<(Seq<char>, ElementCoor)>,
    psize: (u32, u32),
    a: (Seq<(Seq<char>, ElementCoor)>, (u32, u32)),
    b: (Seq<(Seq<char>, ElementCoor)>, (u32, u32)),
)
    requires
        insertion(cells, size, o, key, pcells, psize, a),
        insertion(cells, size, o, key, pcells, psize, b),
    ensures
        a == b,
{
    let s0 = (
        max3(size.0 as int, psize.0 as int, o.hpadding * 2) as u32,
        max3(size.1 as int, psize.1 as int, o.vpadding * 2) as u32,
    );
    let (n1, p1) = choose|n: nat, p: (u32, u32)|
        #![trigger first_spot(cells, o, key, grow_n(s0, n), psize, p)]
        {
            &&& forall|k: nat| k < n ==> no_spot(cells, o, key, #[trigger] grow_n(s0, k), psize)
            &&& first_spot(cells, o, key, grow_n(s0, n), psize, p)
            &&& a.0 == put_all(cells, pcells, p.0 as int, p.1 as int)
            &&& a.1 == (
                min2(max_x1(a.0) + o.hpadding + 1, grow_n(s0, n).0 as int) as u32,
                min2(max_y1(a.0) + o.vpadding + 1, grow_n(s0, n).1 as int) as u32,
            )
        };
    let (n2, p2) = choose|n: nat, p: (u32, u32)|
        #![trigger first_spot(cells, o, key, grow_n(s0, n), psize, p)]
        {
            &&& forall|k: nat| k < n ==> no_spot(cells, o, key, #[trigger] grow_n(s0, k), psize)
            &&& first_spot(cells, o, key, grow_n(s0, n), psize, p)
            &&& b.0 == put_all(cells, pcells, p.0 as int, p.1 as int)
            &&& b.1 == (
                min2(max_x1(b.0) + o.hpadding + 1, grow_n(s0, n).0 as int) as u32,
                min2(max_y1(b.0) + o.vpadding + 1, grow_n(s0, n).1 as int) as u32,
            )
        };
    if n1 < n2 {
        assert(no_spot(cells, o, key, grow_n(s0, n1), psize));
        assert(spot(cells, o, key, grow_n(s0, n1), psize, p1.0, p1.1));
    }
    if n2 < n1 {
        assert(no_spot(cells, o, key, grow_n(s0, n2), psize));
        assert(spot(cells, o, key, grow_n(s0, n2), psize, p2.0, p2.1));
    }
    assert(n1 == n2);
    let sz = grow_n(s0, n1);
    assert(spot(cells, o, key, sz, psize, p1.0, p1.1));
    assert(spot(cells, o, key, sz, psize, p2.0, p2.1));
    assert(p1 == p2);
}

proof fn lemma_max_edges(e: Seq<(Seq<char>, ElementCoor)>, bound: int)
    ensures
        0 <= max_x1(e),
        0 <= max_y1(e),
        forall|i: int| 0 <= i < e.len() ==> #[trigger] e[i].1.1.2 <= max_x1(e),
        forall|i: int| 0 <= i < e.len() ==> #[trigger] e[i].1.1.3 <= max_y1(e),
        areas_within(e, bound) && bound >= 0 ==> max_x1(e) <= bound && max_y1(e) <= bound,
    decreases e.len(),
{
    if e.len() > 0 {
        let d = e.drop_last();
        lemma_max_edges(d, bound);
        assert forall|i: int| 0 <= i < e.len() implies #[trigger] e[i].1.1.2 <= max_x1(e) by {
            if i < e.len() - 1 {
                assert(d[i] == e[i]);
            }
        }
        assert forall|i: int| 0 <= i < e.len() implies #[trigger] e[i].1.1.3 <= max_y1(e) by {
            if i < e.len() - 1 {
                assert(d[i] == e[i]);
            }
        }
        if areas_within(e, bound) && bound >= 0 {
            assert forall|i: int| 0 <= i < d.len() implies {
                &&& #[trigger] d[i].1.1.0 <= bound
                &&& d[i].1.1.1 <= bound
                &&& d[i].1.1.2 <= bound
                &&& d[i].1.1.3 <= bound
            } by {
                assert(d[i] == e[i]);
                assert(e[i].1.1.0 <= bound);
            }
            assert(e[e.len() - 1].1.1.0 <= bound);
        }
    }
}

proof fn lemma_put_within(e: Seq<(Seq<char>, ElementCoor)>, k: Seq<char>, v: ElementCoor, bound: int)
    requires
        areas_within(e, bound),
        v.1.0 <= bound,
        v.1.1 <= bound,
        v.1.2 <= bound,
        v.1.3 <= bound,
    ensures
        areas_within(put(e, k, v), bound),
{
    let r = put(e, k, v);
    assert forall|i: int| 0 <= i < r.len() implies {
        &&& #[trigger] r[i].1.1.0 <= bound
        &&& r[i].1.1.1 <= bound
        &&& r[i].1.1.2 <= bound
        &&& r[i].1.1.3 <= bound
    } by {
        if i < e.len() && r[i] == e[i] {
            assert(e[i].1.1.0 <= bound);
        }
    }
}

proof fn lemma_within_weaken(e: Seq<(Seq<char>, ElementCoor)>, b1: int, b2: int)
    requires
        areas_within(e, b1),
        b1 <= b2,
    ensures
        areas_within(e, b2),
{
    assert forall|i: int| 0 <= i < e.len() implies {
        &&& #[trigger] e[i].1.1.0 <= b2
        &&& e[i].1.1.1 <= b2
        &&& e[i].1.1.2 <= b2
        &&& e[i].1.1.3 <= b2
    } by {
        assert(e[i].1.1.0 <= b1);
    }
}

/// Right of every element there is room: the size at distance zero takes the block.
proof fn lemma_free_column(
    cells: Seq<(Seq<char>, ElementCoor)>,
    o: GridOptions,
    key: Seq<char>,
    s: (u32, u32),
    g: (u32, u32),
)
    requires
        areas_within(cells, GRID_LIMIT as int),
        o.hpadding <= GRID_LIMIT,
        o.vpadding <= GRID_LIMIT,
        o.cells_space_horizontal <= GRID_LIMIT,
        o.cells_space_vertical <= GRID_LIMIT,
        1 <= g.0 <= GRID_LIMIT,
        1 <= g.1 <= GRID_LIMIT,
        s.0 >= o.hpadding + max_x1(cells) + o.cells_space_horizontal + 1 + g.0 + o.hpadding,
        s.1 >= o.vpadding * 2 + g.1,
        s.0 <= GRID_HIGH,
        s.1 <= GRID_HIGH,
    ensures
        ({
            let px = (o.hpadding + max_x1(cells) + o.cells_space_horizontal + 1) as u32;
            &&& px < s.0
            &&& o.vpadding < s.1
            &&& spot(cells, o, key, s, g, px, o.vpadding)
        }),
{
    lemma_max_edges(cells, GRID_LIMIT as int);
    let px = (o.hpadding + max_x1(cells) + o.cells_space_horizontal + 1) as u32;
    let py = o.vpadding;
    assert forall|i: int| 0 <= i < cells.len() && #[trigger] cells[i].0 != key implies !point_in(
        (px, py),
        cells[i].1.1,
    ) by {
        assert(cells[i].1.1.2 <= max_x1(cells));
    }
    let t = (px, py, (px + g.0 - 1) as u32, (py + g.1 - 1) as u32);
    assert forall|i: int| 0 <= i < cells.len() implies !areas_cross(
        extended(o, t),
        #[trigger] cells[i].1.1,
    ) by {
        assert(cells[i].1.1.2 <= max_x1(cells));
    }
}

/// The id, kind and cells of each form, as `get_sizes` gives them.
pub open spec fn sizes_of(forms: Seq<&Form>) -> Seq<(Seq<char>, ElementType, (u32, u32))> {
    forms.map_values(
        |f: &Form|
            (
                f.id_view(),
                f.el_ty(),
                match f.grid_cells() {
                    Some(c) => c,
                    None => (0u32, 0u32),
                },
            ),
    )
}

/// Every form belongs to the grid.
pub open spec fn all_grid_forms(forms: Seq<&Form>) -> bool {
    forall|i: int| 0 <= i < forms.len() ==> #[trigger] forms[i].grid_cells() is Some
}

/// The height a column of blocks takes, with `space` after each block.
pub open spec fn column_cursor(sizes: Seq<(Seq<char>, ElementType, (u32, u32))>, space: int) -> int
    decreases sizes.len(),
{
    if sizes.len() == 0 {
        0
    } else {
        column_cursor(sizes.drop_last(), space) + sizes.last().2.1 + space
    }
}

/// The widest block of a column, 0 for none.
pub open spec fn column_width(sizes: Seq<(Seq<char>, ElementType, (u32, u32))>) -> int
    decreases sizes.len(),
{
    if sizes.len() == 0 {
        0
    } else {
        max2(column_width(sizes.drop_last()), sizes.last().2.0 as int)
    }
}

/// The blocks stacked top down at column `x`, with `space` between them.
pub open spec fn column(sizes: Seq<(Seq<char>, ElementType, (u32, u32))>, x: int, space: int) -> Seq<
    (Seq<char>, ElementCoor),
>
    decreases sizes.len(),
{
    if sizes.len() == 0 {
        seq![]
    } else {
        let y = column_cursor(sizes.drop_last(), space);
        let b = sizes.last();
        column(sizes.drop_last(), x, space).push(
            (
                b.0,
                (b.1, (x as u32, y as u32, (x + b.2.0 - 1) as u32, (y + b.2.1 - 1) as u32)),
            ),
        )
    }
}

/// Whether a column of the forms fits the grid's limits: each form of the grid is one to
/// `GRID_LIMIT` cells wide and high, and the column with `space` after each form is at most
/// `GRID_LIMIT` high.
pub fn column_within(forms: &Vec<&Form>, space: u32) -> (res: bool)
    ensures
        res ==> (all_grid_forms(forms@) ==> column_fits(sizes_of(forms@), space as int)),
        all_grid_forms(forms@) ==> (res == column_fits(sizes_of(forms@), space as int)),
{
    let mut cursor: u32 = 0;
    let mut i: usize = 0;
    assert(sizes_of(forms@).subrange(0, 0) =~= Seq::<(Seq<char>, ElementType, (u32, u32))>::empty());
    while i < forms.len()
        invariant
            0 <= i <= forms@.len(),
            cursor <= GRID_LIMIT,
            all_grid_forms(forms@) ==> cursor == column_cursor(
                sizes_of(forms@).subrange(0, i as int),
                space as int,
            ),
            all_grid_forms(forms@) ==> forall|j: int|
                0 <= j < i ==> 1 <= #[trigger] sizes_of(forms@)[j].2.0 <= GRID_LIMIT && 1
                    <= sizes_of(forms@)[j].2.1 <= GRID_LIMIT,
        decreases forms@.len() - i,
    {
        match forms[i].cells() {
            Ok((w, h)) => {
                assert(sizes_of(forms@)[i as int].2 == (w, h));
                if !(1 <= w && w <= GRID_LIMIT && 1 <= h && h <= GRID_LIMIT) {
                    return false;
                }
                if space > GRID_LIMIT || cursor + h + space > GRID_LIMIT {
                    proof {
                        if all_grid_forms(forms@) {
                            let sizes = sizes_of(forms@);
                            let sub = sizes.subrange(0, i + 1);
                            assert(sub.drop_last() =~= sizes.subrange(0, i as int));
                            lemma_cursor_mono(sizes, space as int, i + 1, sizes.len() as int);
                            assert(sizes.subrange(0, sizes.len() as int) =~= sizes);
                        }
                    }
                    return false;
                }
                proof {
                    let sub = sizes_of(forms@).subrange(0, i + 1);
                    assert(sub.drop_last() =~= sizes_of(forms@).subrange(0, i as int));
                }
                cursor = cursor + h + space;
            },
            Err(_) => {
                assert(forms@[i as int].grid_cells() is None);
                assert(!all_grid_forms(forms@));
                return true;
            },
        }
        i = i + 1;
    }
    assert(sizes_of(forms@).subrange(0, forms@.len() as int) =~= sizes_of(forms@));
    true
}

/// A column grows as blocks are added to it.
proof fn lemma_cursor_mono(sizes: Seq<(Seq<char>, ElementType, (u32, u32))>, space: int, a: int, b: int)
    requires
        0 <= a <= b <= sizes.len(),
        0 <= space,
    ensures
        column_cursor(sizes.subrange(0, a), space) <= column_cursor(sizes.subrange(0, b), space),
    decreases b - a,
{
    if a < b {
        lemma_cursor_mono(sizes, space, a, b - 1);
        let s = sizes.subrange(0, b);
        assert(s.drop_last() =~= sizes.subrange(0, b - 1));
    }
}

/// The blocks of a column are at least one cell wide and high and the column fits the limit.
pub open spec fn column_fits(sizes: Seq<(Seq<char>, ElementType, (u32, u32))>, space: int) -> bool {
    &&& forall|i: int|
        0 <= i < sizes.len() ==> 1 <= #[trigger] sizes[i].2.0 <= GRID_LIMIT && 1 <= sizes[i].2.1
            <= GRID_LIMIT
    &&& column_cursor(sizes, space) <= GRID_LIMIT
}

/// The size of a grid made of a left and a right column.
pub open spec fn pair_size(
    left: Seq<(Seq<char>, ElementType, (u32, u32))>,
    right: Seq<(Seq<char>, ElementType, (u32, u32))>,
    o: GridOptions,
) -> (int, int) {
    let sv = o.cells_space_vertical as int;
    let sh = o.cells_space_horizontal as int;
    let left_w = if left.len() == 0 {
        0
    } else if right.len() == 0 {
        column_width(left)
    } else {
        column_width(left) + sh
    };
    let left_h = if left.len() == 0 {
        0
    } else {
        column_cursor(left, sv) - sv
    };
    if right.len() == 0 {
        (left_w, left_h)
    } else {
        (left_w + column_width(right), max2(left_h, column_cursor(right, sv) - sv))
    }
}

proof fn lemma_column(sizes: Seq<(Seq<char>, ElementType, (u32, u32))>, space: int, x: int)
    requires
        0 <= space,
        0 <= x,
        forall|i: int| 0 <= i < sizes.len() ==> 1 <= #[trigger] sizes[i].2.0 && 1 <= sizes[i].2.1,
    ensures
        column(sizes, x, space).len() == sizes.len(),
        column_cursor(sizes, space) >= 0,
        column_width(sizes) >= 0,
        sizes.len() > 0 ==> column_cursor(sizes, space) >= space + 1,
        forall|i: int| 0 <= i < sizes.len() ==> #[trigger] sizes[i].2.0 <= column_width(sizes),
        forall|i: int|
            0 <= i < sizes.len() ==> column_cursor(sizes.subrange(0, i), space) + sizes[i].2.1
                + space <= column_cursor(sizes, space),
    decreases sizes.len(),
{
    if sizes.len() > 0 {
        let d = sizes.drop_last();
        lemma_column(d, space, x);
        assert forall|i: int| 0 <= i < sizes.len() implies #[trigger] sizes[i].2.0 <= column_width(
            sizes,
        ) by {
            if i < sizes.len() - 1 {
                assert(d[i] == sizes[i]);
            }
        }
        assert forall|i: int|
            0 <= i < sizes.len() implies column_cursor(sizes.subrange(0, i), space)
            + sizes[i].2.1 + space <= column_cursor(sizes, space) by {
            if i < sizes.len() - 1 {
                assert(d[i] == sizes[i]);
                assert(d.subrange(0, i) =~= sizes.subrange(0, i));
            } else {
                assert(sizes.subrange(0, i) =~= d);
            }
        }
    }
}

/// Puts the blocks of one column into `map`, top down from `cursor`.
fn put_column(
    map: &mut Vec<(String, ElementCoor)>,
    sizes: &Vec<FormSize>,
    x: u32,
    space: u32,
    cursor: u32,
) -> (res: u32)
    requires
        keys_distinct(entries(old(map)@)),
        space <= GRID_LIMIT,
        x <= 2 * GRID_LIMIT + 1,
        cursor == 0,
        column_fits(form_sizes(sizes@), space as int),
    ensures
        keys_distinct(entries(final(map)@)),
        entries(final(map)@) == put_all(
            entries(old(map)@),
            column(form_sizes(sizes@), x as int, space as int),
            0,
            0,
        ),
        res == column_cursor(form_sizes(sizes@), space as int),
{
    let ghost sz = form_sizes(sizes@);
    proof {
        lemma_column(sz, space as int, x as int);
    }
    let mut cursor_by_y = cursor;
    let mut i: usize = 0;
    while i < sizes.len()
        invariant
            0 <= i <= sizes.len(),
            sz == form_sizes(sizes@),
            column_fits(sz, space as int),
            column(sz, x as int, space as int).len() == sz.len(),
            forall|j: int|
                0 <= j < sz.len() ==> column_cursor(sz.subrange(0, j), space as int)
                    + sz[j].2.1 + space <= column_cursor(sz, space as int),
            space <= GRID_LIMIT,
            x <= 2 * GRID_LIMIT + 1,
            keys_distinct(entries(map@)),
            cursor_by_y == column_cursor(sz.subrange(0, i as int), space as int),
            entries(map@) == put_all(
                entries(old(map)@),
                column(sz.subrange(0, i as int), x as int, space as int),
                0,
                0,
            ),
        decreases sizes.len() - i,
    {
        let (id, ty, (w, h)) = &sizes[i];
        assert(sz[i as int] == (id@, *ty, (*w, *h)));
        assert(1 <= *w <= GRID_LIMIT && 1 <= *h <= GRID_LIMIT);
        let area = (x, cursor_by_y, x + (*w - 1), cursor_by_y + (*h - 1));
        let ghost sub = sz.subrange(0, i + 1);
        proof {
            assert(sub.drop_last() =~= sz.subrange(0, i as int));
            assert(sub.last() == sz[i as int]);
            let c = column(sub, x as int, space as int);
            lemma_column(sub, space as int, x as int);
            assert(c.drop_last() =~= column(sz.subrange(0, i as int), x as int, space as int));
            assert(c.last() == (id@, (*ty, area)));
            assert(shift(c.last().1, 0, 0) == c.last().1);
        }
        map_insert(map, id.clone(), (*ty, area));
        cursor_by_y = cursor_by_y + *h + space;
        i = i + 1;
    }
    assert(sz.subrange(0, sizes.len() as int) =~= sz);
    cursor_by_y
}

/// The sizes as their text views.
pub open spec fn form_sizes(v: Seq<FormSize>) -> Seq<(Seq<char>, ElementType, (u32, u32))> {
    v.map_values(|f: FormSize| (f.0@, f.1, f.2))
}

/// The widest block of the sizes.
fn widest(sizes: &Vec<FormSize>) -> (res: u32)
    ensures
        res == column_width(form_sizes(sizes@)),
{
    let ghost sz = form_sizes(sizes@);
    let mut w: u32 = 0;
    let mut i: usize = 0;
    while i < sizes.len()
        invariant
            0 <= i <= sizes.len(),
            sz == form_sizes(sizes@),
            w == column_width(sz.subrange(0, i as int)),
        decreases sizes.len() - i,
    {
        let ghost sub = sz.subrange(0, i + 1);
        assert(sub.drop_last() =~= sz.subrange(0, i as int));
        assert(sub.last() == sz[i as int]);
        if w < sizes[i].2.0 {
            w = sizes[i].2.0;
        }
        i = i + 1;
    }
    assert(sz.subrange(0, sizes.len() as int) =~= sz);
    w
}

/// The id, kind and cells of each form; fails on the first form that is not on the grid.
pub fn get_sizes(forms: Vec<&Form>) -> (res: Result<Vec<FormSize>, E>)
    ensures
        match res {
            Ok(v) => all_grid_forms(forms@) && form_sizes(v@) == sizes_of(forms@),
            Err(e) => !all_grid_forms(forms@) && e == E::NotGridForm,
        },
{
    let mut data: Vec<FormSize> = Vec::new();
    let mut i: usize = 0;
    while i < forms.len()
        invariant
            0 <= i <= forms.len(),
            data@.len() == i,
            forall|j: int| 0 <= j < i ==> #[trigger] forms@[j].grid_cells() is Some,
            form_sizes(data@) =~= sizes_of(forms@).subrange(0, i as int),
        decreases forms.len() - i,
    {
        let form = forms[i];
        let cells = match form.cells() {
            Ok(c) => c,
            Err(e) => {
                assert(!(forms@[i as int].grid_cells() is Some));
                return Err(e);
            },
        };
        data.push((form.id(), *form.get_el_ty(), cells));
        i = i + 1;
    }
    Ok(data)
}

proof fn lemma_column_width_bound(sizes: Seq<(Seq<char>, ElementType, (u32, u32))>)
    requires
        forall|i: int| 0 <= i < sizes.len() ==> #[trigger] sizes[i].2.0 <= GRID_LIMIT,
    ensures
        0 <= column_width(sizes) <= GRID_LIMIT,
    decreases sizes.len(),
{
    if sizes.len() > 0 {
        let d = sizes.drop_last();
        assert forall|i: int| 0 <= i < d.len() implies #[trigger] d[i].2.0 <= GRID_LIMIT by {
            assert(d[i] == sizes[i]);
        }
        lemma_column_width_bound(d);
        assert(sizes[sizes.len() - 1].2.0 <= GRID_LIMIT);
    }
}

#[derive(Debug)]
pub struct Grid {
    pub options: GridOptions,
    /// Total grid size (in cells)
    pub size: (u32, u32),
    /// Cells map: entity id and the area it occupies `(x, y, x1, y1)`.
    pub map: Vec<(String, ElementCoor)>,
    pub id: Option<usize>,
    pub cell: u32,
    pub ratio: Ratio,
}

impl Grid {
    /// The map holds each key once.
    pub open spec fn wf(&self) -> bool {
        keys_distinct(entries(self.map@))
    }

    /// The entries of the map.
    pub open spec fn cells(&self) -> Seq<(Seq<char>, ElementCoor)> {
        entries(self.map@)
    }

    /// The key under which the grid's own element is stored.
    pub open spec fn self_key(&self) -> Seq<char> {
        decimal(
            match self.id {
                Some(i) => i as nat,
                None => 0,
            },
        )
    }

    /// Sizes, paddings, spaces and coordinates are small enough to place grids.
    pub open spec fn bounded(&self) -> bool {
        &&& self.size.0 <= GRID_LIMIT
        &&& self.size.1 <= GRID_LIMIT
        &&& self.options.hpadding <= GRID_LIMIT
        &&& self.options.vpadding <= GRID_LIMIT
        &&& self.options.cells_space_horizontal <= GRID_LIMIT
        &&& self.options.cells_space_vertical <= GRID_LIMIT
        &&& areas_within(self.cells(), GRID_LIMIT as int)
    }

    /// The point is inside the padded grid of size `s` and in no element but the grid's own.
    pub open spec fn point_free_at(&self, s: (u32, u32), p: (u32, u32)) -> bool {
        point_free(self.cells(), self.options, self.self_key(), s, p)
    }

    /// The area fits in the padded grid of size `s` and, with its spaces, meets no element.
    pub open spec fn block_free_at(&self, s: (u32, u32), t: (u32, u32, u32, u32)) -> bool {
        block_free(self.cells(), self.options, s, t)
    }

    /// No corner in a grid of size `s` takes a block of `g` cells.
    pub open spec fn no_spot_at(&self, s: (u32, u32), g: (u32, u32)) -> bool {
        no_spot(self.cells(), self.options, self.self_key(), s, g)
    }

    /// `p` is the first corner, row by row, that takes a block of `g` cells.
    pub open spec fn first_spot_at(&self, s: (u32, u32), g: (u32, u32), p: (u32, u32)) -> bool {
        first_spot(self.cells(), self.options, self.self_key(), s, g, p)
    }

    /// The size a placement starts from: both grids fit and the paddings too.
    pub open spec fn start_size(&self, g: (u32, u32)) -> (u32, u32) {
        (
            max3(self.size.0 as int, g.0 as int, self.options.hpadding * 2) as u32,
            max3(self.size.1 as int, g.1 as int, self.options.vpadding * 2) as u32,
        )
    }

    /// The size once the unused space right and below the elements is cut.
    pub open spec fn cut_size(&self, s: (u32, u32)) -> (u32, u32) {
        (
            min2(max_x1(self.cells()) + self.options.hpadding + 1, s.0 as int) as u32,
            min2(max_y1(self.cells()) + self.options.vpadding + 1, s.1 as int) as u32,
        )
    }

    /// A column right of every element that a block of `g` cells can take.
    pub open spec fn free_column(&self) -> int {
        self.options.hpadding + max_x1(self.cells()) + self.options.cells_space_horizontal + 1
    }

    /// How far the size `s` is from one that surely takes a block of `g` cells.
    pub open spec fn distance(&self, s: (u32, u32), g: (u32, u32)) -> int {
        let x = self.free_column() + g.0 + self.options.hpadding;
        let y = self.options.vpadding * 2 + g.1;
        (if s.0 < x {
            x - s.0
        } else {
            0
        }) + (if s.1 < y {
            y - s.1
        } else {
            0
        })
    }

    /// A grid of two columns: the forms of `a` on the left, those of `b` on the right.
    pub fn forms_as_pair(a: Vec<&Form>, b: Vec<&Form>, options: &GridOptions, ratio: Ratio) -> (res:
        Result<Self, E>)
        requires
            options.cells_space_vertical <= GRID_LIMIT,
            options.cells_space_horizontal <= GRID_LIMIT,
            all_grid_forms(a@) ==> column_fits(sizes_of(a@), options.cells_space_vertical as int),
            all_grid_forms(b@) ==> column_fits(sizes_of(b@), options.cells_space_vertical as int),
        ensures
            match res {
                Ok(g) => {
                    &&& all_grid_forms(a@) && all_grid_forms(b@)
                    &&& g.wf()
                    &&& g.cells() == put_all(
                        put_all(
                            seq![],
                            column(sizes_of(a@), 0, options.cells_space_vertical as int),
                            0,
                            0,
                        ),
                        column(
                            sizes_of(b@),
                            (if a@.len() == 0 {
                                0
                            } else {
                                column_width(sizes_of(a@)) + options.cells_space_horizontal
                            }),
                            options.cells_space_vertical as int,
                        ),
                        0,
                        0,
                    )
                    &&& g.size.0 == pair_size(sizes_of(a@), sizes_of(b@), *options).0
                    &&& g.size.1 == pair_size(sizes_of(a@), sizes_of(b@), *options).1
                    &&& g.options == (GridOptions { vpadding: 0, hpadding: 0, ..*options })
                    &&& g.id.is_none()
                    &&& g.cell == CELL * ratio.ratio
                    &&& g.ratio == ratio
                },
                Err(e) => {
                    &&& !(all_grid_forms(a@) && all_grid_forms(b@))
                    &&& e == E::NotGridForm
                },
            },
    {
        let on_left = match get_sizes(a) {
            Ok(v) => v,
            Err(e) => return Err(e),
        };
        let on_right = match get_sizes(b) {
            Ok(v) => v,
            Err(e) => return Err(e),
        };
        let sv = options.cells_space_vertical;
        let ghost ls = form_sizes(on_left@);
        let ghost rs = form_sizes(on_right@);
        proof {
            lemma_column(ls, sv as int, 0);
            lemma_column_width_bound(ls);
            lemma_column_width_bound(rs);
        }
        let mut map: Vec<(String, ElementCoor)> = Vec::new();
        assert(entries(map@) =~= seq![]);
        let mut size: (u32, u32) = (0, 0);
        if on_left.len() > 0 {
            let cursor_by_y = put_column(&mut map, &on_left, 0, sv, 0);
            size.0 = widest(&on_left);
            size.1 = cursor_by_y - sv;
            if on_right.len() > 0 {
                size.0 = size.0 + options.cells_space_horizontal;
            }
        }
        assert(size.0 <= 2 * GRID_LIMIT + 1) by {
            if on_left.len() > 0 {
                assert(ls[0].2.0 <= GRID_LIMIT);
                lemma_column_width_bound(ls);
            }
        }
        if on_right.len() > 0 {
            proof {
                lemma_column(rs, sv as int, size.0 as int);
                lemma_column_width_bound(rs);
            }
            let cursor_by_y = put_column(&mut map, &on_right, size.0, sv, 0);
            let max_w = widest(&on_right);
            size.1 = if cursor_by_y - sv > size.1 {
                cursor_by_y - sv
            } else {
                size.1
            };
            size.0 = size.0 + max_w;
        }
        let ghost left_map = put_all(seq![], column(ls, 0, sv as int), 0, 0);
        assert(on_left.len() == 0 ==> column(ls, 0, sv as int) =~= seq![]);
        assert(on_right.len() == 0 ==> column(rs, 0, sv as int) =~= seq![]);
        let mut opts = *options;
        opts.vpadding = 0;
        opts.hpadding = 0;
        Ok(Grid { options: opts, size, map, id: None, cell: ratio.get(CELL), ratio })
    }

    pub fn new(options: &GridOptions, ratio: Ratio) -> (res: Self)
        requires
            options.hpadding * 2 <= u32::MAX,
            options.vpadding * 2 <= u32::MAX,
        ensures
            res.options == *options,
            res.size.0 == options.hpadding * 2,
            res.size.1 == options.vpadding * 2,
            res.map@.len() == 0,
            res.id.is_none(),
            res.cell == CELL * ratio.ratio,
            res.ratio == ratio,
            res.wf(),
    {
        Grid {
            options: *options,
            size: (options.hpadding * 2, options.vpadding * 2),
            map: Vec::new(),
            id: None,
            cell: ratio.get(CELL),
            ratio,
        }
    }

    /// Grows the height so that it covers at least `height_px` pixels; gives the height in pixels.
    pub fn set_min_height(&mut self, height_px: u32) -> (res: u32)
        requires
            old(self).cell > 0,
            old(self).size.1 * old(self).cell <= u32::MAX,
            ceil_div(height_px as int, old(self).cell as int) * old(self).cell <= u32::MAX,
        ensures
            final(self).size.1 == (if old(self).size.1 * old(self).cell < height_px {
                ceil_div(height_px as int, old(self).cell as int)
            } else {
                old(self).size.1 as int
            }),
            final(self).size.0 == old(self).size.0,
            final(self).map == old(self).map,
            final(self).options == old(self).options,
            final(self).id == old(self).id,
            final(self).cell == old(self).cell,
            final(self).ratio == old(self).ratio,
            res == final(self).size.1 * final(self).cell,
    {
        if self.size.1 * self.cell < height_px {
            assert(ceil_div(height_px as int, self.cell as int) <= u32::MAX) by (nonlinear_arith)
                requires
                    self.cell > 0,
                    height_px <= u32::MAX,
            ;
            self.size.1 = ((height_px as u64 + self.cell as u64 - 1) / self.cell as u64) as u32;
        }
        self.size.1 * self.cell
    }

    /// Stores the grid's own element, covering the whole grid.
    pub fn insert_self(&mut self, id: usize, ty: ElementType)
        requires
            old(self).wf(),
            old(self).size.0 <= i32::MAX,
            old(self).size.1 <= i32::MAX,
        ensures
            final(self).wf(),
            final(self).id == Some(id),
            final(self).cells() == put(
                old(self).cells(),
                decimal(id as nat),
                (
                    ty,
                    (
                        0,
                        0,
                        (if old(self).size.0 == 0 { 0 } else { old(self).size.0 - 1 }) as u32,
                        (if old(self).size.1 == 0 { 0 } else { old(self).size.1 - 1 }) as u32,
                    ),
                ),
            ),
            final(self).size == old(self).size,
            final(self).options == old(self).options,
            final(self).cell == old(self).cell,
            final(self).ratio == old(self).ratio,
    {
        self.id = Some(id);
        let area = (0, 0, as_u32(self.size.0 as i32 - 1), as_u32(self.size.1 as i32 - 1));
        map_insert(&mut self.map, usize_to_string(id), (ty, area));
    }

    /// The coordinates, in pixels, of the element with id `target`; `(0, 0)` when it is not there.
    pub fn relative(&self, target: usize) -> (res: (i32, i32))
        requires
            self.wf(),
            pixels_fit(self.cells(), self.cell),
        ensures
            has_key(self.cells(), decimal(target as nat)) ==> exists|i: int|
                0 <= i < self.cells().len() && self.cells()[i].0 == decimal(target as nat)
                    && res.0 == (self.cells()[i].1.1.0 * self.cell) as i32 && res.1 == (
                self.cells()[i].1.1.1 * self.cell) as i32,
            !has_key(self.cells(), decimal(target as nat)) ==> res == (0i32, 0i32),
    {
        let key = usize_to_string(target);
        let mut i: usize = 0;
        while i < self.map.len()
            invariant
                0 <= i <= self.map.len(),
                key@ == decimal(target as nat),
                forall|j: int| 0 <= j < i ==> #[trigger] self.cells()[j].0 != key@,
                pixels_fit(self.cells(), self.cell),
            decreases self.map.len() - i,
        {
            if self.map[i].0 == key {
                let (_, (x, y, _, _)) = self.map[i].1;
                assert(self.cells()[i as int].1.1.0 * self.cell <= u32::MAX);
                return ((x * self.cell) as i32, (y * self.cell) as i32);
            }
            i = i + 1;
        }
        (0, 0)
    }

    fn is_block_free(&self, target: (u32, u32, u32, u32)) -> (res: bool)
        requires
            self.size.0 >= self.options.hpadding,
            self.size.1 >= self.options.vpadding,
            target.2 + self.options.cells_space_horizontal <= u32::MAX,
            target.3 + self.options.cells_space_vertical <= u32::MAX,
        ensures
            res == self.block_free_at(self.size, target),
    {
        let (mut x, mut y, mut x1, mut y1) = target;
        // Check space
        if self.size.0 - self.options.hpadding < x1 || self.size.1 - self.options.vpadding < y1 {
            return false;
        }
        // Extend box to consider necessary spaces
        x = if x > self.options.cells_space_horizontal {
            x - self.options.cells_space_horizontal
        } else {
            0
        };
        y = if y > self.options.cells_space_vertical {
            y - self.options.cells_space_vertical
        } else {
            0
        };
        x1 = x1 + self.options.cells_space_horizontal;
        y1 = y1 + self.options.cells_space_vertical;
        let extd_target = (x, y, x1, y1);
        assert(extd_target == extended(self.options, target));
        // Check crossing
        let mut i: usize = 0;
        while i < self.map.len()
            invariant
                0 <= i <= self.map.len(),
                extd_target == extended(self.options, target),
                forall|j: int| 0 <= j < i ==> !areas_cross(extd_target, #[trigger] self.cells()[j].1.1),
            decreases self.map.len() - i,
        {
            let area = self.map[i].1.1;
            if is_area_cross(&extd_target, &area) {
                assert(self.cells()[i as int].1.1 == area);
                return false;
            }
            i = i + 1;
        }
        true
    }

    fn is_point_free(&self, point: &(u32, u32)) -> (res: bool)
        requires
            self.size.0 + self.options.hpadding * 2 <= u32::MAX,
            self.size.1 + self.options.vpadding * 2 <= u32::MAX,
        ensures
            res == self.point_free_at(self.size, *point),
    {
        if point.0 < self.options.hpadding || point.0 > self.size.0 + self.options.hpadding * 2
            || point.1 < self.options.vpadding || point.1 > self.size.1 + self.options.vpadding
            * 2 {
            return false;
        }
        let self_id = usize_to_string(
            match self.id {
                Some(v) => v,
                None => 0,
            },
        );
        let mut i: usize = 0;
        while i < self.map.len()
            invariant
                0 <= i <= self.map.len(),
                self_id@ == self.self_key(),
                forall|j: int|
                    0 <= j < i && #[trigger] self.cells()[j].0 != self.self_key() ==> !point_in(
                        *point,
                        self.cells()[j].1.1,
                    ),
            decreases self.map.len() - i,
        {
            let same = self_id == self.map[i].0;
            if !same && is_point_in(point, &self.map[i].1.1) {
                assert(self.cells()[i as int].0 == self.map[i as int].0@);
                return false;
            }
            i = i + 1;
        }
        true
    }

    /// The first corner, row by row, where a block of `g` cells fits in the current size.
    fn find_spot(&self, g: (u32, u32)) -> (res: Option<(u32, u32)>)
        requires
            self.size.0 <= GRID_HIGH,
            self.size.1 <= GRID_HIGH,
            self.size.0 >= self.options.hpadding,
            self.size.1 >= self.options.vpadding,
            self.options.hpadding <= GRID_LIMIT,
            self.options.vpadding <= GRID_LIMIT,
            self.options.cells_space_horizontal <= GRID_LIMIT,
            self.options.cells_space_vertical <= GRID_LIMIT,
            1 <= g.0 <= GRID_LIMIT,
            1 <= g.1 <= GRID_LIMIT,
        ensures
            match res {
                Some(p) => self.first_spot_at(self.size, g, p),
                None => self.no_spot_at(self.size, g),
            },
    {
        let mut y: u32 = 0;
        while y < self.size.1
            invariant
                y <= self.size.1,
                self.size.0 <= GRID_HIGH,
                self.size.1 <= GRID_HIGH,
                self.size.0 >= self.options.hpadding,
                self.size.1 >= self.options.vpadding,
                self.options.hpadding <= GRID_LIMIT,
                self.options.vpadding <= GRID_LIMIT,
                self.options.cells_space_horizontal <= GRID_LIMIT,
                self.options.cells_space_vertical <= GRID_LIMIT,
                1 <= g.0 <= GRID_LIMIT,
                1 <= g.1 <= GRID_LIMIT,
                forall|xx: u32, yy: u32|
                    yy < y && xx < self.size.0 ==> !#[trigger] spot(
                        self.cells(),
                        self.options,
                        self.self_key(),
                        self.size,
                        g,
                        xx,
                        yy,
                    ),
            decreases self.size.1 - y,
        {
            let mut x: u32 = 0;
            while x < self.size.0
                invariant
                    x <= self.size.0,
                    y < self.size.1,
                    self.size.0 <= GRID_HIGH,
                    self.size.1 <= GRID_HIGH,
                    self.size.0 >= self.options.hpadding,
                    self.size.1 >= self.options.vpadding,
                    self.options.hpadding <= GRID_LIMIT,
                    self.options.vpadding <= GRID_LIMIT,
                    self.options.cells_space_horizontal <= GRID_LIMIT,
                    self.options.cells_space_vertical <= GRID_LIMIT,
                    1 <= g.0 <= GRID_LIMIT,
                    1 <= g.1 <= GRID_LIMIT,
                    forall|xx: u32, yy: u32|
                        (yy < y && xx < self.size.0) || (yy == y && xx < x) ==> !#[trigger] spot(
                            self.cells(),
                            self.options,
                            self.self_key(),
                            self.size,
                            g,
                            xx,
                            yy,
                        ),
                decreases self.size.0 - x,
            {
                if self.is_point_free(&(x, y)) {
                    if self.is_block_free((x, y, x + g.0 - 1, y + g.1 - 1)) {
                        return Some((x, y));
                    }
                }
                x = x + 1;
            }
            y = y + 1;
        }
        None
    }

    /// Cuts the space right of and below the elements, keeping the paddings.
    pub fn cut_unused_space(&mut self)
        ensures
            final(self).size == old(self).cut_size(old(self).size),
            final(self).map == old(self).map,
            final(self).options == old(self).options,
            final(self).id == old(self).id,
            final(self).cell == old(self).cell,
            final(self).ratio == old(self).ratio,
    {
        let mut max_x: u32 = 0;
        let mut max_y: u32 = 0;
        let mut i: usize = 0;
        while i < self.map.len()
            invariant
                0 <= i <= self.map.len(),
                max_x == max_x1(self.cells().subrange(0, i as int)),
                max_y == max_y1(self.cells().subrange(0, i as int)),
            decreases self.map.len() - i,
        {
            let ghost sub = self.cells().subrange(0, i + 1);
            assert(sub.drop_last() =~= self.cells().subrange(0, i as int));
            assert(sub.last() == self.cells()[i as int]);
            let (_, (_, _, x1, y1)) = self.map[i].1;
            if x1 > max_x {
                max_x = x1;
            }
            if y1 > max_y {
                max_y = y1;
            }
            i = i + 1;
        }
        assert(self.cells().subrange(0, self.map.len() as int) =~= self.cells());
        let wide: u64 = max_x as u64 + self.options.hpadding as u64 + 1;
        let high: u64 = max_y as u64 + self.options.vpadding as u64 + 1;
        self.size = (
            if wide < self.size.0 as u64 {
                wide as u32
            } else {
                self.size.0
            },
            if high < self.size.1 as u64 {
                high as u32
            } else {
                self.size.1
            },
        );
    }

    /// The size after one growth step.
    fn grown(s: (u32, u32)) -> (res: (u32, u32))
        requires
            1 <= s.0,
            1 <= s.1,
            s.0 + s.1 + 4 <= u32::MAX,
        ensures
            res == grow(s),
    {
        proof {
            lemma_grow(s);
            if s.0 < s.1 {
                lemma_ceil_step(s.0 as int, s.1 as int);
            } else if s.1 < s.0 {
                lemma_ceil_step(s.1 as int, s.0 as int);
            }
        }
        if s.0 < s.1 {
            let s1 = s.1 + 1;
            assert((s1 + s.0 - 1) as int / s.0 as int == ceil_div(s.1 + 1, s.0 as int));
            (s.0 + (s1 + s.0 - 1) / s.0, s1)
        } else if s.1 < s.0 {
            let s0 = s.0 + 1;
            assert((s0 + s.1 - 1) as int / s.1 as int == ceil_div(s.0 + 1, s.1 as int));
            (s0, s.1 + (s0 + s.1 - 1) / s.1)
        } else {
            (s.0 + 1, s.1 + 1)
        }
    }

    /// Places the elements of `grid` at the first free corner, row by row, growing this grid
    /// until one is free; then cuts the unused space.
    pub fn insert(&mut self, grid: &Grid)
        requires
            old(self).wf(),
            grid.wf(),
            old(self).bounded(),
            grid.bounded(),
            1 <= grid.size.0,
            1 <= grid.size.1,
        ensures
            final(self).wf(),
            exists|n: nat, p: (u32, u32)|
                #![trigger old(self).first_spot_at(grow_n(old(self).start_size(grid.size), n), grid.size, p)]
                {
                    &&& forall|k: nat|
                        k < n ==> old(self).no_spot_at(
                            #[trigger] grow_n(old(self).start_size(grid.size), k),
                            grid.size,
                        )
                    &&& old(self).first_spot_at(
                        grow_n(old(self).start_size(grid.size), n),
                        grid.size,
                        p,
                    )
                    &&& final(self).cells() == put_all(
                        old(self).cells(),
                        grid.cells(),
                        p.0 as int,
                        p.1 as int,
                    )
                    &&& final(self).size == final(self).cut_size(
                        grow_n(old(self).start_size(grid.size), n),
                    )
                },
            final(self).options == old(self).options,
            final(self).id == old(self).id,
            final(self).cell == old(self).cell,
            final(self).ratio == old(self).ratio,
            final(self).size.0 <= GRID_HIGH,
            final(self).size.1 <= GRID_HIGH,
            areas_within(final(self).cells(), GRID_HIGH as int),
    {
        let g = grid.size;
        let ghost cells = self.cells();
        let ghost key = self.self_key();
        let ghost o = self.options;
        self.size = (
            max(&[self.size.0, grid.size.0], self.options.hpadding * 2),
            max(&[self.size.1, grid.size.1], self.options.vpadding * 2),
        );
        let ghost s0 = self.size;
        assert(s0 == old(self).start_size(g));
        let ghost d0 = self.distance(s0, g);
        let ghost m0 = max2(s0.0 as int, s0.1 as int);
        proof {
            lemma_max_edges(cells, GRID_LIMIT as int);
        }
        let ghost mut n: nat = 0;
        let mut point: (u32, u32) = (0, 0);
        loop
            invariant_except_break
                self.cells() == cells,
                self.options == o,
                self.self_key() == key,
                self.map == old(self).map,
                self.id == old(self).id,
                self.cell == old(self).cell,
                self.ratio == old(self).ratio,
                o == old(self).options,
                cells == old(self).cells(),
                key == old(self).self_key(),
                areas_within(cells, GRID_LIMIT as int),
                0 <= max_x1(cells) <= GRID_LIMIT,
                o.hpadding <= GRID_LIMIT,
                o.vpadding <= GRID_LIMIT,
                o.cells_space_horizontal <= GRID_LIMIT,
                o.cells_space_vertical <= GRID_LIMIT,
                1 <= g.0 <= GRID_LIMIT,
                1 <= g.1 <= GRID_LIMIT,
                g == grid.size,
                s0 == old(self).start_size(g),
                m0 <= 2 * GRID_LIMIT,
                d0 == self.distance(s0, g),
                self.size == grow_n(s0, n),
                1 <= self.size.0,
                1 <= self.size.1,
                self.size.0 >= o.hpadding * 2,
                self.size.1 >= o.vpadding * 2,
                max2(self.size.0 as int, self.size.1 as int) + 2 * self.distance(self.size, g) <= m0
                    + 2 * d0,
                forall|k: nat| k < n ==> no_spot(cells, o, key, #[trigger] grow_n(s0, k), g),
            ensures
                self.cells() == cells,
                self.map == old(self).map,
                self.id == old(self).id,
                self.cell == old(self).cell,
                self.ratio == old(self).ratio,
                self.options == o,
                self.self_key() == key,
                self.size == grow_n(s0, n),
                forall|k: nat| k < n ==> no_spot(cells, o, key, #[trigger] grow_n(s0, k), g),
                first_spot(cells, o, key, self.size, g, point),
                self.size.0 <= 18 * GRID_LIMIT + 2,
                self.size.1 <= 18 * GRID_LIMIT + 2,
            decreases self.distance(self.size, g),
        {
            assert(self.distance(s0, g) <= 8 * GRID_LIMIT + 1);
            match self.find_spot(g) {
                Some(p) => {
                    point = p;
                    break ;
                },
                None => {},
            }
            let ghost s = self.size;
            proof {
                if self.distance(s, g) == 0 {
                    lemma_free_column(cells, o, key, s, g);
                    let px = (o.hpadding + max_x1(cells) + o.cells_space_horizontal + 1) as u32;
                    assert(spot(cells, o, key, s, g, px, o.vpadding));
                    assert(false);
                }
                lemma_grow(s);
            }
            self.size = Self::grown(self.size);
            proof {
                assert(grow_n(s0, n + 1) == grow(grow_n(s0, n)));
                assert forall|k: nat| k < n + 1 implies no_spot(
                    cells,
                    o,
                    key,
                    #[trigger] grow_n(s0, k),
                    g,
                ) by {
                    if k == n {
                        assert(grow_n(s0, k) == s);
                    }
                }
                n = n + 1;
            }
        }
        // Merge grid
        let ghost others = grid.cells();
        let ghost high = 19 * GRID_LIMIT + 2;
        let (p_x, p_y) = point;
        let ghost placed = self.size;
        let mut i: usize = 0;
        proof {
            lemma_within_weaken(cells, GRID_LIMIT as int, high);
        }
        while i < grid.map.len()
            invariant
                0 <= i <= grid.map.len(),
                others == grid.cells(),
                grid.bounded(),
                p_x < self.size.0 <= 18 * GRID_LIMIT + 2,
                p_y < self.size.1 <= 18 * GRID_LIMIT + 2,
                self.cells() == put_all(cells, others.subrange(0, i as int), p_x as int, p_y as int),
                keys_distinct(self.cells()),
                areas_within(self.cells(), high),
                high == 19 * GRID_LIMIT + 2,
                self.size == placed,
                self.options == o,
                o == old(self).options,
                self.id == old(self).id,
                self.cell == old(self).cell,
                self.ratio == old(self).ratio,
                o.hpadding <= GRID_LIMIT,
                o.vpadding <= GRID_LIMIT,
            decreases grid.map.len() - i,
        {
            let (ty, (x, y, x1, y1)) = grid.map[i].1;
            assert(others[i as int].1.1.0 <= GRID_LIMIT);
            let ghost before = self.cells();
            let moved = (ty, (x + p_x, y + p_y, x1 + p_x, y1 + p_y));
            proof {
                lemma_put_within(before, grid.map[i as int].0@, moved, high);
            }
            map_insert(&mut self.map, grid.map[i].0.clone(), moved);
            proof {
                let sub = others.subrange(0, i + 1);
                assert(sub.drop_last() =~= others.subrange(0, i as int));
                assert(sub.last() == others[i as int]);
                assert(shift(others[i as int].1, p_x as int, p_y as int) == moved);
            }
            i = i + 1;
        }
        assert(others.subrange(0, grid.map.len() as int) =~= others);
        let ghost pre_cut = self.size;
        proof {
            lemma_within_weaken(self.cells(), high, GRID_HIGH as int);
        }
        // Remove unused space
        self.cut_unused_space();
        assert(self.size == self.cut_size(pre_cut));
        assert(grow_n(old(self).start_size(grid.size), n) == pre_cut);
        assert(old(self).first_spot_at(pre_cut, grid.size, point));
    }

    pub fn as_px(&self, cells: u32) -> (res: i32)
        requires
            self.cell * cells <= i32::MAX,
        ensures
            res == self.cell * cells,
    {
        (self.cell * cells) as i32
    }

    pub fn get_size_px(&self) -> (res: (u32, u32))
        requires
            self.size.0 * self.cell <= u32::MAX,
            self.size.1 * self.cell <= u32::MAX,
        ensures
            res == ((self.size.0 * self.cell) as u32, (self.size.1 * self.cell) as u32),
    {
        (self.size.0 * self.cell, self.size.1 * self.cell)
    }

    pub fn get_size_invert_px(&self) -> (res: (u32, u32))
        requires
            self.size.0 * self.cell <= u32::MAX,
            self.size.1 * self.cell <= u32::MAX,
            self.ratio.ratio > 0,
        ensures
            res.0 == (self.size.0 * self.cell) / (self.ratio.ratio as int),
            res.1 == (self.size.1 * self.cell) / (self.ratio.ratio as int),
    {
        (self.ratio.invert(self.size.0 * self.cell), self.ratio.invert(self.size.1 * self.cell))
    }
}

/// Maps `key` to `value` in the entries: an entry with that key is replaced, otherwise one is added.
fn map_insert(map: &mut Vec<(String, ElementCoor)>, key: String, value: ElementCoor)
    requires
        keys_distinct(entries(old(map)@)),
    ensures
        entries(final(map)@) == put(entries(old(map)@), key@, value),
        keys_distinct(entries(final(map)@)),
{
    let ghost e = entries(map@);
    let mut i: usize = 0;
    while i < map.len()
        invariant
            0 <= i <= map.len(),
            e == entries(map@),
            e == entries(old(map)@),
            keys_distinct(e),
            forall|j: int| 0 <= j < i ==> #[trigger] e[j].0 != key@,
        decreases map.len() - i,
    {
        if map[i].0 == key {
            assert(e[i as int].0 == key@);
            assert(has_key(e, key@));
            let ghost c = choose|c: int| 0 <= c < e.len() && e[c].0 == key@;
            assert(c == i);
            assert(put(e, key@, value) == e.update(i as int, (key@, value)));
            map.set(i, (key, value));
            assert(entries(map@) =~= e.update(i as int, (key@, value)));
            return;
        }
        i = i + 1;
    }
    assert(!has_key(e, key@));
    map.push((key, value));
    assert(entries(map@) =~= e.push((key@, value)));
}

pub proof fn lemma_put_keys(e: Seq<(Seq<char>, ElementCoor)>, k: Seq<char>, v: ElementCoor, q: Seq<char>)
    ensures
        has_key(put(e, k, v), q) <==> has_key(e, q) || q == k,
{
    let r = put(e, k, v);
    if has_key(e, k) {
        assert(r.len() == e.len());
        assert forall|j: int| 0 <= j < e.len() implies #[trigger] r[j].0 == e[j].0 by {}
        if has_key(e, q) {
            let j = choose|j: int| 0 <= j < e.len() && e[j].0 == q;
            assert(r[j].0 == q);
        }
        if has_key(r, q) {
            let j = choose|j: int| 0 <= j < r.len() && r[j].0 == q;
            assert(e[j].0 == q);
        }
    } else {
        assert(r =~= e.push((k, v)));
        assert(r[e.len() as int].0 == k);
        if has_key(e, q) {
            let j = choose|j: int| 0 <= j < e.len() && e[j].0 == q;
            assert(r[j].0 == q);
        }
        if has_key(r, q) {
            let j = choose|j: int| 0 <= j < r.len() && r[j].0 == q;
            if j < e.len() {
                assert(e[j].0 == q);
            }
        }
    }
}

/// The keys of a column are those of its blocks.
pub proof fn lemma_column_keys(
    sizes: Seq<(Seq<char>, ElementType, (u32, u32))>,
    x: int,
    space: int,
    q: Seq<char>,
)
    ensures
        has_key(column(sizes, x, space), q) <==> exists|i: int| 0 <= i < sizes.len() && #[trigger] sizes[i].0 == q,
    decreases sizes.len(),
{
    if sizes.len() > 0 {
        let d = sizes.drop_last();
        lemma_column_keys(d, x, space, q);
        let c = column(sizes, x, space);
        let cd = column(d, x, space);
        assert(c.drop_last() == cd);
        if has_key(c, q) {
            let i = choose|i: int| 0 <= i < c.len() && c[i].0 == q;
            if i < cd.len() {
                assert(cd[i] == c[i]);
                let j = choose|j: int| 0 <= j < d.len() && #[trigger] d[j].0 == q;
                assert(sizes[j] == d[j]);
            } else {
                assert(sizes[sizes.len() - 1].0 == q);
            }
        }
        if exists|i: int| 0 <= i < sizes.len() && #[trigger] sizes[i].0 == q {
            let i = choose|i: int| 0 <= i < sizes.len() && #[trigger] sizes[i].0 == q;
            if i < d.len() {
                assert(d[i] == sizes[i]);
                let k = choose|k: int| 0 <= k < cd.len() && cd[k].0 == q;
                assert(c[k] == cd[k]);
            } else {
                assert(c[c.len() - 1].0 == q);
            }
        }
    }
}

/// Putting the elements of another grid in loses no element of the grid, and every element of
/// the other grid is found afterwards.
pub proof fn law_put_all_keeps_keys(
    e: Seq<(Seq<char>, ElementCoor)>,
    others: Seq<(Seq<char>, ElementCoor)>,
    dx: int,
    dy: int,
    q: Seq<char>,
)
    ensures
        has_key(put_all(e, others, dx, dy), q) <==> has_key(e, q) || has_key(others, q),
    decreases others.len(),
{
    if others.len() > 0 {
        let d = others.drop_last();
        law_put_all_keeps_keys(e, d, dx, dy, q);
        lemma_put_keys(put_all(e, d, dx, dy), others.last().0, shift(others.last().1, dx, dy), q);
        if has_key(others, q) {
            let j = choose|j: int| 0 <= j < others.len() && others[j].0 == q;
            if j < others.len() - 1 {
                assert(d[j].0 == q);
            }
        }
        if has_key(d, q) {
            let j = choose|j: int| 0 <= j < d.len() && d[j].0 == q;
            assert(others[j].0 == q);
        }
        if q == others.last().0 {
            assert(others[others.len() - 1].0 == q);
        }
    }
}

/// The elements whose key is the decimal id of one of the ids, in the grid's order.
pub open spec fn entries_with_ids(e: Seq<(Seq<char>, ElementCoor)>, ids: Seq<usize>) -> Seq<
    (usize, ElementType, (u32, u32, u32, u32)),
>
    decreases e.len(),
{
    if e.len() == 0 {
        seq![]
    } else {
        let r = entries_with_ids(e.drop_last(), ids);
        match parsed(e.last().0) {
            Some(id) => if ids.contains(id) {
                r.push((id, e.last().1.0, e.last().1.1))
            } else {
                r
            },
            None => r,
        }
    }
}

/// The elements whose area crosses the given area, in the grid's order.
pub open spec fn entries_crossing(e: Seq<(Seq<char>, ElementCoor)>, area: (u32, u32, u32, u32)) -> Seq<
    (Seq<char>, ElementType, (u32, u32, u32, u32)),
>
    decreases e.len(),
{
    if e.len() == 0 {
        seq![]
    } else {
        let r = entries_crossing(e.drop_last(), area);
        if areas_cross(area, e.last().1.1) {
            r.push((e.last().0, e.last().1.0, e.last().1.1))
        } else {
            r
        }
    }
}

impl Grid {
    /// Whether the grid stays within the limits that placing grids into one another keeps to.
    pub fn within_limits(&self) -> (res: bool)
        ensures
            res == self.bounded(),
    {
        if !(self.size.0 <= GRID_LIMIT && self.size.1 <= GRID_LIMIT && self.options.hpadding
            <= GRID_LIMIT && self.options.vpadding <= GRID_LIMIT
            && self.options.cells_space_horizontal <= GRID_LIMIT
            && self.options.cells_space_vertical <= GRID_LIMIT) {
            return false;
        }
        let mut i: usize = 0;
        while i < self.map.len()
            invariant
                0 <= i <= self.map@.len(),
                forall|j: int|
                    0 <= j < i ==> {
                        &&& #[trigger] self.cells()[j].1.1.0 <= GRID_LIMIT
                        &&& self.cells()[j].1.1.1 <= GRID_LIMIT
                        &&& self.cells()[j].1.1.2 <= GRID_LIMIT
                        &&& self.cells()[j].1.1.3 <= GRID_LIMIT
                    },
            decreases self.map@.len() - i,
        {
            let (_, (x, y, x1, y1)) = self.map[i].1;
            if !(x <= GRID_LIMIT && y <= GRID_LIMIT && x1 <= GRID_LIMIT && y1 <= GRID_LIMIT) {
                assert(!areas_within(self.cells(), GRID_LIMIT as int)) by {
                    assert(self.cells()[i as int].1 == self.map@[i as int].1);
                }
                return false;
            }
            assert(self.cells()[i as int].1 == self.map@[i as int].1);
            i = i + 1;
        }
        true
    }

    /// Whether every element's corner, in pixels, fits a `u32`.
    pub fn pixels_within(&self) -> (res: bool)
        ensures
            res == pixels_fit(self.cells(), self.cell),
    {
        let mut i: usize = 0;
        while i < self.map.len()
            invariant
                0 <= i <= self.map@.len(),
                forall|j: int|
                    0 <= j < i ==> #[trigger] self.cells()[j].1.1.0 * self.cell <= u32::MAX
                        && self.cells()[j].1.1.1 * self.cell <= u32::MAX,
            decreases self.map@.len() - i,
        {
            let (_, (x, y, _, _)) = self.map[i].1;
            assert(self.cells()[i as int].1 == self.map@[i as int].1);
            if x.checked_mul(self.cell).is_none() || y.checked_mul(self.cell).is_none() {
                return false;
            }
            i = i + 1;
        }
        true
    }

    /// The elements with one of the ids, with their kind and cells.
    pub fn entries_by_ids(&self, ids: &Vec<usize>) -> (res: Vec<(usize, ElementType, (u32, u32, u32, u32))>)
        ensures
            res@ == entries_with_ids(self.cells(), ids@),
    {
        let mut found: Vec<(usize, ElementType, (u32, u32, u32, u32))> = Vec::new();
        let mut i: usize = 0;
        assert(self.cells().subrange(0, 0) =~= Seq::<(Seq<char>, ElementCoor)>::empty());
        while i < self.map.len()
            invariant
                0 <= i <= self.map@.len(),
                found@ == entries_with_ids(self.cells().subrange(0, i as int), ids@),
            decreases self.map@.len() - i,
        {
            let ghost sub = self.cells().subrange(0, i + 1);
            assert(sub.drop_last() =~= self.cells().subrange(0, i as int));
            assert(sub.last() == self.cells()[i as int]);
            let (ty, area) = self.map[i].1;
            match parse_id(self.map[i].0.as_str()) {
                Some(id) => {
                    if holds(ids, id) {
                        found.push((id, ty, area));
                    }
                },
                None => {},
            }
            i = i + 1;
        }
        assert(self.cells().subrange(0, self.map@.len() as int) =~= self.cells());
        found
    }

    /// The elements whose cells cross the area, with their kind and cells.
    pub fn blocks_crossing(&self, area: (u32, u32, u32, u32)) -> (res: Vec<
        (String, ElementType, (u32, u32, u32, u32)),
    >)
        ensures
            res@.map_values(|x: (String, ElementType, (u32, u32, u32, u32))| (x.0@, x.1, x.2))
                == entries_crossing(self.cells(), area),
    {
        let mut found: Vec<(String, ElementType, (u32, u32, u32, u32))> = Vec::new();
        let mut i: usize = 0;
        assert(self.cells().subrange(0, 0) =~= Seq::<(Seq<char>, ElementCoor)>::empty());
        while i < self.map.len()
            invariant
                0 <= i <= self.map@.len(),
                found@.map_values(|x: (String, ElementType, (u32, u32, u32, u32))| (x.0@, x.1, x.2))
                    == entries_crossing(self.cells().subrange(0, i as int), area),
            decreases self.map@.len() - i,
        {
            let ghost sub = self.cells().subrange(0, i + 1);
            assert(sub.drop_last() =~= self.cells().subrange(0, i as int));
            assert(sub.last() == self.cells()[i as int]);
            let ghost before = found@;
            let (ty, block) = self.map[i].1;
            if is_area_cross(&area, &block) {
                found.push((self.map[i].0.clone(), ty, block));
                assert(found@.map_values(|x: (String, ElementType, (u32, u32, u32, u32))| (x.0@, x.1, x.2))
                    =~= before.map_values(|x: (String, ElementType, (u32, u32, u32, u32))| (x.0@, x.1, x.2)).push(
                    (self.map@[i as int].0@, ty, block),
                ));
            }
            i = i + 1;
        }
        assert(self.cells().subrange(0, self.map@.len() as int) =~= self.cells());
        found
    }
}

} // verus!
