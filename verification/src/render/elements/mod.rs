use vstd::prelude::*;

pub mod border;

verus! {

/// A point `(x, y)` lies in the closed area `(x, y, x1, y1)`.
pub open spec fn point_in(point: (u32, u32), area: (u32, u32, u32, u32)) -> bool {
    area.0 <= point.0 <= area.2 && area.1 <= point.1 <= area.3
}

/// Two closed areas `(x, y, x1, y1)` share at least one point.
pub open spec fn areas_cross(target: (u32, u32, u32, u32), area: (u32, u32, u32, u32)) -> bool {
    !(target.3 < area.1 || target.1 > area.3 || target.2 < area.0 || target.0 > area.2)
}

pub fn is_point_in(point: &(u32, u32), area: &(u32, u32, u32, u32)) -> (r: bool)
    ensures
        r == point_in(*point, *area),
{
    let (x, y) = *point;
    let (a_x, a_y, a_x1, a_y1) = *area;
    !(x < a_x || x > a_x1 || y < a_y || y > a_y1)
}

/// Target: (x,y,x1,y1), area: (x,y,x1,y1)
pub fn is_area_cross(target: &(u32, u32, u32, u32), area: &(u32, u32, u32, u32)) -> (r: bool)
    ensures
        r == areas_cross(*target, *area),
{
    let (ax, ay, ax1, ay1) = *area;
    let (tx, ty, tx1, ty1) = *target;
    if ty1 < ay || ty > ay1 || tx1 < ax || tx > ax1 {
        return false;
    }
    true
}

/// The greatest of the values, but at least `floor`.
pub fn max(values: &[u32], floor: u32) -> (res: u32)
    ensures
        res >= floor,
        forall|i: int| 0 <= i < values@.len() ==> values@[i] <= res,
        res == floor || exists|i: int| 0 <= i < values@.len() && values@[i] == res,
{
    let mut res = floor;
    let mut i: usize = 0;
    while i < values.len()
        invariant
            0 <= i <= values@.len(),
            res >= floor,
            forall|j: int| 0 <= j < i ==> values@[j] <= res,
            res == floor || exists|j: int| 0 <= j < values@.len() && values@[j] == res,
        decreases values@.len() - i,
    {
        if values[i] > res {
            res = values[i];
        }
        i = i + 1;
    }
    res
}

} // verus!
