use vstd::prelude::*;
use crate::direction::Direction;
use crate::shape::{coord_x, coord_y, coord_z, volume};

verus! {

/// 0 for the X axis, 1 for Y, 2 for Z.
pub open spec fn axis_of(d: Direction) -> int {
    match d {
        Direction::PosX | Direction::NegX => 0,
        Direction::PosY | Direction::NegY => 1,
        Direction::PosZ | Direction::NegZ => 2,
    }
}

/// The two axes other than `axis`, in increasing order.
pub open spec fn other_axes(axis: int) -> (int, int) {
    if axis == 0 {
        (1, 2)
    } else if axis == 1 {
        (0, 2)
    } else {
        (0, 1)
    }
}

/// A fixed coordinate on an axis of length `len`; a negative one counts back from the far end.
pub open spec fn resolve(len: int, fixed: int) -> int {
    if fixed >= 0 {
        fixed
    } else {
        len + fixed
    }
}

pub open spec fn coord(s: [usize; 3], i: int, axis: int) -> int {
    if axis == 0 {
        coord_x(s, i)
    } else if axis == 1 {
        coord_y(s, i)
    } else {
        coord_z(s, i)
    }
}

/// The fixed coordinate lies on the axis of `d`, and both ranges end inside their axes.
pub open spec fn region_ok(s: [usize; 3], d: Direction, fixed: int, ra: [usize; 2], rb: [usize; 2]) -> bool {
    let axis = axis_of(d);
    let (a, b) = other_axes(axis);
    &&& 0 <= resolve(s[axis] as int, fixed) < s[axis]
    &&& ra[1] <= s[a]
    &&& rb[1] <= s[b]
}

/// Cell `i` lies in the layer at `fixed` across the axis of `d`, within `ra`
/// and `rb` on the two other axes (half-open ranges, in increasing axis order).
pub open spec fn in_region(s: [usize; 3], d: Direction, fixed: int, ra: [usize; 2], rb: [usize; 2], i: int) -> bool {
    let axis = axis_of(d);
    let (a, b) = other_axes(axis);
    &&& coord(s, i, axis) == resolve(s[axis] as int, fixed)
    &&& ra[0] <= coord(s, i, a) < ra[1]
    &&& rb[0] <= coord(s, i, b) < rb[1]
}

/// The cells of the box that lie in the region.
pub open spec fn region_cells(s: [usize; 3], d: Direction, fixed: int, ra: [usize; 2], rb: [usize; 2]) -> Set<int> {
    Set::new(|i: int| 0 <= i < volume(s) && in_region(s, d, fixed, ra, rb, i))
}

/// `g` with every cell of the region narrowed to the tiles of `restriction`.
pub open spec fn narrowed(
    g: Seq<Seq<bool>>,
    s: [usize; 3],
    d: Direction,
    fixed: int,
    ra: [usize; 2],
    rb: [usize; 2],
    restriction: Seq<bool>,
) -> Seq<Seq<bool>> {
    Seq::new(
        g.len(),
        |i: int|
            if in_region(s, d, fixed, ra, rb, i) {
                Seq::new(g[i].len(), |t: int| g[i][t] && restriction[t])
            } else {
                g[i]
            },
    )
}

} // verus!
