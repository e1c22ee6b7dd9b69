use vstd::prelude::*;
use crate::direction::Direction;

verus! {

/// Number of cells of a `[w, h, d]` box.
pub open spec fn volume(s: [usize; 3]) -> int {
    s[0] * s[1] * s[2]
}

/// A box whose cells can be numbered by `usize`.
pub open spec fn valid_shape(s: [usize; 3]) -> bool {
    s[1] * s[2] <= usize::MAX && volume(s) <= usize::MAX
}

/// Flat index of cell `(x, y, z)`: `z` varies fastest, then `y`, then `x`.
pub open spec fn index_of(s: [usize; 3], x: int, y: int, z: int) -> int {
    (x * s[1] + y) * s[2] + z
}

pub open spec fn coord_x(s: [usize; 3], i: int) -> int {
    i / (s[1] * s[2])
}

pub open spec fn coord_y(s: [usize; 3], i: int) -> int {
    (i % (s[1] * s[2])) / (s[2] as int)
}

pub open spec fn coord_z(s: [usize; 3], i: int) -> int {
    i % (s[2] as int)
}

/// One step of `delta` along an axis of length `len`: `None` when it leaves
/// the axis, unless `wrap` joins the two ends.
pub open spec fn step(len: int, c: int, delta: int, wrap: bool) -> Option<int> {
    let t = c + delta;
    if 0 <= t < len {
        Some(t)
    } else if wrap && t == len {
        Some(0)
    } else if wrap && t == -1 {
        Some(len - 1)
    } else {
        None
    }
}

/// Flat index of the neighbor of cell `i` in direction `dir`, if there is one.
pub open spec fn neighbor(s: [usize; 3], i: int, dir: Direction, wrap: bool) -> Option<int> {
    let x = coord_x(s, i);
    let y = coord_y(s, i);
    let z = coord_z(s, i);
    match dir {
        Direction::PosX => match step(s[0] as int, x, 1, wrap) {
            Some(t) => Some(index_of(s, t, y, z)),
            None => None,
        },
        Direction::NegX => match step(s[0] as int, x, -1, wrap) {
            Some(t) => Some(index_of(s, t, y, z)),
            None => None,
        },
        Direction::PosY => match step(s[1] as int, y, 1, wrap) {
            Some(t) => Some(index_of(s, x, t, z)),
            None => None,
        },
        Direction::NegY => match step(s[1] as int, y, -1, wrap) {
            Some(t) => Some(index_of(s, x, t, z)),
            None => None,
        },
        Direction::PosZ => match step(s[2] as int, z, 1, wrap) {
            Some(t) => Some(index_of(s, x, y, t)),
            None => None,
        },
        Direction::NegZ => match step(s[2] as int, z, -1, wrap) {
            Some(t) => Some(index_of(s, x, y, t)),
            None => None,
        },
    }
}

proof fn lemma_index_in_range(s: [usize; 3], x: int, y: int, z: int)
    requires
        0 <= x < s[0],
        0 <= y < s[1],
        0 <= z < s[2],
    ensures
        0 <= x * s[1] + y < s[0] * s[1],
        s[0] * s[1] <= volume(s),
        0 <= x * s[1] <= (x * s[1] + y) * s[2],
        0 <= index_of(s, x, y, z) < volume(s),
{
    let w = s[0] as int;
    let h = s[1] as int;
    let d = s[2] as int;
    assert(0 <= x * h + y < w * h) by (nonlinear_arith)
        requires 0 <= x < w, 0 <= y < h;
    assert(0 <= (x * h + y) * d + z < w * h * d) by (nonlinear_arith)
        requires 0 <= x * h + y < w * h, 0 <= z < d;
    assert(w * h <= w * h * d) by (nonlinear_arith)
        requires 0 <= w * h, 1 <= d;
    assert(0 <= x * h <= (x * h + y) * d) by (nonlinear_arith)
        requires 0 <= x, 0 <= h, 0 <= y, 1 <= d;
}

pub proof fn lemma_coords_in_range(s: [usize; 3], i: int)
    requires
        0 <= i < volume(s),
    ensures
        0 <= coord_x(s, i) < s[0],
        0 <= coord_y(s, i) < s[1],
        0 <= coord_z(s, i) < s[2],
        s[1] * s[2] > 0,
        s[2] > 0,
{
    let w = s[0] as int;
    let h = s[1] as int;
    let d = s[2] as int;
    assert(h * d > 0 && d > 0 && w > 0) by (nonlinear_arith)
        requires 0 <= i < w * h * d, w >= 0, h >= 0, d >= 0;
    let hd = h * d;
    assert(w * h * d == w * hd) by (nonlinear_arith)
        requires hd == h * d;
    let x = i / hd;
    let r = i % hd;
    vstd::arithmetic::div_mod::lemma_fundamental_div_mod(i, hd);
    vstd::arithmetic::div_mod::lemma_mod_bound(i, hd);
    assert(0 <= x < w) by (nonlinear_arith)
        requires i == hd * x + r, 0 <= r < hd, 0 <= i < w * hd, hd > 0;
    vstd::arithmetic::div_mod::lemma_fundamental_div_mod(r, d);
    vstd::arithmetic::div_mod::lemma_mod_bound(r, d);
    vstd::arithmetic::div_mod::lemma_mod_bound(i, d);
    let y = r / d;
    assert(0 <= y < h) by (nonlinear_arith)
        requires r == d * y + r % d, 0 <= r % d < d, 0 <= r < h * d, d > 0;
}

/// Every neighbor of a cell is a cell of the box.
pub proof fn lemma_neighbor_in_range(s: [usize; 3], i: int, dir: Direction, wrap: bool)
    requires
        0 <= i < volume(s),
    ensures
        neighbor(s, i, dir, wrap) matches Some(j) ==> 0 <= j < volume(s),
{
    lemma_coords_in_range(s, i);
    let x = coord_x(s, i);
    let y = coord_y(s, i);
    let z = coord_z(s, i);
    match neighbor(s, i, dir, wrap) {
        Some(j) => {
            match dir {
                Direction::PosX | Direction::NegX => {
                    let t = if dir == Direction::PosX { step(s[0] as int, x, 1, wrap) } else { step(s[0] as int, x, -1, wrap) };
                    lemma_index_in_range(s, t.unwrap(), y, z);
                },
                Direction::PosY | Direction::NegY => {
                    let t = if dir == Direction::PosY { step(s[1] as int, y, 1, wrap) } else { step(s[1] as int, y, -1, wrap) };
                    lemma_index_in_range(s, x, t.unwrap(), z);
                },
                _ => {
                    let t = if dir == Direction::PosZ { step(s[2] as int, z, 1, wrap) } else { step(s[2] as int, z, -1, wrap) };
                    lemma_index_in_range(s, x, y, t.unwrap());
                },
            }
        },
        None => {},
    }
}

fn step_exec(len: usize, c: usize, forward: bool, wrap: bool) -> (r: Option<usize>)
    requires
        c < len,
    ensures
        r matches Some(t) ==> Some(t as int) == step(len as int, c as int, if forward { 1 } else { -1 }, wrap),
        r is None ==> step(len as int, c as int, if forward { 1 } else { -1 }, wrap) is None,
{
    if forward {
        if c + 1 < len {
            Some(c + 1)
        } else if wrap {
            Some(0)
        } else {
            None
        }
    } else {
        if c > 0 {
            Some(c - 1)
        } else if wrap {
            Some(len - 1)
        } else {
            None
        }
    }
}

/// Flat index of the neighbor of cell `i` in direction `dir`.
pub fn neighbor_index(s: [usize; 3], i: usize, dir: Direction, wrap: bool) -> (r: Option<usize>)
    requires
        valid_shape(s),
        i < volume(s),
    ensures
        r matches Some(j) ==> neighbor(s, i as int, dir, wrap) == Some(j as int) && j < volume(s),
        r is None ==> neighbor(s, i as int, dir, wrap) is None,
{
    proof {
        lemma_coords_in_range(s, i as int);
        lemma_neighbor_in_range(s, i as int, dir, wrap);
    }
    let hd = s[1] * s[2];
    let x = i / hd;
    let y = (i % hd) / s[2];
    let z = i % s[2];
    let (nx, ny, nz) = match dir {
        Direction::PosX => match step_exec(s[0], x, true, wrap) {
            Some(t) => (t, y, z),
            None => { return None; },
        },
        Direction::NegX => match step_exec(s[0], x, false, wrap) {
            Some(t) => (t, y, z),
            None => { return None; },
        },
        Direction::PosY => match step_exec(s[1], y, true, wrap) {
            Some(t) => (x, t, z),
            None => { return None; },
        },
        Direction::NegY => match step_exec(s[1], y, false, wrap) {
            Some(t) => (x, t, z),
            None => { return None; },
        },
        Direction::PosZ => match step_exec(s[2], z, true, wrap) {
            Some(t) => (x, y, t),
            None => { return None; },
        },
        Direction::NegZ => match step_exec(s[2], z, false, wrap) {
            Some(t) => (x, y, t),
            None => { return None; },
        },
    };
    proof {
        lemma_index_in_range(s, nx as int, ny as int, nz as int);
    }
    Some((nx * s[1] + ny) * s[2] + nz)
}

} // verus!
