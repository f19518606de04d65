//! Per-tick bookkeeping of the horde simulation.

use vstd::prelude::*;

use crate::rts::grid::{cell_index, lemma_index, on_grid, open_cell};

verus! {

/// Step an animation frame, wrapping at `frame_count`.
pub fn advance_frame(frame: &mut u8, frame_count: u8)
    requires
        frame_count > 0,
        *old(frame) < 255,
    ensures
        *final(frame) == (*old(frame) + 1) % (frame_count as int),
        *final(frame) < frame_count,
{
    *frame = (*frame + 1) % frame_count;
}

/// The sign of `v`: `-1`, `0` or `1`.
pub open spec fn signum(v: int) -> int {
    if v < 0 {
        -1
    } else if v > 0 {
        1
    } else {
        0
    }
}

/// The no-corner-cut rule of a diagonal step `(dx, dy)` out of cell `c`:
/// both cardinal neighbours it passes between are on the grid and open.
pub open spec fn spec_diagonal_clear(blocked: Seq<bool>, w: int, h: int, c: (int, int), dx: int, dy: int) -> bool {
    open_cell(blocked, w, h, c.0 + dx, c.1) && open_cell(blocked, w, h, c.0, c.1 + dy)
}

/// A step from cell `c` into cell `t` is one the walk may take: `t` is on
/// the grid and open, and a step crossing both cell boundaries at once cuts
/// no corner.
pub open spec fn spec_step_admissible(blocked: Seq<bool>, w: int, h: int, c: (int, int), t: (int, int)) -> bool {
    let dx = signum(t.0 - c.0);
    let dy = signum(t.1 - c.1);
    &&& open_cell(blocked, w, h, t.0, t.1)
    &&& (dx != 0 && dy != 0 ==> spec_diagonal_clear(blocked, w, h, c, dx, dy))
}

/// Whether cell `(x, y)` is on the grid and open.
fn cell_open(x: i64, y: i64, width: u32, height: u32, blocked: &[bool]) -> (r: bool)
    requires
        blocked@.len() == width * height,
    ensures
        r == open_cell(blocked@, width as int, height as int, x as int, y as int),
{
    if x < 0 || y < 0 || x >= width as i64 || y >= height as i64 {
        return false;
    }
    let n = blocked.len();
    proof {
        lemma_index(width as int, height as int, x as int, y as int);
        assert(n == width * height);
    }
    !blocked[x as usize + y as usize * width as usize]
}

/// The flow field's no-corner-cut rule for a diagonal step `(dx, dy)` out
/// of `(cx, cy)`: both shared cardinal neighbours clear.
fn diagonal_clear(cx: i32, cy: i32, dx: i32, dy: i32, width: u32, height: u32, blocked: &[bool]) -> (r: bool)
    requires
        blocked@.len() == width * height,
        -1 <= dx <= 1,
        -1 <= dy <= 1,
    ensures
        r == spec_diagonal_clear(blocked@, width as int, height as int, (cx as int, cy as int), dx as int, dy as int),
{
    cell_open(cx as i64 + dx as i64, cy as i64, width, height, blocked) && cell_open(
        cx as i64,
        cy as i64 + dy as i64,
        width,
        height,
        blocked,
    )
}

/// Is a step from cell `(cx, cy)` into cell `(tx, ty)`, the cell under the
/// position it lands on, one the walk is allowed to take? The target must be
/// on the grid and free, and a step crossing both cell boundaries at once
/// must cut no corner: without that, separation could steer an agent across
/// a blocked corner into a cell that is walkable but unreachable.
pub fn step_admissible(cx: i32, cy: i32, tx: i32, ty: i32, width: u32, height: u32, blocked: &[bool]) -> (r: bool)
    requires
        blocked@.len() == width * height,
    ensures
        r == spec_step_admissible(blocked@, width as int, height as int, (cx as int, cy as int), (tx as int, ty as int)),
{
    if !cell_open(tx as i64, ty as i64, width, height, blocked) {
        return false;
    }
    let dx: i32 = if tx < cx {
        -1
    } else if tx > cx {
        1
    } else {
        0
    };
    let dy: i32 = if ty < cy {
        -1
    } else if ty > cy {
        1
    } else {
        0
    };
    if dx != 0 && dy != 0 {
        return diagonal_clear(cx, cy, dx, dy, width, height, blocked);
    }
    true
}

/// An admissible step between neighbouring cells is a step a body may walk:
/// the walk rule and the connectivity rule of the region labels agree.
pub proof fn lemma_admissible_neighbour_step(blocked: Seq<bool>, w: int, h: int, c: (int, int), t: (int, int))
    requires
        open_cell(blocked, w, h, c.0, c.1),
        -1 <= t.0 - c.0 <= 1,
        -1 <= t.1 - c.1 <= 1,
        t != c,
        spec_step_admissible(blocked, w, h, c, t),
    ensures
        crate::rts::grid::step8(blocked, w, h, c, t),
{
}

} // verus!
