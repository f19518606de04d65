//! Row-major cell grids: cell indices, 8-neighbour body walks and the
//! clearance of a body centred on a cell.

use vstd::prelude::*;
use vstd::arithmetic::div_mod::{lemma_fundamental_div_mod, lemma_fundamental_div_mod_converse};
use vstd::set_lib::{lemma_int_range, lemma_len_subset, set_int_range};

verus! {

/// Row-major index of cell `(x, y)` on a `w`-wide grid.
pub open spec fn cell_index(w: int, x: int, y: int) -> int {
    x + y * w
}

/// Coordinates of row-major index `c` on a `w`-wide grid.
pub open spec fn coords(w: int, c: int) -> (int, int) {
    (c % w, c / w)
}

/// `(x, y)` lies on a `w` x `h` grid.
pub open spec fn on_grid(w: int, h: int, x: int, y: int) -> bool {
    0 <= x < w && 0 <= y < h
}

/// `(x, y)` lies on the grid and its cell is not blocked.
pub open spec fn open_cell(blocked: Seq<bool>, w: int, h: int, x: int, y: int) -> bool {
    on_grid(w, h, x, y) && !blocked[cell_index(w, x, y)]
}

/// One step of a body between open cells: to one of the eight neighbours,
/// and a diagonal step only when both orthogonal cells it passes are open
/// (no corner is cut).
pub open spec fn step8(blocked: Seq<bool>, w: int, h: int, a: (int, int), b: (int, int)) -> bool {
    let dx = b.0 - a.0;
    let dy = b.1 - a.1;
    &&& -1 <= dx <= 1
    &&& -1 <= dy <= 1
    &&& !(dx == 0 && dy == 0)
    &&& open_cell(blocked, w, h, a.0, a.1)
    &&& open_cell(blocked, w, h, b.0, b.1)
    &&& (dx != 0 && dy != 0 ==> open_cell(blocked, w, h, a.0 + dx, a.1) && open_cell(blocked, w, h, a.0, a.1 + dy))
}

/// A walk over open cells, one [`step8`] at a time.
pub open spec fn is_walk8(blocked: Seq<bool>, w: int, h: int, p: Seq<(int, int)>) -> bool {
    &&& p.len() >= 1
    &&& open_cell(blocked, w, h, p[0].0, p[0].1)
    &&& forall|k: int| 0 <= k < p.len() - 1 ==> step8(blocked, w, h, #[trigger] p[k], p[k + 1])
}

/// A body standing at `a` can walk to `b`.
pub open spec fn walkable(blocked: Seq<bool>, w: int, h: int, a: (int, int), b: (int, int)) -> bool {
    exists|p: Seq<(int, int)>| #[trigger] is_walk8(blocked, w, h, p) && p[0] == a && p.last() == b
}

/// The coordinates of an index on a `w` x `h` grid are on the grid and give
/// the index back.
pub proof fn lemma_coords(w: int, h: int, c: int)
    requires
        w > 0,
        0 <= c < w * h,
    ensures
        on_grid(w, h, coords(w, c).0, coords(w, c).1),
        cell_index(w, coords(w, c).0, coords(w, c).1) == c,
{
    lemma_fundamental_div_mod(c, w);
    assert(c / w < h) by (nonlinear_arith)
        requires
            w > 0,
            0 <= c < w * h,
            c == w * (c / w) + c % w,
            0 <= c % w < w,
    ;
    assert(c / w >= 0) by (nonlinear_arith)
        requires
            w > 0,
            0 <= c,
            c == w * (c / w) + c % w,
            c % w < w,
    ;
    assert((c / w) * w == w * (c / w)) by (nonlinear_arith);
}

/// The index of an on-grid cell is on the grid and its coordinates give the
/// cell back.
pub proof fn lemma_index(w: int, h: int, x: int, y: int)
    requires
        on_grid(w, h, x, y),
    ensures
        0 <= cell_index(w, x, y) < w * h,
        coords(w, cell_index(w, x, y)) == (x, y),
{
    assert(0 <= x + y * w < w * h) by (nonlinear_arith)
        requires
            0 <= x < w,
            0 <= y < h,
    ;
    lemma_fundamental_div_mod_converse(x + y * w, w, y, x);
}

/// Stepping is symmetric.
pub proof fn lemma_step8_symmetric(blocked: Seq<bool>, w: int, h: int, a: (int, int), b: (int, int))
    requires
        step8(blocked, w, h, a, b),
    ensures
        step8(blocked, w, h, b, a),
{
}

/// A single open cell is a walk to itself.
pub proof fn lemma_walkable_refl(blocked: Seq<bool>, w: int, h: int, a: (int, int))
    requires
        open_cell(blocked, w, h, a.0, a.1),
    ensures
        walkable(blocked, w, h, a, a),
{
    let p = seq![a];
    assert(is_walk8(blocked, w, h, p));
}

/// Extending a walk by one step is a walk.
pub proof fn lemma_walkable_step(blocked: Seq<bool>, w: int, h: int, a: (int, int), b: (int, int), c: (int, int))
    requires
        walkable(blocked, w, h, a, b),
        step8(blocked, w, h, b, c),
    ensures
        walkable(blocked, w, h, a, c),
{
    let p = choose|p: Seq<(int, int)>| #[trigger] is_walk8(blocked, w, h, p) && p[0] == a && p.last() == b;
    let q = p.push(c);
    assert forall|k: int| 0 <= k < q.len() - 1 implies step8(blocked, w, h, #[trigger] q[k], q[k + 1]) by {
        if k < p.len() - 1 {
            assert(q[k] == p[k] && q[k + 1] == p[k + 1]);
        } else {
            assert(q[k] == p.last());
        }
    }
    assert(is_walk8(blocked, w, h, q));
    assert(q[0] == a && q.last() == c);
}

/// Walks can be taken backwards.
pub proof fn lemma_walkable_symmetric(blocked: Seq<bool>, w: int, h: int, a: (int, int), b: (int, int))
    requires
        walkable(blocked, w, h, a, b),
    ensures
        walkable(blocked, w, h, b, a),
{
    let p = choose|p: Seq<(int, int)>| #[trigger] is_walk8(blocked, w, h, p) && p[0] == a && p.last() == b;
    let n = p.len();
    let q = Seq::new(n, |k: int| p[n - 1 - k]);
    assert forall|k: int| 0 <= k < q.len() - 1 implies step8(blocked, w, h, #[trigger] q[k], q[k + 1]) by {
        let j = n - 2 - k;
        assert(step8(blocked, w, h, p[j], p[j + 1]));
        lemma_step8_symmetric(blocked, w, h, p[j], p[j + 1]);
    }
    if n > 1 {
        assert(step8(blocked, w, h, p[n - 2], p[n - 1]));
    }
    assert(is_walk8(blocked, w, h, q));
    assert(q[0] == b && q.last() == a);
}

/// Walks compose.
pub proof fn lemma_walkable_trans(blocked: Seq<bool>, w: int, h: int, a: (int, int), b: (int, int), c: (int, int))
    requires
        walkable(blocked, w, h, a, b),
        walkable(blocked, w, h, b, c),
    ensures
        walkable(blocked, w, h, a, c),
{
    let q = choose|q: Seq<(int, int)>| #[trigger] is_walk8(blocked, w, h, q) && q[0] == b && q.last() == c;
    lemma_walkable_trans_len(blocked, w, h, a, b, q);
}

proof fn lemma_walkable_trans_len(blocked: Seq<bool>, w: int, h: int, a: (int, int), b: (int, int), q: Seq<(int, int)>)
    requires
        walkable(blocked, w, h, a, b),
        is_walk8(blocked, w, h, q),
        q[0] == b,
    ensures
        walkable(blocked, w, h, a, q.last()),
    decreases q.len(),
{
    if q.len() > 1 {
        let r = q.drop_last();
        assert forall|k: int| 0 <= k < r.len() - 1 implies step8(blocked, w, h, #[trigger] r[k], r[k + 1]) by {
            assert(r[k] == q[k] && r[k + 1] == q[k + 1]);
        }
        assert(is_walk8(blocked, w, h, r));
        lemma_walkable_trans_len(blocked, w, h, a, b, r);
        assert(step8(blocked, w, h, q[q.len() - 2], q[q.len() - 1]));
        assert(r.last() == q[q.len() - 2]);
        lemma_walkable_step(blocked, w, h, a, r.last(), q.last());
    }
}

/// Every cell a walk from inside a step-closed set reaches stays in it.
pub proof fn lemma_walk_stays_in(blocked: Seq<bool>, w: int, h: int, inside: spec_fn((int, int)) -> bool, p: Seq<(int, int)>, k: int)
    requires
        is_walk8(blocked, w, h, p),
        inside(p[0]),
        forall|a: (int, int), b: (int, int)| #[trigger] inside(a) && step8(blocked, w, h, a, b) ==> #[trigger] inside(b),
        0 <= k < p.len(),
    ensures
        inside(p[k]),
    decreases k,
{
    if k > 0 {
        lemma_walk_stays_in(blocked, w, h, inside, p, k - 1);
        assert(step8(blocked, w, h, p[k - 1], p[k]));
    }
}


/// The label of a cell on which no body can stand.
pub const NO_COMPONENT: u32 = u32::MAX;

/// Gap, in half cells, along one axis between the centre of cell `c` and the
/// span of cell `s`.
pub open spec fn half_gap(c: int, s: int) -> int {
    if s > c {
        2 * (s - c) - 1
    } else if s < c {
        2 * (c - s) - 1
    } else {
        0
    }
}

/// A body of radius `r` half cells centred on cell `(x, y)` penetrates the
/// solid cell `(sx, sy)`: strictly closer than `r` to its square.
pub open spec fn penetrates(solids: Seq<bool>, w: int, h: int, x: int, y: int, r: int, sx: int, sy: int) -> bool {
    &&& on_grid(w, h, sx, sy)
    &&& solids[cell_index(w, sx, sy)]
    &&& half_gap(x, sx) * half_gap(x, sx) + half_gap(y, sy) * half_gap(y, sy) < r * r
}

/// A body of radius `r` half cells may stand centred on cell `(x, y)`: it
/// stays inside the map (touching the edge is legal) and penetrates no solid
/// cell (touching a solid is legal).
pub open spec fn centre_clear(solids: Seq<bool>, w: int, h: int, x: int, y: int, r: int) -> bool {
    &&& r <= 2 * x + 1
    &&& 2 * x + 1 + r <= 2 * w
    &&& r <= 2 * y + 1
    &&& 2 * y + 1 + r <= 2 * h
    &&& forall|sx: int, sy: int| !#[trigger] penetrates(solids, w, h, x, y, r, sx, sy)
}

/// `mask` marks exactly the cells on which a body of radius `r` half cells
/// cannot stand.
pub open spec fn centre_mask(solids: Seq<bool>, w: int, h: int, r: int, mask: Seq<bool>) -> bool {
    &&& mask.len() == w * h
    &&& forall|c: int| 0 <= c < w * h ==> #[trigger] mask[c] == !centre_clear(solids, w, h, coords(w, c).0, coords(w, c).1, r)
}

proof fn lemma_far_axis(c: int, s: int, r: int, k: int)
    requires
        r >= 0,
        k == r / 2 + 1,
        s < c - k || s > c + k,
    ensures
        half_gap(c, s) * half_gap(c, s) >= r * r,
{
    let g = half_gap(c, s);
    assert(g >= r);
    assert(g * g >= r * r) by (nonlinear_arith)
        requires
            g >= r,
            r >= 0,
    ;
}

/// Whether a body of radius `r` half cells may stand centred on `(x, y)`.
fn centre_clear_at(solids: &Vec<bool>, w: u32, h: u32, x: u32, y: u32, r: u32) -> (clear: bool)
    requires
        w > 0,
        solids.len() == w * h,
        x < w,
        y < h,
    ensures
        clear == centre_clear(solids@, w as int, h as int, x as int, y as int, r as int),
{
    let cx: u64 = 2 * x as u64 + 1;
    let cy: u64 = 2 * y as u64 + 1;
    let rr: u64 = r as u64;
    if rr > cx || cx + rr > 2 * w as u64 || rr > cy || cy + rr > 2 * h as u64 {
        return false;
    }
    let k: u64 = rr / 2 + 1;
    let x0: u64 = if x as u64 >= k { x as u64 - k } else { 0 };
    let x1: u64 = if x as u64 + k + 1 <= w as u64 { x as u64 + k + 1 } else { w as u64 };
    let y0: u64 = if y as u64 >= k { y as u64 - k } else { 0 };
    let y1: u64 = if y as u64 + k + 1 <= h as u64 { y as u64 + k + 1 } else { h as u64 };
    assert(rr * rr <= 0xffff_ffff_ffff_ffff_ffff_ffff) by (nonlinear_arith)
        requires
            rr <= 0xffff_ffff,
    ;
    let r2: u128 = rr as u128 * rr as u128;
    let ghost wi = w as int;
    let ghost hi = h as int;
    let ghost xi = x as int;
    let ghost yi = y as int;
    let ghost ri = r as int;
    let mut sy: u64 = y0;
    while sy < y1
        invariant
            y0 <= sy <= y1,
            y1 <= h,
            x1 <= w,
            x0 <= x1,
            w > 0,
            wi == w,
            hi == h,
            xi == x,
            yi == y,
            ri == r,
            solids.len() == w * h,
            r2 == ri * ri,
            forall|px: int, py: int|
                x0 <= px < x1 && y0 <= py < sy ==> !#[trigger] penetrates(solids@, wi, hi, xi, yi, ri, px, py),
        decreases y1 - sy,
    {
        let mut sx: u64 = x0;
        while sx < x1
            invariant
                x0 <= sx <= x1,
                y0 <= sy < y1,
                y1 <= h,
                x1 <= w,
                w > 0,
                wi == w,
                hi == h,
                xi == x,
                yi == y,
                ri == r,
                solids.len() == w * h,
                r2 == ri * ri,
                forall|px: int, py: int|
                    x0 <= px < x1 && y0 <= py < sy ==> !#[trigger] penetrates(solids@, wi, hi, xi, yi, ri, px, py),
                forall|px: int| x0 <= px < sx ==> !#[trigger] penetrates(solids@, wi, hi, xi, yi, ri, px, sy as int),
            decreases x1 - sx,
        {
            proof {
                lemma_index(wi, hi, sx as int, sy as int);
            }
            let idx: usize = sx as usize + sy as usize * w as usize;
            if solids[idx] {
                let gx: u128 = if sx > x as u64 { 2 * (sx - x as u64) as u128 - 1 } else if (sx as u64) < x as u64 {
                    2 * (x as u64 - sx) as u128 - 1
                } else {
                    0
                };
                let gy: u128 = if sy > y as u64 { 2 * (sy - y as u64) as u128 - 1 } else if (sy as u64) < y as u64 {
                    2 * (y as u64 - sy) as u128 - 1
                } else {
                    0
                };
                assert(gx == half_gap(xi, sx as int) && gy == half_gap(yi, sy as int));
                assert(gx * gx + gy * gy <= 0xffff_ffff_ffff_ffff_ffff_ffff_ffff_ffff) by (nonlinear_arith)
                    requires
                        gx < 0x100_0000_0000,
                        gy < 0x100_0000_0000,
                ;
                if gx * gx + gy * gy < r2 {
                    assert(penetrates(solids@, wi, hi, xi, yi, ri, sx as int, sy as int));
                    return false;
                }
            }
            sx = sx + 1;
        }
        sy = sy + 1;
    }
    proof {
        let k_i = k as int;
        assert(k_i == ri / 2 + 1);
        assert forall|px: int, py: int| !#[trigger] penetrates(solids@, wi, hi, xi, yi, ri, px, py) by {
            if on_grid(wi, hi, px, py) {
                if px < x0 || px >= x1 {
                    lemma_far_axis(xi, px, ri, k_i);
                    assert(half_gap(yi, py) * half_gap(yi, py) >= 0) by (nonlinear_arith);
                } else if py < y0 || py >= y1 {
                    lemma_far_axis(yi, py, ri, k_i);
                    assert(half_gap(xi, px) * half_gap(xi, px) >= 0) by (nonlinear_arith);
                }
            }
        }
    }
    true
}

/// The cells on which a body of radius `r` half cells cannot stand.
pub fn centre_blocked_mask(solids: &Vec<bool>, w: u32, h: u32, r: u32) -> (mask: Vec<bool>)
    requires
        w > 0,
        solids.len() == w * h,
    ensures
        centre_mask(solids@, w as int, h as int, r as int, mask@),
{
    let ghost wi = w as int;
    let ghost hi = h as int;
    let mut mask: Vec<bool> = Vec::new();
    let mut y: u32 = 0;
    while y < h
        invariant
            y <= h,
            w > 0,
            wi == w,
            hi == h,
            solids.len() == w * h,
            mask.len() == y * wi,
            forall|c: int| 0 <= c < mask.len() ==> #[trigger] mask@[c] == !centre_clear(solids@, wi, hi, coords(wi, c).0, coords(wi, c).1, r as int),
        decreases h - y,
    {
        let mut x: u32 = 0;
        while x < w
            invariant
                x <= w,
                y < h,
                w > 0,
                wi == w,
                hi == h,
                solids.len() == w * h,
                mask.len() == x + y * wi,
                forall|c: int| 0 <= c < mask.len() ==> #[trigger] mask@[c] == !centre_clear(solids@, wi, hi, coords(wi, c).0, coords(wi, c).1, r as int),
            decreases w - x,
        {
            let clear = centre_clear_at(solids, w, h, x, y, r);
            proof {
                lemma_index(wi, hi, x as int, y as int);
            }
            mask.push(!clear);
            x = x + 1;
        }
        assert(x + y * wi == (y + 1) * wi) by (nonlinear_arith)
            requires
                x == wi,
                wi > 0,
        ;
        y = y + 1;
    }
    assert(hi * wi == wi * hi) by (nonlinear_arith);
    mask
}


/// `comps` labels the connected regions of open cells: blocked cells carry
/// [`NO_COMPONENT`], and two open cells share a label exactly when a body can
/// walk from one to the other.
pub open spec fn labels_exact(blocked: Seq<bool>, w: int, h: int, comps: Seq<u32>) -> bool {
    &&& comps.len() == blocked.len()
    &&& forall|c: int| 0 <= c < comps.len() ==> (#[trigger] comps[c] == NO_COMPONENT <==> blocked[c])
    &&& forall|a: int, b: int|
        #![trigger comps[a], comps[b]]
        0 <= a < comps.len() && 0 <= b < comps.len() && !blocked[a] && !blocked[b] ==> (comps[a] == comps[b]
            <==> walkable(blocked, w, h, coords(w, a), coords(w, b)))
}

/// Direction `d` of the eight, clockwise from north.
pub open spec fn dir8(d: int) -> (int, int) {
    if d == 0 {
        (0, -1)
    } else if d == 1 {
        (1, -1)
    } else if d == 2 {
        (1, 0)
    } else if d == 3 {
        (1, 1)
    } else if d == 4 {
        (0, 1)
    } else if d == 5 {
        (-1, 1)
    } else if d == 6 {
        (-1, 0)
    } else {
        (-1, -1)
    }
}

proof fn lemma_step_has_dir(blocked: Seq<bool>, w: int, h: int, a: (int, int), b: (int, int)) -> (d: int)
    requires
        step8(blocked, w, h, a, b),
    ensures
        0 <= d < 8,
        dir8(d) == (b.0 - a.0, b.1 - a.1),
{
    let dx = b.0 - a.0;
    let dy = b.1 - a.1;
    if dx == 0 && dy == -1 {
        0
    } else if dx == 1 && dy == -1 {
        1
    } else if dx == 1 && dy == 0 {
        2
    } else if dx == 1 && dy == 1 {
        3
    } else if dx == 0 && dy == 1 {
        4
    } else if dx == -1 && dy == 1 {
        5
    } else if dx == -1 && dy == 0 {
        6
    } else {
        7
    }
}

fn dir8_exec(d: usize) -> (r: (i64, i64))
    requires
        d < 8,
    ensures
        (r.0 as int, r.1 as int) == dir8(d as int),
{
    if d == 0 {
        (0, -1)
    } else if d == 1 {
        (1, -1)
    } else if d == 2 {
        (1, 0)
    } else if d == 3 {
        (1, 1)
    } else if d == 4 {
        (0, 1)
    } else if d == 5 {
        (-1, 1)
    } else if d == 6 {
        (-1, 0)
    } else {
        (-1, -1)
    }
}

/// The cells not labelled yet.
spec fn unlabeled(comps: Seq<u32>) -> Set<int> {
    Set::new(|c: int| 0 <= c < comps.len() && comps[c] == NO_COMPONENT)
}

proof fn lemma_unlabeled_len(comps: Seq<u32>)
    ensures
        unlabeled(comps).finite(),
        unlabeled(comps).len() <= comps.len(),
{
    lemma_int_range(0, comps.len() as int);
    assert(unlabeled(comps).subset_of(set_int_range(0, comps.len() as int)));
    lemma_len_subset(unlabeled(comps), set_int_range(0, comps.len() as int));
}

proof fn lemma_unlabeled_update(comps: Seq<u32>, c: int, id: u32)
    requires
        0 <= c < comps.len(),
        comps[c] == NO_COMPONENT,
        id != NO_COMPONENT,
    ensures
        unlabeled(comps.update(c, id)) == unlabeled(comps).remove(c),
        unlabeled(comps.update(c, id)).len() + 1 == unlabeled(comps).len(),
{
    assert(unlabeled(comps.update(c, id)) =~= unlabeled(comps).remove(c));
    lemma_unlabeled_len(comps);
    assert(unlabeled(comps).contains(c));
}

/// Labels below `id` are finished regions: label `j` marks exactly the open
/// cells walkable from `roots[j]`.
spec fn finished(blocked: Seq<bool>, w: int, h: int, comps: Seq<u32>, roots: Seq<(int, int)>, id: int) -> bool {
    forall|c: int, j: int|
        #![trigger comps[c], roots[j]]
        0 <= c < comps.len() && 0 <= j < id ==> (comps[c] == j <==> (!blocked[c] && walkable(
            blocked,
            w,
            h,
            roots[j],
            coords(w, c),
        )))
}

/// What holds while region `id` is flooded from `roots[id]`, seeds below
/// `seed` having been handled.
spec fn flood_inv(blocked: Seq<bool>, w: int, h: int, comps: Seq<u32>, roots: Seq<(int, int)>, id: int, seed: int) -> bool {
    &&& w > 0
    &&& comps.len() == blocked.len() == w * h
    &&& w * h < NO_COMPONENT
    &&& roots.len() == id + 1
    &&& 0 <= id
    &&& on_grid(w, h, roots[id].0, roots[id].1)
    &&& comps[cell_index(w, roots[id].0, roots[id].1)] == id
    &&& forall|c: int| 0 <= c < comps.len() && #[trigger] comps[c] != NO_COMPONENT ==> !blocked[c] && comps[c] <= id
    &&& finished(blocked, w, h, comps, roots, id)
    &&& forall|c: int|
        0 <= c < comps.len() && #[trigger] comps[c] == id ==> !blocked[c] && walkable(blocked, w, h, roots[id], coords(w, c))
    &&& forall|c: int| 0 <= c < seed && !blocked[c] ==> #[trigger] comps[c] != NO_COMPONENT
    &&& id + 1 + unlabeled(comps).len() <= comps.len()
}

/// No step leaves a cell labelled `id` that is not waiting on `stack` for
/// an unlabelled cell.
spec fn closed_except(blocked: Seq<bool>, w: int, h: int, comps: Seq<u32>, id: int, stack: Seq<usize>) -> bool {
    forall|a: int, b: (int, int)|
        #![trigger step8(blocked, w, h, coords(w, a), b), comps[a]]
        0 <= a < comps.len() && comps[a] == id && !stack.contains(a as usize) && step8(blocked, w, h, coords(w, a), b)
            ==> comps[cell_index(w, b.0, b.1)] != NO_COMPONENT
}

/// Label the unlabelled open cell `b`, a step from the labelled cell `a`.
proof fn lemma_label_step(
    blocked: Seq<bool>,
    w: int,
    h: int,
    comps: Seq<u32>,
    roots: Seq<(int, int)>,
    id: int,
    seed: int,
    a: int,
    b: int,
)
    requires
        flood_inv(blocked, w, h, comps, roots, id, seed),
        0 <= a < comps.len(),
        comps[a] == id,
        0 <= b < comps.len(),
        comps[b] == NO_COMPONENT,
        step8(blocked, w, h, coords(w, a), coords(w, b)),
    ensures
        flood_inv(blocked, w, h, comps.update(b, id as u32), roots, id, seed),
        unlabeled(comps.update(b, id as u32)).len() + 1 == unlabeled(comps).len(),
{
    let c2 = comps.update(b, id as u32);
    lemma_coords(w, h, b);
    assert(!blocked[b]);
    assert(walkable(blocked, w, h, roots[id], coords(w, a)));
    lemma_walkable_step(blocked, w, h, roots[id], coords(w, a), coords(w, b));
    lemma_unlabeled_update(comps, b, id as u32);
    assert forall|c: int, j: int|
        #![trigger c2[c], roots[j]]
        0 <= c < c2.len() && 0 <= j < id implies (c2[c] == j <==> (!blocked[c] && walkable(
            blocked,
            w,
            h,
            roots[j],
            coords(w, c),
        ))) by {
        assert(comps[c] == j <==> (!blocked[c] && walkable(blocked, w, h, roots[j], coords(w, c))));
    }
    assert forall|c: int| 0 <= c < seed && !blocked[c] implies #[trigger] c2[c] != NO_COMPONENT by {
        assert(comps[c] != NO_COMPONENT);
    }
    let ri = cell_index(w, roots[id].0, roots[id].1);
    lemma_index(w, h, roots[id].0, roots[id].1);
    assert(c2[ri] == id);
    assert forall|c: int| 0 <= c < c2.len() && #[trigger] c2[c] != NO_COMPONENT implies !blocked[c] && c2[c] <= id by {
        if c != b {
            assert(comps[c] != NO_COMPONENT);
        }
    }
    assert forall|c: int|
        0 <= c < c2.len() && #[trigger] c2[c] == id implies !blocked[c] && walkable(blocked, w, h, roots[id], coords(w, c)) by {
        if c != b {
            assert(comps[c] == id);
        }
    }
}

/// A region whose flood has emptied its stack is finished.
proof fn lemma_flood_done(blocked: Seq<bool>, w: int, h: int, comps: Seq<u32>, roots: Seq<(int, int)>, id: int, seed: int)
    requires
        flood_inv(blocked, w, h, comps, roots, id, seed),
        closed_except(blocked, w, h, comps, id, Seq::empty()),
    ensures
        finished(blocked, w, h, comps, roots, id + 1),
{
    let inside = |q: (int, int)| on_grid(w, h, q.0, q.1) && comps[cell_index(w, q.0, q.1)] == id;
    assert forall|a: (int, int), b: (int, int)| #[trigger] inside(a) && step8(blocked, w, h, a, b) implies #[trigger] inside(b) by {
        let ai = cell_index(w, a.0, a.1);
        let bi = cell_index(w, b.0, b.1);
        lemma_index(w, h, a.0, a.1);
        lemma_index(w, h, b.0, b.1);
        assert(!Seq::<usize>::empty().contains(ai as usize));
        assert(step8(blocked, w, h, coords(w, ai), b));
        assert(comps[bi] != NO_COMPONENT);
        if comps[bi] != id {
            let j = comps[bi] as int;
            assert(comps[bi] == j);
            assert(roots[j] == roots[j]);
            assert(walkable(blocked, w, h, roots[j], coords(w, bi)));
            lemma_step8_symmetric(blocked, w, h, a, b);
            lemma_walkable_step(blocked, w, h, roots[j], b, a);
            assert(!blocked[ai]);
            assert(comps[ai] == j);
        }
    }
    assert forall|c: int, j: int|
        #![trigger comps[c], roots[j]]
        0 <= c < comps.len() && 0 <= j < id + 1 implies (comps[c] == j <==> (!blocked[c] && walkable(
            blocked,
            w,
            h,
            roots[j],
            coords(w, c),
        ))) by {
        if j == id {
            if !blocked[c] && walkable(blocked, w, h, roots[j], coords(w, c)) {
                let p = choose|p: Seq<(int, int)>| #[trigger] is_walk8(blocked, w, h, p) && p[0] == roots[j] && p.last() == coords(w, c);
                lemma_index(w, h, roots[j].0, roots[j].1);
                assert(inside(p[0]));
                lemma_walk_stays_in(blocked, w, h, inside, p, p.len() - 1);
                lemma_coords(w, h, c);
            }
        }
    }
}

/// Finished regions covering every open cell label the grid exactly.
proof fn lemma_labels_exact(blocked: Seq<bool>, w: int, h: int, comps: Seq<u32>, roots: Seq<(int, int)>, next: int)
    requires
        w > 0,
        comps.len() == blocked.len() == w * h,
        roots.len() == next,
        forall|c: int| 0 <= c < comps.len() && #[trigger] comps[c] != NO_COMPONENT ==> !blocked[c] && comps[c] < next,
        finished(blocked, w, h, comps, roots, next),
        forall|c: int| 0 <= c < comps.len() && !blocked[c] ==> #[trigger] comps[c] != NO_COMPONENT,
    ensures
        labels_exact(blocked, w, h, comps),
{
    assert forall|c: int| 0 <= c < comps.len() implies (#[trigger] comps[c] == NO_COMPONENT <==> blocked[c]) by {}
    assert forall|a: int, b: int|
        #![trigger comps[a], comps[b]]
        0 <= a < comps.len() && 0 <= b < comps.len() && !blocked[a] && !blocked[b] implies (comps[a] == comps[b]
            <==> walkable(blocked, w, h, coords(w, a), coords(w, b))) by {
        let j = comps[a] as int;
        assert(comps[a] != NO_COMPONENT);
        assert(roots[j] == roots[j]);
        assert(walkable(blocked, w, h, roots[j], coords(w, a)));
        if comps[a] == comps[b] {
            assert(walkable(blocked, w, h, roots[j], coords(w, b)));
            lemma_walkable_symmetric(blocked, w, h, roots[j], coords(w, a));
            lemma_walkable_trans(blocked, w, h, coords(w, a), roots[j], coords(w, b));
        }
        if walkable(blocked, w, h, coords(w, a), coords(w, b)) {
            lemma_walkable_trans(blocked, w, h, roots[j], coords(w, a), coords(w, b));
            assert(comps[b] == j);
        }
    }
}


/// Open a new region `next` at the unlabelled open cell `seed`.
proof fn lemma_start_region(blocked: Seq<bool>, w: int, h: int, comps: Seq<u32>, roots: Seq<(int, int)>, next: int, seed: int)
    requires
        w > 0,
        comps.len() == blocked.len() == w * h,
        w * h < NO_COMPONENT,
        roots.len() == next,
        0 <= next,
        forall|c: int| 0 <= c < comps.len() && #[trigger] comps[c] != NO_COMPONENT ==> !blocked[c] && comps[c] < next,
        finished(blocked, w, h, comps, roots, next),
        forall|c: int| 0 <= c < seed && !blocked[c] ==> #[trigger] comps[c] != NO_COMPONENT,
        next + unlabeled(comps).len() <= comps.len(),
        0 <= seed < comps.len(),
        !blocked[seed],
        comps[seed] == NO_COMPONENT,
    ensures
        next < NO_COMPONENT,
        flood_inv(blocked, w, h, comps.update(seed, next as u32), roots.push(coords(w, seed)), next, seed),
        closed_except(blocked, w, h, comps.update(seed, next as u32), next, seq![seed as usize]),
{
    lemma_unlabeled_len(comps);
    assert(unlabeled(comps).contains(seed));
    if unlabeled(comps).len() == 0 {
        assert(unlabeled(comps) =~= Set::empty());
    }
    let c2 = comps.update(seed, next as u32);
    let r2 = roots.push(coords(w, seed));
    lemma_unlabeled_update(comps, seed, next as u32);
    lemma_coords(w, h, seed);
    lemma_walkable_refl(blocked, w, h, coords(w, seed));
    assert forall|c: int, j: int|
        #![trigger c2[c], r2[j]]
        0 <= c < c2.len() && 0 <= j < next implies (c2[c] == j <==> (!blocked[c] && walkable(
            blocked,
            w,
            h,
            r2[j],
            coords(w, c),
        ))) by {
        assert(r2[j] == roots[j]);
        assert(comps[c] == j <==> (!blocked[c] && walkable(blocked, w, h, roots[j], coords(w, c))));
    }
    assert forall|c: int| 0 <= c < c2.len() && #[trigger] c2[c] != NO_COMPONENT implies !blocked[c] && c2[c] <= next by {
        if c != seed {
            assert(comps[c] != NO_COMPONENT);
        }
    }
    assert forall|c: int|
        0 <= c < c2.len() && #[trigger] c2[c] == next implies !blocked[c] && walkable(blocked, w, h, r2[next], coords(w, c)) by {
        if c != seed {
            assert(comps[c] != NO_COMPONENT);
        }
    }
    assert forall|c: int| 0 <= c < seed && !blocked[c] implies #[trigger] c2[c] != NO_COMPONENT by {
        assert(comps[c] != NO_COMPONENT);
    }
    assert forall|a: int, b: (int, int)|
        #![trigger step8(blocked, w, h, coords(w, a), b), c2[a]]
        0 <= a < c2.len() && c2[a] == next && !seq![seed as usize].contains(a as usize) && step8(blocked, w, h, coords(w, a), b)
            implies c2[cell_index(w, b.0, b.1)] != NO_COMPONENT by {
        if a != seed {
            assert(comps[a] != NO_COMPONENT);
        } else {
            assert(seq![seed as usize][0] == a as usize);
        }
    }
}

/// What the expansion of the cell `i = (cx, cy)` keeps while it visits its
/// neighbours in turn.
spec fn expand_inv(
    blocked: Seq<bool>,
    w: int,
    h: int,
    comps: Seq<u32>,
    stack: Seq<usize>,
    id: int,
    i: int,
    cx: int,
    cy: int,
    d: int,
) -> bool {
    &&& 0 <= i < comps.len()
    &&& comps[i] == id
    &&& (cx, cy) == coords(w, i)
    &&& on_grid(w, h, cx, cy)
    &&& cell_index(w, cx, cy) == i
    &&& forall|k: int| 0 <= k < stack.len() ==> #[trigger] stack[k] < comps.len() && comps[stack[k] as int] == id
    &&& forall|a: int, b: (int, int)|
        #![trigger step8(blocked, w, h, coords(w, a), b), comps[a]]
        0 <= a < comps.len() && a != i && comps[a] == id && !stack.contains(a as usize) && step8(blocked, w, h, coords(w, a), b)
            ==> comps[cell_index(w, b.0, b.1)] != NO_COMPONENT
    &&& forall|dd: int|
        0 <= dd < d && step8(blocked, w, h, (cx, cy), (cx + #[trigger] dir8(dd).0, cy + dir8(dd).1)) ==> comps[cell_index(
            w,
            cx + dir8(dd).0,
            cy + dir8(dd).1,
        )] != NO_COMPONENT
}

/// Labelling the unlabelled cell `b` and pushing it keeps the expansion's
/// invariant.
proof fn lemma_expand_push(
    blocked: Seq<bool>,
    w: int,
    h: int,
    comps: Seq<u32>,
    stack: Seq<usize>,
    id: int,
    i: int,
    cx: int,
    cy: int,
    d: int,
    b: usize,
)
    requires
        w > 0,
        comps.len() == w * h,
        id < NO_COMPONENT,
        0 <= id,
        expand_inv(blocked, w, h, comps, stack, id, i, cx, cy, d),
        b < comps.len(),
        comps[b as int] == NO_COMPONENT,
    ensures
        expand_inv(blocked, w, h, comps.update(b as int, id as u32), stack.push(b), id, i, cx, cy, d),
{
    let c1 = comps.update(b as int, id as u32);
    let s1 = stack.push(b);
    assert forall|k: int| 0 <= k < s1.len() implies #[trigger] s1[k] < c1.len() && c1[s1[k] as int] == id by {
        if k < stack.len() {
            assert(s1[k] == stack[k]);
        }
    }
    assert forall|a: int, bb: (int, int)|
        #![trigger step8(blocked, w, h, coords(w, a), bb), c1[a]]
        0 <= a < c1.len() && a != i && c1[a] == id && !s1.contains(a as usize) && step8(blocked, w, h, coords(w, a), bb)
            implies c1[cell_index(w, bb.0, bb.1)] != NO_COMPONENT by {
        lemma_index(w, h, bb.0, bb.1);
        if a != b as int {
            assert(comps[a] == id);
            if stack.contains(a as usize) {
                let k = choose|k: int| 0 <= k < stack.len() && stack[k] == a as usize;
                assert(s1[k] == a as usize);
            }
            assert(comps[cell_index(w, bb.0, bb.1)] != NO_COMPONENT);
        } else {
            assert(s1[stack.len() as int] == b);
        }
    }
    assert forall|dd: int|
        0 <= dd < d && step8(blocked, w, h, (cx, cy), (cx + #[trigger] dir8(dd).0, cy + dir8(dd).1)) implies c1[cell_index(
            w,
            cx + dir8(dd).0,
            cy + dir8(dd).1,
        )] != NO_COMPONENT by {
        lemma_index(w, h, cx + dir8(dd).0, cy + dir8(dd).1);
        assert(comps[cell_index(w, cx + dir8(dd).0, cy + dir8(dd).1)] != NO_COMPONENT);
    }
    assert(c1[i] == id);
}

/// Visit neighbour `d` of the cell `i = (cx, cy)`: label and push it when a
/// body can step there and it is unlabelled.
fn visit_neighbour(
    blocked: &Vec<bool>,
    w: u32,
    h: u32,
    comps: &mut Vec<u32>,
    stack: &mut Vec<usize>,
    id: u32,
    i: usize,
    cx: usize,
    cy: usize,
    d: usize,
    Ghost(roots): Ghost<Seq<(int, int)>>,
    Ghost(seed): Ghost<int>,
)
    requires
        d < 8,
        flood_inv(blocked@, w as int, h as int, old(comps)@, roots, id as int, seed),
        expand_inv(blocked@, w as int, h as int, old(comps)@, old(stack)@, id as int, i as int, cx as int, cy as int, d as int),
    ensures
        flood_inv(blocked@, w as int, h as int, final(comps)@, roots, id as int, seed),
        expand_inv(blocked@, w as int, h as int, final(comps)@, final(stack)@, id as int, i as int, cx as int, cy as int, d as int + 1),
        2 * unlabeled(final(comps)@).len() + final(stack).len() <= 2 * unlabeled(old(comps)@).len() + old(stack).len(),
{
    let ghost wi = w as int;
    let ghost hi = h as int;
    let wu = w as usize;
    let (dx, dy) = dir8_exec(d);
    let nx: i64 = cx as i64 + dx;
    let ny: i64 = cy as i64 + dy;
    let ghost q = (cx + dir8(d as int).0, cy + dir8(d as int).1);
    if nx >= 0 && ny >= 0 && nx < w as i64 && ny < h as i64 {
        proof {
            lemma_index(wi, hi, nx as int, ny as int);
        }
        let b: usize = nx as usize + ny as usize * wu;
        if !blocked[b] && comps[b] == NO_COMPONENT {
            let mut ok = true;
            if dx != 0 && dy != 0 {
                proof {
                    lemma_index(wi, hi, nx as int, cy as int);
                    lemma_index(wi, hi, cx as int, ny as int);
                }
                let e1: usize = nx as usize + cy * wu;
                let e2: usize = cx + ny as usize * wu;
                ok = !blocked[e1] && !blocked[e2];
            }
            if ok {
                proof {
                    assert(coords(wi, b as int) == (nx as int, ny as int));
                    assert(step8(blocked@, wi, hi, coords(wi, i as int), coords(wi, b as int)));
                    lemma_label_step(blocked@, wi, hi, comps@, roots, id as int, seed, i as int, b as int);
                    lemma_expand_push(blocked@, wi, hi, comps@, stack@, id as int, i as int, cx as int, cy as int, d as int, b);
                }
                comps.set(b, id);
                stack.push(b);
            }
        }
    }
    proof {
        if step8(blocked@, wi, hi, (cx as int, cy as int), q) {
            lemma_index(wi, hi, q.0, q.1);
        }
    }
}

/// Flood region `id` outward from the cells waiting on `stack`.
fn flood_region(
    blocked: &Vec<bool>,
    w: u32,
    h: u32,
    comps: &mut Vec<u32>,
    stack: &mut Vec<usize>,
    id: u32,
    Ghost(roots): Ghost<Seq<(int, int)>>,
    Ghost(seed): Ghost<int>,
)
    requires
        flood_inv(blocked@, w as int, h as int, old(comps)@, roots, id as int, seed),
        closed_except(blocked@, w as int, h as int, old(comps)@, id as int, old(stack)@),
        forall|k: int| 0 <= k < old(stack).len() ==> #[trigger] old(stack)[k] < old(comps).len() && old(comps)[old(stack)[k] as int] == id,
    ensures
        flood_inv(blocked@, w as int, h as int, final(comps)@, roots, id as int, seed),
        closed_except(blocked@, w as int, h as int, final(comps)@, id as int, Seq::empty()),
{
    let ghost wi = w as int;
    let ghost hi = h as int;
    let wu = w as usize;
    while stack.len() > 0
        invariant
            wi == w,
            hi == h,
            wu == w,
            flood_inv(blocked@, wi, hi, comps@, roots, id as int, seed),
            closed_except(blocked@, wi, hi, comps@, id as int, stack@),
            forall|k: int| 0 <= k < stack.len() ==> #[trigger] stack[k] < comps.len() && comps[stack[k] as int] == id,
        decreases 2 * unlabeled(comps@).len() + stack.len(),
    {
        let ghost st0 = stack@;
        let ghost measure0 = 2 * unlabeled(comps@).len() + stack.len();
        let i = stack.pop().unwrap();
        proof {
            assert(st0 =~= stack@.push(i));
            assert(st0[st0.len() - 1] == i);
            lemma_coords(wi, hi, i as int);
            assert forall|k: int| 0 <= k < stack.len() implies #[trigger] stack[k] < comps.len() && comps[stack[k] as int] == id by {
                assert(stack[k] == st0[k]);
            }
        }
        let cx = i % wu;
        let cy = i / wu;
        proof {
            assert forall|a: int, b: (int, int)|
                #![trigger step8(blocked@, wi, hi, coords(wi, a), b), comps@[a]]
                0 <= a < comps.len() && a != i && comps@[a] == id && !stack@.contains(a as usize) && step8(blocked@, wi, hi, coords(wi, a), b)
                    implies comps@[cell_index(wi, b.0, b.1)] != NO_COMPONENT by {
                if st0.contains(a as usize) {
                    let k = choose|k: int| 0 <= k < st0.len() && st0[k] == a as usize;
                    assert(k < st0.len() - 1);
                    assert(stack@[k] == a as usize);
                }
            }
        }
        let mut d: usize = 0;
        while d < 8
            invariant
                wi == w,
                hi == h,
                wu == w,
                d <= 8,
                flood_inv(blocked@, wi, hi, comps@, roots, id as int, seed),
                expand_inv(blocked@, wi, hi, comps@, stack@, id as int, i as int, cx as int, cy as int, d as int),
                2 * unlabeled(comps@).len() + stack.len() < measure0,
            decreases 8 - d,
        {
            visit_neighbour(blocked, w, h, comps, stack, id, i, cx, cy, d, Ghost(roots), Ghost(seed));
            d = d + 1;
        }
        proof {
            assert forall|a: int, b: (int, int)|
                #![trigger step8(blocked@, wi, hi, coords(wi, a), b), comps@[a]]
                0 <= a < comps.len() && comps@[a] == id && !stack@.contains(a as usize) && step8(blocked@, wi, hi, coords(wi, a), b)
                    implies comps@[cell_index(wi, b.0, b.1)] != NO_COMPONENT by {
                if a == i as int {
                    let dd = lemma_step_has_dir(blocked@, wi, hi, coords(wi, a), b);
                    assert(b == (cx + dir8(dd).0, cy + dir8(dd).1));
                }
            }
        }
    }
}


/// Labels are numbered densely from `0` in the order of their regions'
/// first cells: `seeds[j]` is the lowest-index cell of the region labelled
/// `j`, and the seeds ascend.
pub open spec fn labels_seeded(blocked: Seq<bool>, comps: Seq<u32>, seeds: Seq<int>) -> bool {
    &&& forall|i: int, j: int| 0 <= i < j < seeds.len() ==> seeds[i] < seeds[j]
    &&& forall|j: int| 0 <= j < seeds.len() ==> 0 <= #[trigger] seeds[j] < comps.len() && comps[seeds[j]] == j
    &&& forall|c: int|
        0 <= c < comps.len() && !blocked[c] ==> #[trigger] comps[c] < seeds.len() && seeds[comps[c] as int] <= c
}

/// A fresh seed is the lowest-index cell of its region: every lower open
/// cell is already labelled, so it lies in an earlier region, which the
/// seed's region cannot meet.
proof fn lemma_seed_is_first(
    blocked: Seq<bool>,
    w: int,
    h: int,
    comps: Seq<u32>,
    roots: Seq<(int, int)>,
    next: int,
    seed: int,
)
    requires
        comps.len() == blocked.len(),
        roots.len() == next,
        forall|c: int| 0 <= c < comps.len() && #[trigger] comps[c] != NO_COMPONENT ==> !blocked[c] && comps[c] < next,
        finished(blocked, w, h, comps, roots, next),
        forall|c: int| 0 <= c < seed && !blocked[c] ==> #[trigger] comps[c] != NO_COMPONENT,
        0 <= seed < comps.len(),
        !blocked[seed],
        comps[seed] == NO_COMPONENT,
    ensures
        forall|c: int|
            0 <= c < comps.len() && !blocked[c] && #[trigger] walkable(blocked, w, h, coords(w, seed), coords(w, c))
                ==> seed <= c,
{
    assert forall|c: int|
        0 <= c < comps.len() && !blocked[c] && #[trigger] walkable(blocked, w, h, coords(w, seed), coords(w, c))
            implies seed <= c by {
        if c < seed {
            let j = comps[c] as int;
            assert(comps[c] != NO_COMPONENT);
            assert(0 <= j < next);
            assert(comps[c] == j && roots[j] == roots[j]);
            assert(walkable(blocked, w, h, roots[j], coords(w, c)));
            lemma_walkable_symmetric(blocked, w, h, coords(w, seed), coords(w, c));
            lemma_walkable_trans(blocked, w, h, roots[j], coords(w, c), coords(w, seed));
            assert(comps[seed] == j);
        }
    }
}

/// Label the connected regions of open cells of a `w` x `h` grid, seeding
/// labels in ascending cell order.
pub fn label_components(blocked: &Vec<bool>, w: u32, h: u32) -> (comps: Vec<u32>)
    requires
        w > 0,
        blocked.len() == w * h,
        w * h < NO_COMPONENT,
    ensures
        labels_exact(blocked@, w as int, h as int, comps@),
        exists|seeds: Seq<int>| labels_seeded(blocked@, comps@, seeds),
{
    let ghost wi = w as int;
    let ghost hi = h as int;
    let n = blocked.len();
    let mut comps: Vec<u32> = Vec::new();
    let mut k: usize = 0;
    while k < n
        invariant
            k <= n,
            n == blocked.len(),
            comps.len() == k,
            forall|j: int| 0 <= j < k ==> comps[j] == NO_COMPONENT,
        decreases n - k,
    {
        comps.push(NO_COMPONENT);
        k = k + 1;
    }
    proof {
        lemma_unlabeled_len(comps@);
        lemma_int_range(0, n as int);
        assert(unlabeled(comps@) =~= set_int_range(0, n as int));
    }
    let ghost mut roots: Seq<(int, int)> = Seq::empty();
    let ghost mut seeds: Seq<int> = Seq::empty();
    let mut next: u32 = 0;
    let mut seed: usize = 0;
    while seed < n
        invariant
            wi == w,
            hi == h,
            w > 0,
            n == blocked.len(),
            comps.len() == n,
            n == wi * hi,
            wi * hi < NO_COMPONENT,
            roots.len() == next,
            seeds.len() == next,
            seed <= n,
            forall|c: int| 0 <= c < comps.len() && #[trigger] comps@[c] != NO_COMPONENT ==> !blocked[c] && comps@[c] < next,
            finished(blocked@, wi, hi, comps@, roots, next as int),
            forall|c: int| 0 <= c < seed && !blocked[c] ==> #[trigger] comps@[c] != NO_COMPONENT,
            next + unlabeled(comps@).len() <= comps.len(),
            forall|i: int, j: int| 0 <= i < j < seeds.len() ==> seeds[i] < seeds[j],
            forall|j: int|
                0 <= j < seeds.len() ==> 0 <= #[trigger] seeds[j] < seed && !blocked[seeds[j]] && roots[j] == coords(
                    wi,
                    seeds[j],
                ),
            forall|j: int, c: int|
                0 <= j < seeds.len() && 0 <= c < n && !blocked[c] && #[trigger] walkable(
                    blocked@,
                    wi,
                    hi,
                    roots[j],
                    coords(wi, c),
                ) ==> seeds[j] <= c,
        decreases n - seed,
    {
        if !blocked[seed] && comps[seed] == NO_COMPONENT {
            proof {
                lemma_seed_is_first(blocked@, wi, hi, comps@, roots, next as int, seed as int);
                lemma_start_region(blocked@, wi, hi, comps@, roots, next as int, seed as int);
                roots = roots.push(coords(wi, seed as int));
                seeds = seeds.push(seed as int);
            }
            let id = next;
            comps.set(seed, id);
            next = next + 1;
            let mut stack: Vec<usize> = Vec::new();
            stack.push(seed);
            proof {
                assert(stack@ =~= seq![seed]);
            }
            flood_region(blocked, w, h, &mut comps, &mut stack, id, Ghost(roots), Ghost(seed as int));
            proof {
                lemma_flood_done(blocked@, wi, hi, comps@, roots, id as int, seed as int);
                assert forall|c: int| 0 <= c < comps.len() && #[trigger] comps@[c] != NO_COMPONENT implies !blocked[c] && comps@[c] < next by {}
                assert forall|c: int| 0 <= c < seed + 1 && !blocked[c] implies #[trigger] comps@[c] != NO_COMPONENT by {
                    if c == seed as int {
                        lemma_coords(wi, hi, seed as int);
                    }
                }
            }
        }
        seed = seed + 1;
    }
    proof {
        lemma_labels_exact(blocked@, wi, hi, comps@, roots, next as int);
        assert(labels_seeded(blocked@, comps@, seeds)) by {
            assert forall|j: int| 0 <= j < seeds.len() implies 0 <= #[trigger] seeds[j] < comps.len() && comps@[seeds[j]]
                == j by {
                lemma_coords(wi, hi, seeds[j]);
                lemma_walkable_refl(blocked@, wi, hi, roots[j]);
                assert(comps@[seeds[j]] == j <==> (!blocked[seeds[j]] && walkable(
                    blocked@,
                    wi,
                    hi,
                    roots[j],
                    coords(wi, seeds[j]),
                )));
            }
            assert forall|c: int| 0 <= c < comps.len() && !blocked[c] implies #[trigger] comps@[c] < seeds.len()
                && seeds[comps@[c] as int] <= c by {
                let j = comps@[c] as int;
                assert(comps@[c] == j && roots[j] == roots[j]);
                assert(walkable(blocked@, wi, hi, roots[j], coords(wi, c)));
            }
        }
    }
    comps
}

} // verus!
