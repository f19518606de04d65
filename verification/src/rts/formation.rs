//! Deterministic group formations: one shared anchor, one distinct slot per
//! member, planned atomically.
//!
//! Candidate slots lie on a [`FORMATION_SPACING_CELLS`]-cell lattice around
//! the anchor, enumerated in Chebyshev rings (the anchor first) and row-major
//! inside a ring. The first legal candidates, one per member, are the slot
//! set; members, in ascending entity-slot order, then each take the remaining
//! slot nearest their position, ties to the lower flat cell index.

use vstd::prelude::*;

use crate::scenario::Cell;

use super::entity::EntityId;
use super::grid::{cell_index, coords, lemma_coords, lemma_index, on_grid};
use super::static_nav::StaticNav;

verus! {

/// Distance between two neighbouring formation slots, in cells: one body
/// diameter, the tightest lattice on which finished members only touch.
pub const FORMATION_SPACING_CELLS: i32 = 6;

/// Where one member of a group is going: the group's shared anchor, and the
/// member's own slot around it.
#[derive(Clone, Copy, Debug, PartialEq, Eq, Structural)]
pub struct FormationGoal {
    pub anchor: Cell,
    pub slot: Cell,
}

impl FormationGoal {
    /// A goal that is its own anchor: a single unit sent to one cell.
    pub fn at(cell: Cell) -> (g: Self)
        ensures
            g.anchor == cell,
            g.slot == cell,
    {
        FormationGoal { anchor: cell, slot: cell }
    }
}

/// Why a group order was refused. Every variant leaves the world untouched.
#[derive(Clone, Copy, Debug, PartialEq, Eq, Structural)]
pub enum FormationError {
    /// Nothing in the group could take the order.
    NoUnits,
    /// The order's target no longer exists.
    NoTarget,
    /// No navigation field can be built to the group's anchor.
    Unreachable,
    /// Fewer legal slots exist around the anchor than the group has members.
    NoFormationSpace,
}

/// The lattice point `(dx, dy)` spacings from `anchor`, when it is on the
/// grid.
pub open spec fn spec_lattice_cell(anchor: Cell, dx: int, dy: int, w: int, h: int) -> Option<Cell> {
    let x = anchor.x + dx * FORMATION_SPACING_CELLS;
    let y = anchor.y + dy * FORMATION_SPACING_CELLS;
    if 0 <= x < w && 0 <= y < h {
        Some(Cell { x: x as u32, y: y as u32 })
    } else {
        None
    }
}

/// The lattice point `(dx, dy)` spacings from `anchor`, or `None` when it
/// falls off the grid.
pub fn lattice_cell(anchor: Cell, dx: i32, dy: i32, width: u32, height: u32) -> (r: Option<Cell>)
    requires
        i32::MIN <= dx * FORMATION_SPACING_CELLS <= i32::MAX,
        i32::MIN <= dy * FORMATION_SPACING_CELLS <= i32::MAX,
    ensures
        r == spec_lattice_cell(anchor, dx as int, dy as int, width as int, height as int),
{
    let x: i64 = anchor.x as i64 + (dx * FORMATION_SPACING_CELLS) as i64;
    let y: i64 = anchor.y as i64 + (dy * FORMATION_SPACING_CELLS) as i64;
    if x < 0 || y < 0 || x >= width as i64 || y >= height as i64 {
        return None;
    }
    Some(Cell { x: x as u32, y: y as u32 })
}

/// Row-major index of an on-grid cell.
pub fn flat_index(c: Cell, width: u32, height: u32) -> (r: usize)
    requires
        c.x < width,
        c.y < height,
        width * height <= usize::MAX,
    ensures
        r == cell_index(width as int, c.x as int, c.y as int),
        r < width * height,
{
    proof {
        lemma_index(width as int, height as int, c.x as int, c.y as int);
    }
    c.x as usize + c.y as usize * width as usize
}

/// Squared distance between the centres of cells `(x, y)` and `p`.
pub open spec fn centre_dist2(x: int, y: int, p: Cell) -> int {
    (x - p.x) * (x - p.x) + (y - p.y) * (y - p.y)
}

/// `cell` is the open cell nearest `preferred` by squared centre distance,
/// the lower flat index among equally near ones.
pub open spec fn is_nearest_clear(blocked: Seq<bool>, w: int, h: int, preferred: Cell, cell: Cell) -> bool {
    &&& on_grid(w, h, cell.x as int, cell.y as int)
    &&& !blocked[cell_index(w, cell.x as int, cell.y as int)]
    &&& forall|c: int|
        0 <= c < w * h && !#[trigger] blocked[c] ==> {
            let d = centre_dist2(coords(w, c).0, coords(w, c).1, preferred);
            let bd = centre_dist2(cell.x as int, cell.y as int, preferred);
            bd < d || (bd == d && cell_index(w, cell.x as int, cell.y as int) <= c)
        }
}

/// The cell a group sent to `preferred` forms up on: the nearest cell a body
/// may stand on, by squared centre distance and then flat index. `None` only
/// when no cell of the grid can hold a body.
pub fn nearest_body_clear_cell(static_nav: &StaticNav, preferred: Cell) -> (r: Option<Cell>)
    requires
        static_nav.wf(),
    ensures
        r is None <==> forall|c: int| 0 <= c < static_nav@.width * static_nav@.height ==> static_nav@.center_blocked[c],
        r matches Some(cell) ==> is_nearest_clear(
            static_nav@.center_blocked,
            static_nav@.width as int,
            static_nav@.height as int,
            preferred,
            cell,
        ),
{
    let width = static_nav.width();
    let height = static_nav.height();
    let blocked = static_nav.center_blocked();
    let ghost wi = width as int;
    let ghost hi = height as int;
    let mut best: Option<(u128, usize, Cell)> = None;
    let mut y: u32 = 0;
    while y < height
        invariant
            wi == width,
            hi == height,
            width == static_nav@.width,
            height == static_nav@.height,
            blocked@ == static_nav@.center_blocked,
            blocked@.len() == wi * hi,
            wi > 0,
            wi * hi < u32::MAX,
            y <= height,
            match best {
                None => forall|c: int| 0 <= c < y * wi ==> blocked@[c],
                Some((bd, bi, cell)) => {
                    &&& bi < y * wi
                    &&& bi == cell_index(wi, cell.x as int, cell.y as int)
                    &&& bd == centre_dist2(cell.x as int, cell.y as int, preferred)
                    &&& on_grid(wi, hi, cell.x as int, cell.y as int)
                    &&& !blocked@[bi as int]
                    &&& forall|c: int|
                        0 <= c < y * wi && !#[trigger] blocked@[c] ==> {
                            let d = centre_dist2(coords(wi, c).0, coords(wi, c).1, preferred);
                            bd < d || (bd == d && bi <= c)
                        }
                },
            },
        decreases height - y,
    {
        let mut x: u32 = 0;
        while x < width
            invariant
                wi == width,
                hi == height,
                blocked@.len() == wi * hi,
                wi > 0,
                wi * hi < u32::MAX,
                y < height,
                x <= width,
                match best {
                    None => forall|c: int| 0 <= c < x + y * wi ==> blocked@[c],
                    Some((bd, bi, cell)) => {
                        &&& bi < x + y * wi
                        &&& bi == cell_index(wi, cell.x as int, cell.y as int)
                        &&& bd == centre_dist2(cell.x as int, cell.y as int, preferred)
                        &&& on_grid(wi, hi, cell.x as int, cell.y as int)
                        &&& !blocked@[bi as int]
                        &&& forall|c: int|
                            0 <= c < x + y * wi && !#[trigger] blocked@[c] ==> {
                                let d = centre_dist2(coords(wi, c).0, coords(wi, c).1, preferred);
                                bd < d || (bd == d && bi <= c)
                            }
                    },
                },
            decreases width - x,
        {
            proof {
                lemma_index(wi, hi, x as int, y as int);
            }
            let idx: usize = x as usize + y as usize * width as usize;
            if !blocked[idx] {
                let ddx: i128 = x as i128 - preferred.x as i128;
                let ddy: i128 = y as i128 - preferred.y as i128;
                assert(0 <= ddx * ddx <= 0x1_0000_0000_0000_0000 && 0 <= ddy * ddy <= 0x1_0000_0000_0000_0000) by (nonlinear_arith)
                    requires
                        -0x1_0000_0000 <= ddx <= 0x1_0000_0000,
                        -0x1_0000_0000 <= ddy <= 0x1_0000_0000,
                ;
                let d: u128 = (ddx * ddx + ddy * ddy) as u128;
                let take = match best {
                    None => true,
                    Some((bd, bi, _)) => d < bd || (d == bd && idx < bi),
                };
                if take {
                    best = Some((d, idx, Cell { x, y }));
                }
            }
            proof {
                assert(coords(wi, idx as int) == (x as int, y as int));
            }
            x = x + 1;
        }
        assert(x + y * wi == (y + 1) * wi) by (nonlinear_arith)
            requires
                x == wi,
        ;
        y = y + 1;
    }
    match best {
        None => None,
        Some((_, _, cell)) => {
            proof {
                assert(y * wi == wi * hi) by (nonlinear_arith)
                    requires
                        y == hi,
                ;
            }
            Some(cell)
        },
    }
}

/// Preallocated working storage for one formation plan.
pub struct FormationScratch {
    /// Per-cell "already handed to a member of this plan" mask; all clear
    /// between plans.
    reserved_cells: Vec<bool>,
    /// The slot assigned to each planned unit, parallel to `planned_units`
    /// once a plan has succeeded.
    planned_slots: Vec<Cell>,
    /// The group's members, ascending by entity slot.
    planned_units: Vec<EntityId>,
}

impl FormationScratch {
    /// The grid size the scratch was reserved for.
    pub closed spec fn cells(&self) -> nat {
        self.reserved_cells@.len()
    }

    /// The members pushed since the last [`Self::begin`].
    pub closed spec fn units(&self) -> Seq<EntityId> {
        self.planned_units@
    }

    /// The slots of the last plan.
    pub closed spec fn slots(&self) -> Seq<Cell> {
        self.planned_slots@
    }

    /// No cell is reserved between plans.
    pub closed spec fn wf(&self) -> bool {
        forall|i: int| 0 <= i < self.reserved_cells@.len() ==> !self.reserved_cells@[i]
    }

    /// Reserve for a `cells`-cell grid.
    pub fn new(cells: usize) -> (s: Self)
        ensures
            s.wf(),
            s.cells() == cells,
            s.units() == Seq::<EntityId>::empty(),
            s.slots() == Seq::<Cell>::empty(),
    {
        let mut reserved_cells: Vec<bool> = Vec::new();
        let mut k: usize = 0;
        while k < cells
            invariant
                k <= cells,
                reserved_cells.len() == k,
                forall|i: int| 0 <= i < k ==> !reserved_cells@[i],
            decreases cells - k,
        {
            reserved_cells.push(false);
            k = k + 1;
        }
        FormationScratch { reserved_cells, planned_slots: Vec::new(), planned_units: Vec::new() }
    }

    /// Start a new plan: drop the previous one's members and slots.
    pub fn begin(&mut self)
        ensures
            final(self).wf() == old(self).wf(),
            final(self).cells() == old(self).cells(),
            final(self).units() == Seq::<EntityId>::empty(),
            final(self).slots() == Seq::<Cell>::empty(),
    {
        self.planned_units.clear();
        self.planned_slots.clear();
        assert(self.reserved_cells@ == old(self).reserved_cells@);
    }

    /// Add one member; the caller pushes in ascending entity-slot order.
    pub fn push_unit(&mut self, id: EntityId)
        ensures
            final(self).wf() == old(self).wf(),
            final(self).cells() == old(self).cells(),
            final(self).units() == old(self).units().push(id),
            final(self).slots() == old(self).slots(),
    {
        self.planned_units.push(id);
        assert(self.reserved_cells@ == old(self).reserved_cells@);
    }

    pub fn len(&self) -> (r: usize)
        ensures
            r == self.units().len(),
    {
        self.planned_units.len()
    }

    pub fn unit(&self, i: usize) -> (r: EntityId)
        requires
            i < self.units().len(),
        ensures
            r == self.units()[i as int],
    {
        self.planned_units[i]
    }

    pub fn slot(&self, i: usize) -> (r: Cell)
        requires
            i < self.slots().len(),
        ensures
            r == self.slots()[i as int],
    {
        self.planned_slots[i]
    }
}


/// The lattice cell at offset `(dx, dy)` when it lies on Chebyshev ring `r`
/// and on the grid; nothing otherwise.
pub open spec fn ring_cell(anchor: Cell, w: int, h: int, r: int, dy: int, dx: int) -> Seq<Cell> {
    let on_ring = (if dx < 0 { -dx } else { dx }) == r && (if dy < 0 { -dy } else { dy }) <= r || (if dy < 0 {
        -dy
    } else {
        dy
    }) == r && (if dx < 0 { -dx } else { dx }) <= r;
    match spec_lattice_cell(anchor, dx, dy, w, h) {
        Some(c) => if on_ring {
            seq![c]
        } else {
            Seq::empty()
        },
        None => Seq::empty(),
    }
}

/// Ring `r`'s cells of row `dy`, columns `-r` up to `dx_end`.
pub open spec fn ring_row(anchor: Cell, w: int, h: int, r: int, dy: int, dx_end: int) -> Seq<Cell>
    decreases dx_end + r,
{
    if dx_end <= -r {
        Seq::empty()
    } else {
        ring_row(anchor, w, h, r, dy, dx_end - 1) + ring_cell(anchor, w, h, r, dy, dx_end - 1)
    }
}

/// Ring `r`'s cells of rows `-r` up to `dy_end`, row-major.
pub open spec fn ring_rows(anchor: Cell, w: int, h: int, r: int, dy_end: int) -> Seq<Cell>
    decreases dy_end + r,
{
    if dy_end <= -r {
        Seq::empty()
    } else {
        ring_rows(anchor, w, h, r, dy_end - 1) + ring_row(anchor, w, h, r, dy_end - 1, r + 1)
    }
}

/// The cells of rings `0` up to `r_end`, ring by ring.
pub open spec fn rings(anchor: Cell, w: int, h: int, r_end: int) -> Seq<Cell>
    decreases r_end,
{
    if r_end <= 0 {
        Seq::empty()
    } else {
        rings(anchor, w, h, r_end - 1) + ring_rows(anchor, w, h, r_end - 1, r_end)
    }
}

/// How many rings cover every on-grid lattice point.
pub open spec fn max_ring(w: int, h: int) -> int {
    (if w < h { h } else { w }) / FORMATION_SPACING_CELLS as int + 1
}

/// The candidate slots around `anchor`, in plan order.
pub open spec fn formation_candidates(anchor: Cell, w: int, h: int) -> Seq<Cell> {
    rings(anchor, w, h, max_ring(w, h) + 1)
}

/// The candidate slots around `anchor`: the lattice in Chebyshev rings,
/// the anchor first, row-major inside a ring.
pub fn candidate_slots(anchor: Cell, width: u32, height: u32) -> (r: Vec<Cell>)
    requires
        width <= i32::MAX,
        height <= i32::MAX,
    ensures
        r@ == formation_candidates(anchor, width as int, height as int),
{
    let ghost wi = width as int;
    let ghost hi = height as int;
    let big: i64 = if width < height { height as i64 } else { width as i64 };
    let last_ring: i64 = big / 6 + 1;
    let mut out: Vec<Cell> = Vec::new();
    let mut r: i64 = 0;
    while r <= last_ring
        invariant
            0 <= r <= last_ring + 1,
            last_ring == max_ring(wi, hi),
            last_ring < 0x2000_0000,
            wi == width,
            hi == height,
            out@ == rings(anchor, wi, hi, r as int),
        decreases last_ring + 1 - r,
    {
        let mut dy: i64 = -r;
        while dy <= r
            invariant
                0 <= r <= last_ring,
                last_ring < 0x2000_0000,
                -r <= dy <= r + 1,
                wi == width,
                hi == height,
                out@ == rings(anchor, wi, hi, r as int) + ring_rows(anchor, wi, hi, r as int, dy as int),
            decreases r + 1 - dy,
        {
            let mut dx: i64 = -r;
            while dx <= r
                invariant
                    0 <= r <= last_ring,
                    last_ring < 0x2000_0000,
                    -r <= dy <= r,
                    -r <= dx <= r + 1,
                    wi == width,
                    hi == height,
                    out@ == rings(anchor, wi, hi, r as int) + ring_rows(anchor, wi, hi, r as int, dy as int) + ring_row(
                        anchor,
                        wi,
                        hi,
                        r as int,
                        dy as int,
                        dx as int,
                    ),
                decreases r + 1 - dx,
            {
                let adx: i64 = if dx < 0 { -dx } else { dx };
                let ady: i64 = if dy < 0 { -dy } else { dy };
                let ghost before = out@;
                if (if adx > ady { adx } else { ady }) == r {
                    let x: i64 = anchor.x as i64 + dx * 6;
                    let y: i64 = anchor.y as i64 + dy * 6;
                    if x >= 0 && y >= 0 && x < width as i64 && y < height as i64 {
                        out.push(Cell { x: x as u32, y: y as u32 });
                    }
                }
                proof {
                    assert(out@ =~= before + ring_cell(anchor, wi, hi, r as int, dy as int, dx as int));
                }
                dx = dx + 1;
            }
            dy = dy + 1;
        }
        r = r + 1;
    }
    out
}

/// The slots a plan takes from `cands`: each legal candidate not already
/// taken, in order.
pub open spec fn select_slots(cands: Seq<Cell>, legal: spec_fn(Cell) -> bool) -> Seq<Cell>
    decreases cands.len(),
{
    if cands.len() == 0 {
        Seq::empty()
    } else {
        let prev = select_slots(cands.drop_last(), legal);
        let c = cands.last();
        if legal(c) && !prev.contains(c) {
            prev.push(c)
        } else {
            prev
        }
    }
}

/// Taking from a longer candidate list only appends.
proof fn lemma_select_prefix(cands: Seq<Cell>, k: int, legal: spec_fn(Cell) -> bool)
    requires
        0 <= k <= cands.len(),
    ensures
        select_slots(cands.subrange(0, k), legal).len() <= select_slots(cands, legal).len(),
        select_slots(cands, legal).subrange(0, select_slots(cands.subrange(0, k), legal).len() as int) == select_slots(
            cands.subrange(0, k),
            legal,
        ),
    decreases cands.len() - k,
{
    if k == cands.len() {
        assert(cands.subrange(0, k) =~= cands);
        assert(select_slots(cands, legal).subrange(0, select_slots(cands, legal).len() as int) =~= select_slots(cands, legal));
    } else {
        lemma_select_prefix(cands, k + 1, legal);
        let pre = cands.subrange(0, k);
        let pre1 = cands.subrange(0, k + 1);
        assert(pre1.drop_last() =~= pre);
        let a = select_slots(pre, legal);
        let b = select_slots(pre1, legal);
        assert(b.subrange(0, a.len() as int) =~= a);
    }
}

/// Whether a candidate may hold a member: its centre is a legal body
/// position and the caller's remaining checks (reachable in the anchor's
/// field, swept clear from the anchor, no outside body on it) passed.
pub open spec fn slot_legal(blocked: Seq<bool>, clear: Seq<bool>, w: int) -> spec_fn(Cell) -> bool {
    |c: Cell| !blocked[cell_index(w, c.x as int, c.y as int)] && clear[cell_index(w, c.x as int, c.y as int)]
}


/// Slot `a` of `sel` ranks before slot `b` for a member whose key row is
/// `d`: a smaller key, or an equal key and an earlier cell in flat index
/// order (row, then column).
pub open spec fn ranks_before(d: Seq<u32>, sel: Seq<Cell>, a: int, b: int) -> bool {
    d[a] < d[b] || (d[a] == d[b] && (sel[a].y < sel[b].y || (sel[a].y == sel[b].y && sel[a].x < sel[b].x)))
}

/// `ord[b]` is the first of `ord[i..]` ranking first for the key row `d`.
pub open spec fn nearest_from(d: Seq<u32>, sel: Seq<Cell>, ord: Seq<usize>, i: int, b: int) -> bool {
    &&& i <= b < ord.len()
    &&& forall|j: int| i <= j < ord.len() ==> !#[trigger] ranks_before(d, sel, ord[j] as int, ord[b] as int)
    &&& forall|j: int| i <= j < b ==> #[trigger] ranks_before(d, sel, ord[b] as int, ord[j] as int)
}

proof fn lemma_nearest_unique(d: Seq<u32>, sel: Seq<Cell>, ord: Seq<usize>, i: int, b1: int, b2: int)
    requires
        nearest_from(d, sel, ord, i, b1),
        nearest_from(d, sel, ord, i, b2),
    ensures
        b1 == b2,
{
    if b1 < b2 {
        assert(ranks_before(d, sel, ord[b2] as int, ord[b1] as int));
    } else if b2 < b1 {
        assert(ranks_before(d, sel, ord[b1] as int, ord[b2] as int));
    }
}

/// Which slot of `sel` each of the first `k` members holds, by index into
/// `sel`: each member in turn swaps the remaining slot ranking first by its
/// own key row into its place; a member with no key row (gone) keeps the
/// slot in its place.
pub open spec fn assigned_order(sel: Seq<Cell>, keys: Seq<Option<Vec<u32>>>, k: int) -> Seq<usize>
    decreases k,
{
    if k <= 0 {
        Seq::new(sel.len(), |i: int| i as usize)
    } else {
        let s = assigned_order(sel, keys, k - 1);
        match keys[k - 1] {
            None => s,
            Some(d) => {
                let b = choose|b: int| #[trigger] nearest_from(d@, sel, s, k - 1, b);
                s.update(k - 1, s[b]).update(b, s[k - 1])
            },
        }
    }
}

/// The slots the first `k` members hold, member by member.
pub open spec fn assigned(sel: Seq<Cell>, keys: Seq<Option<Vec<u32>>>, k: int) -> Seq<Cell> {
    assigned_order(sel, keys, k).map_values(|j: usize| sel[j as int])
}

impl FormationScratch {
    /// Match members to the planned slots: each member in turn takes the
    /// remaining slot with the smallest key in its row, ties going to the
    /// earlier cell in flat index order; a member whose row is `None` (it is
    /// gone) keeps the slot in its place.
    ///
    /// `keys[k][j]` ranks planned slot `j` for member `k`. Given the bit
    /// patterns of the members' squared distances to the slot centres
    /// (non-negative `f32`s, whose bit patterns order as their values do),
    /// this is nearest-slot-first.
    pub fn assign(&mut self, keys: &[Option<Vec<u32>>])
        requires
            keys@.len() == old(self).slots().len(),
            forall|k: int| 0 <= k < keys@.len() ==> (#[trigger] keys@[k] matches Some(d) ==> d@.len() == old(self).slots().len()),
        ensures
            final(self).slots() == assigned(old(self).slots(), keys@, keys@.len() as int),
            final(self).units() == old(self).units(),
            final(self).cells() == old(self).cells(),
            final(self).wf() == old(self).wf(),
    {
        let ghost sel = self.planned_slots@;
        let n = self.planned_slots.len();
        let mut ord: Vec<usize> = Vec::new();
        let mut t: usize = 0;
        while t < n
            invariant
                t <= n,
                ord@.len() == t,
                forall|q: int| 0 <= q < t ==> #[trigger] ord@[q] == q as usize,
            decreases n - t,
        {
            ord.push(t);
            t = t + 1;
        }
        assert(ord@ =~= assigned_order(sel, keys@, 0));
        let mut i: usize = 0;
        while i < n
            invariant
                i <= n,
                n == sel.len(),
                n == keys@.len(),
                self.planned_slots@ == sel,
                forall|k: int| 0 <= k < keys@.len() ==> (#[trigger] keys@[k] matches Some(d) ==> d@.len() == n),
                ord@ == assigned_order(sel, keys@, i as int),
                forall|q: int| 0 <= q < n ==> #[trigger] ord@[q] < n,
                ord@.len() == n,
            decreases n - i,
        {
            proof {
                lemma_order_in_range(sel, keys@, i as int + 1);
            }
            match &keys[i] {
                None => {},
                Some(d) => {
                    let ghost s = ord@;
                    let mut best: usize = i;
                    let mut j: usize = i + 1;
                    while j < n
                        invariant
                            i < j <= n,
                            i <= best < j,
                            n == s.len(),
                            s == ord@,
                            n == sel.len(),
                            sel == self.planned_slots@,
                            d@.len() == n,
                            forall|q: int| 0 <= q < n ==> #[trigger] s[q] < n,
                            forall|jj: int| i <= jj < j ==> !#[trigger] ranks_before(d@, sel, s[jj] as int, s[best as int] as int),
                            forall|jj: int| i <= jj < best ==> #[trigger] ranks_before(d@, sel, s[best as int] as int, s[jj] as int),
                        decreases n - j,
                    {
                        let cj = ord[j];
                        let cb = ord[best];
                        let kj = d[cj];
                        let kb = d[cb];
                        let pj = self.planned_slots[cj];
                        let pb = self.planned_slots[cb];
                        let ghost old_best = best as int;
                        if kj < kb || (kj == kb && (pj.y < pb.y || (pj.y == pb.y && pj.x < pb.x))) {
                            best = j;
                            proof {
                                assert forall|jj: int| i <= jj < j + 1 implies !#[trigger] ranks_before(
                                    d@,
                                    sel,
                                    s[jj] as int,
                                    s[best as int] as int,
                                ) by {
                                    if jj < j {
                                        assert(!ranks_before(d@, sel, s[jj] as int, s[old_best] as int));
                                    }
                                }
                                assert forall|jj: int| i <= jj < best implies #[trigger] ranks_before(
                                    d@,
                                    sel,
                                    s[best as int] as int,
                                    s[jj] as int,
                                ) by {
                                    assert(!ranks_before(d@, sel, s[jj] as int, s[old_best] as int));
                                }
                            }
                        }
                        j = j + 1;
                    }
                    proof {
                        assert(nearest_from(d@, sel, s, i as int, best as int));
                        let b = choose|b: int| #[trigger] nearest_from(d@, sel, s, i as int, b);
                        lemma_nearest_unique(d@, sel, s, i as int, b, best as int);
                    }
                    let a = ord[i];
                    let b = ord[best];
                    ord.set(i, b);
                    ord.set(best, a);
                    proof {
                        assert(ord@ =~= s.update(i as int, s[best as int]).update(best as int, s[i as int]));
                    }
                },
            }
            i = i + 1;
        }
        let mut out: Vec<Cell> = Vec::new();
        let mut t: usize = 0;
        while t < n
            invariant
                t <= n,
                n == sel.len(),
                ord@.len() == n,
                self.planned_slots@ == sel,
                forall|q: int| 0 <= q < n ==> #[trigger] ord@[q] < n,
                out@.len() == t,
                forall|q: int| 0 <= q < t ==> #[trigger] out@[q] == sel[ord@[q] as int],
            decreases n - t,
        {
            out.push(self.planned_slots[ord[t]]);
            t = t + 1;
        }
        proof {
            assert(out@ =~= assigned(sel, keys@, n as int));
        }
        self.planned_slots = out;
    }

    /// Plan one slot per member around `anchor`, or refuse the whole group.
    ///
    /// Candidates come in ring order; a candidate is legal when its centre
    /// is a legal body position, `clear` marks it (reachable in the anchor's
    /// field, swept clear from the anchor, no outside body on it) and this
    /// plan has not taken it. The first legal candidates, one per member,
    /// in candidate order, are the slot set; [`Self::assign`] then matches
    /// members to them.
    pub fn plan(&mut self, static_nav: &StaticNav, clear: &[bool], anchor: Cell) -> (r: Result<(), FormationError>)
        requires
            old(self).wf(),
            static_nav.wf(),
            old(self).cells() == static_nav@.width * static_nav@.height,
            clear@.len() == static_nav@.width * static_nav@.height,
            static_nav@.width <= i32::MAX,
            static_nav@.height <= i32::MAX,
        ensures
            final(self).wf(),
            final(self).cells() == old(self).cells(),
            final(self).units() == old(self).units(),
            ({
                let n = old(self).units().len();
                let sel = select_slots(
                    formation_candidates(anchor, static_nav@.width as int, static_nav@.height as int),
                    slot_legal(static_nav@.center_blocked, clear@, static_nav@.width as int),
                );
                if n == 0 {
                    r == Err::<(), FormationError>(FormationError::NoUnits) && final(self).slots() == old(self).slots()
                } else if sel.len() < n {
                    r == Err::<(), FormationError>(FormationError::NoFormationSpace) && final(self).slots() == Seq::<Cell>::empty()
                } else {
                    r == Ok::<(), FormationError>(()) && final(self).slots() == sel.subrange(0, n as int)
                }
            }),
    {
        let n = self.planned_units.len();
        if n == 0 {
            return Err(FormationError::NoUnits);
        }
        self.planned_slots.clear();
        let width = static_nav.width();
        let height = static_nav.height();
        let blocked = static_nav.center_blocked();
        let ghost wi = width as int;
        let ghost hi = height as int;
        let ghost legal = slot_legal(static_nav@.center_blocked, clear@, wi);
        let cands = candidate_slots(anchor, width, height);
        let ghost all = cands@;
        proof {
            assert forall|k: int| 0 <= k < all.len() implies on_grid(wi, hi, (#[trigger] all[k]).x as int, all[k].y as int) by {
                lemma_candidates_on_grid(anchor, wi, hi, max_ring(wi, hi) + 1, k);
            }
        }
        let mut k: usize = 0;
        while k < cands.len() && self.planned_slots.len() < n
            invariant
                k <= cands@.len(),
                cands@ == all,
                wi == width,
                hi == height,
                width > 0,
                width * height < u32::MAX,
                blocked@ == static_nav@.center_blocked,
                legal == slot_legal(static_nav@.center_blocked, clear@, wi),
                blocked@.len() == wi * hi,
                clear@.len() == wi * hi,
                self.reserved_cells@.len() == wi * hi,
                n == self.planned_units@.len(),
                self.planned_units@ == old(self).planned_units@,
                forall|t: int| 0 <= t < all.len() ==> on_grid(wi, hi, (#[trigger] all[t]).x as int, all[t].y as int),
                self.planned_slots@ == select_slots(all.subrange(0, k as int), legal),
                self.planned_slots@.len() <= n,
                forall|c: int|
                    0 <= c < wi * hi ==> (#[trigger] self.reserved_cells@[c] <==> exists|t: int|
                        0 <= t < self.planned_slots@.len() && cell_index(wi, self.planned_slots@[t].x as int, self.planned_slots@[t].y as int) == c),
                forall|t: int| 0 <= t < self.planned_slots@.len() ==> on_grid(wi, hi, (#[trigger] self.planned_slots@[t]).x as int, self.planned_slots@[t].y as int),
            decreases cands@.len() - k,
        {
            let cell = cands[k];
            let idx = flat_index(cell, width, height);
            let ghost prev = self.planned_slots@;
            proof {
                assert(legal(cell) == (!blocked@[idx as int] && clear@[idx as int]));
                let pre1 = all.subrange(0, k as int + 1);
                assert(pre1.drop_last() =~= all.subrange(0, k as int));
                assert(pre1.last() == cell);
                assert(prev.contains(cell) <==> self.reserved_cells@[idx as int]) by {
                    if prev.contains(cell) {
                        let t = choose|t: int| 0 <= t < prev.len() && prev[t] == cell;
                        assert(cell_index(wi, prev[t].x as int, prev[t].y as int) == idx);
                    }
                    if self.reserved_cells@[idx as int] {
                        let t = choose|t: int|
                            0 <= t < prev.len() && cell_index(wi, prev[t].x as int, prev[t].y as int) == idx;
                        assert(on_grid(wi, hi, self.planned_slots@[t].x as int, self.planned_slots@[t].y as int));
                        lemma_index(wi, hi, prev[t].x as int, prev[t].y as int);
                        lemma_index(wi, hi, cell.x as int, cell.y as int);
                        assert(prev[t] == cell);
                    }
                }
            }
            if !blocked[idx] && !self.reserved_cells[idx] && clear[idx] {
                self.reserved_cells.set(idx, true);
                self.planned_slots.push(cell);
                proof {
                    let now = self.planned_slots@;
                    assert forall|c: int|
                        0 <= c < wi * hi implies (#[trigger] self.reserved_cells@[c] <==> exists|t: int|
                            0 <= t < now.len() && cell_index(wi, now[t].x as int, now[t].y as int) == c) by {
                        if c == idx as int {
                            assert(now[now.len() - 1] == cell);
                        } else if exists|t: int| 0 <= t < now.len() && cell_index(wi, now[t].x as int, now[t].y as int) == c {
                            let t = choose|t: int| 0 <= t < now.len() && cell_index(wi, now[t].x as int, now[t].y as int) == c;
                            assert(t < prev.len());
                            assert(prev[t] == now[t]);
                        } else if self.reserved_cells@[c] {
                            let t = choose|t: int| 0 <= t < prev.len() && cell_index(wi, prev[t].x as int, prev[t].y as int) == c;
                            assert(now[t] == prev[t]);
                        }
                    }
                }
            }
            k = k + 1;
        }
        let m = self.planned_slots.len();
        let ghost chosen = self.planned_slots@;
        let mut t: usize = 0;
        while t < m
            invariant
                t <= m,
                m == self.planned_slots@.len(),
                self.planned_slots@ == chosen,
                self.planned_units@ == old(self).planned_units@,
                wi == width,
                hi == height,
                width > 0,
                width * height < u32::MAX,
                self.reserved_cells@.len() == wi * hi,
                forall|t2: int| 0 <= t2 < m ==> on_grid(wi, hi, (#[trigger] self.planned_slots@[t2]).x as int, self.planned_slots@[t2].y as int),
                forall|c: int|
                    0 <= c < wi * hi ==> (#[trigger] self.reserved_cells@[c] ==> exists|t2: int|
                        t <= t2 < m && cell_index(wi, self.planned_slots@[t2].x as int, self.planned_slots@[t2].y as int) == c),
            decreases m - t,
        {
            let idx = flat_index(self.planned_slots[t], width, height);
            let ghost before = self.reserved_cells@;
            self.reserved_cells.set(idx, false);
            proof {
                assert forall|c: int|
                    0 <= c < wi * hi && #[trigger] self.reserved_cells@[c] implies exists|t2: int|
                        t + 1 <= t2 < m && cell_index(wi, self.planned_slots@[t2].x as int, self.planned_slots@[t2].y as int) == c by {
                    {
                        if c == idx as int {
                            assert(!self.reserved_cells@[c]);
                        }
                        assert(before[c]);
                        let t2 = choose|t2: int|
                            t <= t2 < m && cell_index(wi, self.planned_slots@[t2].x as int, self.planned_slots@[t2].y as int) == c;
                        assert(t2 != t);
                    }
                }
            }
            t = t + 1;
        }
        proof {
            lemma_select_prefix(all, k as int, legal);
            if m == n {
                assert(all.subrange(0, k as int) =~= all.subrange(0, k as int));
            } else {
                assert(k == all.len());
                assert(all.subrange(0, k as int) =~= all);
            }
        }
        if m < n {
            self.planned_slots.clear();
            return Err(FormationError::NoFormationSpace);
        }
        proof {
            let sel = select_slots(all, legal);
            assert(sel.subrange(0, n as int) =~= self.planned_slots@);
        }
        Ok(())
    }
}

/// Among `ord[i..]` there is always a first one ranking first.
proof fn lemma_nearest_exists(d: Seq<u32>, sel: Seq<Cell>, ord: Seq<usize>, i: int) -> (b: int)
    requires
        0 <= i < ord.len(),
    ensures
        nearest_from(d, sel, ord, i, b),
    decreases ord.len() - i,
{
    if i + 1 == ord.len() {
        i
    } else {
        let b1 = lemma_nearest_exists(d, sel, ord, i + 1);
        if ranks_before(d, sel, ord[b1] as int, ord[i] as int) {
            assert forall|j: int| i <= j < ord.len() implies !#[trigger] ranks_before(d, sel, ord[j] as int, ord[b1] as int) by {
                if j > i {
                    assert(!ranks_before(d, sel, ord[j] as int, ord[b1] as int));
                }
            }
            assert forall|j: int| i <= j < b1 implies #[trigger] ranks_before(d, sel, ord[b1] as int, ord[j] as int) by {
                if j > i {
                    assert(ranks_before(d, sel, ord[b1] as int, ord[j] as int));
                }
            }
            b1
        } else {
            assert forall|j: int| i <= j < ord.len() implies !#[trigger] ranks_before(d, sel, ord[j] as int, ord[i] as int) by {
                if j > i {
                    assert(!ranks_before(d, sel, ord[j] as int, ord[b1] as int));
                }
            }
            i
        }
    }
}

/// The order is a permutation of the slot indices.
proof fn lemma_order_permutes(sel: Seq<Cell>, keys: Seq<Option<Vec<u32>>>, k: int)
    requires
        0 <= k <= sel.len(),
        sel.len() <= usize::MAX,
    ensures
        assigned_order(sel, keys, k).len() == sel.len(),
        forall|q: int| 0 <= q < sel.len() ==> #[trigger] assigned_order(sel, keys, k)[q] < sel.len(),
        assigned_order(sel, keys, k).no_duplicates(),
    decreases k,
{
    if k > 0 {
        lemma_order_permutes(sel, keys, k - 1);
        let s = assigned_order(sel, keys, k - 1);
        match keys[k - 1] {
            None => {},
            Some(d) => {
                let b0 = lemma_nearest_exists(d@, sel, s, k - 1);
                let b = choose|b: int| #[trigger] nearest_from(d@, sel, s, k - 1, b);
                lemma_nearest_unique(d@, sel, s, k - 1, b, b0);
                let t = s.update(k - 1, s[b]).update(b, s[k - 1]);
                assert forall|q: int| 0 <= q < sel.len() implies #[trigger] t[q] < sel.len() by {
                    if q != b && q != k - 1 {
                        assert(t[q] == s[q]);
                    }
                }
                assert forall|x: int, y: int| 0 <= x < t.len() && 0 <= y < t.len() && x != y implies t[x] != t[y] by {
                    let sx = if x == b { k - 1 } else if x == k - 1 { b } else { x };
                    let sy = if y == b { k - 1 } else if y == k - 1 { b } else { y };
                    assert(t[x] == s[sx] && t[y] == s[sy]);
                }
            },
        }
    } else {
        assert forall|x: int, y: int| 0 <= x < sel.len() && 0 <= y < sel.len() && x != y implies assigned_order(
            sel,
            keys,
            0,
        )[x] != assigned_order(sel, keys, 0)[y] by {}
    }
}

proof fn lemma_order_in_range(sel: Seq<Cell>, keys: Seq<Option<Vec<u32>>>, k: int)
    requires
        0 <= k <= sel.len(),
        sel.len() <= usize::MAX,
    ensures
        forall|q: int| 0 <= q < sel.len() ==> #[trigger] assigned_order(sel, keys, k)[q] < sel.len(),
        assigned_order(sel, keys, k).len() == sel.len(),
{
    lemma_order_permutes(sel, keys, k);
}

/// The slots a plan takes are each taken once.
proof fn lemma_select_distinct(cands: Seq<Cell>, legal: spec_fn(Cell) -> bool)
    ensures
        select_slots(cands, legal).no_duplicates(),
        forall|x: Cell| #[trigger] select_slots(cands, legal).contains(x) ==> cands.contains(x) && legal(x),
    decreases cands.len(),
{
    if cands.len() > 0 {
        lemma_select_distinct(cands.drop_last(), legal);
        let prev = select_slots(cands.drop_last(), legal);
        let c = cands.last();
        assert forall|x: Cell| #[trigger] select_slots(cands, legal).contains(x) implies cands.contains(x) && legal(x) by {
            if prev.contains(x) {
                assert(cands.drop_last().contains(x));
                let k = choose|k: int| 0 <= k < cands.drop_last().len() && cands.drop_last()[k] == x;
                assert(cands[k] == x);
            } else {
                assert(x == c);
                assert(cands[cands.len() - 1] == c);
            }
        }
    }
}

/// Members taking slots in turn only reorder them: the same slots, each
/// still taken once.
proof fn lemma_assigned_permutes(sel: Seq<Cell>, keys: Seq<Option<Vec<u32>>>, k: int)
    requires
        0 <= k <= sel.len(),
        sel.len() <= usize::MAX,
    ensures
        assigned(sel, keys, k).len() == sel.len(),
        forall|x: Cell| #[trigger] assigned(sel, keys, k).contains(x) ==> sel.contains(x),
        sel.no_duplicates() ==> assigned(sel, keys, k).no_duplicates(),
{
    lemma_order_permutes(sel, keys, k);
    let ord = assigned_order(sel, keys, k);
    let t = assigned(sel, keys, k);
    assert forall|x: Cell| #[trigger] t.contains(x) implies sel.contains(x) by {
        let j = choose|j: int| 0 <= j < t.len() && t[j] == x;
        assert(sel[ord[j] as int] == x);
    }
    if sel.no_duplicates() {
        assert forall|x: int, y: int| 0 <= x < t.len() && 0 <= y < t.len() && x != y implies t[x] != t[y] by {
            assert(ord[x] != ord[y]);
        }
    }
}

/// A plan hands each member its own slot: the slots of an accepted plan,
/// once matched to members, are distinct, each a legal candidate around the
/// anchor.
pub proof fn lemma_plan_slots_distinct(
    anchor: Cell,
    w: int,
    h: int,
    legal: spec_fn(Cell) -> bool,
    keys: Seq<Option<Vec<u32>>>,
    n: int,
)
    requires
        0 <= n <= select_slots(formation_candidates(anchor, w, h), legal).len(),
        n <= usize::MAX,
    ensures
        ({
            let slots = assigned(select_slots(formation_candidates(anchor, w, h), legal).subrange(0, n), keys, n);
            &&& slots.len() == n
            &&& slots.no_duplicates()
            &&& forall|x: Cell| #[trigger] slots.contains(x) ==> formation_candidates(anchor, w, h).contains(x) && legal(x)
        }),
{
    let all = formation_candidates(anchor, w, h);
    let sel = select_slots(all, legal);
    lemma_select_distinct(all, legal);
    let first = sel.subrange(0, n);
    assert forall|x: Cell| #[trigger] first.contains(x) implies sel.contains(x) by {
        let j = choose|j: int| 0 <= j < first.len() && first[j] == x;
        assert(sel[j] == x);
    }
    lemma_assigned_permutes(first, keys, n);
}

/// Every candidate lies on the grid.
proof fn lemma_candidates_on_grid(anchor: Cell, w: int, h: int, r_end: int, k: int)
    requires
        0 <= k < rings(anchor, w, h, r_end).len(),
    ensures
        on_grid(w, h, rings(anchor, w, h, r_end)[k].x as int, rings(anchor, w, h, r_end)[k].y as int),
    decreases r_end,
{
    let prev = rings(anchor, w, h, r_end - 1);
    if k < prev.len() {
        lemma_candidates_on_grid(anchor, w, h, r_end - 1, k);
    } else {
        lemma_ring_rows_on_grid(anchor, w, h, r_end - 1, r_end, k - prev.len());
    }
}

proof fn lemma_ring_rows_on_grid(anchor: Cell, w: int, h: int, r: int, dy_end: int, k: int)
    requires
        0 <= k < ring_rows(anchor, w, h, r, dy_end).len(),
    ensures
        on_grid(w, h, ring_rows(anchor, w, h, r, dy_end)[k].x as int, ring_rows(anchor, w, h, r, dy_end)[k].y as int),
    decreases dy_end + r,
{
    let prev = ring_rows(anchor, w, h, r, dy_end - 1);
    if k < prev.len() {
        lemma_ring_rows_on_grid(anchor, w, h, r, dy_end - 1, k);
    } else {
        lemma_ring_row_on_grid(anchor, w, h, r, dy_end - 1, r + 1, k - prev.len());
    }
}

proof fn lemma_ring_row_on_grid(anchor: Cell, w: int, h: int, r: int, dy: int, dx_end: int, k: int)
    requires
        0 <= k < ring_row(anchor, w, h, r, dy, dx_end).len(),
    ensures
        on_grid(w, h, ring_row(anchor, w, h, r, dy, dx_end)[k].x as int, ring_row(anchor, w, h, r, dy, dx_end)[k].y as int),
    decreases dx_end + r,
{
    let prev = ring_row(anchor, w, h, r, dy, dx_end - 1);
    if k < prev.len() {
        lemma_ring_row_on_grid(anchor, w, h, r, dy, dx_end - 1, k);
    }
}

} // verus!
