//! Radius-aware static world geometry: which cell centres a unit body may
//! stand on, and which of those a body can walk between.
//!
//! Every current unit kind shares a 3-cell body radius. A cell is legal for
//! a body when the body, centred on the cell, stays inside the map and
//! penetrates no static solid (touching is legal). Legal cells are grouped
//! into regions by the walking rule of the pooled flow fields: eight
//! neighbours, never cutting a blocked corner.

use vstd::prelude::*;

use crate::scenario::{Cell, Scenario};

use super::entity::RTS_UNIT_BODY_RADIUS_HALF_CELLS;
use super::grid::{
    cell_index, centre_blocked_mask, centre_mask, coords, label_components, labels_exact, labels_seeded, lemma_coords,
    lemma_index, on_grid, walkable, NO_COMPONENT,
};

verus! {

/// Failures building a [`StaticNav`].
#[derive(Debug, Clone, Copy, PartialEq, Eq, Structural)]
pub enum StaticNavError {
    EmptyGrid,
    InvalidObstacleIndex(u32),
}

/// A static object besides terrain: a resource node occupies its one cell
/// (it blocks bodies, not placement); a finished building occupies its
/// square footprint (it blocks both). A construction site is not static.
#[derive(Debug, Clone, Copy, PartialEq, Eq, Structural)]
pub enum StaticSolid {
    Node(Cell),
    Building { min: Cell, edge: u32 },
}

/// Static (never-moving) world geometry.
pub struct StaticNav {
    width: u32,
    height: u32,
    /// Terrain, resource-node cells and finished building footprints.
    solids: Vec<bool>,
    /// Terrain and finished buildings only: the mask placement reads.
    placement_solids: Vec<bool>,
    /// Per cell: can a body of the last rebuilt radius not stand here?
    center_blocked: Vec<bool>,
    /// Region label per cell over `center_blocked`.
    components: Vec<u32>,
}

/// What a [`StaticNav`] holds.
pub struct StaticNavView {
    pub width: u32,
    pub height: u32,
    pub solids: Seq<bool>,
    pub placement_solids: Seq<bool>,
    pub center_blocked: Seq<bool>,
    pub components: Seq<u32>,
}

impl View for StaticNav {
    type V = StaticNavView;

    closed spec fn view(&self) -> StaticNavView {
        StaticNavView {
            width: self.width,
            height: self.height,
            solids: self.solids@,
            placement_solids: self.placement_solids@,
            center_blocked: self.center_blocked@,
            components: self.components@,
        }
    }
}

/// Cell `(x, y)` lies in the `edge`-cell square whose minimum corner is `min`.
pub open spec fn in_square(x: int, y: int, min: Cell, edge: int) -> bool {
    min.x <= x < min.x + edge && min.y <= y < min.y + edge
}

/// `mask` with every cell of the square set to `v`.
pub open spec fn paint_square(mask: Seq<bool>, w: int, min: Cell, edge: int, v: bool) -> Seq<bool> {
    Seq::new(mask.len(), |c: int| if in_square(coords(w, c).0, coords(w, c).1, min, edge) { v } else { mask[c] })
}

/// `mask` with one static object stamped in; `placement` selects the
/// placement mask, which resource nodes do not touch.
pub open spec fn apply_static(mask: Seq<bool>, w: int, h: int, s: StaticSolid, placement: bool) -> Seq<bool> {
    match s {
        StaticSolid::Node(c) => if placement || !on_grid(w, h, c.x as int, c.y as int) {
            mask
        } else {
            mask.update(cell_index(w, c.x as int, c.y as int), true)
        },
        StaticSolid::Building { min, edge } => paint_square(mask, w, min, edge as int, true),
    }
}

/// `mask` with each static object stamped in, in order.
pub open spec fn apply_statics(mask: Seq<bool>, w: int, h: int, statics: Seq<StaticSolid>, placement: bool) -> Seq<bool>
    decreases statics.len(),
{
    if statics.len() == 0 {
        mask
    } else {
        apply_static(apply_statics(mask, w, h, statics.drop_last(), placement), w, h, statics.last(), placement)
    }
}

/// The terrain mask of `n` cells: the listed obstacle cells.
pub open spec fn obstacle_mask(obstacles: Seq<u32>, n: int) -> Seq<bool> {
    Seq::new(n as nat, |c: int| obstacles.contains(c as u32))
}

/// The first listed obstacle index off an `n`-cell grid.
pub open spec fn first_off_grid(obstacles: Seq<u32>, n: int) -> Option<u32>
    decreases obstacles.len(),
{
    if obstacles.len() == 0 {
        None
    } else if obstacles[0] >= n {
        Some(obstacles[0])
    } else {
        first_off_grid(obstacles.drop_first(), n)
    }
}

proof fn lemma_first_off_grid_skip(obstacles: Seq<u32>, n: int, k: int)
    requires
        0 <= k < obstacles.len(),
        obstacles[k] < n,
    ensures
        first_off_grid(obstacles.subrange(k, obstacles.len() as int), n) == first_off_grid(
            obstacles.subrange(k + 1, obstacles.len() as int),
            n,
        ),
{
    let s = obstacles.subrange(k, obstacles.len() as int);
    assert(s.drop_first() =~= obstacles.subrange(k + 1, obstacles.len() as int));
}

/// The view of the nav a scenario and its static objects give.
pub open spec fn static_nav_of(obstacles: Seq<u32>, w: int, h: int, statics: Seq<StaticSolid>) -> (Seq<bool>, Seq<bool>) {
    (
        apply_statics(obstacle_mask(obstacles, w * h), w, h, statics, false),
        apply_statics(obstacle_mask(obstacles, w * h), w, h, statics, true),
    )
}

/// Clearing a square that stamping found clear gives the mask back.
pub proof fn lemma_unstamp_undoes_stamp(mask: Seq<bool>, w: int, min: Cell, edge: int)
    requires
        forall|c: int| 0 <= c < mask.len() && in_square(coords(w, c).0, coords(w, c).1, min, edge) ==> !mask[c],
    ensures
        paint_square(paint_square(mask, w, min, edge, true), w, min, edge, false) == mask,
{
    assert(paint_square(paint_square(mask, w, min, edge, true), w, min, edge, false) =~= mask);
}

/// Set every on-grid cell of the square to `v`.
fn paint_square_exec(mask: &mut Vec<bool>, w: u32, h: u32, min: Cell, edge: u32, v: bool)
    requires
        w > 0,
        old(mask).len() == w * h,
    ensures
        final(mask)@ == paint_square(old(mask)@, w as int, min, edge as int, v),
{
    let ghost wi = w as int;
    let ghost hi = h as int;
    let ghost m0 = mask@;
    let x_hi: u64 = if (min.x as u64) + (edge as u64) < w as u64 { min.x as u64 + edge as u64 } else { w as u64 };
    let y_hi: u64 = if (min.y as u64) + (edge as u64) < h as u64 { min.y as u64 + edge as u64 } else { h as u64 };
    let mut y: u64 = min.y as u64;
    while y < y_hi
        invariant
            wi == w,
            hi == h,
            w > 0,
            mask.len() == m0.len(),
            m0.len() == wi * hi,
            min.y <= y,
            y_hi <= h,
            x_hi <= w,
            y_hi <= min.y + edge,
            x_hi <= min.x + edge,
            x_hi == w || x_hi == min.x + edge,
            forall|c: int|
                0 <= c < mask.len() ==> #[trigger] mask@[c] == if in_square(coords(wi, c).0, coords(wi, c).1, min, edge as int)
                    && coords(wi, c).1 < y {
                    v
                } else {
                    m0[c]
                },
        decreases y_hi - y,
    {
        let mut x: u64 = min.x as u64;
        while x < x_hi
            invariant
                wi == w,
                hi == h,
                w > 0,
                mask.len() == m0.len(),
                m0.len() == wi * hi,
                min.y <= y < y_hi,
                min.x <= x,
                y_hi <= h,
                x_hi <= w,
                y_hi <= min.y + edge,
                x_hi <= min.x + edge,
                x_hi == w || x_hi == min.x + edge,
            x_hi == w || x_hi == min.x + edge,
                forall|c: int|
                    0 <= c < mask.len() ==> #[trigger] mask@[c] == if in_square(coords(wi, c).0, coords(wi, c).1, min, edge as int)
                        && (coords(wi, c).1 < y || (coords(wi, c).1 == y && coords(wi, c).0 < x)) {
                        v
                    } else {
                        m0[c]
                    },
            decreases x_hi - x,
        {
            proof {
                lemma_index(wi, hi, x as int, y as int);
            }
            let idx: usize = x as usize + y as usize * w as usize;
            let ghost before = mask@;
            mask.set(idx, v);
            proof {
                assert forall|c: int|
                    0 <= c < mask.len() implies #[trigger] mask@[c] == if in_square(coords(wi, c).0, coords(wi, c).1, min, edge as int)
                        && (coords(wi, c).1 < y || (coords(wi, c).1 == y && coords(wi, c).0 < x + 1)) {
                        v
                    } else {
                        m0[c]
                    } by {
                    lemma_coords(wi, hi, c);
                    if c != idx as int {
                        assert(before[c] == mask@[c]);
                        assert(coords(wi, c) != (x as int, y as int));
                    }
                }
            }
            x = x + 1;
        }
        proof {
            assert forall|c: int|
                0 <= c < mask.len() implies #[trigger] mask@[c] == if in_square(coords(wi, c).0, coords(wi, c).1, min, edge as int)
                    && coords(wi, c).1 < y + 1 {
                    v
                } else {
                    m0[c]
                } by {
                lemma_coords(wi, hi, c);
            }
        }
        y = y + 1;
    }
    proof {
        assert forall|c: int| 0 <= c < mask.len() implies #[trigger] mask@[c] == paint_square(m0, wi, min, edge as int, v)[c] by {
            lemma_coords(wi, hi, c);
        }
        assert(mask@ =~= paint_square(m0, wi, min, edge as int, v));
    }
}

impl StaticNav {
    /// The masks agree in size with the grid, and the region labels are
    /// exact over the centre mask.
    pub open spec fn wf(&self) -> bool {
        let v = self@;
        &&& v.width > 0
        &&& v.height > 0
        &&& v.width * v.height < NO_COMPONENT
        &&& v.solids.len() == v.width * v.height
        &&& v.placement_solids.len() == v.width * v.height
        &&& v.center_blocked.len() == v.width * v.height
        &&& labels_exact(v.center_blocked, v.width as int, v.height as int, v.components)
        &&& exists|seeds: Seq<int>| labels_seeded(v.center_blocked, v.components, seeds)
    }

    /// Build from a validated scenario and the static objects standing when
    /// every static object exists but no unit has been placed; centres are
    /// then checked for the shared unit body radius.
    pub fn new(scenario: &Scenario, statics: &[StaticSolid]) -> (r: Result<Self, StaticNavError>)
        requires
            scenario@.width * scenario@.height < NO_COMPONENT,
        ensures
            match r {
                Err(StaticNavError::EmptyGrid) => scenario@.width == 0 || scenario@.height == 0,
                Err(StaticNavError::InvalidObstacleIndex(oi)) => scenario@.width > 0 && scenario@.height > 0
                    && first_off_grid(scenario@.obstacle_cells, scenario@.width * scenario@.height) == Some(oi),
                Ok(nav) => {
                    &&& scenario@.width > 0
                    &&& scenario@.height > 0
                    &&& first_off_grid(scenario@.obstacle_cells, scenario@.width * scenario@.height) is None
                    &&& nav.wf()
                    &&& nav@.width == scenario@.width
                    &&& nav@.height == scenario@.height
                    &&& (nav@.solids, nav@.placement_solids) == static_nav_of(
                        scenario@.obstacle_cells,
                        scenario@.width as int,
                        scenario@.height as int,
                        statics@,
                    )
                    &&& centre_mask(
                        nav@.solids,
                        nav@.width as int,
                        nav@.height as int,
                        RTS_UNIT_BODY_RADIUS_HALF_CELLS as int,
                        nav@.center_blocked,
                    )
                },
            },
    {
        let width = scenario.width();
        let height = scenario.height();
        if width == 0 || height == 0 {
            return Err(StaticNavError::EmptyGrid);
        }
        let ghost wi = width as int;
        let ghost hi = height as int;
        let n: usize = width as usize * height as usize;
        let obstacles = scenario.obstacle_cells();
        let mut solids: Vec<bool> = Vec::new();
        let mut k: usize = 0;
        while k < n
            invariant
                k <= n,
                solids.len() == k,
                forall|j: int| 0 <= j < k ==> !solids[j],
            decreases n - k,
        {
            solids.push(false);
            k = k + 1;
        }
        let mut i: usize = 0;
        proof {
            assert(obstacles@.subrange(0, obstacles@.len() as int) =~= obstacles@);
        }
        while i < obstacles.len()
            invariant
                i <= obstacles.len(),
                obstacles@ == scenario@.obstacle_cells,
                width == scenario@.width,
                height == scenario@.height,
                wi == width,
                hi == height,
                width > 0,
                height > 0,
                n < 0xffff_ffff,
                n == wi * hi,
                solids.len() == n,
                forall|c: int| 0 <= c < n ==> #[trigger] solids[c] == obstacles@.subrange(0, i as int).contains(c as u32),
                first_off_grid(obstacles@, n as int) == first_off_grid(obstacles@.subrange(i as int, obstacles@.len() as int), n as int),
            decreases obstacles.len() - i,
        {
            let oi = obstacles[i];
            if oi as usize >= n {
                proof {
                    let rest = obstacles@.subrange(i as int, obstacles@.len() as int);
                    assert(rest[0] == oi);
                }
                return Err(StaticNavError::InvalidObstacleIndex(oi));
            }
            let ghost before = solids@;
            solids.set(oi as usize, true);
            proof {
                lemma_first_off_grid_skip(obstacles@, n as int, i as int);
                assert forall|c: int| 0 <= c < n implies #[trigger] solids[c] == obstacles@.subrange(0, i as int + 1).contains(c as u32) by {
                    let pre = obstacles@.subrange(0, i as int);
                    let pre1 = obstacles@.subrange(0, i as int + 1);
                    assert(pre1 =~= pre.push(oi));
                    if c == oi as int {
                        assert(pre1[i as int] == oi);
                    } else {
                        assert(before[c] == solids[c]);
                        if pre1.contains(c as u32) {
                            let t = choose|t: int| 0 <= t < pre1.len() && pre1[t] == c as u32;
                            assert(pre[t] == c as u32);
                        }
                        if pre.contains(c as u32) {
                            let t = choose|t: int| 0 <= t < pre.len() && pre[t] == c as u32;
                            assert(pre1[t] == c as u32);
                        }
                    }
                }
            }
            i = i + 1;
        }
        proof {
            assert(obstacles@.subrange(0, i as int) =~= obstacles@);
            assert(obstacles@.subrange(i as int, obstacles@.len() as int) =~= Seq::<u32>::empty());
            assert(solids@ =~= obstacle_mask(scenario@.obstacle_cells, n as int));
        }
        let mut placement_solids = solids.clone();
        proof {
            assert(placement_solids@ =~= solids@);
        }
        let mut s: usize = 0;
        while s < statics.len()
            invariant
                s <= statics.len(),
                wi == width,
                hi == height,
                width > 0,
                n == wi * hi,
                solids.len() == n,
                placement_solids.len() == n,
                solids@ == apply_statics(obstacle_mask(scenario@.obstacle_cells, n as int), wi, hi, statics@.subrange(0, s as int), false),
                placement_solids@ == apply_statics(obstacle_mask(scenario@.obstacle_cells, n as int), wi, hi, statics@.subrange(0, s as int), true),
            decreases statics.len() - s,
        {
            proof {
                assert(statics@.subrange(0, s as int + 1).drop_last() =~= statics@.subrange(0, s as int));
            }
            match statics[s] {
                StaticSolid::Node(c) => {
                    if c.x < width && c.y < height {
                        proof {
                            lemma_index(wi, hi, c.x as int, c.y as int);
                        }
                        solids.set(c.x as usize + c.y as usize * width as usize, true);
                    }
                },
                StaticSolid::Building { min, edge } => {
                    paint_square_exec(&mut solids, width, height, min, edge, true);
                    paint_square_exec(&mut placement_solids, width, height, min, edge, true);
                },
            }
            s = s + 1;
        }
        proof {
            assert(statics@.subrange(0, s as int) =~= statics@);
        }
        let center_blocked = centre_blocked_mask(&solids, width, height, RTS_UNIT_BODY_RADIUS_HALF_CELLS);
        let components = label_components(&center_blocked, width, height);
        Ok(StaticNav { width, height, solids, placement_solids, center_blocked, components })
    }

    pub fn width(&self) -> (r: u32)
        ensures
            r == self@.width,
    {
        self.width
    }

    pub fn height(&self) -> (r: u32)
        ensures
            r == self@.height,
    {
        self.height
    }

    /// Per cell: whether a body of the radius last rebuilt cannot stand
    /// centred there.
    pub fn center_blocked(&self) -> (r: &[bool])
        ensures
            r@ == self@.center_blocked,
    {
        self.center_blocked.as_slice()
    }

    /// Terrain, resource-node cells and finished building footprints: the
    /// mask body clearance is measured against.
    pub fn solids(&self) -> (r: &[bool])
        ensures
            r@ == self@.solids,
    {
        self.solids.as_slice()
    }

    /// Terrain and finished buildings only: the mask placement reads.
    pub fn placement_solids(&self) -> (r: &[bool])
        ensures
            r@ == self@.placement_solids,
    {
        self.placement_solids.as_slice()
    }

    /// Stamp a finished building's footprint into both solid masks. The
    /// centre mask and regions are left as they are until the next rebuild.
    pub fn stamp_finished_building(&mut self, min: Cell, edge: u32)
        requires
            old(self).wf(),
            min.x + edge <= 0x1_0000_0000,
            min.y + edge <= 0x1_0000_0000,
        ensures
            final(self).wf(),
            final(self)@.width == old(self)@.width,
            final(self)@.height == old(self)@.height,
            final(self)@.solids == paint_square(old(self)@.solids, old(self)@.width as int, min, edge as int, true),
            final(self)@.placement_solids == paint_square(old(self)@.placement_solids, old(self)@.width as int, min, edge as int, true),
            final(self)@.center_blocked == old(self)@.center_blocked,
            final(self)@.components == old(self)@.components,
    {
        paint_square_exec(&mut self.solids, self.width, self.height, min, edge, true);
        paint_square_exec(&mut self.placement_solids, self.width, self.height, min, edge, true);
    }

    /// Clear a destroyed building's footprint from both solid masks, the
    /// inverse of [`Self::stamp_finished_building`] on a footprint that was
    /// clear when stamped.
    pub fn unstamp_finished_building(&mut self, min: Cell, edge: u32)
        requires
            old(self).wf(),
            min.x + edge <= 0x1_0000_0000,
            min.y + edge <= 0x1_0000_0000,
        ensures
            final(self).wf(),
            final(self)@.width == old(self)@.width,
            final(self)@.height == old(self)@.height,
            final(self)@.solids == paint_square(old(self)@.solids, old(self)@.width as int, min, edge as int, false),
            final(self)@.placement_solids == paint_square(old(self)@.placement_solids, old(self)@.width as int, min, edge as int, false),
            final(self)@.center_blocked == old(self)@.center_blocked,
            final(self)@.components == old(self)@.components,
    {
        paint_square_exec(&mut self.solids, self.width, self.height, min, edge, false);
        paint_square_exec(&mut self.placement_solids, self.width, self.height, min, edge, false);
    }

    /// Recompute the centre mask for a body of `radius_half_cells` half
    /// cells from the current solids, and relabel the regions.
    pub fn rebuild_center_blocked(&mut self, radius_half_cells: u32)
        requires
            old(self).wf(),
        ensures
            final(self).wf(),
            final(self)@.width == old(self)@.width,
            final(self)@.height == old(self)@.height,
            final(self)@.solids == old(self)@.solids,
            final(self)@.placement_solids == old(self)@.placement_solids,
            centre_mask(
                final(self)@.solids,
                final(self)@.width as int,
                final(self)@.height as int,
                radius_half_cells as int,
                final(self)@.center_blocked,
            ),
    {
        let mask = centre_blocked_mask(&self.solids, self.width, self.height, radius_half_cells);
        let components = label_components(&mask, self.width, self.height);
        self.center_blocked = mask;
        self.components = components;
    }

    /// The region `cell` belongs to, or `None` when a body cannot stand
    /// there or it is off the grid.
    pub fn component_at(&self, cell: Cell) -> (r: Option<u32>)
        requires
            self.wf(),
        ensures
            r == if on_grid(self@.width as int, self@.height as int, cell.x as int, cell.y as int)
                && !self@.center_blocked[cell_index(self@.width as int, cell.x as int, cell.y as int)] {
                Some(self@.components[cell_index(self@.width as int, cell.x as int, cell.y as int)])
            } else {
                None::<u32>
            },
    {
        if cell.x >= self.width || cell.y >= self.height {
            return None;
        }
        proof {
            lemma_index(self.width as int, self.height as int, cell.x as int, cell.y as int);
        }
        let c = self.components[cell.x as usize + cell.y as usize * self.width as usize];
        if c == NO_COMPONENT {
            None
        } else {
            Some(c)
        }
    }

    /// Whether a body standing at `a` could walk to `b`. Blocked or off-grid
    /// on either side is `false`.
    pub fn connected(&self, a: Cell, b: Cell) -> (r: bool)
        requires
            self.wf(),
        ensures
            r == (on_grid(self@.width as int, self@.height as int, a.x as int, a.y as int)
                && on_grid(self@.width as int, self@.height as int, b.x as int, b.y as int)
                && !self@.center_blocked[cell_index(self@.width as int, a.x as int, a.y as int)]
                && !self@.center_blocked[cell_index(self@.width as int, b.x as int, b.y as int)]
                && walkable(
                self@.center_blocked,
                self@.width as int,
                self@.height as int,
                (a.x as int, a.y as int),
                (b.x as int, b.y as int),
            )),
    {
        let ca = self.component_at(a);
        let cb = self.component_at(b);
        let ghost w = self@.width as int;
        let ghost h = self@.height as int;
        match (ca, cb) {
            (Some(x), Some(y)) => {
                proof {
                    let ia = cell_index(w, a.x as int, a.y as int);
                    let ib = cell_index(w, b.x as int, b.y as int);
                    lemma_index(w, h, a.x as int, a.y as int);
                    lemma_index(w, h, b.x as int, b.y as int);
                    assert(self@.components[ia] == self@.components[ib] <==> walkable(
                        self@.center_blocked,
                        w,
                        h,
                        coords(w, ia),
                        coords(w, ib),
                    ));
                }
                x == y
            },
            _ => {
                proof {
                    if on_grid(w, h, a.x as int, a.y as int) && on_grid(w, h, b.x as int, b.y as int) {
                        lemma_index(w, h, a.x as int, a.y as int);
                        lemma_index(w, h, b.x as int, b.y as int);
                    }
                }
                false
            },
        }
    }
}

} // verus!
