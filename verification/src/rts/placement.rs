//! Building costs, build times, supply grants, and placement validity.

use vstd::prelude::*;

use crate::scenario::Cell;

use super::economy::Resources;
use super::entity::{
    spawned, spec_building_footprint, spec_contains, BuildingKind, EntityId, EntityKind, EntityStore,
    Slot, StoreView, UnitKind, OWNER_PLAYER,
};
use super::grid::{cell_index, lemma_index};
use super::static_nav::{StaticNav, StaticNavView};

verus! {

/// The minimum corner of a footprint of `edge` cells centred on `cell`:
/// `cell - edge / 2`, saturating at zero.
pub open spec fn spec_ghost_min_corner(cell: Cell, edge: u32) -> Cell {
    Cell {
        x: if cell.x >= edge / 2 { (cell.x - edge / 2) as u32 } else { 0 },
        y: if cell.y >= edge / 2 { (cell.y - edge / 2) as u32 } else { 0 },
    }
}

/// The minimum corner of a footprint of `edge` cells centred on `cell`. The
/// ghost follows the cursor's cell as its centre.
pub fn ghost_min_corner(cell: Cell, edge: u32) -> (r: Cell)
    ensures
        r == spec_ghost_min_corner(cell, edge),
{
    let half = edge / 2;
    Cell {
        x: if cell.x >= half { cell.x - half } else { 0 },
        y: if cell.y >= half { cell.y - half } else { 0 },
    }
}

/// Cost of a building kind: an HQ 400 crystal, a Depot 100, a Barracks 150
/// crystal and 25 gas.
pub open spec fn spec_building_cost(kind: BuildingKind) -> Resources {
    match kind {
        BuildingKind::Hq => Resources { crystal: 400, gas: 0 },
        BuildingKind::Depot => Resources { crystal: 100, gas: 0 },
        _ => Resources { crystal: 150, gas: 25 },
    }
}

/// Cost of a building kind the build menu offers.
pub fn building_cost(kind: BuildingKind) -> (r: Resources)
    requires
        !(kind is Turret),
    ensures
        r == spec_building_cost(kind),
{
    match kind {
        BuildingKind::Hq => Resources { crystal: 400, gas: 0 },
        BuildingKind::Depot => Resources { crystal: 100, gas: 0 },
        _ => Resources { crystal: 150, gas: 25 },
    }
}

/// Ticks of attended construction each building needs. 60 ticks = 1 second.
pub const HQ_BUILD_TICKS: u32 = 600;
pub const DEPOT_BUILD_TICKS: u32 = 180;
pub const BARRACKS_BUILD_TICKS: u32 = 300;

/// Attended construction time of a building kind the build menu offers.
pub open spec fn spec_build_ticks(kind: BuildingKind) -> u32 {
    match kind {
        BuildingKind::Hq => HQ_BUILD_TICKS,
        BuildingKind::Depot => DEPOT_BUILD_TICKS,
        _ => BARRACKS_BUILD_TICKS,
    }
}

/// Attended construction time of a building kind the build menu offers.
pub fn build_ticks(kind: BuildingKind) -> (r: u32)
    requires
        !(kind is Turret),
    ensures
        r == spec_build_ticks(kind),
{
    match kind {
        BuildingKind::Hq => HQ_BUILD_TICKS,
        BuildingKind::Depot => DEPOT_BUILD_TICKS,
        _ => BARRACKS_BUILD_TICKS,
    }
}

/// Supply ceiling a finished building grants.
pub const HQ_SUPPLY_GRANT: u32 = 10;
pub const DEPOT_SUPPLY_GRANT: u32 = 10;
pub const BARRACKS_SUPPLY_GRANT: u32 = 0;

/// Supply cap granted by a finished building of each kind.
pub open spec fn spec_supply_grant(kind: BuildingKind) -> u32 {
    match kind {
        BuildingKind::Hq => HQ_SUPPLY_GRANT,
        BuildingKind::Depot => DEPOT_SUPPLY_GRANT,
        _ => BARRACKS_SUPPLY_GRANT,
    }
}

/// Supply cap a finished building of a kind the build menu offers grants.
pub fn supply_grant(kind: BuildingKind) -> (r: u32)
    requires
        !(kind is Turret),
    ensures
        r == spec_supply_grant(kind),
{
    match kind {
        BuildingKind::Hq => HQ_SUPPLY_GRANT,
        BuildingKind::Depot => DEPOT_SUPPLY_GRANT,
        _ => BARRACKS_SUPPLY_GRANT,
    }
}

/// Whether extra workers speed a site up. They do not: one attending worker
/// advances construction by exactly one tick per tick.
pub const EXTRA_BUILDERS_SPEED_UP: bool = false;

/// Why a footprint was refused.
#[derive(Clone, Copy, Debug, PartialEq, Eq, Structural)]
pub enum PlacementError {
    /// The footprint leaves the map.
    OutOfBounds,
    /// The footprint covers terrain or a finished building at `(x, y)`.
    BlockedTerrain { x: u32, y: u32 },
    /// The footprint overlaps another building.
    OverlapsBuilding,
    /// The footprint covers a resource node at `(x, y)`.
    CoversNode { x: u32, y: u32 },
    /// Not enough resources.
    Unaffordable,
    /// No live player worker was given as the builder.
    NoBuilder,
    /// The entity store is full.
    StoreFull,
}

/// The pending build ghost.
#[derive(Clone, Copy, Debug, PartialEq, Eq, Structural)]
pub enum Placement {
    /// No build is pending.
    Inactive,
    /// A build was chosen and is following the cursor.
    Pending { kind: BuildingKind },
}

impl Default for Placement {
    fn default() -> (p: Self)
        ensures
            p == Placement::Inactive,
    {
        Placement::Inactive
    }
}

/// The result of a placement candidate search.
#[derive(Clone, Copy, Debug, PartialEq, Eq, Structural)]
pub struct PlacementCandidate {
    pub min: Cell,
    pub valid: bool,
}

/// The first solid cell of row `y`, columns `x..x_end`.
pub open spec fn first_solid_in_row(solids: Seq<bool>, w: int, y: int, x: int, x_end: int) -> Option<(u32, u32)>
    decreases x_end - x,
{
    if x >= x_end {
        None
    } else if solids[cell_index(w, x, y)] {
        Some((x as u32, y as u32))
    } else {
        first_solid_in_row(solids, w, y, x + 1, x_end)
    }
}

/// The first solid cell, row by row, of columns `x0..x_end` and rows
/// `y..y_end`.
pub open spec fn first_solid(solids: Seq<bool>, w: int, x0: int, x_end: int, y: int, y_end: int) -> Option<(u32, u32)>
    decreases y_end - y,
{
    if y >= y_end {
        None
    } else {
        match first_solid_in_row(solids, w, y, x0, x_end) {
            Some(c) => Some(c),
            None => first_solid(solids, w, x0, x_end, y + 1, y_end),
        }
    }
}

/// Two footprints, each a minimum corner and an edge, share a cell.
pub open spec fn footprints_overlap(a: Cell, ae: int, b: Cell, be: int) -> bool {
    &&& a.x < b.x + be
    &&& a.x + ae > b.x
    &&& a.y < b.y + be
    &&& a.y + ae > b.y
}

/// The first of `nodes`, from index `i` on, lying inside the footprint.
pub open spec fn first_covered_node(nodes: Seq<Cell>, min: Cell, edge: int, i: int) -> Option<Cell>
    decreases nodes.len() - i,
{
    if i >= nodes.len() || i < 0 {
        None
    } else if min.x <= nodes[i].x < min.x + edge && min.y <= nodes[i].y < min.y + edge {
        Some(nodes[i])
    } else {
        first_covered_node(nodes, min, edge, i + 1)
    }
}

/// Whether a footprint of `edge` cells at `min` may be placed, checked in
/// this order with the first failure returned: the whole square is inside
/// the grid; no cell of it is terrain or a finished building (the first such
/// cell row by row is named); it overlaps none of `buildings` (live
/// buildings, finished or not, each a minimum corner and an edge); and none
/// of `nodes` (live resource-node cells, in slot order) lies inside it (the
/// first is named). Units are not an obstruction.
pub open spec fn placement_verdict(
    solids: Seq<bool>,
    w: int,
    h: int,
    buildings: Seq<(Cell, u32)>,
    nodes: Seq<Cell>,
    edge: int,
    min: Cell,
) -> Result<(), PlacementError> {
    if !(min.x + edge <= w && min.y + edge <= h) {
        Err(PlacementError::OutOfBounds)
    } else if first_solid(solids, w, min.x as int, min.x + edge, min.y as int, min.y + edge) is Some {
        let c = first_solid(solids, w, min.x as int, min.x + edge, min.y as int, min.y + edge)->0;
        Err(PlacementError::BlockedTerrain { x: c.0, y: c.1 })
    } else if exists|i: int| 0 <= i < buildings.len() && footprints_overlap(min, edge, buildings[i].0, buildings[i].1 as int) {
        Err(PlacementError::OverlapsBuilding)
    } else {
        match first_covered_node(nodes, min, edge, 0) {
            Some(c) => Err(PlacementError::CoversNode { x: c.x, y: c.y }),
            None => Ok(()),
        }
    }
}

/// Whether `kind` may occupy the footprint whose minimum corner is `min`,
/// by [`placement_verdict`] over the static geometry's placement mask.
/// Both mask rules stay: the mask catches terrain and finished buildings,
/// the building list catches sites under construction.
pub fn placement_valid(
    static_nav: &StaticNav,
    kind: BuildingKind,
    min: Cell,
    buildings: &[(Cell, u32)],
    nodes: &[Cell],
) -> (r: Result<(), PlacementError>)
    requires
        static_nav.wf(),
    ensures
        r == placement_verdict(
            static_nav@.placement_solids,
            static_nav@.width as int,
            static_nav@.height as int,
            buildings@,
            nodes@,
            spec_building_footprint(kind) as int,
            min,
        ),
{
    let edge = kind.footprint_cells();
    let width = static_nav.width();
    let height = static_nav.height();
    let ghost w = width as int;
    let ghost h = height as int;
    let ghost e = edge as int;

    // 1. inside the grid.
    if !(min.x as u64 + edge as u64 <= width as u64 && min.y as u64 + edge as u64 <= height as u64) {
        return Err(PlacementError::OutOfBounds);
    }

    // 2. no terrain, and no finished building.
    let solids = static_nav.placement_solids();
    let n = solids.len();
    let ghost sv = solids@;
    let x_end = min.x + edge;
    let y_end = min.y + edge;
    let mut y = min.y;
    while y < y_end
        invariant
            min.y <= y <= y_end,
            w == width,
            h == height,
            sv == static_nav@.placement_solids,
            e == edge,
            edge == spec_building_footprint(kind),
            x_end == min.x + e,
            y_end == min.y + e,
            x_end <= w,
            y_end <= h,
            w == static_nav@.width,
            h == static_nav@.height,
            sv == solids@,
            sv.len() == w * h,
            n == sv.len(),
            w * h < u32::MAX,
            first_solid(sv, w, min.x as int, x_end as int, min.y as int, y_end as int) == first_solid(
                sv,
                w,
                min.x as int,
                x_end as int,
                y as int,
                y_end as int,
            ),
        decreases y_end - y,
    {
        let mut x = min.x;
        while x < x_end
            invariant
                min.x <= x <= x_end,
                min.y <= y < y_end,
                w == width,
                h == height,
                w == static_nav@.width,
                h == static_nav@.height,
                sv == static_nav@.placement_solids,
                e == edge,
                edge == spec_building_footprint(kind),
            edge == spec_building_footprint(kind),
                x_end == min.x + e,
                y_end == min.y + e,
                x_end <= w,
                y_end <= h,
                sv == solids@,
                sv.len() == w * h,
                n == sv.len(),
                w * h < u32::MAX,
                first_solid(sv, w, min.x as int, x_end as int, min.y as int, y_end as int) == first_solid(
                    sv,
                    w,
                    min.x as int,
                    x_end as int,
                    y as int,
                    y_end as int,
                ),
                first_solid_in_row(sv, w, y as int, min.x as int, x_end as int) == first_solid_in_row(
                    sv,
                    w,
                    y as int,
                    x as int,
                    x_end as int,
                ),
            decreases x_end - x,
        {
            proof {
                lemma_index(w, h, x as int, y as int);
                assert(n == w * h);
            }
            let idx = x as usize + y as usize * width as usize;
            if solids[idx] {
                proof {
                    assert(first_solid_in_row(sv, w, y as int, x as int, x_end as int) == Some((x, y)));
                    assert(first_solid(sv, w, min.x as int, x_end as int, y as int, y_end as int) == Some((x, y)));
                }
                return Err(PlacementError::BlockedTerrain { x, y });
            }
            proof {
                assert(first_solid_in_row(sv, w, y as int, x as int, x_end as int) == first_solid_in_row(
                    sv,
                    w,
                    y as int,
                    x as int + 1,
                    x_end as int,
                ));
            }
            x = x + 1;
        }
        proof {
            assert(first_solid_in_row(sv, w, y as int, x as int, x_end as int) is None);
            assert(first_solid(sv, w, min.x as int, x_end as int, y as int, y_end as int) == first_solid(
                sv,
                w,
                min.x as int,
                x_end as int,
                y as int + 1,
                y_end as int,
            ));
        }
        y = y + 1;
    }
    proof {
        assert(first_solid(sv, w, min.x as int, x_end as int, y as int, y_end as int) is None);
    }

    // 3. no overlap with another live building's footprint, finished or not.
    let mut i: usize = 0;
    while i < buildings.len()
        invariant
            i <= buildings@.len(),
            e == edge,
            edge == spec_building_footprint(kind),
            w == static_nav@.width,
            h == static_nav@.height,
            sv == static_nav@.placement_solids,
            min.x + e <= w,
            min.y + e <= h,
            first_solid(sv, w, min.x as int, min.x + e, min.y as int, min.y + e) is None,
            forall|j: int| 0 <= j < i ==> !footprints_overlap(min, e, buildings@[j].0, buildings@[j].1 as int),
        decreases buildings@.len() - i,
    {
        let (other_min, other_edge) = buildings[i];
        let overlaps = (min.x as u64) < other_min.x as u64 + other_edge as u64 && min.x as u64 + edge as u64
            > other_min.x as u64 && (min.y as u64) < other_min.y as u64 + other_edge as u64 && min.y as u64
            + edge as u64 > other_min.y as u64;
        if overlaps {
            return Err(PlacementError::OverlapsBuilding);
        }
        i = i + 1;
    }

    // 4. no resource node inside the square.
    let mut i: usize = 0;
    while i < nodes.len()
        invariant
            i <= nodes@.len(),
            e == edge,
            edge == spec_building_footprint(kind),
            forall|j: int| 0 <= j < buildings@.len() ==> !footprints_overlap(min, e, buildings@[j].0, buildings@[j].1 as int),
            w == static_nav@.width,
            h == static_nav@.height,
            sv == static_nav@.placement_solids,
            min.x + e <= w,
            min.y + e <= h,
            first_solid(sv, w, min.x as int, min.x + e, min.y as int, min.y + e) is None,
            first_covered_node(nodes@, min, e, 0) == first_covered_node(nodes@, min, e, i as int),
        decreases nodes@.len() - i,
    {
        let c = nodes[i];
        if c.x >= min.x && (c.x as u64) < min.x as u64 + edge as u64 && c.y >= min.y && (c.y as u64) < min.y as u64
            + edge as u64 {
            return Err(PlacementError::CoversNode { x: c.x, y: c.y });
        }
        i = i + 1;
    }
    proof {
        assert(first_covered_node(nodes@, min, e, i as int) is None);
    }
    Ok(())
}

/// A footprint of `e` cells at `c` passes [`placement_verdict`] over the
/// placement mask of `nav`.
pub open spec fn placement_ok(nav: StaticNavView, buildings: Seq<(Cell, u32)>, nodes: Seq<Cell>, e: int, c: Cell) -> bool {
    placement_verdict(nav.placement_solids, nav.width as int, nav.height as int, buildings, nodes, e, c) is Ok
}

/// Candidate `c` lies within one footprint edge of `raw` on both axes.
pub open spec fn in_search_window(raw: Cell, edge: int, c: Cell) -> bool {
    raw.x - edge <= c.x <= raw.x + edge && raw.y - edge <= c.y <= raw.y + edge
}

/// `a` is at least as good a candidate as `b`: nearer `raw` by squared
/// distance, then lower flat index on a grid `w` wide.
pub open spec fn candidate_le(raw: Cell, w: int, a: Cell, b: Cell) -> bool {
    let da = (a.x - raw.x) * (a.x - raw.x) + (a.y - raw.y) * (a.y - raw.y);
    let db = (b.x - raw.x) * (b.x - raw.x) + (b.y - raw.y) * (b.y - raw.y);
    da < db || (da == db && a.x + a.y * w <= b.x + b.y * w)
}

/// The best placement for `kind` with the cursor on `cursor_cell`: the
/// ghost's own corner when it is valid; otherwise the valid corner within
/// one footprint edge of it that is nearest by squared distance, then lowest
/// by flat index; and when there is none, the ghost's corner marked invalid.
pub fn placement_candidate(
    static_nav: &StaticNav,
    kind: BuildingKind,
    cursor_cell: Cell,
    buildings: &[(Cell, u32)],
    nodes: &[Cell],
) -> (r: PlacementCandidate)
    requires
        static_nav.wf(),
    ensures
        ({
            let raw = spec_ghost_min_corner(cursor_cell, spec_building_footprint(kind));
            let e = spec_building_footprint(kind) as int;
            let nav = static_nav@;
            &&& placement_ok(nav, buildings@, nodes@, e, raw) ==> r == (PlacementCandidate { min: raw, valid: true })
            &&& !placement_ok(nav, buildings@, nodes@, e, raw) ==> (r.valid <==> exists|c: Cell|
                in_search_window(raw, e, c) && #[trigger] placement_ok(nav, buildings@, nodes@, e, c))
            &&& !placement_ok(nav, buildings@, nodes@, e, raw) && r.valid ==> in_search_window(raw, e, r.min)
                && placement_ok(nav, buildings@, nodes@, e, r.min) && forall|c: Cell|
                in_search_window(raw, e, c) && #[trigger] placement_ok(nav, buildings@, nodes@, e, c) ==> candidate_le(
                    raw,
                    nav.width as int,
                    r.min,
                    c,
                )
            &&& !r.valid ==> r.min == raw
        }),
{
    let edge = kind.footprint_cells();
    let raw = ghost_min_corner(cursor_cell, edge);
    if placement_valid(static_nav, kind, raw, buildings, nodes).is_ok() {
        return PlacementCandidate { min: raw, valid: true };
    }
    let width = static_nav.width();
    let ghost w = width as int;
    let ghost h = static_nav@.height as int;
    let ghost sv = static_nav@.placement_solids;
    let ghost e = edge as int;
    let raw_x = raw.x as i64;
    let raw_y = raw.y as i64;
    let radius = edge as i64;

    let mut best: Option<(i64, u64, Cell)> = None;
    let mut dy: i64 = -radius;
    while dy <= radius
        invariant
            -radius <= dy <= radius + 1,
            radius == e,
            e == edge,
            edge == spec_building_footprint(kind),
            edge <= 24,
            raw_x == raw.x,
            raw_y == raw.y,
            w == width,
            w == static_nav@.width,
            h == static_nav@.height,
            sv == static_nav@.placement_solids,
            static_nav.wf(),
            match best {
                None => forall|c: Cell|
                    in_search_window(raw, e, c) && c.y - raw.y < dy ==> !#[trigger] placement_ok(static_nav@, buildings@, nodes@, e, c),
                Some((bd, bf, bc)) => {
                    &&& in_search_window(raw, e, bc)
                    &&& placement_ok(static_nav@, buildings@, nodes@, e, bc)
                    &&& bd == (bc.x - raw.x) * (bc.x - raw.x) + (bc.y - raw.y) * (bc.y - raw.y)
                    &&& bf == bc.x + bc.y * w
                    &&& forall|c: Cell|
                        in_search_window(raw, e, c) && c.y - raw.y < dy && #[trigger] placement_ok(
                            static_nav@,
                            buildings@,
                            nodes@,
                            e,
                            c,
                        ) ==> candidate_le(raw, w, bc, c)
                },
            },
        decreases radius + 1 - dy,
    {
        let mut dx: i64 = -radius;
        while dx <= radius
            invariant
                -radius <= dy <= radius,
                -radius <= dx <= radius + 1,
                radius == e,
                e == edge,
                edge == spec_building_footprint(kind),
                edge <= 24,
                raw_x == raw.x,
                raw_y == raw.y,
                w == width,
                w == static_nav@.width,
                h == static_nav@.height,
                sv == static_nav@.placement_solids,
                static_nav.wf(),
                match best {
                    None => forall|c: Cell|
                        in_search_window(raw, e, c) && (c.y - raw.y < dy || (c.y - raw.y == dy && c.x - raw.x < dx))
                            ==> !#[trigger] placement_ok(static_nav@, buildings@, nodes@, e, c),
                    Some((bd, bf, bc)) => {
                        &&& in_search_window(raw, e, bc)
                        &&& placement_ok(static_nav@, buildings@, nodes@, e, bc)
                        &&& bd == (bc.x - raw.x) * (bc.x - raw.x) + (bc.y - raw.y) * (bc.y - raw.y)
                        &&& bf == bc.x + bc.y * w
                        &&& forall|c: Cell|
                            in_search_window(raw, e, c) && (c.y - raw.y < dy || (c.y - raw.y == dy && c.x - raw.x < dx))
                                && #[trigger] placement_ok(static_nav@, buildings@, nodes@, e, c)
                                ==> candidate_le(raw, w, bc, c)
                    },
                },
            decreases radius + 1 - dx,
        {
            let cx = raw_x + dx;
            let cy = raw_y + dy;
            if 0 <= cx && cx <= u32::MAX as i64 && 0 <= cy && cy <= u32::MAX as i64 {
                let cand = Cell { x: cx as u32, y: cy as u32 };
                if placement_valid(static_nav, kind, cand, buildings, nodes).is_ok() {
                    assert(cx + e <= w && cy + e <= h);
                    assert(cy * w <= (h - 1) * w) by (nonlinear_arith)
                        requires
                            cy <= h - 1,
                            w >= 0,
                    ;
                    assert((h - 1) * w + w == h * w) by (nonlinear_arith);
                    assert(w * h == h * w) by (nonlinear_arith);
                    assert(cy * w < 0x1_0000_0000);
                    assert(cx < 0x1_0000_0000);
                    assert(0 <= dx * dx <= 576 && 0 <= dy * dy <= 576) by (nonlinear_arith)
                        requires
                            -24 <= dx <= 24,
                            -24 <= dy <= 24,
                    ;
                    let dist2 = dx * dx + dy * dy;
                    let flat = cx as u64 + cy as u64 * width as u64;
                    let take = match best {
                        None => true,
                        Some((bd, bf, _)) => dist2 < bd || (dist2 == bd && flat < bf),
                    };
                    if take {
                        best = Some((dist2, flat, cand));
                    }
                }
            }
            proof {
                assert forall|c: Cell|
                    in_search_window(raw, e, c) && (c.y - raw.y < dy || (c.y - raw.y == dy && c.x - raw.x < dx + 1))
                        && #[trigger] placement_ok(static_nav@, buildings@, nodes@, e, c) implies match best {
                    None => false,
                    Some((_, _, bc)) => candidate_le(raw, w, bc, c),
                } by {
                    if c.y - raw.y == dy && c.x - raw.x == dx {
                        assert(c == Cell { x: cx as u32, y: cy as u32 });
                    }
                }
            }
            dx = dx + 1;
        }
        dy = dy + 1;
    }
    match best {
        Some((_, _, min)) => PlacementCandidate { min, valid: true },
        None => PlacementCandidate { min: raw, valid: false },
    }
}

/// The first reason a confirmed placement is refused, in the order the
/// checks run: a builder that is not a live player worker; a stock short of
/// the cost; the footprint's own verdict.
pub open spec fn confirm_fault(
    v: StoreView,
    builder: EntityId,
    kind: BuildingKind,
    stock: Resources,
    verdict: Result<(), PlacementError>,
) -> Option<PlacementError> {
    if !(spec_contains(v, builder) && v.slots[builder.index as int].kind == EntityKind::Unit(UnitKind::Worker)
        && v.slots[builder.index as int].owner == OWNER_PLAYER) {
        Some(PlacementError::NoBuilder)
    } else if !stock.spec_covers(spec_building_cost(kind)) {
        Some(PlacementError::Unaffordable)
    } else {
        match verdict {
            Err(e) => Some(e),
            Ok(()) => None,
        }
    }
}

/// A site just placed: a player building of `kind` at `pos`, none of its
/// build time served.
pub open spec fn site_slot(s: Slot, kind: BuildingKind) -> Slot {
    Slot { progress: 0, progress_target: spec_build_ticks(kind), ..s }
}

/// Commit the pending build ghost at `min`, built by `builder`: the site
/// spawns at `pos` (its footprint centre) with its full build time ahead,
/// the cost is paid, and the ghost clears. Refused, changing nothing, with
/// no ghost pending or for the first reason of [`confirm_fault`] (the
/// footprint judged over `buildings` and `nodes` as [`placement_valid`]
/// does), or when the store is full. The builder's order to attend the new
/// site is the caller's next step.
pub fn confirm_placement(
    placement: &mut Placement,
    store: &mut EntityStore,
    resources: &mut Resources,
    static_nav: &StaticNav,
    min: Cell,
    builder: EntityId,
    buildings: &[(Cell, u32)],
    nodes: &[Cell],
    pos: [u32; 2],
) -> (r: Result<EntityId, PlacementError>)
    requires
        old(store).wf(),
        static_nav.wf(),
        !(*old(placement) matches Placement::Pending { kind } && kind is Turret),
    ensures
        final(store).wf(),
        match *old(placement) {
            Placement::Inactive => r == Err::<EntityId, PlacementError>(PlacementError::NoBuilder)
                && *final(placement) == *old(placement) && final(store)@ == old(store)@
                && *final(resources) == *old(resources),
            Placement::Pending { kind } => {
                let verdict = placement_verdict(
                    static_nav@.placement_solids,
                    static_nav@.width as int,
                    static_nav@.height as int,
                    buildings@,
                    nodes@,
                    spec_building_footprint(kind) as int,
                    min,
                );
                match confirm_fault(old(store)@, builder, kind, *old(resources), verdict) {
                    Some(e) => r == Err::<EntityId, PlacementError>(e) && *final(placement) == *old(placement)
                        && final(store)@ == old(store)@ && *final(resources) == *old(resources),
                    None => {
                        let (v, id) = spawned(old(store)@, EntityKind::Building(kind), OWNER_PLAYER, pos);
                        match id {
                            None => r == Err::<EntityId, PlacementError>(PlacementError::StoreFull)
                                && *final(placement) == *old(placement) && final(store)@ == old(store)@
                                && *final(resources) == *old(resources),
                            Some(site) => {
                                &&& r == Ok::<EntityId, PlacementError>(site)
                                &&& final(store)@.free == v.free
                                &&& final(store)@.slots == v.slots.update(
                                    site.index as int,
                                    site_slot(v.slots[site.index as int], kind),
                                )
                                &&& *final(resources) == old(resources).spec_debit(spec_building_cost(kind))
                                &&& *final(placement) == Placement::Inactive
                            },
                        }
                    },
                }
            },
        },
{
    let kind = match *placement {
        Placement::Pending { kind } => kind,
        Placement::Inactive => {
            return Err(PlacementError::NoBuilder);
        },
    };
    let builder_slot = match store.slot(builder) {
        Some(s) => s,
        None => {
            return Err(PlacementError::NoBuilder);
        },
    };
    if store.kind(builder_slot) != EntityKind::Unit(UnitKind::Worker) || store.owner(builder_slot) != OWNER_PLAYER {
        return Err(PlacementError::NoBuilder);
    }
    let cost = building_cost(kind);
    if !resources.covers(cost) {
        return Err(PlacementError::Unaffordable);
    }
    match placement_valid(static_nav, kind, min, buildings, nodes) {
        Err(e) => {
            return Err(e);
        },
        Ok(()) => {},
    }
    proof {
        store.lemma_store_ok();
    }
    let site = match store.spawn(EntityKind::Building(kind), OWNER_PLAYER, pos) {
        Some(site) => site,
        None => {
            return Err(PlacementError::StoreFull);
        },
    };
    store.set_progress(site.index as usize, 0, build_ticks(kind));
    resources.try_debit(cost);
    *placement = Placement::Inactive;
    Ok(site)
}

} // verus!
