use mmd_engine::rts::economy::Resources;
use mmd_engine::rts::entity::{BuildingKind, EntityKind, EntityStore, UnitKind, OWNER_ENEMY, OWNER_PLAYER};
use mmd_engine::rts::placement::{
    build_ticks, building_cost, confirm_placement, ghost_min_corner, placement_candidate, placement_valid, supply_grant, Placement,
    PlacementCandidate, PlacementError, EXTRA_BUILDERS_SPEED_UP,
};
use mmd_engine::rts::static_nav::{StaticNav, StaticSolid};
use mmd_engine::scenario::{Cell, Scenario, ScenarioSpec};

const W: u32 = 64;
const H: u32 = 48;

fn nav_with(obstacles: Vec<u32>, statics: &[StaticSolid]) -> StaticNav {
    let spec = ScenarioSpec {
        version: "fixture_place".to_string(),
        width: W,
        height: H,
        cell_size_px: 4,
        sprite_size_px: 16,
        hard_agent_count: 1,
        stretch_agent_count: 1,
        seed: 1,
        destination: Cell { x: 60, y: 44 },
        spawn_cells: vec![Cell { x: 60, y: 45 }],
        atlas_count: 4,
        direction_count: 8,
        frame_count: 4,
        collision_radius_q8: 0,
        separation_strength_q8: 0,
        separation_phases: 1,
        mass_class_count: 1,
        separation_threads: 1,
        obstacle_cells: obstacles,
        rts: None,
    };
    StaticNav::new(&Scenario::from_spec(spec).expect("valid fixture"), statics).expect("nav")
}

#[test]
fn the_ghost_is_centred_on_the_cursor() {
    assert_eq!(ghost_min_corner(Cell { x: 10, y: 10 }, 8), Cell { x: 6, y: 6 });
    assert_eq!(ghost_min_corner(Cell { x: 2, y: 30 }, 24), Cell { x: 0, y: 18 }, "saturating at zero");
    assert_eq!(Placement::default(), Placement::Inactive);
}

#[test]
fn the_build_table_matches_the_design_numbers() {
    assert_eq!(building_cost(BuildingKind::Hq), Resources { crystal: 400, gas: 0 });
    assert_eq!(building_cost(BuildingKind::Depot), Resources { crystal: 100, gas: 0 });
    assert_eq!(building_cost(BuildingKind::Barracks), Resources { crystal: 150, gas: 25 });
    assert_eq!(build_ticks(BuildingKind::Hq), 600);
    assert_eq!(build_ticks(BuildingKind::Depot), 180);
    assert_eq!(build_ticks(BuildingKind::Barracks), 300);
    assert_eq!(supply_grant(BuildingKind::Hq), 10);
    assert_eq!(supply_grant(BuildingKind::Depot), 10);
    assert_eq!(supply_grant(BuildingKind::Barracks), 0);
    assert!(!EXTRA_BUILDERS_SPEED_UP);
}

#[test]
fn placement_rules_apply_in_order() {
    // Terrain at (12, 11) and (10, 12); a finished Depot stamped at (40, 30).
    let nav = nav_with(vec![12 + 11 * W, 10 + 12 * W], &[StaticSolid::Building { min: Cell { x: 40, y: 30 }, edge: 8 }]);
    let depot = BuildingKind::Depot;
    assert_eq!(placement_valid(&nav, depot, Cell { x: 57, y: 0 }, &[], &[]), Err(PlacementError::OutOfBounds));
    assert_eq!(placement_valid(&nav, depot, Cell { x: 0, y: 41 }, &[], &[]), Err(PlacementError::OutOfBounds));
    assert_eq!(
        placement_valid(&nav, depot, Cell { x: 8, y: 8 }, &[], &[]),
        Err(PlacementError::BlockedTerrain { x: 12, y: 11 }),
        "the first blocked cell row by row is named"
    );
    assert_eq!(
        placement_valid(&nav, depot, Cell { x: 36, y: 26 }, &[], &[]),
        Err(PlacementError::BlockedTerrain { x: 40, y: 30 }),
        "a finished building is in the placement mask"
    );
    let site = [(Cell { x: 20, y: 20 }, 16u32)];
    assert_eq!(placement_valid(&nav, depot, Cell { x: 30, y: 30 }, &site, &[]), Err(PlacementError::OverlapsBuilding));
    assert_eq!(placement_valid(&nav, depot, Cell { x: 36, y: 20 }, &site, &[]), Ok(()), "touching is not overlapping");
    let nodes = [Cell { x: 1, y: 1 }, Cell { x: 50, y: 5 }, Cell { x: 52, y: 6 }];
    assert_eq!(
        placement_valid(&nav, depot, Cell { x: 48, y: 2 }, &[], &nodes),
        Err(PlacementError::CoversNode { x: 50, y: 5 })
    );
    assert_eq!(placement_valid(&nav, depot, Cell { x: 20, y: 0 }, &site, &nodes), Ok(()));
}

#[test]
fn a_blocked_ghost_snaps_to_the_nearest_valid_corner() {
    let nav = nav_with(vec![10 + 10 * W], &[]);
    let depot = BuildingKind::Depot;
    // Cursor (30, 30): the ghost's own corner (26, 26) is valid.
    assert_eq!(
        placement_candidate(&nav, depot, Cell { x: 30, y: 30 }, &[], &[]),
        PlacementCandidate { min: Cell { x: 26, y: 26 }, valid: true }
    );
    // Cursor (12, 12): corner (8, 8) covers the blocked (10, 10). The
    // nearest clear corners are three steps right, (11, 8), and three steps
    // down, (8, 11); the lower flat index wins.
    assert_eq!(
        placement_candidate(&nav, depot, Cell { x: 12, y: 12 }, &[], &[]),
        PlacementCandidate { min: Cell { x: 11, y: 8 }, valid: true }
    );
    // Nowhere within one edge is valid: the raw corner comes back invalid.
    let everywhere = [(Cell { x: 0, y: 0 }, 48u32)];
    assert_eq!(
        placement_candidate(&nav, depot, Cell { x: 12, y: 12 }, &everywhere, &[]),
        PlacementCandidate { min: Cell { x: 8, y: 8 }, valid: false }
    );
}

#[test]
fn confirming_a_ghost_spawns_a_paid_site_and_clears_the_ghost() {
    let nav = nav_with(vec![], &[]);
    let mut store = EntityStore::new();
    let worker = store.spawn(EntityKind::Unit(UnitKind::Worker), OWNER_PLAYER, [0, 0]).expect("room");
    let ghoul = store.spawn(EntityKind::Unit(UnitKind::Ghoul), OWNER_ENEMY, [0, 0]).expect("room");
    let mut placement = Placement::Pending { kind: BuildingKind::Depot };
    let mut stock = Resources { crystal: 150, gas: 0 };
    let min = Cell { x: 8, y: 8 };
    let refused = confirm_placement(&mut placement, &mut store, &mut stock, &nav, min, ghoul, &[], &[], [7, 7]);
    assert_eq!(refused, Err(PlacementError::NoBuilder));
    let site = confirm_placement(&mut placement, &mut store, &mut stock, &nav, min, worker, &[], &[], [7, 7]).expect("placed");
    assert_eq!(store.kind(site.index as usize), EntityKind::Building(BuildingKind::Depot));
    assert_eq!(store.progress_target(site.index as usize), build_ticks(BuildingKind::Depot));
    assert_eq!(store.progress(site.index as usize), 0);
    assert_eq!(store.position(site.index as usize), [7, 7]);
    assert_eq!(stock, Resources { crystal: 50, gas: 0 });
    assert_eq!(placement, Placement::Inactive);
    let again = confirm_placement(&mut placement, &mut store, &mut stock, &nav, min, worker, &[], &[], [7, 7]);
    assert_eq!(again, Err(PlacementError::NoBuilder));
}

#[test]
fn a_ghost_the_stock_cannot_pay_for_is_refused() {
    let nav = nav_with(vec![], &[]);
    let mut store = EntityStore::new();
    let worker = store.spawn(EntityKind::Unit(UnitKind::Worker), OWNER_PLAYER, [0, 0]).expect("room");
    let mut placement = Placement::Pending { kind: BuildingKind::Hq };
    let mut stock = Resources { crystal: 399, gas: 0 };
    let r = confirm_placement(&mut placement, &mut store, &mut stock, &nav, Cell { x: 8, y: 8 }, worker, &[], &[], [1, 1]);
    assert_eq!(r, Err(PlacementError::Unaffordable));
    assert_eq!(stock.crystal, 399);
    let mut rich = Resources { crystal: 1000, gas: 0 };
    let off = confirm_placement(&mut placement, &mut store, &mut rich, &nav, Cell { x: 60, y: 40 }, worker, &[], &[], [1, 1]);
    assert_eq!(off, Err(PlacementError::OutOfBounds));
}
