use mmd_engine::rts::economy::Supply;
use mmd_engine::rts::entity::{BuildingKind, EntityKind, EntityStore, UnitKind, OWNER_ENEMY, OWNER_PLAYER};
use mmd_engine::rts::formation::FormationGoal;
use mmd_engine::rts::lifecycle::{apply_death, commit_finish};
use mmd_engine::rts::orders::{FieldRef, GatherPhase, Order, OrderTable};
use mmd_engine::rts::production::ProductionTable;
use mmd_engine::rts::static_nav::StaticNav;
use mmd_engine::scenario::{Cell, Scenario, ScenarioSpec};

fn open_nav() -> StaticNav {
    let spec = ScenarioSpec {
        version: "fixture_life".to_string(),
        width: 40,
        height: 40,
        cell_size_px: 4,
        sprite_size_px: 16,
        hard_agent_count: 1,
        stretch_agent_count: 1,
        seed: 1,
        destination: Cell { x: 39, y: 39 },
        spawn_cells: vec![Cell { x: 38, y: 39 }],
        atlas_count: 4,
        direction_count: 8,
        frame_count: 4,
        collision_radius_q8: 0,
        separation_strength_q8: 0,
        separation_phases: 1,
        mass_class_count: 1,
        separation_threads: 1,
        obstacle_cells: vec![],
        rts: None,
    };
    StaticNav::new(&Scenario::from_spec(spec).expect("valid fixture"), &[]).expect("nav")
}

const FIELD: FieldRef = FieldRef { slot: 1, epoch: 1 };

#[test]
fn a_finished_depot_is_solid_and_grants_supply() {
    let mut nav = open_nav();
    let mut store = EntityStore::new();
    let depot = store.spawn(EntityKind::Building(BuildingKind::Depot), OWNER_PLAYER, [0, 0]).expect("room");
    store.set_progress(depot.index as usize, 179, 180);
    let mut supply = Supply::new(5);
    let min = Cell { x: 16, y: 16 };
    commit_finish(&mut store, &mut nav, &mut supply, depot.index as usize, min);
    assert_eq!(store.progress_target(depot.index as usize), 0);
    assert_eq!(supply.cap(), 15);
    let idx = (16 + 16 * 40) as usize;
    assert!(nav.solids()[idx]);
    assert!(nav.placement_solids()[idx]);
    assert!(nav.center_blocked()[idx]);
}

#[test]
fn a_destroyed_depot_is_cleared_revoked_and_releases_its_haulers() {
    let mut nav = open_nav();
    let mut store = EntityStore::new();
    let depot = store.spawn(EntityKind::Building(BuildingKind::Depot), OWNER_PLAYER, [5, 6]).expect("room");
    let hauler = store.spawn(EntityKind::Unit(UnitKind::Worker), OWNER_PLAYER, [0, 0]).expect("room");
    let mut supply = Supply::new(5);
    let min = Cell { x: 16, y: 16 };
    commit_finish(&mut store, &mut nav, &mut supply, depot.index as usize, min);
    let mut orders = OrderTable::new();
    orders.set(
        hauler.index as usize,
        Order::Gather { node: hauler, phase: GatherPhase::Returning { drop_off: depot, field: FIELD } },
    );
    let mut production = ProductionTable::new();
    production.set_rally(depot.index as usize, Some(Cell { x: 2, y: 2 }));
    let event = apply_death(&mut store, &mut nav, &mut supply, &mut production, &mut orders, depot, min);
    assert_eq!(event.kind, EntityKind::Building(BuildingKind::Depot));
    assert_eq!(event.owner, OWNER_PLAYER);
    assert_eq!(event.center, [5, 6]);
    assert!(!store.contains(depot));
    assert_eq!(supply.cap(), 5);
    assert!(!nav.solids()[(16 + 16 * 40) as usize]);
    assert_eq!(orders.get(hauler.index as usize), Order::Idle);
    assert_eq!(production.rally(depot.index as usize), None);
}

#[test]
fn a_dying_unit_loses_its_order_and_nothing_else() {
    let mut nav = open_nav();
    let mut store = EntityStore::new();
    let ghoul = store.spawn(EntityKind::Unit(UnitKind::Ghoul), OWNER_ENEMY, [3, 4]).expect("room");
    let mut supply = Supply::new(5);
    let mut orders = OrderTable::new();
    let goal = FormationGoal { anchor: Cell { x: 1, y: 1 }, slot: Cell { x: 1, y: 1 } };
    orders.set(ghoul.index as usize, Order::AttackMove { goal, field: FIELD });
    let mut production = ProductionTable::new();
    let event = apply_death(&mut store, &mut nav, &mut supply, &mut production, &mut orders, ghoul, Cell { x: 0, y: 0 });
    assert_eq!(event.owner, OWNER_ENEMY);
    assert_eq!(orders.get(ghoul.index as usize), Order::Idle);
    assert_eq!(supply.cap(), 5);
    assert!(!store.contains(ghoul));
}
