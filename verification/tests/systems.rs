use mmd_engine::rts::commands::{
    attack_target_command, attack_units, click_marker, enemy_target, group_receipt, cmd_stop, collect_group, commit_group, context_result, context_target,
    GroupTarget,
};
use mmd_engine::rts::selection::Pick;
use mmd_engine::rts::world::{ContextOrderReason, ContextOrderResult};
use mmd_engine::rts::production::ProductionTable;
use mmd_engine::rts::selection::Selection;
use mmd_engine::rts::economy::Resources;
use mmd_engine::rts::entity::{
    MAX_ENTITIES, BuildingKind, EntityId, EntityKind, EntityStore, ResourceKind, UnitKind, OWNER_ENEMY, OWNER_NEUTRAL,
    OWNER_PLAYER,
};
use mmd_engine::rts::combat::weapon;
use mmd_engine::rts::formation::{FormationError, FormationGoal};
use mmd_engine::rts::orders::{FieldRef, GatherPhase, Order, OrderTable};
use mmd_engine::rts::pack::{unit_slot, UnitSheet};
use mmd_engine::rts::production::ProductionQueue;
use mmd_engine::rts::seed::{node_amount, opening_stock, seed_fixtures, seed_units};
use mmd_engine::rts::systems::{
    aim, aim_at, stride, Aim, Stride, cancel_construction, deliver_head, next_enemy, record_enemy_spawn, WaveState, fire_shot, gather_step, march_enemies, march_needs_field, loads_now, site_due, site_step, supply_recount, pull_trigger, Approach, SiteStep,
    GATHER_TICKS, STALLED_SITE_TICKS, WORKER_CARRY_CAPACITY,
};
use mmd_engine::rts::world::{
    CommandReceipt, CommandRejectReason, DamageResult, IssuedOrder, OrderReceiptBuffer, RtsWorldError,
    NODE_CRYSTAL_AMOUNT, NODE_GAS_AMOUNT,
};
use mmd_engine::scenario::{Cell, RtsSpec, Scenario, ScenarioSpec, WaveSpec};

fn id(index: u32) -> EntityId {
    EntityId { index, generation: 0 }
}

const FIELD: FieldRef = FieldRef { slot: 2, epoch: 5 };

fn gathering(phase: GatherPhase) -> Order {
    Order::Gather { node: id(7), phase }
}

fn to_node() -> Order {
    gathering(GatherPhase::ToNode { goal: FormationGoal { anchor: Cell { x: 3, y: 3 }, slot: Cell { x: 4, y: 3 } }, field: FIELD })
}

#[test]
fn a_worker_reaching_its_node_starts_mining() {
    let r = gather_step(to_node(), None, Resources::zero(), Some((ResourceKind::Crystal, 100)), Approach::Arrived, None);
    assert_eq!(r.order, gathering(GatherPhase::Mining { ticks_left: GATHER_TICKS }));
    assert_eq!(r.node_amount, 100);
    assert_eq!(r.carry, None);
    let walking = gather_step(to_node(), None, Resources::zero(), Some((ResourceKind::Crystal, 100)), Approach::Walking, None);
    assert_eq!(walking.order, to_node());
}

#[test]
fn a_worker_walking_to_an_empty_node_stops() {
    let r = gather_step(to_node(), None, Resources::zero(), Some((ResourceKind::Gas, 0)), Approach::Arrived, None);
    assert_eq!(r.order, Order::Idle);
}

#[test]
fn mining_counts_down_then_loads_at_most_the_carry_capacity() {
    let mining = gathering(GatherPhase::Mining { ticks_left: 3 });
    let r = gather_step(mining, None, Resources::zero(), Some((ResourceKind::Crystal, 100)), Approach::Walking, None);
    assert_eq!(r.order, gathering(GatherPhase::Mining { ticks_left: 2 }));
    assert!(!loads_now(mining, Some((ResourceKind::Crystal, 100))));

    let last = gathering(GatherPhase::Mining { ticks_left: 1 });
    assert!(loads_now(last, Some((ResourceKind::Crystal, 100))));
    let delivery = Some((id(0), Ok(FIELD)));
    let r = gather_step(last, None, Resources::zero(), Some((ResourceKind::Crystal, 100)), Approach::Walking, delivery);
    assert_eq!(r.carry, Some((ResourceKind::Crystal, WORKER_CARRY_CAPACITY)));
    assert_eq!(r.node_amount, 100 - WORKER_CARRY_CAPACITY);
    assert_eq!(r.order, gathering(GatherPhase::Returning { drop_off: id(0), field: FIELD }));
}

#[test]
fn a_nearly_empty_node_gives_what_it_has() {
    let last = gathering(GatherPhase::Mining { ticks_left: 1 });
    let r = gather_step(last, None, Resources::zero(), Some((ResourceKind::Gas, 2)), Approach::Walking, Some((id(0), Ok(FIELD))));
    assert_eq!(r.carry, Some((ResourceKind::Gas, 2)));
    assert_eq!(r.node_amount, 0);
}

#[test]
fn a_loaded_worker_with_no_drop_off_stops_holding_its_load() {
    let last = gathering(GatherPhase::Mining { ticks_left: 1 });
    let r = gather_step(last, None, Resources::zero(), Some((ResourceKind::Crystal, 50)), Approach::Walking, None);
    assert_eq!(r.order, Order::Idle);
    assert_eq!(r.carry, Some((ResourceKind::Crystal, WORKER_CARRY_CAPACITY)));
    let refused = gather_step(last, None, Resources::zero(), Some((ResourceKind::Crystal, 50)), Approach::Walking, Some((id(0), Err(()))));
    assert_eq!(refused.order, Order::Idle);
    assert!(!loads_now(last, Some((ResourceKind::Crystal, 0))));
}

#[test]
fn delivery_banks_the_load_and_sends_the_worker_back() {
    let returning = gathering(GatherPhase::Returning { drop_off: id(0), field: FIELD });
    let stock = Resources { crystal: 10, gas: 1 };
    let r = gather_step(returning, Some((ResourceKind::Crystal, 5)), stock, Some((ResourceKind::Crystal, 40)), Approach::Arrived, None);
    assert_eq!(r.resources, Resources { crystal: 15, gas: 1 });
    assert_eq!(r.carry, None);
    assert!(r.replan);
    let last = gather_step(returning, Some((ResourceKind::Gas, 5)), stock, Some((ResourceKind::Gas, 0)), Approach::Arrived, None);
    assert_eq!(last.resources, Resources { crystal: 10, gas: 6 });
    assert!(!last.replan);
    assert_eq!(last.order, Order::Idle);
    let gone = gather_step(returning, Some((ResourceKind::Gas, 5)), stock, Some((ResourceKind::Gas, 9)), Approach::Gone, None);
    assert_eq!(gone.order, Order::Idle);
    assert_eq!(gone.carry, Some((ResourceKind::Gas, 5)));
}

#[test]
fn a_gather_order_dies_with_its_node_and_other_orders_are_untouched() {
    let r = gather_step(to_node(), Some((ResourceKind::Gas, 3)), Resources::zero(), None, Approach::Arrived, None);
    assert_eq!(r.order, Order::Idle);
    assert_eq!(r.carry, Some((ResourceKind::Gas, 3)));
    let r = gather_step(Order::Idle, None, Resources::zero(), Some((ResourceKind::Gas, 3)), Approach::Arrived, None);
    assert_eq!(r.order, Order::Idle);
    assert_eq!(r.node_amount, 3);
}

#[test]
fn a_site_advances_one_tick_per_attended_tick_and_finishes_on_target() {
    assert_eq!(site_step(3, 10, true, 4, false), SiteStep::Advanced { progress: 4 });
    assert_eq!(site_step(3, 10, false, 4, false), SiteStep::Untouched);
    assert_eq!(site_step(0, 0, true, 0, true), SiteStep::Untouched);
    assert!(!site_due(3, 10, true));
    assert!(site_due(9, 10, true));
    assert_eq!(site_step(9, 10, true, 0, true), SiteStep::Finished);
}

#[test]
fn a_site_that_cannot_finish_stalls_then_is_cancelled() {
    assert_eq!(site_step(9, 10, true, 0, false), SiteStep::Stalled { stall: 1 });
    assert_eq!(site_step(9, 10, true, STALLED_SITE_TICKS - 2, false), SiteStep::Stalled { stall: STALLED_SITE_TICKS - 1 });
    assert_eq!(site_step(9, 10, true, STALLED_SITE_TICKS - 1, false), SiteStep::Cancelled);
}

#[test]
fn a_weapon_fires_when_reloaded_and_reloads_on_firing() {
    let w = weapon(UnitKind::Soldier).expect("soldiers are armed");
    let t = pull_trigger(0, w, true);
    assert!(t.fired && t.hold);
    assert_eq!(t.cooldown, w.cooldown_ticks);
    let t = pull_trigger(3, w, true);
    assert!(!t.fired && t.hold);
    assert_eq!(t.cooldown, 2);
    let t = pull_trigger(3, w, false);
    assert!(!t.fired && !t.hold);
    assert_eq!(t.cooldown, 2);
}

#[test]
fn a_killing_shot_counts_a_kill_or_a_loss() {
    let enemy = (EntityKind::Unit(UnitKind::Ghoul), 1);
    assert_eq!(fire_shot(2, 0, OWNER_ENEMY, Some(enemy), 50), (DamageResult::Killed, 3, 0));
    let worker = (EntityKind::Unit(UnitKind::Worker), 1);
    assert_eq!(fire_shot(2, 0, OWNER_PLAYER, Some(worker), 50), (DamageResult::Killed, 2, 1));
    let node = (EntityKind::Node(ResourceKind::Crystal), 1);
    assert_eq!(fire_shot(2, 0, OWNER_NEUTRAL, Some(node), 50), (DamageResult::Indestructible, 2, 0));
}

#[test]
fn supply_counts_live_player_units_and_queued_reservations() {
    let mut store = EntityStore::new();
    store.spawn(EntityKind::Unit(UnitKind::Worker), OWNER_PLAYER, [0, 0]);
    store.spawn(EntityKind::Unit(UnitKind::Soldier), OWNER_PLAYER, [0, 0]);
    store.spawn(EntityKind::Unit(UnitKind::Ghoul), OWNER_ENEMY, [0, 0]);
    let dead = store.spawn(EntityKind::Unit(UnitKind::Worker), OWNER_PLAYER, [0, 0]).expect("room");
    store.spawn(EntityKind::Building(BuildingKind::Hq), OWNER_PLAYER, [0, 0]);
    store.despawn(dead);
    let mut q = ProductionQueue::empty();
    q.push(UnitKind::Soldier);
    q.push(UnitKind::Worker);
    assert_eq!(supply_recount(&store, &[q, ProductionQueue::empty()]), 1 + 2 + 2 + 1);
}

fn armed_and_unarmed() -> Vec<(EntityId, bool)> {
    vec![(id(1), true), (id(2), false), (id(3), true), (id(4), false)]
}

#[test]
fn an_attack_orders_armed_units_to_attack_and_walks_the_rest() {
    let mut receipts = OrderReceiptBuffer::new();
    let anchor = Cell { x: 10, y: 10 };
    let slots = [Cell { x: 11, y: 10 }, Cell { x: 12, y: 10 }];
    let (receipt, orders) =
        attack_target_command(&armed_and_unarmed(), id(9), true, Some(anchor), Ok(FIELD), Ok(()), &slots, &mut receipts);
    assert_eq!(receipt, CommandReceipt { accepted: 4, rejected: 0, reason: None });
    assert_eq!(orders[0], (id(1), Order::Attack { target: id(9), field: FIELD }));
    assert_eq!(orders[1], (id(2), Order::Move { goal: FormationGoal { anchor, slot: slots[0] }, field: FIELD }));
    assert_eq!(orders[3], (id(4), Order::Move { goal: FormationGoal { anchor, slot: slots[1] }, field: FIELD }));
    assert_eq!(receipts.as_slice().len(), 4);
    assert_eq!(receipts.as_slice()[1].order, IssuedOrder::Move);
    assert_eq!(receipts.as_slice()[2].order, IssuedOrder::Attack);
}

#[test]
fn an_attack_is_refused_whole_for_its_first_failing_check() {
    let mut receipts = OrderReceiptBuffer::new();
    let anchor = Some(Cell { x: 10, y: 10 });
    let refuse = |reason| CommandReceipt { accepted: 0, rejected: 4, reason: Some(reason) };
    let (r, o) = attack_target_command(&[], id(9), true, anchor, Ok(FIELD), Ok(()), &[], &mut receipts);
    assert_eq!(r, CommandReceipt { accepted: 0, rejected: 0, reason: Some(CommandRejectReason::EmptySelection) });
    assert!(o.is_empty());
    let (r, _) = attack_target_command(&armed_and_unarmed(), id(9), false, anchor, Ok(FIELD), Ok(()), &[], &mut receipts);
    assert_eq!(r, refuse(CommandRejectReason::NoTarget));
    let unarmed = vec![(id(2), false)];
    let (r, _) = attack_target_command(&unarmed, id(9), true, anchor, Ok(FIELD), Ok(()), &[], &mut receipts);
    assert_eq!(r.reason, Some(CommandRejectReason::NoArmedUnits));
    let (r, _) = attack_target_command(&armed_and_unarmed(), id(9), true, None, Ok(FIELD), Ok(()), &[], &mut receipts);
    assert_eq!(r, refuse(CommandRejectReason::Unreachable));
    let (r, _) = attack_target_command(&armed_and_unarmed(), id(9), true, anchor, Err(()), Ok(()), &[], &mut receipts);
    assert_eq!(r, refuse(CommandRejectReason::Unreachable));
    let (r, _) = attack_target_command(
        &armed_and_unarmed(), id(9), true, anchor, Ok(FIELD), Err(FormationError::NoFormationSpace), &[], &mut receipts,
    );
    assert_eq!(r, refuse(CommandRejectReason::NoFormationSpace));
    assert!(receipts.as_slice().is_empty());
}

#[test]
fn a_dead_building_releases_the_orders_bound_to_it() {
    let mut store = EntityStore::new();
    let depot = store.spawn(EntityKind::Building(BuildingKind::Depot), OWNER_PLAYER, [0, 0]).expect("room");
    let hauler = store.spawn(EntityKind::Unit(UnitKind::Worker), OWNER_PLAYER, [0, 0]).expect("room");
    let other = store.spawn(EntityKind::Unit(UnitKind::Worker), OWNER_PLAYER, [0, 0]).expect("room");
    let mut orders = OrderTable::new();
    let haul = Order::Gather { node: id(40), phase: GatherPhase::Returning { drop_off: depot, field: FIELD } };
    orders.set(hauler.index as usize, haul);
    orders.set(other.index as usize, Order::Attack { target: depot, field: FIELD });
    orders.release_building(&store, depot);
    assert_eq!(orders.get(hauler.index as usize), Order::Idle);
    assert_eq!(orders.get(other.index as usize), Order::Attack { target: depot, field: FIELD });
}

#[test]
fn a_ghoul_draws_from_the_soldier_sheet() {
    assert_eq!(unit_slot(UnitKind::Worker), UnitSheet::Worker);
    assert_eq!(unit_slot(UnitKind::Soldier), UnitSheet::Soldier);
    assert_eq!(unit_slot(UnitKind::Ghoul), UnitSheet::Soldier);
}

fn rts_scene(spawns: Vec<Cell>) -> Scenario {
    let spec = ScenarioSpec {
        version: "rts_prototype_v1".to_string(),
        width: 64,
        height: 64,
        cell_size_px: 4,
        sprite_size_px: 48,
        hard_agent_count: 0,
        stretch_agent_count: 0,
        seed: 1,
        destination: Cell { x: 60, y: 60 },
        spawn_cells: spawns,
        atlas_count: 4,
        direction_count: 8,
        frame_count: 4,
        collision_radius_q8: 0,
        separation_strength_q8: 0,
        separation_phases: 1,
        mass_class_count: 1,
        separation_threads: 1,
        obstacle_cells: vec![],
        rts: Some(RtsSpec {
            start_crystal: 300,
            start_gas: 40,
            start_supply_cap: 15,
            hq_cell: Cell { x: 8, y: 8 },
            crystal_nodes: vec![Cell { x: 40, y: 8 }, Cell { x: 42, y: 8 }],
            gas_nodes: vec![Cell { x: 40, y: 20 }],
            enemies: None,
        }),
    };
    Scenario::from_spec(spec).expect("valid rts scene")
}

#[test]
fn seeding_places_the_hq_then_full_nodes_then_units() {
    let scene = rts_scene(vec![Cell { x: 2, y: 40 }, Cell { x: 6, y: 40 }]);
    let mut store = seed_fixtures(&scene, [1, 2], &[[3, 4], [5, 6]], &[[7, 8]]).expect("fits");
    assert_eq!(store.slot_count(), 4);
    assert_eq!(store.kind(0), EntityKind::Building(BuildingKind::Hq));
    assert_eq!(store.owner(0), OWNER_PLAYER);
    assert_eq!(store.kind(1), EntityKind::Node(ResourceKind::Crystal));
    assert_eq!(store.amount(2), NODE_CRYSTAL_AMOUNT);
    assert_eq!(store.kind(3), EntityKind::Node(ResourceKind::Gas));
    assert_eq!(store.amount(3), NODE_GAS_AMOUNT);
    assert_eq!(store.owner(3), OWNER_NEUTRAL);
    assert_eq!(node_amount(ResourceKind::Gas), NODE_GAS_AMOUNT);
    seed_units(&mut store, &[[9, 9], [10, 10]], &[[11, 11]]).expect("fits");
    assert_eq!(store.slot_count(), 7);
    assert_eq!(store.kind(4), EntityKind::Unit(UnitKind::Worker));
    assert_eq!(store.kind(6), EntityKind::Unit(UnitKind::Ghoul));
    assert_eq!(store.owner(6), OWNER_ENEMY);
    assert_eq!(store.position(5), [10, 10]);
}

#[test]
fn the_opening_stock_comes_from_the_rts_block() {
    let scene = rts_scene(vec![Cell { x: 2, y: 40 }, Cell { x: 6, y: 40 }]);
    let (stock, supply) = opening_stock(&scene).expect("rts scene");
    assert_eq!(stock, Resources { crystal: 300, gas: 40 });
    assert_eq!(supply.cap(), 15);
    assert_eq!(supply.used(), 2);
}

#[test]
fn a_scene_without_an_rts_block_cannot_seed_a_world() {
    let spec = ScenarioSpec {
        version: "fixture_small".to_string(),
        width: 8,
        height: 8,
        cell_size_px: 4,
        sprite_size_px: 16,
        hard_agent_count: 2,
        stretch_agent_count: 2,
        seed: 7,
        destination: Cell { x: 7, y: 7 },
        spawn_cells: vec![Cell { x: 0, y: 0 }],
        atlas_count: 4,
        direction_count: 8,
        frame_count: 4,
        collision_radius_q8: 0,
        separation_strength_q8: 0,
        separation_phases: 1,
        mass_class_count: 1,
        separation_threads: 1,
        obstacle_cells: vec![],
        rts: None,
    };
    let scene = Scenario::from_spec(spec).expect("valid fixture");
    match opening_stock(&scene) {
        Err(RtsWorldError::NotAnRtsScene { version }) => assert_eq!(version, "fixture_small"),
        other => panic!("unexpected {other:?}"),
    }
    assert!(matches!(seed_fixtures(&scene, [0, 0], &[], &[]), Err(RtsWorldError::NotAnRtsScene { .. })));
}

#[test]
fn a_ready_head_spawns_a_player_unit_or_waits() {
    let mut q = ProductionQueue::empty();
    q.push(UnitKind::Worker);
    q.push(UnitKind::Soldier);
    for _ in 0..400 {
        q.tick_head();
    }
    assert!(q.head_ready());
    let mut store = EntityStore::new();
    assert_eq!(deliver_head(&mut q, &mut store, None), None);
    assert_eq!(q.entries(), &[UnitKind::Worker, UnitKind::Soldier]);
    let id = deliver_head(&mut q, &mut store, Some([5, 6])).expect("room");
    assert_eq!(store.kind(id.index as usize), EntityKind::Unit(UnitKind::Worker));
    assert_eq!(store.owner(id.index as usize), OWNER_PLAYER);
    assert_eq!(q.entries(), &[UnitKind::Soldier]);
    assert_eq!(q.progress(), 0);
}

#[test]
fn stop_idles_selected_player_units_only() {
    let mut store = EntityStore::new();
    let a = store.spawn(EntityKind::Unit(UnitKind::Worker), OWNER_PLAYER, [0, 0]).expect("room");
    let b = store.spawn(EntityKind::Unit(UnitKind::Soldier), OWNER_PLAYER, [0, 0]).expect("room");
    let g = store.spawn(EntityKind::Unit(UnitKind::Ghoul), OWNER_ENEMY, [0, 0]).expect("room");
    let mut orders = OrderTable::new();
    let busy = Order::Attack { target: g, field: FIELD };
    orders.set(a.index as usize, busy);
    orders.set(b.index as usize, busy);
    orders.set(g.index as usize, busy);
    let mut sel = Selection::new();
    sel.insert(a);
    sel.insert(g);
    let mut receipts = OrderReceiptBuffer::new();
    let r = cmd_stop(&sel, &store, &mut orders, &mut receipts);
    assert_eq!(r, CommandReceipt { accepted: 1, rejected: 0, reason: None });
    assert_eq!(orders.get(a.index as usize), Order::Idle);
    assert_eq!(orders.get(b.index as usize), busy);
    assert_eq!(orders.get(g.index as usize), busy);
    assert_eq!(receipts.as_slice()[0].order, IssuedOrder::Stop);
    let empty = Selection::new();
    let r = cmd_stop(&empty, &store, &mut orders, &mut receipts);
    assert_eq!(r.reason, Some(CommandRejectReason::EmptySelection));
}

#[test]
fn enemies_march_on_the_objective_and_stop_without_one() {
    let mut store = EntityStore::new();
    let g = store.spawn(EntityKind::Unit(UnitKind::Ghoul), OWNER_ENEMY, [0, 0]).expect("room");
    let w = store.spawn(EntityKind::Unit(UnitKind::Worker), OWNER_PLAYER, [0, 0]).expect("room");
    let mut orders = OrderTable::new();
    let obj = Cell { x: 9, y: 9 };
    assert!(march_needs_field(&store, &orders, obj));
    march_enemies(&store, &mut orders, Some(obj), Err(()));
    assert_eq!(orders.get(g.index as usize), Order::Idle);
    march_enemies(&store, &mut orders, Some(obj), Ok(FIELD));
    let marching = Order::AttackMove { goal: FormationGoal { anchor: obj, slot: obj }, field: FIELD };
    assert_eq!(orders.get(g.index as usize), marching);
    assert_eq!(orders.get(w.index as usize), Order::Idle);
    assert!(!march_needs_field(&store, &orders, obj));
    march_enemies(&store, &mut orders, None, Err(()));
    assert_eq!(orders.get(g.index as usize), Order::Idle);
}

#[test]
fn cancelling_a_site_refunds_it_and_idles_its_builders() {
    let mut store = EntityStore::new();
    let site = store.spawn(EntityKind::Building(BuildingKind::Depot), OWNER_PLAYER, [0, 0]).expect("room");
    store.set_progress(site.index as usize, 3, 100);
    let builder = store.spawn(EntityKind::Unit(UnitKind::Worker), OWNER_PLAYER, [0, 0]).expect("room");
    let mut orders = OrderTable::new();
    let build = Order::Build { site, goal: FormationGoal { anchor: Cell { x: 1, y: 1 }, slot: Cell { x: 1, y: 1 } }, field: FIELD };
    orders.set(builder.index as usize, build);
    let mut production = ProductionTable::new();
    let mut stock = Resources { crystal: 0, gas: 0 };
    assert!(cancel_construction(&mut store, &mut orders, &mut production, &mut stock, site));
    assert_eq!(stock, Resources { crystal: 100, gas: 0 });
    assert!(!store.contains(site));
    assert_eq!(orders.get(builder.index as usize), Order::Idle);
    assert!(!cancel_construction(&mut store, &mut orders, &mut production, &mut stock, site));
    assert_eq!(stock, Resources { crystal: 100, gas: 0 });
}

#[test]
fn waves_spawn_on_their_tick_in_order_and_owe_what_they_cannot_place() {
    let waves = [
        WaveSpec { at_tick: 10, count: 2, spawn_point: 1 },
        WaveSpec { at_tick: 10, count: 1, spawn_point: 0 },
    ];
    let points = [Cell { x: 1, y: 1 }, Cell { x: 30, y: 30 }];
    let s = WaveState { cursor: 0, pending: 0, spawned: 0 };
    assert_eq!(next_enemy(s, &waves, &points, 9), None);
    let (armed, at) = next_enemy(s, &waves, &points, 10).expect("due");
    assert_eq!(armed.pending, 2);
    assert_eq!(at, Cell { x: 30, y: 30 });
    let one = record_enemy_spawn(armed);
    assert_eq!(one, WaveState { cursor: 0, pending: 1, spawned: 1 });
    let (still, _) = next_enemy(one, &waves, &points, 11).expect("still owed");
    assert_eq!(still.pending, 1);
    let two = record_enemy_spawn(still);
    assert_eq!(two, WaveState { cursor: 1, pending: 0, spawned: 2 });
    let (next, at) = next_enemy(two, &waves, &points, 11).expect("second wave");
    assert_eq!((next.pending, at), (1, Cell { x: 1, y: 1 }));
    let done = record_enemy_spawn(next);
    assert_eq!(next_enemy(done, &waves, &points, 1000), None);
}

#[test]
fn a_group_order_takes_eligible_player_units_in_slot_order() {
    let mut store = EntityStore::new();
    let s = store.spawn(EntityKind::Unit(UnitKind::Soldier), OWNER_PLAYER, [0, 0]).expect("room");
    let w = store.spawn(EntityKind::Unit(UnitKind::Worker), OWNER_PLAYER, [0, 0]).expect("room");
    let g = store.spawn(EntityKind::Unit(UnitKind::Ghoul), OWNER_ENEMY, [0, 0]).expect("room");
    let ids = [w, g, s];
    let site = id(40);
    assert_eq!(collect_group(&store, &ids, GroupTarget::Site(site), true), vec![(w, UnitKind::Worker)]);
    let node = id(41);
    assert_eq!(
        collect_group(&store, &ids, GroupTarget::Node(node), false),
        vec![(s, UnitKind::Soldier)]
    );
    let all = collect_group(&store, &ids, GroupTarget::Node(node), true);
    assert_eq!(all, vec![(s, UnitKind::Soldier), (w, UnitKind::Worker)]);

    let anchor = Cell { x: 5, y: 5 };
    let slots = [Cell { x: 5, y: 6 }, Cell { x: 6, y: 5 }];
    let mut receipts = OrderReceiptBuffer::new();
    let orders = commit_group(GroupTarget::Node(node), anchor, FIELD, &all, &slots, &mut receipts);
    assert_eq!(orders[0], (s, Order::Move { goal: FormationGoal { anchor, slot: slots[0] }, field: FIELD }));
    assert_eq!(
        orders[1],
        (w, Order::Gather { node, phase: GatherPhase::ToNode { goal: FormationGoal { anchor, slot: slots[1] }, field: FIELD } })
    );
    assert_eq!(receipts.as_slice()[1].order, IssuedOrder::Gather);
    let attack = commit_group(GroupTarget::AttackGround(anchor), anchor, FIELD, &all, &slots, &mut receipts);
    assert_eq!(attack[0].1, Order::AttackMove { goal: FormationGoal { anchor, slot: slots[0] }, field: FIELD });
    assert_eq!(attack[1].1, Order::Move { goal: FormationGoal { anchor, slot: slots[1] }, field: FIELD });
    assert_eq!(receipts.as_slice()[0].order, IssuedOrder::AttackMove);
}

#[test]
fn a_context_click_mines_nodes_attends_sites_and_walks_elsewhere() {
    let c = Some(Cell { x: 3, y: 4 });
    assert_eq!(context_target(Pick::Node(id(1)), false, c), Some(GroupTarget::Node(id(1))));
    assert_eq!(context_target(Pick::Building(id(2)), true, c), Some(GroupTarget::Site(id(2))));
    assert_eq!(context_target(Pick::Building(id(2)), false, c), Some(GroupTarget::Ground(Cell { x: 3, y: 4 })));
    assert_eq!(context_target(Pick::Nothing, false, None), None);

    let none = context_result(Pick::Nothing, 3, None, Ok(0));
    assert_eq!(none, ContextOrderResult { pick: Pick::Nothing, accepted: 0, rejected: 3, reason: Some(ContextOrderReason::NoTargetCell) });
    let ground = Some(GroupTarget::Ground(Cell { x: 3, y: 4 }));
    let ok = context_result(Pick::Nothing, 3, ground, Ok(2));
    assert_eq!((ok.accepted, ok.rejected, ok.reason), (2, 1, None));
    let far = context_result(Pick::Nothing, 3, ground, Err(FormationError::Unreachable));
    assert_eq!(far.reason, Some(ContextOrderReason::Unreachable));
    let none_took = context_result(Pick::Nothing, 3, ground, Err(FormationError::NoUnits));
    assert_eq!((none_took.accepted, none_took.rejected, none_took.reason), (0, 3, None));
    assert_eq!(click_marker(ground, Ok(2)), Some(Cell { x: 3, y: 4 }));
    assert_eq!(click_marker(ground, Ok(0)), None);
    assert_eq!(click_marker(Some(GroupTarget::Node(id(1))), Ok(2)), None);
}

#[test]
fn a_group_command_answers_with_the_group_order_outcome() {
    assert_eq!(group_receipt(4, Ok(3)), CommandReceipt { accepted: 3, rejected: 1, reason: None });
    assert_eq!(
        group_receipt(4, Err(FormationError::NoFormationSpace)),
        CommandReceipt { accepted: 0, rejected: 4, reason: Some(CommandRejectReason::NoFormationSpace) }
    );
    assert_eq!(group_receipt(4, Err(FormationError::NoUnits)).reason, Some(CommandRejectReason::EmptySelection));
    assert_eq!(group_receipt(4, Err(FormationError::Unreachable)).reason, Some(CommandRejectReason::Unreachable));
}

#[test]
fn delivering_a_unit_moves_its_supply_from_the_queue_to_the_field() {
    let mut store = EntityStore::new();
    store.spawn(EntityKind::Unit(UnitKind::Worker), OWNER_PLAYER, [0, 0]);
    let mut q = ProductionQueue::empty();
    q.push(UnitKind::Soldier);
    for _ in 0..400 {
        q.tick_head();
    }
    let before = supply_recount(&store, &[q]);
    deliver_head(&mut q, &mut store, Some([1, 1])).expect("room");
    assert_eq!(supply_recount(&store, &[q]), before);
    assert_eq!(before, 3);
}

#[test]
fn units_that_do_not_fit_name_the_first_kind_left_out() {
    let nearly_full = || {
        let mut store = EntityStore::new();
        for _ in 0..MAX_ENTITIES - 2 {
            store.spawn(EntityKind::Node(ResourceKind::Gas), OWNER_NEUTRAL, [0, 0]);
        }
        store
    };
    let mut full = nearly_full();
    let mut store = nearly_full();
    match seed_units(&mut full, &[[1, 1], [2, 2], [3, 3]], &[]) {
        Err(RtsWorldError::StoreFull { what }) => assert_eq!(what, "worker"),
        other => panic!("unexpected {other:?}"),
    }
    match seed_units(&mut store, &[[1, 1]], &[[2, 2], [3, 3]]) {
        Err(RtsWorldError::StoreFull { what }) => assert_eq!(what, "ghoul"),
        other => panic!("unexpected {other:?}"),
    }
}

#[test]
fn the_receipt_buffer_keeps_its_reservation() {
    let mut receipts = OrderReceiptBuffer::new();
    assert_eq!(receipts.capacity(), MAX_ENTITIES);
    for i in 0..10 {
        receipts.push(id(i), IssuedOrder::Move);
    }
    assert_eq!(receipts.capacity(), MAX_ENTITIES);
    assert_eq!(receipts.as_slice().len(), 10);
    receipts.clear();
    assert_eq!(receipts.capacity(), MAX_ENTITIES);
    assert!(receipts.as_slice().is_empty());
    for i in 0..(MAX_ENTITIES as u32 + 1) {
        receipts.push(id(i), IssuedOrder::Stop);
    }
    assert_eq!(receipts.capacity(), MAX_ENTITIES + 1);
    assert_eq!(receipts.as_slice()[MAX_ENTITIES].id, id(MAX_ENTITIES as u32));
}

#[test]
fn combat_aims_by_order_and_build_state() {
    let soldier = EntityKind::Unit(UnitKind::Soldier);
    let w = weapon(UnitKind::Soldier);
    let near = Some(id(5));
    assert_eq!(aim(soldier, 0, Order::Idle, false, false, near), Aim { weapon: w, clears_order: false, target: near });
    let attack = Order::Attack { target: id(9), field: FIELD };
    assert_eq!(aim(soldier, 0, attack, true, true, near).target, Some(id(9)));
    assert_eq!(aim(soldier, 0, attack, true, false, near).target, None);
    assert_eq!(aim(soldier, 0, attack, false, false, near), Aim { weapon: w, clears_order: true, target: near });
    let walking = Order::Move { goal: FormationGoal { anchor: Cell { x: 1, y: 1 }, slot: Cell { x: 1, y: 1 } }, field: FIELD };
    assert_eq!(aim(soldier, 0, walking, false, false, near), Aim { weapon: w, clears_order: false, target: None });
    let turret = EntityKind::Building(BuildingKind::Turret);
    assert_eq!(aim(turret, 50, Order::Idle, false, false, near), Aim { weapon: None, clears_order: false, target: None });
    assert_eq!(aim(turret, 0, Order::Idle, false, false, near).target, near);
    assert_eq!(aim(EntityKind::Unit(UnitKind::Worker), 0, Order::Idle, false, false, near).target, None);
}

#[test]
fn aiming_from_the_store_sees_a_vanished_attack_target() {
    let mut store = EntityStore::new();
    let s = store.spawn(EntityKind::Unit(UnitKind::Soldier), OWNER_PLAYER, [0, 0]).expect("room");
    let g = store.spawn(EntityKind::Unit(UnitKind::Ghoul), OWNER_ENEMY, [0, 0]).expect("room");
    let mut orders = OrderTable::new();
    orders.set(s.index as usize, Order::Attack { target: g, field: FIELD });
    assert_eq!(aim_at(&store, &orders, s.index as usize, true, None).target, Some(g));
    store.despawn(g);
    let a = aim_at(&store, &orders, s.index as usize, true, None);
    assert!(a.clears_order);
    assert_eq!(a.target, None);
}

#[test]
fn movement_ends_and_holds_orders_as_measured() {
    let goal = FormationGoal { anchor: Cell { x: 1, y: 1 }, slot: Cell { x: 1, y: 1 } };
    let mv = Order::Move { goal, field: FIELD };
    assert_eq!(stride(mv, None, false, false, None, true, false), Stride::Stop);
    assert_eq!(stride(mv, None, false, false, None, false, true), Stride::Stop);
    assert_eq!(stride(mv, None, false, false, None, false, false), Stride::Walk);
    let attack = Order::Attack { target: id(3), field: FIELD };
    assert_eq!(stride(attack, None, false, false, None, false, false), Stride::Stop);
    assert_eq!(stride(attack, Some(EntityKind::Node(ResourceKind::Gas)), false, false, None, false, false), Stride::Stop);
    assert_eq!(stride(attack, Some(EntityKind::Unit(UnitKind::Ghoul)), true, false, None, false, false), Stride::Stand);
    assert_eq!(stride(attack, Some(EntityKind::Unit(UnitKind::Ghoul)), false, false, None, false, false), Stride::Walk);
    let follow = Order::Follow { target: id(3), goal, field: FIELD };
    assert_eq!(stride(follow, None, false, false, None, false, false), Stride::Stop);
    let unit = Some(EntityKind::Unit(UnitKind::Worker));
    assert_eq!(stride(follow, unit, false, false, Some(false), false, false), Stride::Stop);
    assert_eq!(stride(follow, unit, false, true, Some(true), false, false), Stride::Stand);
    let build = Order::Build { site: id(4), goal, field: FIELD };
    assert_eq!(stride(build, None, false, false, None, false, false), Stride::Stand);
    assert_eq!(stride(build, Some(EntityKind::Building(BuildingKind::Depot)), false, true, None, false, false), Stride::Stand);
    assert_eq!(stride(build, Some(EntityKind::Building(BuildingKind::Depot)), false, false, None, false, false), Stride::Walk);
    assert_eq!(stride(to_node(), None, false, false, None, false, false), Stride::Stand);
    assert_eq!(stride(Order::Idle, None, false, false, None, true, true), Stride::Stand);
}

#[test]
fn an_attack_command_reads_its_units_and_target_from_the_world() {
    let mut store = EntityStore::new();
    let w = store.spawn(EntityKind::Unit(UnitKind::Worker), OWNER_PLAYER, [0, 0]).expect("room");
    let s = store.spawn(EntityKind::Unit(UnitKind::Soldier), OWNER_PLAYER, [0, 0]).expect("room");
    let g = store.spawn(EntityKind::Unit(UnitKind::Ghoul), OWNER_ENEMY, [0, 0]).expect("room");
    let mut sel = Selection::new();
    sel.insert(s);
    sel.insert(w);
    sel.insert(g);
    assert_eq!(attack_units(&sel, &store), vec![(w, false), (s, true)]);
    assert!(enemy_target(&store, g));
    assert!(!enemy_target(&store, w));
    store.despawn(g);
    assert!(!enemy_target(&store, g));
}
