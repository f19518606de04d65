use mmd_engine::rts::combat::{building_weapon, weapon, Weapon};
use mmd_engine::rts::commands::{
    apply_damage, cancel_queued, damage_target, enqueue_unit, producer_of, reserved_supply, Producer,
};
use mmd_engine::rts::economy::{Resources, Supply};
use mmd_engine::rts::entity::{
    BuildingKind, EntityKind, EntityStore, ResourceKind, UnitKind, OWNER_ENEMY, OWNER_PLAYER,
};
use mmd_engine::rts::hud::{command_icon, CommandId};
use mmd_engine::rts::pack::{DeathFlashes, FramePackOptions, Prop, DEATH_FLASH_FRAMES};
use mmd_engine::rts::production::{ProduceError, ProductionQueue};
use mmd_engine::rts::world::{DamageResult, DeathEvent};

fn hq() -> Option<Producer> {
    Some(Producer { kind: BuildingKind::Hq, owner: OWNER_PLAYER, finished: true })
}

#[test]
fn an_enqueue_pays_reserves_and_queues() {
    let mut q = ProductionQueue::default();
    let mut s = Supply::new(10);
    let mut r = Resources { crystal: 120, gas: 0 };
    assert_eq!(enqueue_unit(hq(), UnitKind::Worker, &mut q, &mut s, &mut r), Ok(()));
    assert_eq!(r, Resources { crystal: 70, gas: 0 });
    assert_eq!(s.used(), 1);
    assert_eq!(q.entries(), &[UnitKind::Worker]);
    assert!(cancel_queued(true, 0, &mut q, &mut s, &mut r));
    assert_eq!(r, Resources { crystal: 120, gas: 0 });
    assert_eq!(s.used(), 0);
    assert!(q.is_empty());
    assert!(!cancel_queued(true, 0, &mut q, &mut s, &mut r));
}

#[test]
fn refusals_come_in_order_and_change_nothing() {
    let mut q = ProductionQueue::default();
    let mut s = Supply::new(10);
    let mut r = Resources { crystal: 500, gas: 500 };
    assert_eq!(enqueue_unit(None, UnitKind::Worker, &mut q, &mut s, &mut r), Err(ProduceError::NoBuilding));
    let enemy = Some(Producer { kind: BuildingKind::Hq, owner: OWNER_ENEMY, finished: true });
    assert_eq!(enqueue_unit(enemy, UnitKind::Worker, &mut q, &mut s, &mut r), Err(ProduceError::NoBuilding));
    let site = Some(Producer { kind: BuildingKind::Hq, owner: OWNER_PLAYER, finished: false });
    assert_eq!(enqueue_unit(site, UnitKind::Worker, &mut q, &mut s, &mut r), Err(ProduceError::UnderConstruction));
    assert_eq!(enqueue_unit(hq(), UnitKind::Soldier, &mut q, &mut s, &mut r), Err(ProduceError::WrongBuilding));
    let mut full = Supply::new(0);
    assert_eq!(enqueue_unit(hq(), UnitKind::Worker, &mut q, &mut full, &mut r), Err(ProduceError::SupplyBlocked));
    assert_eq!(r, Resources { crystal: 500, gas: 500 }, "a supply-blocked enqueue never takes the money");
    let mut poor = Resources { crystal: 10, gas: 0 };
    assert_eq!(enqueue_unit(hq(), UnitKind::Worker, &mut q, &mut s, &mut poor), Err(ProduceError::Unaffordable));
    for _ in 0..5 {
        assert_eq!(enqueue_unit(hq(), UnitKind::Worker, &mut q, &mut s, &mut r), Ok(()));
    }
    assert_eq!(enqueue_unit(hq(), UnitKind::Worker, &mut q, &mut s, &mut r), Err(ProduceError::QueueFull));
    assert!(!cancel_queued(false, 0, &mut q, &mut s, &mut r));
}

#[test]
fn damage_subtracts_armor_but_always_lands() {
    let hq = EntityKind::Building(BuildingKind::Hq);
    assert_eq!(apply_damage(Some((hq, 400)), 10), DamageResult::Damaged { remaining_hp: 392 });
    assert_eq!(apply_damage(Some((hq, 400)), 1), DamageResult::Damaged { remaining_hp: 399 });
    assert_eq!(apply_damage(Some((EntityKind::Unit(UnitKind::Worker), 5)), 5), DamageResult::Killed);
    assert_eq!(apply_damage(Some((EntityKind::Node(ResourceKind::Gas), 0)), 50), DamageResult::Indestructible);
    assert_eq!(apply_damage(None, 50), DamageResult::NoTarget);
}

#[test]
fn props_and_command_icons() {
    assert_eq!(Prop::SelectionRing.index(), 0);
    assert_eq!(Prop::PanelFill.index(), 7);
    assert_eq!(Prop::MoveMarker.index(), 19);
    assert_eq!(command_icon(CommandId::TrainSoldier), Prop::IconTrainSoldier);
    assert_eq!(command_icon(CommandId::SetRally).index(), 15);
    assert!(!FramePackOptions::default().show_grid);
}

#[test]
fn reserved_supply_sums_every_queue() {
    let mut a = ProductionQueue::default();
    a.push(UnitKind::Worker);
    a.push(UnitKind::Soldier);
    let mut b = ProductionQueue::default();
    b.push(UnitKind::Soldier);
    assert_eq!(reserved_supply(&[a, b, ProductionQueue::default()]), 5);
    assert_eq!(reserved_supply(&[]), 0);
}

#[test]
fn the_weapon_table_matches_the_design_numbers() {
    assert_eq!(weapon(UnitKind::Worker), None);
    assert_eq!(weapon(UnitKind::Soldier), Some(Weapon { damage: 6, cooldown_ticks: 15, range_cells: 24 }));
    assert_eq!(weapon(UnitKind::Ghoul), Some(Weapon { damage: 5, cooldown_ticks: 30, range_cells: 8 }));
    assert_eq!(building_weapon(BuildingKind::Turret), Some(Weapon { damage: 10, cooldown_ticks: 20, range_cells: 36 }));
    assert_eq!(building_weapon(BuildingKind::Hq), None);
    assert_eq!(building_weapon(BuildingKind::Depot), None);
    assert_eq!(building_weapon(BuildingKind::Barracks), None);
}

fn death(owner: u8) -> DeathEvent {
    DeathEvent { kind: EntityKind::Unit(UnitKind::Soldier), owner, center: [1.5f32.to_bits(), 2.5f32.to_bits()] }
}

#[test]
fn a_death_flash_lives_exactly_its_frame_count() {
    let mut flashes = DeathFlashes::new();
    assert_eq!(flashes.active_count(), 0);
    flashes.absorb(&[death(OWNER_PLAYER), death(OWNER_ENEMY)]);
    assert_eq!(flashes.active_count(), 2);
    assert_eq!(flashes.active()[1], (death(OWNER_ENEMY), DEATH_FLASH_FRAMES));
    for _ in 0..DEATH_FLASH_FRAMES - 1 {
        flashes.age();
    }
    assert_eq!(flashes.active_count(), 2);
    assert_eq!(flashes.active()[0].1, 1);
    flashes.age();
    assert_eq!(flashes.active_count(), 0);
}

#[test]
fn aging_keeps_the_younger_flashes_in_order() {
    let mut flashes = DeathFlashes::default();
    flashes.absorb(&[death(OWNER_PLAYER)]);
    for _ in 0..5 {
        flashes.age();
    }
    flashes.absorb(&[death(OWNER_ENEMY)]);
    for _ in 0..7 {
        flashes.age();
    }
    assert_eq!(flashes.active_count(), 1);
    assert_eq!(flashes.active()[0], (death(OWNER_ENEMY), DEATH_FLASH_FRAMES - 7));
}

#[test]
fn the_store_tells_production_what_a_building_is() {
    let mut store = EntityStore::new();
    let hq = store.spawn(EntityKind::Building(BuildingKind::Hq), OWNER_PLAYER, [0, 0]).unwrap();
    let site = store.spawn(EntityKind::Building(BuildingKind::Barracks), OWNER_PLAYER, [0, 0]).unwrap();
    store.set_progress(site.index as usize, 0, 300);
    let worker = store.spawn(EntityKind::Unit(UnitKind::Worker), OWNER_PLAYER, [0, 0]).unwrap();
    assert_eq!(producer_of(&store, hq), Some(Producer { kind: BuildingKind::Hq, owner: OWNER_PLAYER, finished: true }));
    assert_eq!(
        producer_of(&store, site),
        Some(Producer { kind: BuildingKind::Barracks, owner: OWNER_PLAYER, finished: false })
    );
    assert_eq!(producer_of(&store, worker), None);
    assert_eq!(damage_target(&store, worker), Some((EntityKind::Unit(UnitKind::Worker), 25)));
    assert!(store.despawn(hq));
    assert_eq!(producer_of(&store, hq), None, "a stale id names no building");
    assert_eq!(damage_target(&store, hq), None);
    assert_eq!(apply_damage(damage_target(&store, worker), 10), DamageResult::Damaged { remaining_hp: 15 });
}
