use mmd_engine::digest::Sha256State;
use mmd_engine::rts::entity::{
    max_hp, BuildingKind, EntityId, EntityKind, EntityStore, ResourceKind, UnitKind, MAX_ENTITIES, OWNER_ENEMY,
    OWNER_NEUTRAL, OWNER_PLAYER,
};
use sha2::{Digest, Sha256};

fn bits(p: [f32; 2]) -> [u32; 2] {
    [p[0].to_bits(), p[1].to_bits()]
}

const WORKER: EntityKind = EntityKind::Unit(UnitKind::Worker);

#[test]
fn a_new_store_is_empty() {
    let store = EntityStore::new();
    assert_eq!(store.len(), 0);
    assert!(store.is_empty());
    assert_eq!(store.slot_count(), 0);
    assert_eq!(store.id_at(0), None);
    let d = EntityStore::default();
    assert!(d.is_empty());
}

#[test]
fn spawning_fills_slots_in_order_at_generation_zero() {
    let mut store = EntityStore::new();
    let a = store.spawn(WORKER, OWNER_PLAYER, bits([1.5, 2.5])).unwrap();
    let b = store.spawn(EntityKind::Building(BuildingKind::Hq), OWNER_PLAYER, bits([4.0, 4.0])).unwrap();
    assert_eq!(a, EntityId { index: 0, generation: 0 });
    assert_eq!(b, EntityId { index: 1, generation: 0 });
    assert_eq!(store.len(), 2);
    assert_eq!(store.slot_count(), 2);
    assert!(store.contains(a) && store.contains(b));
    assert_eq!(store.slot(b), Some(1));
    assert_eq!(store.kind(1), EntityKind::Building(BuildingKind::Hq));
    assert_eq!(store.owner(0), OWNER_PLAYER);
    assert_eq!(store.position(0), bits([1.5, 2.5]));
    assert_eq!(f32::from_bits(store.position(0)[1]), 2.5);
    assert_eq!(store.hp(0), max_hp(WORKER));
    assert_eq!(store.hp(1), 400);
    assert_eq!(store.carry(0), None);
    assert_eq!(store.cooldown(0), 0);
    assert_eq!(store.progress(1), 0);
    assert_eq!(store.progress_target(1), 0);
}

#[test]
fn a_node_spawns_without_hit_points() {
    let mut store = EntityStore::new();
    store.spawn(EntityKind::Node(ResourceKind::Gas), OWNER_NEUTRAL, bits([0.0, 0.0])).unwrap();
    assert_eq!(store.hp(0), 0);
}

#[test]
fn a_despawned_handle_goes_stale_and_its_slot_comes_back_first() {
    let mut store = EntityStore::new();
    let a = store.spawn(WORKER, OWNER_PLAYER, bits([0.0, 0.0])).unwrap();
    let b = store.spawn(WORKER, OWNER_PLAYER, bits([1.0, 0.0])).unwrap();
    let c = store.spawn(WORKER, OWNER_PLAYER, bits([2.0, 0.0])).unwrap();
    assert!(store.despawn(a));
    assert!(store.despawn(c));
    assert!(!store.contains(a));
    assert!(!store.despawn(a), "a stale id despawns nothing");
    assert_eq!(store.len(), 1);
    assert!(!store.alive(0));
    assert_eq!(store.id_at(0), None);

    let d = store.spawn(EntityKind::Unit(UnitKind::Ghoul), OWNER_ENEMY, bits([5.0, 5.0])).unwrap();
    assert_eq!(d, EntityId { index: 2, generation: 1 }, "the slot freed last is reused first");
    let e = store.spawn(WORKER, OWNER_PLAYER, bits([6.0, 6.0])).unwrap();
    assert_eq!(e, EntityId { index: 0, generation: 1 });
    assert!(!store.contains(a), "the old handle does not name the newcomer");
    assert!(!store.contains(c));
    assert!(store.contains(b) && store.contains(d) && store.contains(e));
    assert_eq!(store.slot_count(), 3);
    assert_eq!(store.len(), 3);
}

#[test]
fn a_full_store_refuses_a_spawn() {
    let mut store = EntityStore::new();
    for i in 0..MAX_ENTITIES {
        assert!(store.spawn(WORKER, OWNER_PLAYER, bits([i as f32, 0.0])).is_some());
    }
    assert_eq!(store.len(), MAX_ENTITIES);
    assert_eq!(store.spawn(WORKER, OWNER_PLAYER, bits([0.0, 0.0])), None);
    assert_eq!(store.len(), MAX_ENTITIES);
    let last = store.id_at(MAX_ENTITIES - 1).unwrap();
    assert!(store.despawn(last));
    assert_eq!(store.spawn(WORKER, OWNER_PLAYER, bits([0.0, 0.0])), Some(EntityId { index: last.index, generation: 1 }));
}

#[test]
fn setters_change_one_column_of_one_slot() {
    let mut store = EntityStore::new();
    store.spawn(WORKER, OWNER_PLAYER, bits([0.0, 0.0])).unwrap();
    store.spawn(WORKER, OWNER_PLAYER, bits([1.0, 0.0])).unwrap();
    store.set_position(1, bits([3.25, 4.5]));
    store.set_dir(1, 6);
    store.set_frame(1, 2);
    store.set_progress(1, 10, 300);
    store.set_amount(1, 7);
    store.set_hp(1, 9);
    store.set_cooldown(1, 4);
    store.set_carry(1, Some((ResourceKind::Gas, 8)));
    assert_eq!(store.position(1), bits([3.25, 4.5]));
    assert_eq!((store.dir(1), store.frame(1)), (6, 2));
    assert_eq!((store.progress(1), store.progress_target(1)), (10, 300));
    assert_eq!((store.amount(1), store.hp(1), store.cooldown(1)), (7, 9, 4));
    assert_eq!(store.carry(1), Some((ResourceKind::Gas, 8)));
    store.set_carry(1, Some((ResourceKind::Crystal, 5)));
    assert_eq!(store.carry(1), Some((ResourceKind::Crystal, 5)));
    store.set_carry(1, None);
    assert_eq!(store.carry(1), None);
    assert_eq!(store.position(0), bits([0.0, 0.0]));
    assert_eq!(store.hp(0), max_hp(WORKER));
}

#[test]
fn live_slots_are_collected_ascending_into_a_cleared_buffer() {
    let mut store = EntityStore::new();
    for i in 0..5 {
        store.spawn(WORKER, OWNER_PLAYER, bits([i as f32, 0.0])).unwrap();
    }
    assert!(store.despawn(store.id_at(1).unwrap()));
    assert!(store.despawn(store.id_at(3).unwrap()));
    let mut out = vec![99, 98];
    store.collect_live(&mut out);
    assert_eq!(out, vec![0, 2, 4]);
}

#[test]
fn the_store_hash_frames_each_live_slot() {
    let mut store = EntityStore::new();
    store.spawn(WORKER, OWNER_PLAYER, bits([1.0, 2.0])).unwrap();
    let dead = store.spawn(WORKER, OWNER_PLAYER, bits([3.0, 4.0])).unwrap();
    assert!(store.despawn(dead));

    let mut want = Sha256::new();
    want.update([0x10u8, OWNER_PLAYER]);
    want.update(1.0f32.to_bits().to_le_bytes());
    want.update(2.0f32.to_bits().to_le_bytes());
    want.update([0u8, 0u8]);
    want.update(0u32.to_le_bytes());
    want.update(0u32.to_le_bytes());
    want.update(0u32.to_le_bytes());
    want.update([0xFFu8]);
    want.update(0u32.to_le_bytes());
    want.update(25u32.to_le_bytes());
    want.update(0u32.to_le_bytes());
    let want: [u8; 32] = want.finalize().into();

    let mut h = Sha256State::new();
    store.hash_into(&mut h);
    assert_eq!(h.finalize(), want);
}
