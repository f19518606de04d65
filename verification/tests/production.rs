use mmd_engine::digest::Sha256State;
use mmd_engine::rts::entity::{BuildingKind, UnitKind};
use mmd_engine::rts::production::{
    can_produce, produce_ticks, unit_cost, ProductionQueue, ProductionTable, PRODUCTION_QUEUE_CAP,
};
use mmd_engine::rts::economy::Resources;
use mmd_engine::scenario::Cell;
use sha2::{Digest, Sha256};

#[test]
fn costs_times_and_the_build_tree() {
    assert_eq!(unit_cost(UnitKind::Worker), Resources { crystal: 50, gas: 0 });
    assert_eq!(unit_cost(UnitKind::Soldier), Resources { crystal: 50, gas: 25 });
    assert_eq!(produce_ticks(UnitKind::Worker), 300);
    assert_eq!(produce_ticks(UnitKind::Soldier), 360);
    assert!(can_produce(BuildingKind::Hq, UnitKind::Worker));
    assert!(can_produce(BuildingKind::Barracks, UnitKind::Soldier));
    assert!(!can_produce(BuildingKind::Depot, UnitKind::Worker));
    assert!(!can_produce(BuildingKind::Hq, UnitKind::Soldier));
}

#[test]
fn a_queue_holds_five_and_refuses_the_sixth() {
    let mut q = ProductionQueue::default();
    for _ in 0..PRODUCTION_QUEUE_CAP {
        assert!(q.push(UnitKind::Worker));
    }
    assert!(q.is_full());
    let before = q;
    assert!(!q.push(UnitKind::Soldier));
    assert_eq!(q, before);
}

#[test]
fn the_head_saturates_and_waits_to_be_taken() {
    let mut q = ProductionQueue::default();
    q.push(UnitKind::Worker);
    q.push(UnitKind::Soldier);
    assert_eq!(q.pop_ready(), None);
    for _ in 0..400 {
        q.tick_head();
    }
    assert_eq!(q.progress(), 300);
    assert!(q.head_ready());
    assert_eq!(q.pop_ready(), Some(UnitKind::Worker));
    assert_eq!(q.progress(), 0);
    assert_eq!(q.entries(), &[UnitKind::Soldier]);
}

#[test]
fn cancelling_the_head_resets_progress_and_others_keep_it() {
    let mut q = ProductionQueue::default();
    q.push(UnitKind::Worker);
    q.push(UnitKind::Soldier);
    q.push(UnitKind::Worker);
    q.tick_head();
    q.tick_head();
    assert_eq!(q.cancel(1), Some(UnitKind::Soldier));
    assert_eq!(q.progress(), 2);
    assert_eq!(q.cancel(7), None);
    assert_eq!(q.cancel(0), Some(UnitKind::Worker));
    assert_eq!(q.progress(), 0);
    assert_eq!(q.entries(), &[UnitKind::Worker]);
    assert_eq!(q.head(), Some(UnitKind::Worker));
}

#[test]
fn the_same_contents_are_the_same_queue() {
    let mut a = ProductionQueue::default();
    a.push(UnitKind::Soldier);
    a.push(UnitKind::Worker);
    a.cancel(0);
    let mut b = ProductionQueue::default();
    b.push(UnitKind::Worker);
    assert_eq!(a, b);
}

#[test]
fn the_queue_hash_is_five_tags_then_progress() {
    let mut q = ProductionQueue::default();
    q.push(UnitKind::Soldier);
    q.tick_head();
    let mut h = Sha256State::new();
    q.hash_into(&mut h);
    let mut want = Sha256::new();
    want.update([2u8, 0, 0, 0, 0]);
    want.update(1u32.to_le_bytes());
    let want: [u8; 32] = want.finalize().into();
    assert_eq!(h.finalize(), want);
}

#[test]
fn a_table_keeps_a_queue_and_rally_per_slot() {
    let mut t = ProductionTable::new();
    assert!(t.queue(4).is_empty());
    assert!(t.queue_mut(4).push(UnitKind::Worker));
    assert_eq!(t.queue(4).len(), 1);
    t.set_rally(4, Some(Cell { x: 9, y: 2 }));
    assert_eq!(t.rally(4), Some(Cell { x: 9, y: 2 }));
    t.clear(4);
    assert!(t.queue(4).is_empty());
    assert_eq!(t.rally(4), None);

    t.set_rally(1, Some(Cell { x: 3, y: 5 }));
    let mut h = Sha256State::new();
    t.hash_into(&mut h, &[1]);
    let mut want = Sha256::new();
    want.update([0u8, 0, 0, 0, 0]);
    want.update(0u32.to_le_bytes());
    want.update([1u8]);
    want.update(3u32.to_le_bytes());
    want.update(5u32.to_le_bytes());
    let want: [u8; 32] = want.finalize().into();
    assert_eq!(h.finalize(), want);
}

fn queue_digest(q: &ProductionQueue) -> [u8; 32] {
    let mut h = Sha256State::new();
    q.hash_into(&mut h);
    h.finalize()
}

#[test]
fn a_shorter_queue_never_hashes_like_a_longer_one() {
    let mut one = ProductionQueue::default();
    one.push(UnitKind::Worker);
    let mut two = one;
    two.push(UnitKind::Worker);
    let empty = ProductionQueue::default();
    assert_ne!(queue_digest(&one), queue_digest(&two));
    assert_ne!(queue_digest(&empty), queue_digest(&one));
    let mut other = ProductionQueue::default();
    other.push(UnitKind::Soldier);
    assert_ne!(queue_digest(&one), queue_digest(&other));
}

#[test]
fn a_queue_takes_any_kind_while_it_has_room() {
    let mut q = ProductionQueue::empty();
    assert!(q.push(UnitKind::Ghoul));
    assert_eq!(q.entries(), &[UnitKind::Ghoul]);
    assert_eq!(q.progress(), 0);
}
