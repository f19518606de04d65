use mmd_engine::digest::Sha256State;
use mmd_engine::rts::entity::{EntityId, EntityKind, EntityStore, UnitKind, OWNER_PLAYER};
use mmd_engine::rts::selection::Selection;
use sha2::{Digest, Sha256};

fn id(index: u32, generation: u32) -> EntityId {
    EntityId { index, generation }
}

#[test]
fn selection_iterates_by_slot_not_click_order() {
    let mut a = Selection::new();
    a.insert(id(9, 0));
    a.insert(id(2, 1));
    a.insert(id(2, 0));
    let mut b = Selection::new();
    b.insert(id(2, 0));
    b.insert(id(9, 0));
    b.insert(id(2, 1));
    assert_eq!(a.ids(), &[id(2, 0), id(2, 1), id(9, 0)]);
    assert_eq!(a.ids(), b.ids());
    assert_eq!(a.primary(), Some(id(2, 0)));
}

#[test]
fn insert_remove_and_toggle() {
    let mut s = Selection::new();
    assert!(s.is_empty());
    assert!(s.insert(id(4, 0)));
    assert!(!s.insert(id(4, 0)));
    assert!(s.contains(id(4, 0)));
    assert!(!s.contains(id(4, 1)));
    assert!(s.remove(id(4, 0)));
    assert!(!s.remove(id(4, 0)));
    assert!(s.toggle(id(5, 0)));
    assert!(!s.toggle(id(5, 0)));
    assert_eq!(s.len(), 0);
    s.insert(id(1, 0));
    s.clear();
    assert_eq!(s.primary(), None);
}

#[test]
fn replace_sorts_and_deduplicates() {
    let mut s = Selection::new();
    s.insert(id(100, 0));
    s.replace(&[id(7, 0), id(3, 0), id(7, 0), id(5, 2)]);
    assert_eq!(s.ids(), &[id(3, 0), id(5, 2), id(7, 0)]);
}

#[test]
fn the_selection_hash_is_length_then_handles() {
    let mut s = Selection::new();
    s.insert(id(3, 1));
    s.insert(id(1, 0));
    let mut h = Sha256State::new();
    s.hash_into(&mut h);
    let mut want = Sha256::new();
    want.update(2u64.to_le_bytes());
    for (i, g) in [(1u32, 0u32), (3, 1)] {
        want.update(i.to_le_bytes());
        want.update(g.to_le_bytes());
    }
    let want: [u8; 32] = want.finalize().into();
    assert_eq!(h.finalize(), want);
}

#[test]
fn retain_live_drops_what_the_store_no_longer_resolves() {
    let mut store = EntityStore::new();
    let a = store.spawn(EntityKind::Unit(UnitKind::Worker), OWNER_PLAYER, [0, 0]).unwrap();
    let b = store.spawn(EntityKind::Unit(UnitKind::Worker), OWNER_PLAYER, [0, 0]).unwrap();
    let c = store.spawn(EntityKind::Unit(UnitKind::Soldier), OWNER_PLAYER, [0, 0]).unwrap();
    let mut sel = Selection::new();
    sel.replace(&[c, a, b]);
    assert!(store.despawn(b));
    assert_eq!(sel.retain_live(&store), 1);
    assert_eq!(sel.ids(), &[a, c]);
    assert_eq!(sel.retain_live(&store), 0);
}
