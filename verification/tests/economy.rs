use mmd_engine::rts::economy::{supply_cost, Resources, Supply};
use mmd_engine::rts::entity::{
    armor, max_hp, BuildingKind, EntityId, EntityKind, ResourceKind, UnitKind,
};

#[test]
fn debit_then_credit_restores_the_stock() {
    let mut r = Resources { crystal: 100, gas: 30 };
    let cost = Resources { crystal: 50, gas: 25 };
    assert!(r.covers(cost));
    assert!(r.try_debit(cost));
    assert_eq!(r, Resources { crystal: 50, gas: 5 });
    r.credit(cost);
    assert_eq!(r, Resources { crystal: 100, gas: 30 });
}

#[test]
fn an_uncovered_debit_changes_nothing() {
    let mut r = Resources { crystal: 10, gas: 0 };
    assert!(!r.try_debit(Resources { crystal: 50, gas: 0 }));
    assert_eq!(r, Resources { crystal: 10, gas: 0 });
}

#[test]
fn credit_saturates() {
    let mut r = Resources { crystal: u32::MAX - 1, gas: 0 };
    r.credit(Resources { crystal: 5, gas: 1 });
    assert_eq!(r, Resources { crystal: u32::MAX, gas: 1 });
}

#[test]
fn supply_tracks_used_and_cap() {
    let mut s = Supply::new(10);
    assert_eq!(s.cap(), 10);
    assert_eq!(s.free(), 10);
    assert!(s.fits(supply_cost(UnitKind::Soldier)));
    s.add_used(supply_cost(UnitKind::Soldier));
    assert_eq!(s.used(), 2);
    s.remove_used(2);
    assert_eq!(s.used(), 0);
    s.grant_cap(10);
    assert_eq!(s.cap(), 20);
    s.revoke_cap(5);
    assert_eq!(s.cap(), 15);
    assert_eq!(supply_cost(UnitKind::Worker), 1);
    assert_eq!(supply_cost(UnitKind::Ghoul), 0);
}

#[test]
fn kind_tags_are_stable_bytes() {
    assert_eq!(EntityKind::Unit(UnitKind::Worker).tag(), 0x10);
    assert_eq!(EntityKind::Unit(UnitKind::Ghoul).tag(), 0x12);
    assert_eq!(EntityKind::Building(BuildingKind::Barracks).tag(), 0x22);
    assert_eq!(EntityKind::Node(ResourceKind::Gas).tag(), 0x31);
    assert_eq!(EntityKind::Building(BuildingKind::Hq).footprint_cells(), 24);
    assert_eq!(EntityKind::Unit(UnitKind::Soldier).footprint_cells(), 1);
    assert!(BuildingKind::Hq.is_drop_off());
    assert!(!BuildingKind::Depot.is_drop_off());
    assert_eq!(max_hp(EntityKind::Building(BuildingKind::Hq)), 400);
    assert_eq!(max_hp(EntityKind::Node(ResourceKind::Crystal)), 0);
    assert_eq!(armor(EntityKind::Building(BuildingKind::Hq)), 2);
    let id = EntityId { index: 3, generation: 1 };
    assert_eq!(id.index, 3);
}
