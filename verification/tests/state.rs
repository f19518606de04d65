use mmd_engine::rts::collision::GatherCollisionState;
use mmd_engine::rts::economy::{Resources, Supply};
use mmd_engine::rts::entity::EntityStore;
use mmd_engine::rts::orders::OrderTable;
use mmd_engine::rts::placement::Placement;
use mmd_engine::rts::production::ProductionTable;
use mmd_engine::rts::selection::Selection;
use mmd_engine::rts::state::WorldState;
use mmd_engine::rts::world::MoveMarkers;
use sha2::{Digest, Sha256};

fn empty_world() -> WorldState {
    WorldState {
        tick_index: 7,
        entities: EntityStore::new(),
        orders: OrderTable::new(),
        gather_pairs: GatherCollisionState::new(),
        selection: Selection::new(),
        production: ProductionTable::new(),
        camera_center: [1, 2],
        placement: Placement::Inactive,
        resources: Resources { crystal: 300, gas: 40 },
        supply: Supply::new(15),
        kills: 0,
        losses: 0,
        first_combat_tick: None,
        markers: MoveMarkers::new(),
    }
}

#[test]
fn an_empty_world_hashes_its_framing_in_order() {
    let mut want = Sha256::new();
    want.update(7u64.to_le_bytes());
    want.update(0u64.to_le_bytes());
    want.update(0u64.to_le_bytes());
    want.update(0u64.to_le_bytes());
    want.update(1u32.to_le_bytes());
    want.update(2u32.to_le_bytes());
    want.update([0u8, 0u8]);
    for v in [300u32, 40, 0, 15, 0, 0] {
        want.update(v.to_le_bytes());
    }
    want.update([0u8]);
    want.update(0u32.to_le_bytes());
    want.update(0u32.to_le_bytes());
    let want: [u8; 32] = want.finalize().into();
    assert_eq!(empty_world().state_hash(), want);
}

#[test]
fn the_state_hash_sees_every_counter() {
    let a = empty_world();
    let mut b = empty_world();
    assert_eq!(a.state_hash(), b.state_hash());
    b.kills = 1;
    assert_ne!(a.state_hash(), b.state_hash());
    let mut c = empty_world();
    c.first_combat_tick = Some(0);
    assert_ne!(a.state_hash(), c.state_hash());
}
