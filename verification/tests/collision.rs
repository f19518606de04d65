use mmd_engine::digest::Sha256State;
use mmd_engine::rts::collision::{
    concentric_pair_normal, pair_byte_exempts, pair_byte_is_transition, pair_index, GatherCollisionState,
    GATHER_PAIR_ACTIVE, GATHER_SEPARATION_STEP_HALF_CELLS, GATHER_SEPARATION_TICKS, PAIR_COUNT,
};
use mmd_engine::rts::entity::{
    EntityId, EntityKind, EntityStore, ResourceKind, UnitKind, MAX_ENTITIES, OWNER_PLAYER,
    RTS_UNIT_BODY_DIAMETER_CELLS,
};
use sha2::{Digest, Sha256};

fn id(index: u32, generation: u32) -> EntityId {
    EntityId { index, generation }
}

fn bits(p: [f32; 2]) -> [u32; 2] {
    [p[0].to_bits(), p[1].to_bits()]
}

/// A store holding `units` worker bodies in slots `0..units`, plus one
/// crystal node behind them: the pair table must ignore the node.
fn store_with(units: usize) -> EntityStore {
    let mut store = EntityStore::new();
    for i in 0..units {
        store
            .spawn(EntityKind::Unit(UnitKind::Worker), OWNER_PLAYER, bits([i as f32, 0.0]))
            .expect("spawn worker");
    }
    store
        .spawn(EntityKind::Node(ResourceKind::Crystal), OWNER_PLAYER, bits([0.0, 9.0]))
        .expect("spawn node");
    store
}

fn digest(state: &GatherCollisionState, store: &EntityStore) -> [u8; 32] {
    let mut h = Sha256State::new();
    state.hash_into(&mut h, store);
    h.finalize()
}

#[test]
fn triangular_pair_index_is_unique_and_bounded() {
    let mut seen = vec![false; PAIR_COUNT];
    for a in 0..MAX_ENTITIES {
        for b in (a + 1)..MAX_ENTITIES {
            let idx = pair_index(a, b);
            assert!(idx < PAIR_COUNT, "pair ({a}, {b}) indexed out of range");
            assert_eq!(idx, pair_index(b, a), "pair ({a}, {b}) is not canonical");
            assert!(!seen[idx], "pair ({a}, {b}) collides at index {idx}");
            seen[idx] = true;
        }
    }
    assert!(seen.into_iter().all(|s| s), "the table has unreachable bytes");
    assert_eq!(PAIR_COUNT, 2_096_128);
}

#[test]
fn pair_hash_frame_is_length_prefixed_and_identity_pinned() {
    let store = store_with(3);
    let mut state = GatherCollisionState::new();
    state.set_state(0, 2, GATHER_PAIR_ACTIVE);

    let mut want = Sha256::new();
    want.update(3u64.to_le_bytes());
    for slot in 0..3usize {
        let id = store.id_at(slot).expect("live");
        want.update(id.index.to_le_bytes());
        want.update(id.generation.to_le_bytes());
    }
    want.update([state.state(0, 1)]);
    want.update([state.state(0, 2)]);
    want.update([state.state(1, 2)]);
    let want: [u8; 32] = want.finalize().into();

    assert_eq!(digest(&state, &store), want);
}

#[test]
fn slot_reuse_clears_pair_row() {
    let mut store = store_with(3);
    let mut state = GatherCollisionState::new();
    for slot in 0..3usize {
        state.sync_slot(store.id_at(slot).expect("live"));
    }
    state.set_state(0, 1, GATHER_PAIR_ACTIVE);
    state.set_state(0, 2, GATHER_PAIR_ACTIVE);
    state.set_state(1, 2, GATHER_PAIR_ACTIVE);

    assert!(store.despawn(store.id_at(0).expect("live")));
    let reused = store
        .spawn(EntityKind::Unit(UnitKind::Worker), OWNER_PLAYER, bits([0.0, 0.0]))
        .expect("spawn into the freed slot");
    assert_eq!(reused.index, 0, "the free list is LIFO: slot 0 comes back");
    state.sync_slot(reused);

    assert_eq!(state.state(0, 1), 0, "the newcomer inherited an exemption");
    assert_eq!(state.state(0, 2), 0, "the newcomer inherited an exemption");
    assert_eq!(
        state.state(1, 2),
        GATHER_PAIR_ACTIVE,
        "clearing one slot's row must not touch anyone else's pair"
    );
}

#[test]
fn slot_reuse_changes_the_digest_at_equal_pair_bytes() {
    let mut store = store_with(2);
    let mut state = GatherCollisionState::new();
    state.set_state(0, 1, GATHER_PAIR_ACTIVE);
    let before = digest(&state, &store);

    assert!(store.despawn(store.id_at(0).expect("live")));
    let reused = store
        .spawn(EntityKind::Unit(UnitKind::Worker), OWNER_PLAYER, bits([0.0, 0.0]))
        .expect("spawn into the freed slot");
    state.sync_slot(reused);
    state.set_state(0, 1, GATHER_PAIR_ACTIVE);

    assert_eq!(state.state(0, 1), GATHER_PAIR_ACTIVE, "the two worlds must really carry the same pair byte");
    assert_ne!(
        digest(&state, &store),
        before,
        "a slot reused by a new entity must move the digest even when its pair bytes are identical"
    );
}

#[test]
fn state_hash_frames_every_live_pair_byte() {
    let store = store_with(4);
    let base = GatherCollisionState::new();
    let clean = digest(&base, &store);

    let mut seen = vec![clean];
    for a in 0..4usize {
        for b in (a + 1)..4usize {
            let mut state = GatherCollisionState::new();
            state.set_state(a, b, GATHER_PAIR_ACTIVE);
            let d = digest(&state, &store);
            assert!(!seen.contains(&d), "pair ({a}, {b}) is not framed independently");
            seen.push(d);
        }
    }
    assert_eq!(seen.len(), 1 + 6, "four units make six framed pairs");
}

#[test]
fn the_pair_frame_skips_dead_slots_and_nodes() {
    let mut store = store_with(3);
    assert!(store.despawn(store.id_at(1).expect("live")));
    let state = GatherCollisionState::new();

    let mut want = Sha256::new();
    want.update(2u64.to_le_bytes());
    for slot in [0usize, 2] {
        want.update((slot as u32).to_le_bytes());
        want.update(0u32.to_le_bytes());
    }
    want.update([0u8]);
    let want: [u8; 32] = want.finalize().into();
    assert_eq!(digest(&state, &store), want);
}

#[test]
fn the_separation_bound_covers_the_worst_case_exit_exactly() {
    let step_cells = GATHER_SEPARATION_STEP_HALF_CELLS as f32 / 2.0;
    assert_eq!(step_cells, 0.5);
    assert_eq!(step_cells * GATHER_SEPARATION_TICKS as f32, RTS_UNIT_BODY_DIAMETER_CELLS as f32);
}

#[test]
fn transition_bytes_are_exactly_one_through_the_bound() {
    assert!(!pair_byte_is_transition(0));
    assert!(!pair_byte_is_transition(GATHER_PAIR_ACTIVE));
    for n in 1..=GATHER_SEPARATION_TICKS {
        assert!(pair_byte_is_transition(n), "{n} is a completed attempt");
    }
    assert!(!pair_byte_is_transition(GATHER_SEPARATION_TICKS + 1));

    assert!(!pair_byte_exempts(0));
    assert!(pair_byte_exempts(GATHER_PAIR_ACTIVE));
    assert!(pair_byte_exempts(1));
    assert!(pair_byte_exempts(GATHER_SEPARATION_TICKS));
}

#[test]
fn the_concentric_normal_is_cardinal_stable_and_lower_slot_signed() {
    for a in 0..16usize {
        for b in (a + 1)..16usize {
            let n = concentric_pair_normal(a, b);
            assert_eq!(n[0] as i32 * n[0] as i32 + n[1] as i32 * n[1] as i32, 1, "pair ({a}, {b}) has a non-unit normal {n:?}");
            assert!(n[0] == 0 || n[1] == 0, "pair ({a}, {b}) is not axis-aligned: {n:?}");
            assert_eq!(n, concentric_pair_normal(b, a));
        }
    }
    let mut axes: Vec<[i8; 2]> = Vec::new();
    for b in 1..8usize {
        let n = concentric_pair_normal(0, b);
        if !axes.contains(&n) {
            axes.push(n);
        }
    }
    assert_eq!(axes.len(), 4, "only {axes:?} of the four axes are reachable");
}

#[test]
fn the_concentric_normal_cycles_with_the_pair_index() {
    // Pairs (0,1), (0,2), (0,3), (0,4) take indices 0..4: one axis each.
    assert_eq!(concentric_pair_normal(0, 1), [1, 0]);
    assert_eq!(concentric_pair_normal(0, 2), [0, 1]);
    assert_eq!(concentric_pair_normal(0, 3), [-1, 0]);
    assert_eq!(concentric_pair_normal(0, 4), [0, -1]);
}

#[test]
fn a_sync_of_the_same_entity_keeps_its_row() {
    let mut state = GatherCollisionState::new();
    state.sync_slot(id(5, 3));
    state.set_state(5, 9, GATHER_PAIR_ACTIVE);
    state.sync_slot(id(5, 3));
    assert_eq!(state.state(9, 5), GATHER_PAIR_ACTIVE);
}

#[test]
fn pair_indices_follow_the_triangle() {
    assert_eq!(pair_index(0, 1), 0);
    assert_eq!(pair_index(1, 0), 0);
    assert_eq!(pair_index(0, 2047), 2046);
    assert_eq!(pair_index(1, 2), 2047);
    assert_eq!(pair_index(2046, 2047), PAIR_COUNT - 1);
}
