use mmd_engine::rts::entity::EntityId;
use mmd_engine::rts::world::{
    IssuedOrder, MoveMarkers, OrderReceiptBuffer, UnitOrderReceipt, MAX_MOVE_MARKERS, MOVE_MARKER_TICKS, NODE_CRYSTAL_AMOUNT,
    NODE_GAS_AMOUNT,
};
use mmd_engine::scenario::Cell;
use mmd_engine::runtime::{action_for_key, BoundKey, InputAction};
use mmd_engine::sim::tick::advance_frame;

#[test]
fn input_actions_are_stable() {
    assert_eq!(action_for_key(BoundKey::Escape), InputAction::Quit);
    assert_eq!(action_for_key(BoundKey::F1), InputAction::ToggleOverlay);
    assert_eq!(action_for_key(BoundKey::Space), InputAction::TogglePause);
    assert_eq!(action_for_key(BoundKey::H), InputAction::ToggleHitboxes);
}

#[test]
fn receipts_refill_in_place() {
    let mut b = OrderReceiptBuffer::new();
    let cap = b.capacity();
    let id = EntityId { index: 2, generation: 0 };
    b.push(id, IssuedOrder::Move);
    assert_eq!(b.as_slice(), &[UnitOrderReceipt { id, order: IssuedOrder::Move }]);
    b.clear();
    assert!(b.as_slice().is_empty());
    assert_eq!(b.capacity(), cap);
    assert_eq!(NODE_CRYSTAL_AMOUNT, 1_500);
    assert_eq!(NODE_GAS_AMOUNT, 2_500);
}

#[test]
fn frames_wrap_at_the_frame_count() {
    let mut f = 2u8;
    advance_frame(&mut f, 4);
    assert_eq!(f, 3);
    advance_frame(&mut f, 4);
    assert_eq!(f, 0);
}

#[test]
fn move_markers_age_and_evict_the_oldest() {
    let mut m = MoveMarkers::new();
    for i in 0..(MAX_MOVE_MARKERS as u32 + 1) {
        m.push(Cell { x: i, y: 0 });
    }
    assert_eq!(m.as_slice().len(), MAX_MOVE_MARKERS);
    assert_eq!(m.as_slice()[0], (Cell { x: 1, y: 0 }, MOVE_MARKER_TICKS));
    assert_eq!(m.as_slice()[MAX_MOVE_MARKERS - 1], (Cell { x: 8, y: 0 }, MOVE_MARKER_TICKS));
    m.decay();
    assert_eq!(m.as_slice()[0].1, MOVE_MARKER_TICKS - 1);
    for _ in 0..(MOVE_MARKER_TICKS - 2) {
        m.decay();
    }
    assert_eq!(m.as_slice().len(), MAX_MOVE_MARKERS);
    assert_eq!(m.as_slice()[0].1, 1);
    m.decay();
    assert!(m.as_slice().is_empty());
}
