//! The world's replicated state, and its deterministic state hash: a SHA-256
//! over a fixed framing of every piece of it, in a fixed order.

use vstd::prelude::*;

use crate::digest::{le32, le64, sha256_digest, sha256_fed, u32_le, u64_le, Sha256State};

use super::collision::{pair_rows_bytes, unit_ids, units_frame_bytes, GatherCollisionState};
use super::economy::{Resources, Supply};
use super::entity::{
    building_discriminant, live_slots, spec_live_count, store_hash_bytes, BuildingKind, EntityStore, Slot, MAX_ENTITIES,
};
use super::orders::{orders_hash_bytes, OrderTable};
use super::placement::Placement;
use super::production::{table_hash_bytes, ProductionTable};
use super::selection::{ids_hash_bytes, Selection};
use super::world::{markers_hash_bytes, MoveMarkers};

verus! {

/// Everything the state hash covers.
pub struct WorldState {
    /// Ticks stepped so far.
    pub tick_index: u64,
    pub entities: EntityStore,
    pub orders: OrderTable,
    pub gather_pairs: GatherCollisionState,
    pub selection: Selection,
    pub production: ProductionTable,
    /// The bit patterns of the camera centre, in cells.
    pub camera_center: [u32; 2],
    pub placement: Placement,
    pub resources: Resources,
    pub supply: Supply,
    /// Enemies killed.
    pub kills: u32,
    /// Player entities lost.
    pub losses: u32,
    /// The tick of the first shot fired, if any.
    pub first_combat_tick: Option<u32>,
    pub markers: MoveMarkers,
}

/// The two bytes of a placement: `[0, 0]` when idle, `[1, kind]` pending.
pub open spec fn placement_bytes(p: Placement) -> Seq<u8> {
    match p {
        Placement::Inactive => seq![0u8, 0u8],
        Placement::Pending { kind } => seq![1u8, building_discriminant(kind)],
    }
}

/// A presence byte, then the tick (zero when absent).
pub open spec fn combat_tick_bytes(t: Option<u32>) -> Seq<u8> {
    match t {
        None => seq![0u8] + le32(0),
        Some(t) => seq![1u8] + le32(t),
    }
}

/// Every live slot index is a slot of the list.
pub proof fn lemma_live_slots_in_range(slots: Seq<Slot>)
    ensures
        forall|k: int| 0 <= k < live_slots(slots).len() ==> #[trigger] live_slots(slots)[k] < slots.len(),
    decreases slots.len(),
{
    if slots.len() > 0 {
        lemma_live_slots_in_range(slots.drop_last());
        let pre = live_slots(slots.drop_last());
        assert forall|k: int| 0 <= k < live_slots(slots).len() implies #[trigger] live_slots(slots)[k] < slots.len() by {
            if k < pre.len() {
                assert(live_slots(slots)[k] == pre[k]);
            }
        }
    }
}

impl WorldState {
    /// Every part well formed.
    pub open spec fn wf(&self) -> bool {
        &&& self.entities.wf()
        &&& self.orders.wf()
        &&& self.gather_pairs.wf()
        &&& self.production.wf()
        &&& self.markers.wf()
    }

    /// The bytes the state hash covers, in order: tick; live count; every
    /// live slot; the live slots' orders; the gather pairs; the selection;
    /// the live slots' queues and rally points; camera centre; placement;
    /// stock; supply used and cap; kills, losses and the first combat tick;
    /// the move markers.
    pub open spec fn hash_bytes(&self) -> Seq<u8> {
        let slots = self.entities@.slots;
        let live = live_slots(slots);
        let units = unit_ids(slots);
        le64(self.tick_index) + le64(spec_live_count(self.entities@) as u64) + store_hash_bytes(slots)
            + orders_hash_bytes(self.orders@, live) + le64(units.len() as u64) + units_frame_bytes(units)
            + pair_rows_bytes(self.gather_pairs.table(), units, 0) + le64(self.selection@.len() as u64)
            + ids_hash_bytes(self.selection@) + table_hash_bytes(self.production.queues(), self.production.rallies(), live)
            + le32(self.camera_center@[0]) + le32(self.camera_center@[1]) + placement_bytes(self.placement)
            + le32(self.resources.crystal) + le32(self.resources.gas) + le32(self.supply.used_spec())
            + le32(self.supply.cap_spec()) + le32(self.kills) + le32(self.losses) + combat_tick_bytes(
            self.first_combat_tick,
        ) + le32(self.markers@.len() as u32) + markers_hash_bytes(self.markers@)
    }

    /// The deterministic state hash: SHA-256 of [`Self::hash_bytes`]. Two
    /// worlds in the same state hash the same, however each got there.
    pub fn state_hash(&self) -> (r: [u8; 32])
        requires
            self.wf(),
        ensures
            r@ == sha256_digest(self.hash_bytes()),
    {
        let mut h = Sha256State::new();
        h.update(u64_le(self.tick_index).as_slice());
        let live_count = self.entities.len();
        h.update(u64_le(live_count as u64).as_slice());
        self.entities.hash_into(&mut h);
        let mut live: Vec<usize> = Vec::new();
        self.entities.collect_live(&mut live);
        proof {
            self.entities.lemma_store_ok();
            lemma_live_slots_in_range(self.entities@.slots);
        }
        self.orders.hash_into(&mut h, live.as_slice());
        self.gather_pairs.hash_into(&mut h, &self.entities);
        self.selection.hash_into(&mut h);
        self.production.hash_into(&mut h, live.as_slice());
        h.update(u32_le(self.camera_center[0]).as_slice());
        h.update(u32_le(self.camera_center[1]).as_slice());
        let tag: [u8; 2] = match self.placement {
            Placement::Inactive => [0u8, 0u8],
            Placement::Pending { kind } => [1u8, kind_byte(kind)],
        };
        h.update(tag.as_slice());
        h.update(u32_le(self.resources.crystal).as_slice());
        h.update(u32_le(self.resources.gas).as_slice());
        h.update(u32_le(self.supply.used()).as_slice());
        h.update(u32_le(self.supply.cap()).as_slice());
        h.update(u32_le(self.kills).as_slice());
        h.update(u32_le(self.losses).as_slice());
        match self.first_combat_tick {
            None => {
                h.update([0u8].as_slice());
                h.update(u32_le(0).as_slice());
            },
            Some(t) => {
                h.update([1u8].as_slice());
                h.update(u32_le(t).as_slice());
            },
        }
        self.markers.hash_into(&mut h);
        proof {
            assert(tag@ =~= placement_bytes(self.placement));
            assert(sha256_fed(h) =~= self.hash_bytes());
        }
        h.finalize()
    }
}

/// The byte a building kind is hashed as.
fn kind_byte(kind: BuildingKind) -> (r: u8)
    ensures
        r == building_discriminant(kind),
{
    match kind {
        BuildingKind::Hq => 0,
        BuildingKind::Depot => 1,
        BuildingKind::Barracks => 2,
        BuildingKind::Turret => 3,
    }
}

} // verus!
