//! Results and errors of the RTS world's commands, and the reusable receipt
//! buffer a context order fills.

use vstd::prelude::*;

use crate::digest::{le32, sha256_fed, u32_le, Sha256State};
use crate::scenario::{Cell, ScenarioError};

use super::entity::{EntityId, EntityKind};
use super::selection::{Pick, MAX_SELECTION};
use super::static_nav::StaticNavError;

verus! {

/// What kind of order a context click resolved a unit into.
#[derive(Clone, Copy, Debug, PartialEq, Eq, Structural)]
pub enum IssuedOrder {
    Move,
    Gather,
    Build,
    Attack,
    AttackMove,
    Stop,
    Follow,
}

/// One unit's outcome from a context-order click.
#[derive(Clone, Copy, Debug, PartialEq, Eq, Structural)]
pub struct UnitOrderReceipt {
    pub id: EntityId,
    pub order: IssuedOrder,
}

/// Why a context-order click issued fewer orders than the selection's size.
#[derive(Clone, Copy, Debug, PartialEq, Eq, Structural)]
pub enum ContextOrderReason {
    EmptySelection,
    Unreachable,
    NoTargetCell,
    NoFormationSpace,
}

/// The outcome of a context-order click.
#[derive(Clone, Copy, Debug, PartialEq, Eq, Structural)]
pub struct ContextOrderResult {
    pub pick: Pick,
    pub accepted: usize,
    pub rejected: usize,
    pub reason: Option<ContextOrderReason>,
}

/// Why an attack, attack-move or stop command was refused whole.
#[derive(Clone, Copy, Debug, PartialEq, Eq, Structural)]
pub enum CommandRejectReason {
    EmptySelection,
    NoArmedUnits,
    NoTarget,
    Unreachable,
    NoFormationSpace,
}

/// The outcome of one attack, attack-move or stop command.
#[derive(Clone, Copy, Debug, PartialEq, Eq, Structural)]
pub struct CommandReceipt {
    /// Orders actually written.
    pub accepted: usize,
    /// Selected orderable units this command left unordered.
    pub rejected: usize,
    /// Set exactly when the whole command was refused.
    pub reason: Option<CommandRejectReason>,
}

/// Reusable per-call receipt buffer, reserved to [`MAX_SELECTION`] at
/// construction and refilled in place: clearing keeps the reservation, and
/// pushing within it never grows it.
#[derive(Debug)]
pub struct OrderReceiptBuffer {
    /// The reserved places; those past `len` are spare.
    places: Vec<UnitOrderReceipt>,
    /// Receipts of the most recent call.
    len: usize,
}

impl View for OrderReceiptBuffer {
    type V = Seq<UnitOrderReceipt>;

    closed spec fn view(&self) -> Seq<UnitOrderReceipt> {
        self.places@.subrange(0, if self.len <= self.places@.len() { self.len as int } else { self.places@.len() as int })
    }
}

impl OrderReceiptBuffer {
    /// The receipts the buffer holds without growing.
    pub closed spec fn reserved(&self) -> nat {
        self.places@.len()
    }

    /// An empty buffer with room for [`MAX_SELECTION`] receipts.
    pub fn new() -> (b: Self)
        ensures
            b@ == Seq::<UnitOrderReceipt>::empty(),
            b.reserved() == MAX_SELECTION,
    {
        let spare = UnitOrderReceipt { id: EntityId { index: 0, generation: 0 }, order: IssuedOrder::Stop };
        let mut places: Vec<UnitOrderReceipt> = Vec::new();
        let mut k: usize = 0;
        while k < MAX_SELECTION
            invariant
                k <= MAX_SELECTION,
                places@.len() == k,
            decreases MAX_SELECTION - k,
        {
            places.push(spare);
            k = k + 1;
        }
        let b = OrderReceiptBuffer { places, len: 0 };
        assert(b@ =~= Seq::<UnitOrderReceipt>::empty());
        b
    }

    /// Forget the receipts, keeping the reservation.
    pub fn clear(&mut self)
        ensures
            final(self)@ == Seq::<UnitOrderReceipt>::empty(),
            final(self).reserved() == old(self).reserved(),
    {
        self.len = 0;
        assert(self@ =~= Seq::<UnitOrderReceipt>::empty());
    }

    /// Append one receipt; the reservation grows only when it is full.
    pub fn push(&mut self, id: EntityId, order: IssuedOrder)
        ensures
            final(self)@ == old(self)@.push(UnitOrderReceipt { id, order }),
            final(self).reserved() == if old(self)@.len() < old(self).reserved() {
                old(self).reserved()
            } else {
                old(self).reserved() + 1
            },
    {
        let ghost before = self@;
        let r = UnitOrderReceipt { id, order };
        let len = self.len;
        if len < self.places.len() {
            self.places.set(len, r);
            self.len = len + 1;
        } else {
            self.places.push(r);
            self.len = self.places.len();
        }
        assert(self@ =~= before.push(r));
    }

    /// Every receipt of the most recent call, in the order pushed.
    pub fn as_slice(&self) -> (r: &[UnitOrderReceipt])
        ensures
            r@ == self@,
    {
        let len = if self.len <= self.places.len() { self.len } else { self.places.len() };
        vstd::slice::slice_subrange(self.places.as_slice(), 0, len)
    }

    /// The receipts the buffer holds without growing: never below the
    /// length.
    pub fn capacity(&self) -> (r: usize)
        ensures
            r == self.reserved(),
            r >= self@.len(),
    {
        self.places.len()
    }
}

/// Starting amount in a freshly seeded Crystal node.
pub const NODE_CRYSTAL_AMOUNT: u32 = 1_500;
/// Starting amount in a freshly seeded Gas node.
pub const NODE_GAS_AMOUNT: u32 = 2_500;

/// Maximum number of live ground-order markers tracked at once.
pub const MAX_MOVE_MARKERS: usize = 8;
/// Ticks a ground-order marker lives before it decays away.
pub const MOVE_MARKER_TICKS: u32 = 90;

/// The markers after one tick: each loses a tick, and one on its last tick
/// is dropped, the rest keeping their order.
pub open spec fn decayed(ms: Seq<(Cell, u32)>) -> Seq<(Cell, u32)>
    decreases ms.len(),
{
    if ms.len() == 0 {
        Seq::empty()
    } else {
        let prev = decayed(ms.drop_last());
        let (c, t) = ms.last();
        if t > 1 {
            prev.push((c, (t - 1) as u32))
        } else {
            prev
        }
    }
}

/// The markers after planting one at `cell`: appended with a full lifetime,
/// the oldest dropped when all [`MAX_MOVE_MARKERS`] are live.
pub open spec fn planted(ms: Seq<(Cell, u32)>, cell: Cell) -> Seq<(Cell, u32)> {
    if ms.len() < MAX_MOVE_MARKERS {
        ms.push((cell, MOVE_MARKER_TICKS))
    } else {
        ms.drop_first().push((cell, MOVE_MARKER_TICKS))
    }
}

/// State-hash bytes of the markers: their count, then each cell and its
/// remaining ticks.
pub open spec fn markers_hash_bytes(ms: Seq<(Cell, u32)>) -> Seq<u8>
    decreases ms.len(),
{
    if ms.len() == 0 {
        Seq::empty()
    } else {
        markers_hash_bytes(ms.drop_last()) + le32(ms.last().0.x) + le32(ms.last().0.y) + le32(ms.last().1)
    }
}

/// Live ground-order markers, oldest first, each with its remaining ticks.
pub struct MoveMarkers {
    markers: Vec<(Cell, u32)>,
}

impl View for MoveMarkers {
    type V = Seq<(Cell, u32)>;

    closed spec fn view(&self) -> Seq<(Cell, u32)> {
        self.markers@
    }
}

impl MoveMarkers {
    /// At most [`MAX_MOVE_MARKERS`] live markers.
    pub open spec fn wf(&self) -> bool {
        self@.len() <= MAX_MOVE_MARKERS
    }

    pub fn new() -> (m: Self)
        ensures
            m.wf(),
            m@ == Seq::<(Cell, u32)>::empty(),
    {
        MoveMarkers { markers: Vec::new() }
    }

    /// The live markers, oldest first.
    pub fn as_slice(&self) -> (r: &[(Cell, u32)])
        ensures
            r@ == self@,
    {
        self.markers.as_slice()
    }

    /// Plant a marker at `cell`; when all are live the oldest is dropped.
    pub fn push(&mut self, cell: Cell)
        requires
            old(self).wf(),
        ensures
            final(self).wf(),
            final(self)@ == planted(old(self)@, cell),
    {
        if self.markers.len() >= MAX_MOVE_MARKERS {
            self.markers.remove(0);
        }
        self.markers.push((cell, MOVE_MARKER_TICKS));
        proof {
            if old(self)@.len() >= MAX_MOVE_MARKERS {
                assert(old(self)@.remove(0) =~= old(self)@.drop_first());
            }
        }
    }

    /// Age every marker by one tick, dropping those that run out.
    pub fn decay(&mut self)
        requires
            old(self).wf(),
        ensures
            final(self).wf(),
            final(self)@ == decayed(old(self)@),
    {
        let mut kept: Vec<(Cell, u32)> = Vec::new();
        let mut i: usize = 0;
        while i < self.markers.len()
            invariant
                i <= self.markers@.len(),
                self.markers@.len() <= MAX_MOVE_MARKERS,
                kept@ == decayed(self.markers@.subrange(0, i as int)),
                kept@.len() <= i,
            decreases self.markers@.len() - i,
        {
            let (cell, ticks) = self.markers[i];
            proof {
                let pre1 = self.markers@.subrange(0, i as int + 1);
                assert(pre1.drop_last() =~= self.markers@.subrange(0, i as int));
                assert(pre1.last() == (cell, ticks));
            }
            if ticks > 1 {
                kept.push((cell, ticks - 1));
            }
            i = i + 1;
        }
        proof {
            assert(self.markers@.subrange(0, i as int) =~= self.markers@);
        }
        self.markers = kept;
    }

    /// Feed the markers into the state hash: their count, then each cell and
    /// its remaining ticks.
    pub fn hash_into(&self, h: &mut Sha256State)
        requires
            self.wf(),
        ensures
            sha256_fed(*final(h)) == sha256_fed(*old(h)) + le32(self@.len() as u32) + markers_hash_bytes(self@),
    {
        h.update(u32_le(self.markers.len() as u32).as_slice());
        let ghost start = sha256_fed(*h);
        let mut i: usize = 0;
        while i < self.markers.len()
            invariant
                i <= self.markers@.len(),
                sha256_fed(*h) == start + markers_hash_bytes(self.markers@.subrange(0, i as int)),
            decreases self.markers@.len() - i,
        {
            let (cell, ticks) = self.markers[i];
            h.update(u32_le(cell.x).as_slice());
            h.update(u32_le(cell.y).as_slice());
            h.update(u32_le(ticks).as_slice());
            proof {
                let pre1 = self.markers@.subrange(0, i as int + 1);
                assert(pre1.drop_last() =~= self.markers@.subrange(0, i as int));
                assert(pre1.last() == (cell, ticks));
                assert(start + markers_hash_bytes(pre1) =~= start + markers_hash_bytes(self.markers@.subrange(0, i as int))
                    + le32(cell.x) + le32(cell.y) + le32(ticks));
            }
            i = i + 1;
        }
        proof {
            assert(self.markers@.subrange(0, i as int) =~= self.markers@);
        }
    }
}

/// Decaying never lengthens the marker list, and every marker it keeps has
/// at least one tick left.
pub proof fn lemma_decay_shrinks(ms: Seq<(Cell, u32)>)
    ensures
        decayed(ms).len() <= ms.len(),
        forall|k: int| 0 <= k < decayed(ms).len() ==> #[trigger] decayed(ms)[k].1 >= 1,
    decreases ms.len(),
{
    if ms.len() > 0 {
        lemma_decay_shrinks(ms.drop_last());
        let prev = decayed(ms.drop_last());
        assert forall|k: int| 0 <= k < decayed(ms).len() implies #[trigger] decayed(ms)[k].1 >= 1 by {
            if k < prev.len() {
                assert(decayed(ms)[k] == prev[k]);
            }
        }
    }
}

/// One entity death, surfaced for render-side feedback (the death flash).
/// Not world state: it never enters the state hash. `center` holds the
/// bit patterns of the entity's cell-space position at the moment it died.
#[derive(Clone, Copy, Debug, PartialEq, Eq)]
pub struct DeathEvent {
    /// What died.
    pub kind: EntityKind,
    /// Who owned it.
    pub owner: u8,
    /// Where it stood.
    pub center: [u32; 2],
}

/// Failures building the RTS world.
#[derive(Debug)]
pub enum RtsWorldError {
    Scenario(ScenarioError),
    NotAnRtsScene { version: String },
    StoreFull { what: String },
    StaticNav(StaticNavError),
    NoFreeUnitPosition,
}

/// A failure inside one tick that the tick cannot signal by returning.
#[derive(Clone, Copy, Debug, PartialEq, Eq, Structural)]
pub enum TickError {
    /// Two unit bodies stayed merged with no legal free centre to repair
    /// one of them into.
    UnrepairableOverlap,
}

/// What applying damage did to its target.
#[derive(Clone, Copy, Debug, PartialEq, Eq, Structural)]
pub enum DamageResult {
    Damaged { remaining_hp: u32 },
    Killed,
    Indestructible,
    NoTarget,
}

} // verus!
