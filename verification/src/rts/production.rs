//! Per-building production queues and rally points.

use vstd::prelude::*;

use crate::digest::{le32, sha256_fed, u32_le, Sha256State};
use crate::scenario::Cell;

use super::economy::Resources;
use super::entity::{unit_discriminant, BuildingKind, UnitKind, MAX_ENTITIES};

verus! {

/// Entries a building may hold, including the one in progress.
pub const PRODUCTION_QUEUE_CAP: usize = 5;

/// Ticks each unit takes to build. 60 ticks = 1 second.
pub const WORKER_PRODUCE_TICKS: u32 = 300;
pub const SOLDIER_PRODUCE_TICKS: u32 = 360;

/// A unit kind a building can produce: Ghouls are never produced.
pub open spec fn producible(kind: UnitKind) -> bool {
    kind is Worker || kind is Soldier
}

/// Cost of a producible unit kind: a Worker 50 crystal, a Soldier 50
/// crystal and 25 gas.
pub open spec fn spec_unit_cost(kind: UnitKind) -> Resources {
    match kind {
        UnitKind::Soldier => Resources { crystal: 50, gas: 25 },
        _ => Resources { crystal: 50, gas: 0 },
    }
}

/// Build time of a producible unit kind, in ticks.
pub open spec fn spec_produce_ticks(kind: UnitKind) -> u32 {
    match kind {
        UnitKind::Soldier => SOLDIER_PRODUCE_TICKS,
        _ => WORKER_PRODUCE_TICKS,
    }
}

/// Cost of a producible unit kind.
pub fn unit_cost(kind: UnitKind) -> (r: Resources)
    requires
        producible(kind),
    ensures
        r == spec_unit_cost(kind),
{
    match kind {
        UnitKind::Soldier => Resources { crystal: 50, gas: 25 },
        _ => Resources { crystal: 50, gas: 0 },
    }
}

/// Ticks a producible unit kind takes to produce.
pub fn produce_ticks(kind: UnitKind) -> (r: u32)
    requires
        producible(kind),
    ensures
        r == spec_produce_ticks(kind),
{
    match kind {
        UnitKind::Soldier => SOLDIER_PRODUCE_TICKS,
        _ => WORKER_PRODUCE_TICKS,
    }
}

/// Which building produces which unit: the HQ Workers, the Barracks
/// Soldiers, nothing else.
pub fn can_produce(building: BuildingKind, unit: UnitKind) -> (r: bool)
    ensures
        r == ((building is Hq && unit is Worker) || (building is Barracks && unit is Soldier)),
{
    match (building, unit) {
        (BuildingKind::Hq, UnitKind::Worker) => true,
        (BuildingKind::Barracks, UnitKind::Soldier) => true,
        _ => false,
    }
}

/// Why an enqueue was refused.
#[derive(Clone, Copy, Debug, PartialEq, Eq, Structural)]
pub enum ProduceError {
    NoBuilding,
    WrongBuilding,
    UnderConstruction,
    QueueFull,
    Unaffordable,
    SupplyBlocked,
    StoreFull,
}

/// One building's queue: a fixed ring plus the head's elapsed ticks. Only
/// the first `len` entries are meaningful; the rest hold a canonical
/// placeholder, so the queue is determined by what it holds.
#[derive(Clone, Copy, Debug, PartialEq, Eq)]
pub struct ProductionQueue {
    entries: [UnitKind; PRODUCTION_QUEUE_CAP],
    len: u8,
    progress: u32,
}

/// What a queue holds: its entries oldest first, and the head's elapsed
/// ticks.
pub struct QueueView {
    pub entries: Seq<UnitKind>,
    pub progress: u32,
}

impl View for ProductionQueue {
    type V = QueueView;

    closed spec fn view(&self) -> QueueView {
        QueueView { entries: self.entries@.subrange(0, self.len as int), progress: self.progress }
    }
}

/// A queue is empty, or its head has served at most its build time.
pub open spec fn queue_ok(v: QueueView) -> bool {
    &&& v.entries.len() <= PRODUCTION_QUEUE_CAP
    &&& v.entries.len() == 0 ==> v.progress == 0
    &&& v.entries.len() > 0 ==> v.progress <= spec_produce_ticks(v.entries[0])
}

/// The head, if any, is a kind with a build time: production advances only
/// a queue whose head a building can make.
pub open spec fn head_producible(v: QueueView) -> bool {
    v.entries.len() > 0 ==> producible(v.entries[0])
}

/// Every entry is a kind a building can make: what commands ever queue.
pub open spec fn all_producible(entries: Seq<UnitKind>) -> bool {
    forall|i: int| 0 <= i < entries.len() ==> producible(#[trigger] entries[i])
}

/// Whether the head has served its full build time.
pub open spec fn spec_head_ready(v: QueueView) -> bool {
    v.entries.len() > 0 && v.progress >= spec_produce_ticks(v.entries[0])
}

/// The state-hash bytes of a queue: five entry tags (`0` for an empty
/// place, `1 + discriminant` for an entry), then the progress.
pub open spec fn queue_hash_bytes(v: QueueView) -> Seq<u8> {
    Seq::new(
        PRODUCTION_QUEUE_CAP as nat,
        |i: int|
            if i < v.entries.len() {
                (1 + unit_discriminant(v.entries[i])) as u8
            } else {
                0u8
            },
    ) + le32(v.progress)
}

impl ProductionQueue {
    /// Entries fit the ring, and the places past the
    /// last entry hold the placeholder; the progress rule of [`queue_ok`].
    pub closed spec fn wf(&self) -> bool {
        &&& self.len <= PRODUCTION_QUEUE_CAP
        &&& forall|i: int| self.len <= i < PRODUCTION_QUEUE_CAP ==> self.entries@[i] == UnitKind::Worker
        &&& queue_ok(self@)
    }

    /// An empty queue.
    pub fn empty() -> (q: Self)
        ensures
            q.wf(),
            q@.entries == Seq::<UnitKind>::empty(),
            q@.progress == 0,
    {
        let q = ProductionQueue { entries: [UnitKind::Worker; PRODUCTION_QUEUE_CAP], len: 0, progress: 0 };
        assert(q@.entries =~= Seq::<UnitKind>::empty());
        q
    }

    pub fn len(&self) -> (r: usize)
        requires
            self.wf(),
        ensures
            r == self@.entries.len(),
    {
        self.len as usize
    }

    pub fn is_empty(&self) -> (r: bool)
        requires
            self.wf(),
        ensures
            r == (self@.entries.len() == 0),
    {
        self.len == 0
    }

    pub fn is_full(&self) -> (r: bool)
        requires
            self.wf(),
        ensures
            r == (self@.entries.len() == PRODUCTION_QUEUE_CAP),
    {
        self.len as usize == PRODUCTION_QUEUE_CAP
    }

    /// The unit currently being produced.
    pub fn head(&self) -> (r: Option<UnitKind>)
        requires
            self.wf(),
        ensures
            r == if self@.entries.len() > 0 { Some(self@.entries[0]) } else { None::<UnitKind> },
    {
        if self.len > 0 {
            Some(self.entries[0])
        } else {
            None
        }
    }

    /// Ticks elapsed on the head.
    pub fn progress(&self) -> (r: u32)
        ensures
            r == self@.progress,
    {
        self.progress
    }

    /// Queue contents, oldest first.
    pub fn entries(&self) -> (r: &[UnitKind])
        requires
            self.wf(),
        ensures
            r@ == self@.entries,
    {
        vstd::slice::slice_subrange(self.entries.as_slice(), 0, self.len as usize)
    }

    /// Push at the back; `false`, and nothing changes, when full.
    pub fn push(&mut self, kind: UnitKind) -> (r: bool)
        requires
            old(self).wf(),
        ensures
            final(self).wf(),
            r == (old(self)@.entries.len() < PRODUCTION_QUEUE_CAP),
            r ==> final(self)@.entries == old(self)@.entries.push(kind) && final(self)@.progress == old(self)@.progress,
            !r ==> *final(self) == *old(self),
    {
        if self.len as usize == PRODUCTION_QUEUE_CAP {
            return false;
        }
        let ghost v0 = self@;
        let mut e = self.entries;
        e[self.len as usize] = kind;
        *self = ProductionQueue { entries: e, len: self.len + 1, progress: self.progress };
        assert(self@.entries =~= v0.entries.push(kind));
        true
    }

    /// Remove entry `index` (0 = the one in progress) and return it.
    /// Removing the head resets progress: a partly built unit is not carried
    /// over to the next entry.
    pub fn cancel(&mut self, index: usize) -> (r: Option<UnitKind>)
        requires
            old(self).wf(),
        ensures
            final(self).wf(),
            index >= old(self)@.entries.len() ==> r is None && *final(self) == *old(self),
            index < old(self)@.entries.len() ==> {
                &&& r == Some(old(self)@.entries[index as int])
                &&& final(self)@.entries == old(self)@.entries.remove(index as int)
                &&& final(self)@.progress == if index == 0 { 0 } else { old(self)@.progress }
            },
    {
        if index >= self.len as usize {
            return None;
        }
        let ghost v0 = self@;
        let removed = self.entries[index];
        let len = self.len as usize;
        let mut e = self.entries;
        let mut i = index;
        while i < len - 1
            invariant
                index <= i <= len - 1,
                len <= PRODUCTION_QUEUE_CAP,
                len == v0.entries.len(),
                forall|k: int| 0 <= k < index ==> e@[k] == v0.entries[k],
                forall|k: int| index <= k < i ==> e@[k] == v0.entries[k + 1],
                forall|k: int| i < k < PRODUCTION_QUEUE_CAP ==> e@[k] == self.entries@[k],
                v0.entries == self.entries@.subrange(0, len as int),
            decreases len - 1 - i,
        {
            e[i] = e[i + 1];
            i = i + 1;
        }
        e[len - 1] = UnitKind::Worker;
        let progress = if index == 0 { 0 } else { self.progress };
        *self = ProductionQueue { entries: e, len: (len - 1) as u8, progress };
        assert(self@.entries =~= v0.entries.remove(index as int));
        Some(removed)
    }

    /// Advance the head by one tick, saturating at its build time. Ticking
    /// never removes an entry: a finished head waits for
    /// [`Self::pop_ready`].
    pub fn tick_head(&mut self)
        requires
            old(self).wf(),
            head_producible(old(self)@),
        ensures
            final(self).wf(),
            final(self)@.entries == old(self)@.entries,
            final(self)@.progress == if old(self)@.entries.len() > 0 && old(self)@.progress < spec_produce_ticks(
                old(self)@.entries[0],
            ) {
                old(self)@.progress + 1
            } else {
                old(self)@.progress as int
            },
    {
        if self.len == 0 {
            return;
        }
        let need = produce_ticks(self.entries[0]);
        if self.progress < need {
            *self = ProductionQueue { entries: self.entries, len: self.len, progress: self.progress + 1 };
        }
    }

    /// Whether the head has served its full build time and waits to be
    /// placed.
    pub fn head_ready(&self) -> (r: bool)
        requires
            self.wf(),
            head_producible(self@),
        ensures
            r == spec_head_ready(self@),
    {
        match self.head() {
            Some(kind) => self.progress >= produce_ticks(kind),
            None => false,
        }
    }

    /// Take a ready head, resetting progress for the next entry; `None`, and
    /// nothing changes, when the queue is empty or its head is not ready.
    pub fn pop_ready(&mut self) -> (r: Option<UnitKind>)
        requires
            old(self).wf(),
            head_producible(old(self)@),
        ensures
            final(self).wf(),
            !spec_head_ready(old(self)@) ==> r is None && *final(self) == *old(self),
            spec_head_ready(old(self)@) ==> {
                &&& r == Some(old(self)@.entries[0])
                &&& final(self)@.entries == old(self)@.entries.drop_first()
                &&& final(self)@.progress == 0
            },
    {
        if !self.head_ready() {
            return None;
        }
        let ghost v0 = self@;
        let kind = self.entries[0];
        let len = self.len as usize;
        let mut e = self.entries;
        let mut i: usize = 0;
        while i < len - 1
            invariant
                i <= len - 1,
                1 <= len <= PRODUCTION_QUEUE_CAP,
                len == v0.entries.len(),
                forall|k: int| 0 <= k < i ==> e@[k] == v0.entries[k + 1],
                forall|k: int| i < k < PRODUCTION_QUEUE_CAP ==> e@[k] == self.entries@[k],
                v0.entries == self.entries@.subrange(0, len as int),
            decreases len - 1 - i,
        {
            e[i] = e[i + 1];
            i = i + 1;
        }
        e[len - 1] = UnitKind::Worker;
        *self = ProductionQueue { entries: e, len: (len - 1) as u8, progress: 0 };
        assert(self@.entries =~= v0.entries.drop_first());
        Some(kind)
    }

    /// Feed this queue into the state hash: five entry tags, then the
    /// progress, fixed width whatever the length.
    pub fn hash_into(&self, h: &mut Sha256State)
        requires
            self.wf(),
        ensures
            sha256_fed(*final(h)) == sha256_fed(*old(h)) + queue_hash_bytes(self@),
    {
        let ghost start = sha256_fed(*h);
        let mut i: usize = 0;
        while i < PRODUCTION_QUEUE_CAP
            invariant
                i <= PRODUCTION_QUEUE_CAP,
                self.wf(),
                sha256_fed(*h) == start + queue_hash_bytes(self@).subrange(0, i as int),
            decreases PRODUCTION_QUEUE_CAP - i,
        {
            let tag: u8 = if i < self.len as usize {
                1 + self.entries[i].discriminant()
            } else {
                0
            };
            let b = [tag];
            h.update(b.as_slice());
            proof {
                assert(queue_hash_bytes(self@).subrange(0, i + 1) =~= queue_hash_bytes(self@).subrange(0, i as int).push(tag));
                assert(start + queue_hash_bytes(self@).subrange(0, i + 1) =~= start + queue_hash_bytes(self@).subrange(0, i as int) + b@);
            }
            i = i + 1;
        }
        let p = u32_le(self.progress);
        h.update(p.as_slice());
        proof {
            assert(queue_hash_bytes(self@) =~= queue_hash_bytes(self@).subrange(0, 5) + le32(self@.progress));
            assert(start + queue_hash_bytes(self@) =~= start + queue_hash_bytes(self@).subrange(0, 5) + p@);
        }
    }
}

impl Default for ProductionQueue {
    fn default() -> (q: Self)
        ensures
            q.wf(),
            q@.entries == Seq::<UnitKind>::empty(),
            q@.progress == 0,
    {
        Self::empty()
    }
}

/// A well-formed queue holds at most [`PRODUCTION_QUEUE_CAP`] entries, and
/// its head never runs past its build time.
pub proof fn lemma_queue_ok(q: ProductionQueue)
    requires
        q.wf(),
    ensures
        queue_ok(q@),
{
}

/// Two well-formed queues holding the same entries and progress are equal,
/// however each got there.
pub proof fn lemma_queue_determined_by_view(a: ProductionQueue, b: ProductionQueue)
    requires
        a.wf(),
        b.wf(),
        a@.entries == b@.entries,
        a@.progress == b@.progress,
    ensures
        a == b,
{
    assert(a.len == b.len) by {
        assert(a@.entries.len() == a.len);
        assert(b@.entries.len() == b.len);
    }
    assert forall|i: int| 0 <= i < PRODUCTION_QUEUE_CAP implies a.entries@[i] == b.entries@[i] by {
        if i < a.len {
            assert(a@.entries[i] == a.entries@[i]);
            assert(b@.entries[i] == b.entries@[i]);
        }
    }
    assert(a.entries =~= b.entries);
}

/// The hash frame of a queue is fixed-width and determines the queue: two
/// queues that feed the same bytes hold the same entries and progress, so a
/// shorter queue never aliases a longer one.
pub proof fn lemma_queue_hash_injective(a: QueueView, b: QueueView)
    requires
        queue_ok(a),
        queue_ok(b),
        queue_hash_bytes(a) == queue_hash_bytes(b),
    ensures
        a.entries == b.entries,
        a.progress == b.progress,
{
    let ha = queue_hash_bytes(a);
    let hb = queue_hash_bytes(b);
    assert forall|i: int| 0 <= i < PRODUCTION_QUEUE_CAP implies ha[i] == (if i < a.entries.len() {
        (1 + unit_discriminant(a.entries[i])) as u8
    } else {
        0u8
    }) && hb[i] == (if i < b.entries.len() {
        (1 + unit_discriminant(b.entries[i])) as u8
    } else {
        0u8
    }) by {}
    assert(a.entries.len() == b.entries.len()) by {
        if a.entries.len() < b.entries.len() {
            let i = a.entries.len() as int;
            assert(ha[i] == hb[i]);
        } else if b.entries.len() < a.entries.len() {
            let i = b.entries.len() as int;
            assert(ha[i] == hb[i]);
        }
    }
    assert forall|i: int| 0 <= i < a.entries.len() implies a.entries[i] == b.entries[i] by {
        assert(ha[i] == hb[i]);
    }
    assert(a.entries =~= b.entries);
    assert(ha.subrange(5, 9) =~= le32(a.progress));
    assert(hb.subrange(5, 9) =~= le32(b.progress));
    crate::digest::lemma_le32_injective(a.progress, b.progress);
}


/// Cancelling the entry just pushed gives the queue back: same entries, and
/// the same progress (an empty queue's progress is zero either way).
pub proof fn lemma_cancel_undoes_push(v: QueueView, kind: UnitKind)
    requires
        queue_ok(v),
        v.entries.len() < PRODUCTION_QUEUE_CAP,
    ensures
        v.entries.push(kind).remove(v.entries.len() as int) == v.entries,
        (if v.entries.len() == 0 { 0 } else { v.progress }) == v.progress,
{
    assert(v.entries.push(kind).remove(v.entries.len() as int) =~= v.entries);
}

/// The state-hash bytes of a rally point: a presence byte, then x and y
/// (zero when absent).
pub open spec fn rally_hash_bytes(r: Option<Cell>) -> Seq<u8> {
    match r {
        None => seq![0u8] + le32(0) + le32(0),
        Some(c) => seq![1u8] + le32(c.x) + le32(c.y),
    }
}

/// The state-hash bytes of the listed slots' queues and rally points, in
/// list order.
pub open spec fn table_hash_bytes(queues: Seq<ProductionQueue>, rally: Seq<Option<Cell>>, live: Seq<usize>) -> Seq<u8>
    decreases live.len(),
{
    if live.len() == 0 {
        Seq::empty()
    } else {
        table_hash_bytes(queues, rally, live.drop_last()) + queue_hash_bytes(queues[live.last() as int]@)
            + rally_hash_bytes(rally[live.last() as int])
    }
}

/// One queue and one rally point per entity slot, preallocated to
/// [`MAX_ENTITIES`].
pub struct ProductionTable {
    queues: Vec<ProductionQueue>,
    rally: Vec<Option<Cell>>,
}

impl ProductionTable {
    /// The queue of each slot.
    pub closed spec fn queues(&self) -> Seq<ProductionQueue> {
        self.queues@
    }

    /// The rally point of each slot.
    pub closed spec fn rallies(&self) -> Seq<Option<Cell>> {
        self.rally@
    }

    /// One well-formed queue and one rally point per entity slot.
    pub open spec fn wf(&self) -> bool {
        &&& self.queues().len() == MAX_ENTITIES
        &&& self.rallies().len() == MAX_ENTITIES
        &&& forall|i: int| 0 <= i < MAX_ENTITIES ==> (#[trigger] self.queues()[i]).wf()
    }

    /// Every slot with an empty queue and no rally point.
    pub fn new() -> (t: Self)
        ensures
            t.wf(),
            forall|i: int| 0 <= i < MAX_ENTITIES ==> (#[trigger] t.queues()[i])@.entries.len() == 0 && t.queues()[i]@.progress == 0,
            forall|i: int| 0 <= i < MAX_ENTITIES ==> #[trigger] t.rallies()[i] is None,
    {
        let mut queues: Vec<ProductionQueue> = Vec::new();
        let mut rally: Vec<Option<Cell>> = Vec::new();
        let mut k: usize = 0;
        while k < MAX_ENTITIES
            invariant
                k <= MAX_ENTITIES,
                queues.len() == k,
                rally.len() == k,
                forall|i: int| 0 <= i < k ==> (#[trigger] queues@[i]).wf() && queues@[i]@.entries.len() == 0 && queues@[i]@.progress == 0,
                forall|i: int| 0 <= i < k ==> #[trigger] rally@[i] is None,
            decreases MAX_ENTITIES - k,
        {
            queues.push(ProductionQueue::empty());
            rally.push(None);
            k = k + 1;
        }
        ProductionTable { queues, rally }
    }

    pub fn queue(&self, slot: usize) -> (r: &ProductionQueue)
        requires
            self.wf(),
            slot < MAX_ENTITIES,
        ensures
            *r == self.queues()[slot as int],
            r.wf(),
    {
        &self.queues[slot]
    }

    pub fn queue_mut(&mut self, slot: usize) -> (r: &mut ProductionQueue)
        requires
            old(self).wf(),
            slot < MAX_ENTITIES,
        ensures
            *r == old(self).queues()[slot as int],
            r.wf(),
            final(self).queues() == old(self).queues().update(slot as int, *final(r)),
            final(self).rallies() == old(self).rallies(),
    {
        &mut self.queues[slot]
    }

    pub fn rally(&self, slot: usize) -> (r: Option<Cell>)
        requires
            self.wf(),
            slot < MAX_ENTITIES,
        ensures
            r == self.rallies()[slot as int],
    {
        self.rally[slot]
    }

    pub fn set_rally(&mut self, slot: usize, cell: Option<Cell>)
        requires
            old(self).wf(),
            slot < MAX_ENTITIES,
        ensures
            final(self).wf(),
            final(self).queues() == old(self).queues(),
            final(self).rallies() == old(self).rallies().update(slot as int, cell),
    {
        self.rally.set(slot, cell);
    }

    /// Reset a slot, so a reused slot does not inherit a queue.
    pub fn clear(&mut self, slot: usize)
        requires
            old(self).wf(),
            slot < MAX_ENTITIES,
        ensures
            final(self).wf(),
            final(self).queues()[slot as int]@.entries.len() == 0,
            final(self).queues()[slot as int]@.progress == 0,
            forall|i: int| 0 <= i < MAX_ENTITIES && i != slot ==> #[trigger] final(self).queues()[i] == old(self).queues()[i],
            final(self).rallies() == old(self).rallies().update(slot as int, None),
    {
        self.queues.set(slot, ProductionQueue::empty());
        self.rally.set(slot, None);
    }

    /// Feed the listed slots' queues and rally points into the state hash,
    /// in list order, fixed width per slot.
    pub fn hash_into(&self, h: &mut Sha256State, live: &[usize])
        requires
            self.wf(),
            forall|k: int| 0 <= k < live@.len() ==> #[trigger] live@[k] < MAX_ENTITIES,
        ensures
            sha256_fed(*final(h)) == sha256_fed(*old(h)) + table_hash_bytes(self.queues(), self.rallies(), live@),
    {
        let ghost start = sha256_fed(*h);
        let mut k: usize = 0;
        while k < live.len()
            invariant
                k <= live@.len(),
                self.wf(),
                forall|j: int| 0 <= j < live@.len() ==> #[trigger] live@[j] < MAX_ENTITIES,
                sha256_fed(*h) == start + table_hash_bytes(self.queues(), self.rallies(), live@.subrange(0, k as int)),
            decreases live@.len() - k,
        {
            let slot = live[k];
            let ghost before = sha256_fed(*h);
            self.queues[slot].hash_into(h);
            let ghost mid = sha256_fed(*h);
            match self.rally[slot] {
                None => {
                    h.update([0u8].as_slice());
                    h.update(u32_le(0).as_slice());
                    h.update(u32_le(0).as_slice());
                },
                Some(c) => {
                    h.update([1u8].as_slice());
                    h.update(u32_le(c.x).as_slice());
                    h.update(u32_le(c.y).as_slice());
                },
            }
            proof {
                let pre = live@.subrange(0, k as int);
                let pre1 = live@.subrange(0, k as int + 1);
                assert(pre1.drop_last() =~= pre);
                assert(pre1.last() == slot);
                assert(sha256_fed(*h) =~= mid + rally_hash_bytes(self.rallies()[slot as int]));
                assert(start + table_hash_bytes(self.queues(), self.rallies(), pre1) =~= start + table_hash_bytes(
                    self.queues(),
                    self.rallies(),
                    pre,
                ) + queue_hash_bytes(self.queues()[slot as int]@) + rally_hash_bytes(self.rallies()[slot as int]));
            }
            k = k + 1;
        }
        proof {
            assert(live@.subrange(0, k as int) =~= live@);
        }
    }
}

} // verus!
