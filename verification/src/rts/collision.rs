//! Which pairs of RTS unit bodies the world may leave merged.
//!
//! Unit bodies collide hard; the one exemption is a gather pair, recorded as
//! one byte per unordered pair of entity slots. `0` is a hard pair,
//! [`GATHER_PAIR_ACTIVE`] an active gather pair, and `1..=`
//! [`GATHER_SEPARATION_TICKS`] counts the separation attempts of a pair that
//! has stopped gathering.

use vstd::prelude::*;

use crate::digest::{le32, le64, sha256_fed, u32_le, u64_le, Sha256State};

use super::entity::{EntityId, EntityKind, EntityStore, Slot, MAX_ENTITIES, RTS_UNIT_BODY_DIAMETER_CELLS};

verus! {

/// Pair byte: an active gather pair, exempt from mutual dynamic collision.
pub const GATHER_PAIR_ACTIVE: u8 = 255;

/// Separation attempts an exited gather pair gets before it is relocated.
pub const GATHER_SEPARATION_TICKS: u8 = 12;

/// How far one separation attempt may move one body, in half cells: one
/// body diameter shared out over the attempts.
pub const GATHER_SEPARATION_STEP_HALF_CELLS: u32 = 1;

/// The attempts cover the worst exit, two concentric bodies a whole diameter
/// from contact, exactly.
pub proof fn lemma_separation_bound_is_exact()
    ensures
        GATHER_SEPARATION_STEP_HALF_CELLS * GATHER_SEPARATION_TICKS == 2 * RTS_UNIT_BODY_DIAMETER_CELLS,
{
}

/// Whether a pair byte exempts its pair: every byte but `0`.
pub fn pair_byte_exempts(state: u8) -> (r: bool)
    ensures
        r == (state != 0),
{
    state != 0
}

/// Whether a pair byte counts separation attempts of an exited pair.
pub fn pair_byte_is_transition(state: u8) -> (r: bool)
    ensures
        r == (1 <= state <= GATHER_SEPARATION_TICKS),
{
    1 <= state && state <= GATHER_SEPARATION_TICKS
}

/// Bytes of the dense triangular pair table: one per unordered pair of the
/// [`MAX_ENTITIES`] slots.
pub const PAIR_COUNT: usize = 2_096_128;

/// First index of row `lo` of the triangle.
pub open spec fn pair_row_start(lo: int) -> int {
    lo * MAX_ENTITIES - lo * (lo + 1) / 2
}

/// Canonical index of the unordered pair `{a, b}`, `a != b`.
pub open spec fn spec_pair_index(a: int, b: int) -> int {
    let lo = if a < b { a } else { b };
    let hi = if a < b { b } else { a };
    pair_row_start(lo) + (hi - lo - 1)
}

proof fn lemma_row_step(lo: int)
    requires
        0 <= lo,
    ensures
        pair_row_start(lo + 1) == pair_row_start(lo) + (MAX_ENTITIES - 1 - lo),
{
    let m = MAX_ENTITIES as int;
    assert((lo + 1) * (lo + 2) == lo * (lo + 1) + 2 * (lo + 1)) by (nonlinear_arith);
    assert((lo + 1) * m == lo * m + m) by (nonlinear_arith);
    assert(lo * (lo + 1) >= 0) by (nonlinear_arith)
        requires
            lo >= 0,
    ;
    assert((lo * (lo + 1) + 2 * (lo + 1)) / 2 == lo * (lo + 1) / 2 + (lo + 1)) by (nonlinear_arith)
        requires
            lo * (lo + 1) >= 0,
            lo >= 0,
    ;
}

/// Row starts grow with the row.
proof fn lemma_row_start_mono(i: int, j: int)
    requires
        0 <= i <= j <= MAX_ENTITIES,
    ensures
        pair_row_start(i) + (j - i) * 0 <= pair_row_start(j),
        i < j ==> pair_row_start(i + 1) <= pair_row_start(j),
    decreases j - i,
{
    if i < j {
        lemma_row_step(i);
        if i + 1 < j {
            lemma_row_start_mono(i + 1, j);
        }
    }
}

proof fn lemma_row_start_bounds(lo: int)
    requires
        0 <= lo <= MAX_ENTITIES,
    ensures
        0 <= pair_row_start(lo) <= PAIR_COUNT,
    decreases MAX_ENTITIES - lo,
{
    if lo < MAX_ENTITIES {
        lemma_row_start_bounds(lo + 1);
        lemma_row_step(lo);
    } else {
        assert(pair_row_start(MAX_ENTITIES as int) == PAIR_COUNT);
    }
    if lo > 0 {
        lemma_row_start_mono(0, lo);
    }
}

/// The pair index is symmetric and lands inside the table.
pub proof fn lemma_pair_index_bounded(a: int, b: int)
    requires
        0 <= a < MAX_ENTITIES,
        0 <= b < MAX_ENTITIES,
        a != b,
    ensures
        spec_pair_index(a, b) == spec_pair_index(b, a),
        0 <= spec_pair_index(a, b) < PAIR_COUNT,
{
    let lo = if a < b { a } else { b };
    let hi = if a < b { b } else { a };
    lemma_row_step(lo);
    lemma_row_start_bounds(lo);
    lemma_row_start_bounds(lo + 1);
}

/// Distinct unordered pairs have distinct indices.
pub proof fn lemma_pair_index_unique(a: int, b: int, c: int, d: int)
    requires
        0 <= a < MAX_ENTITIES,
        0 <= b < MAX_ENTITIES,
        0 <= c < MAX_ENTITIES,
        0 <= d < MAX_ENTITIES,
        a != b,
        c != d,
        spec_pair_index(a, b) == spec_pair_index(c, d),
    ensures
        (a == c && b == d) || (a == d && b == c),
{
    let lo1 = if a < b { a } else { b };
    let lo2 = if c < d { c } else { d };
    lemma_row_step(lo1);
    lemma_row_step(lo2);
    if lo1 < lo2 {
        lemma_row_start_mono(lo1, lo2);
    } else if lo2 < lo1 {
        lemma_row_start_mono(lo2, lo1);
    }
}

/// Every index of the table belongs to a pair.
pub proof fn lemma_pair_index_onto(t: int)
    requires
        0 <= t < PAIR_COUNT,
    ensures
        exists|lo: int, hi: int| 0 <= lo < hi < MAX_ENTITIES && spec_pair_index(lo, hi) == t,
{
    lemma_pair_index_onto_from(t, 0);
}

proof fn lemma_pair_index_onto_from(t: int, lo: int)
    requires
        0 <= lo < MAX_ENTITIES,
        pair_row_start(lo) <= t < PAIR_COUNT,
    ensures
        exists|l: int, h: int| 0 <= l < h < MAX_ENTITIES && spec_pair_index(l, h) == t,
    decreases MAX_ENTITIES - lo,
{
    lemma_row_step(lo);
    if t < pair_row_start(lo + 1) {
        let hi = t - pair_row_start(lo) + lo + 1;
        assert(spec_pair_index(lo, hi) == t);
    } else {
        if lo + 1 == MAX_ENTITIES {
            assert(pair_row_start(MAX_ENTITIES as int) == PAIR_COUNT);
        }
        lemma_pair_index_onto_from(t, lo + 1);
    }
}

/// Canonical index of the unordered slot pair `{a, b}` in a dense row-major
/// upper triangle.
pub fn pair_index(a: usize, b: usize) -> (r: usize)
    requires
        a != b,
        a < MAX_ENTITIES,
        b < MAX_ENTITIES,
    ensures
        r == spec_pair_index(a as int, b as int),
        r < PAIR_COUNT,
{
    proof {
        lemma_pair_index_bounded(a as int, b as int);
        let lo = if a < b { a as int } else { b as int };
        assert(lo * (lo + 1) <= 2048 * 2049) by (nonlinear_arith)
            requires
                0 <= lo < 2048,
        ;
        assert(lo * 2048 <= 2048 * 2048) by (nonlinear_arith)
            requires
                0 <= lo < 2048,
        ;
        assert(lo * (lo + 1) / 2 <= lo * 2048) by (nonlinear_arith)
            requires
                0 <= lo < 2048,
        ;
    }
    let (lo, hi) = if a < b { (a, b) } else { (b, a) };
    lo * MAX_ENTITIES - lo * (lo + 1) / 2 + (hi - lo - 1)
}

/// The separation axis of a pair whose centres coincide, as a unit step
/// along one grid axis, keyed by the pair's index so it is the same on every
/// attempt and cycles through the four axes across neighbouring pairs.
pub open spec fn spec_concentric_normal(k: int) -> (int, int) {
    if k % 4 == 0 {
        (1, 0)
    } else if k % 4 == 1 {
        (0, 1)
    } else if k % 4 == 2 {
        (-1, 0)
    } else {
        (0, -1)
    }
}

/// Axis a concentric pair separates along: the lower slot goes along
/// `-normal`, the higher along `+normal`.
pub fn concentric_pair_normal(a: usize, b: usize) -> (r: [i8; 2])
    requires
        a != b,
        a < MAX_ENTITIES,
        b < MAX_ENTITIES,
    ensures
        (r[0] as int, r[1] as int) == spec_concentric_normal(spec_pair_index(a as int, b as int)),
{
    let k = pair_index(a, b) % 4;
    if k == 0 {
        [1, 0]
    } else if k == 1 {
        [0, 1]
    } else if k == 2 {
        [-1, 0]
    } else {
        [0, -1]
    }
}

/// The state-hash bytes of the pair block: the unit count, each unit's
/// index and generation in order, then one byte per pair `(i, j)`, `i < j`,
/// in ascending order.
pub open spec fn units_frame_bytes(units: Seq<EntityId>) -> Seq<u8>
    decreases units.len(),
{
    if units.len() == 0 {
        Seq::empty()
    } else {
        units_frame_bytes(units.drop_last()) + le32(units.last().index) + le32(units.last().generation)
    }
}

/// The pair bytes of row `i` from column `j` on.
pub open spec fn pair_row_bytes(pairs: Seq<u8>, units: Seq<EntityId>, i: int, j: int) -> Seq<u8>
    decreases units.len() - j,
{
    if j >= units.len() {
        Seq::empty()
    } else {
        seq![pairs[spec_pair_index(units[i].index as int, units[j].index as int)]] + pair_row_bytes(pairs, units, i, j + 1)
    }
}

/// The pair bytes of every row from row `i` on.
pub open spec fn pair_rows_bytes(pairs: Seq<u8>, units: Seq<EntityId>, i: int) -> Seq<u8>
    decreases units.len() - i,
{
    if i >= units.len() {
        Seq::empty()
    } else {
        pair_row_bytes(pairs, units, i, i + 1) + pair_rows_bytes(pairs, units, i + 1)
    }
}

/// Live units in the order their slots ascend, each slot once.
pub open spec fn units_ascending(units: Seq<EntityId>) -> bool {
    &&& forall|k: int| 0 <= k < units.len() ==> (#[trigger] units[k]).index < MAX_ENTITIES
    &&& forall|i: int, j: int| 0 <= i < j < units.len() ==> (#[trigger] units[i]).index < (#[trigger] units[j]).index
}

/// Per-pair gather-collision state, preallocated once per world.
pub struct GatherCollisionState {
    pairs: Vec<u8>,
    generations: Vec<u32>,
}

impl GatherCollisionState {
    /// The byte of the unordered pair `{a, b}`.
    pub closed spec fn pair(&self, a: int, b: int) -> u8 {
        self.pairs@[spec_pair_index(a, b)]
    }

    /// The generation last seen in each slot.
    pub closed spec fn generations(&self) -> Seq<u32> {
        self.generations@
    }

    /// The raw table.
    pub closed spec fn table(&self) -> Seq<u8> {
        self.pairs@
    }

    pub open spec fn wf(&self) -> bool {
        &&& self.table().len() == PAIR_COUNT
        &&& self.generations().len() == MAX_ENTITIES
    }

    /// Every pair hard, every slot at generation zero.
    pub fn new() -> (s: Self)
        ensures
            s.wf(),
            forall|i: int| 0 <= i < PAIR_COUNT ==> #[trigger] s.table()[i] == 0,
            forall|i: int| 0 <= i < MAX_ENTITIES ==> #[trigger] s.generations()[i] == 0,
    {
        let mut pairs: Vec<u8> = Vec::new();
        let mut k: usize = 0;
        while k < PAIR_COUNT
            invariant
                k <= PAIR_COUNT,
                pairs.len() == k,
                forall|i: int| 0 <= i < k ==> #[trigger] pairs@[i] == 0,
            decreases PAIR_COUNT - k,
        {
            pairs.push(0);
            k = k + 1;
        }
        let mut generations: Vec<u32> = Vec::new();
        let mut k: usize = 0;
        while k < MAX_ENTITIES
            invariant
                k <= MAX_ENTITIES,
                generations.len() == k,
                forall|i: int| 0 <= i < k ==> #[trigger] generations@[i] == 0,
            decreases MAX_ENTITIES - k,
        {
            generations.push(0);
            k = k + 1;
        }
        GatherCollisionState { pairs, generations }
    }

    /// Note that `id` occupies its slot; when it is a different entity than
    /// the one last seen there, every pair of that slot becomes hard, so a
    /// newcomer never inherits an exemption.
    pub fn sync_slot(&mut self, id: EntityId)
        requires
            old(self).wf(),
            id.index < MAX_ENTITIES,
        ensures
            final(self).wf(),
            final(self).generations() == old(self).generations().update(id.index as int, id.generation),
            forall|a: int, b: int|
                0 <= a < MAX_ENTITIES && 0 <= b < MAX_ENTITIES && a != b ==> #[trigger] final(self).pair(a, b) == if old(
                    self,
                ).generations()[id.index as int] != id.generation && (a == id.index || b == id.index) {
                    0
                } else {
                    old(self).pair(a, b)
                },
    {
        let slot = id.index as usize;
        if self.generations[slot] == id.generation {
            return;
        }
        self.generations.set(slot, id.generation);
        let ghost p0 = self.pairs@;
        let ghost g1 = self.generations@;
        let mut other: usize = 0;
        while other < MAX_ENTITIES
            invariant
                other <= MAX_ENTITIES,
                slot < MAX_ENTITIES,
                slot == id.index,
                self.pairs@.len() == PAIR_COUNT,
                p0.len() == PAIR_COUNT,
                self.generations@ == g1,
                g1 == old(self).generations().update(id.index as int, id.generation),
                old(self).generations()[id.index as int] != id.generation,
                p0 == old(self).table(),
                forall|a: int, b: int|
                    0 <= a < MAX_ENTITIES && 0 <= b < MAX_ENTITIES && a != b ==> #[trigger] self.pairs@[spec_pair_index(a, b)]
                        == if (a == slot && b < other) || (b == slot && a < other) {
                        0
                    } else {
                        p0[spec_pair_index(a, b)]
                    },
            decreases MAX_ENTITIES - other,
        {
            if other != slot {
                let idx = pair_index(slot, other);
                let ghost before = self.pairs@;
                self.pairs.set(idx, 0);
                proof {
                    assert forall|a: int, b: int|
                        0 <= a < MAX_ENTITIES && 0 <= b < MAX_ENTITIES && a != b implies #[trigger] self.pairs@[spec_pair_index(a, b)]
                            == if (a == slot && b < other + 1) || (b == slot && a < other + 1) {
                            0
                        } else {
                            p0[spec_pair_index(a, b)]
                        } by {
                        lemma_pair_index_bounded(a, b);
                        if spec_pair_index(a, b) == idx {
                            lemma_pair_index_unique(a, b, slot as int, other as int);
                        } else {
                            assert(self.pairs@[spec_pair_index(a, b)] == before[spec_pair_index(a, b)]);
                        }
                    }
                }
            }
            other = other + 1;
        }
    }

    /// The byte of pair `{a, b}`.
    pub fn state(&self, a: usize, b: usize) -> (r: u8)
        requires
            self.wf(),
            a != b,
            a < MAX_ENTITIES,
            b < MAX_ENTITIES,
        ensures
            r == self.pair(a as int, b as int),
    {
        self.pairs[pair_index(a, b)]
    }

    /// Set the byte of pair `{a, b}`, and no other.
    pub fn set_state(&mut self, a: usize, b: usize, value: u8)
        requires
            old(self).wf(),
            a != b,
            a < MAX_ENTITIES,
            b < MAX_ENTITIES,
        ensures
            final(self).wf(),
            final(self).generations() == old(self).generations(),
            forall|c: int, d: int|
                0 <= c < MAX_ENTITIES && 0 <= d < MAX_ENTITIES && c != d ==> #[trigger] final(self).pair(c, d) == if (c == a
                    && d == b) || (c == b && d == a) {
                    value
                } else {
                    old(self).pair(c, d)
                },
    {
        let idx = pair_index(a, b);
        let ghost before = self.pairs@;
        self.pairs.set(idx, value);
        proof {
            assert forall|c: int, d: int|
                0 <= c < MAX_ENTITIES && 0 <= d < MAX_ENTITIES && c != d implies #[trigger] self.pair(c, d) == if (c == a && d
                    == b) || (c == b && d == a) {
                    value
                } else {
                    before[spec_pair_index(c, d)]
                } by {
                lemma_pair_index_bounded(c, d);
                lemma_pair_index_bounded(a as int, b as int);
                if spec_pair_index(c, d) == idx {
                    lemma_pair_index_unique(c, d, a as int, b as int);
                }
            }
        }
    }

    /// Feed the live units' half of the table into the state hash: the unit
    /// count, each unit's index and generation, then every pair byte in
    /// ascending `(i, j)` order, hard pairs included. The count fixes the
    /// block's length and the ids pin which unit every pair byte belongs to,
    /// so a reused slot moves the digest even at equal pair bytes.
    pub fn hash_into(&self, h: &mut Sha256State, store: &EntityStore)
        requires
            self.wf(),
            store.wf(),
        ensures
            sha256_fed(*final(h)) == sha256_fed(*old(h)) + le64(unit_ids(store@.slots).len() as u64)
                + units_frame_bytes(unit_ids(store@.slots)) + pair_rows_bytes(self.table(), unit_ids(store@.slots), 0),
    {
        let units = live_unit_ids(store);
        self.hash_frame_into(h, units.as_slice());
    }

    fn hash_frame_into(&self, h: &mut Sha256State, units: &[EntityId])
        requires
            self.wf(),
            units_ascending(units@),
        ensures
            sha256_fed(*final(h)) == sha256_fed(*old(h)) + le64(units@.len() as u64) + units_frame_bytes(units@)
                + pair_rows_bytes(self.table(), units@, 0),
    {
        let n = units.len();
        h.update(u64_le(n as u64).as_slice());
        let ghost s1 = sha256_fed(*h);
        let mut k: usize = 0;
        while k < n
            invariant
                k <= n,
                n == units@.len(),
                sha256_fed(*h) == s1 + units_frame_bytes(units@.subrange(0, k as int)),
            decreases n - k,
        {
            let id = units[k];
            h.update(u32_le(id.index).as_slice());
            h.update(u32_le(id.generation).as_slice());
            proof {
                let pre1 = units@.subrange(0, k as int + 1);
                assert(pre1.drop_last() =~= units@.subrange(0, k as int));
                assert(pre1.last() == id);
                assert(s1 + units_frame_bytes(pre1) =~= s1 + units_frame_bytes(units@.subrange(0, k as int)) + le32(id.index)
                    + le32(id.generation));
            }
            k = k + 1;
        }
        proof {
            assert(units@.subrange(0, k as int) =~= units@);
        }
        let ghost s2 = sha256_fed(*h);
        let ghost table = self.table();
        let ghost u = units@;
        let mut i: usize = 0;
        while i < n
            invariant
                i <= n,
                n == u.len(),
                u == units@,
                self.wf(),
                table == self.table(),
                units_ascending(u),
                s2 + pair_rows_bytes(table, u, 0) == sha256_fed(*h) + pair_rows_bytes(table, u, i as int),
            decreases n - i,
        {
            let ghost row_start = sha256_fed(*h);
            let mut j: usize = i + 1;
            while j < n
                invariant
                    i < n,
                    i + 1 <= j <= n,
                    n == u.len(),
                    u == units@,
                    self.wf(),
                    table == self.table(),
                    units_ascending(u),
                    row_start + pair_row_bytes(table, u, i as int, i as int + 1) == sha256_fed(*h) + pair_row_bytes(
                        table,
                        u,
                        i as int,
                        j as int,
                    ),
                decreases n - j,
            {
                let a = units[i].index as usize;
                let b = units[j].index as usize;
                let byte = self.state(a, b);
                let arr = [byte];
                h.update(arr.as_slice());
                proof {
                    assert(arr@ =~= seq![byte]);
                    assert(pair_row_bytes(table, u, i as int, j as int) =~= seq![byte] + pair_row_bytes(table, u, i as int, j + 1));
                    assert(sha256_fed(*h) + pair_row_bytes(table, u, i as int, j + 1) =~= row_start + pair_row_bytes(
                        table,
                        u,
                        i as int,
                        i as int + 1,
                    ));
                }
                j = j + 1;
            }
            proof {
                assert(pair_row_bytes(table, u, i as int, j as int) =~= Seq::<u8>::empty());
                assert(pair_rows_bytes(table, u, i as int) =~= pair_row_bytes(table, u, i as int, i as int + 1) + pair_rows_bytes(
                    table,
                    u,
                    i as int + 1,
                ));
                assert(s2 + pair_rows_bytes(table, u, 0) =~= sha256_fed(*h) + pair_rows_bytes(table, u, i as int + 1));
            }
            i = i + 1;
        }
        proof {
            assert(pair_rows_bytes(table, u, i as int) =~= Seq::<u8>::empty());
            assert(sha256_fed(*h) =~= s2 + pair_rows_bytes(table, u, 0));
        }
    }
}

/// Ids of the live units, ascending by slot.
pub open spec fn unit_ids(slots: Seq<Slot>) -> Seq<EntityId>
    decreases slots.len(),
{
    if slots.len() == 0 {
        Seq::empty()
    } else {
        unit_ids(slots.drop_last()) + if slots.last().alive && slots.last().kind is Unit {
            seq![EntityId { index: (slots.len() - 1) as u32, generation: slots.last().generation }]
        } else {
            Seq::<EntityId>::empty()
        }
    }
}

/// Every id [`unit_ids`] lists lies below `slots.len()`, and they ascend.
proof fn lemma_unit_ids_ascending(slots: Seq<Slot>)
    requires
        slots.len() <= MAX_ENTITIES,
    ensures
        units_ascending(unit_ids(slots)),
        forall|k: int| 0 <= k < unit_ids(slots).len() ==> (#[trigger] unit_ids(slots)[k]).index < slots.len(),
    decreases slots.len(),
{
    if slots.len() > 0 {
        lemma_unit_ids_ascending(slots.drop_last());
    }
}

/// The live units of `store`, ascending by slot.
fn live_unit_ids(store: &EntityStore) -> (r: Vec<EntityId>)
    requires
        store.wf(),
    ensures
        r@ == unit_ids(store@.slots),
        units_ascending(r@),
{
    let mut units: Vec<EntityId> = Vec::new();
    let n = store.slot_count();
    let mut slot: usize = 0;
    while slot < n
        invariant
            slot <= n,
            n == store@.slots.len(),
            units@ == unit_ids(store@.slots.subrange(0, slot as int)),
        decreases n - slot,
    {
        proof {
            let pre = store@.slots.subrange(0, slot as int + 1);
            assert(pre.drop_last() =~= store@.slots.subrange(0, slot as int));
        }
        if store.alive(slot) {
            let kind = store.kind(slot);
            if let EntityKind::Unit(_) = kind {
                let id = store.id_at(slot).unwrap();
                units.push(id);
            }
        }
        slot = slot + 1;
    }
    proof {
        assert(store@.slots.subrange(0, slot as int) =~= store@.slots);
        store.lemma_store_ok();
        lemma_unit_ids_ascending(store@.slots);
    }
    units
}

} // verus!
