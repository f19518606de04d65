//! What an RTS entity is doing.

use vstd::prelude::*;

use crate::digest::{le32, le64, sha256_fed, u32_le, u64_le, Sha256State};
use crate::scenario::Cell;

use super::entity::{EntityId, EntityStore, StoreView, UnitKind, MAX_ENTITIES};
use super::formation::FormationGoal;
use super::grid::{cell_index, lemma_index, on_grid};
use super::static_nav::StaticNav;
use crate::sim::tick::spec_step_admissible;

verus! {

/// A cached handle on a pooled navigation field: the pool slot, and the
/// epoch that slot had when the handle was taken.
#[derive(Clone, Copy, Debug, PartialEq, Eq, Structural)]
pub struct FieldRef {
    pub slot: u8,
    pub epoch: u64,
}

/// Where a gathering worker is in its round trip.
#[derive(Clone, Copy, Debug, PartialEq, Eq, Structural)]
pub enum GatherPhase {
    /// Walking to this worker's own approach slot around the node.
    ToNode { goal: FormationGoal, field: FieldRef },
    /// Standing at the node, filling up; `ticks_left` counts down to zero.
    Mining { ticks_left: u32 },
    /// Walking back to `drop_off` with a full load.
    Returning { drop_off: EntityId, field: FieldRef },
}

/// One stable byte per gather phase.
pub open spec fn spec_phase_tag(p: GatherPhase) -> u8 {
    match p {
        GatherPhase::ToNode { .. } => 0,
        GatherPhase::Mining { .. } => 1,
        GatherPhase::Returning { .. } => 2,
    }
}

impl GatherPhase {
    /// One stable byte per phase, for the state hash.
    fn tag(self) -> (r: u8)
        ensures
            r == spec_phase_tag(self),
    {
        match self {
            GatherPhase::ToNode { .. } => 0,
            GatherPhase::Mining { .. } => 1,
            GatherPhase::Returning { .. } => 2,
        }
    }
}

/// What an entity is currently doing. Discriminants are appended, never
/// inserted.
#[derive(Clone, Copy, Debug, PartialEq, Eq, Structural)]
pub enum Order {
    Idle,
    /// Walk to this unit's own slot in the group's formation.
    Move { goal: FormationGoal, field: FieldRef },
    /// Mine `node` and haul to the nearest drop-off, forever.
    Gather { node: EntityId, phase: GatherPhase },
    /// Walk to this worker's approach slot around `site` and attend it.
    Build { site: EntityId, goal: FormationGoal, field: FieldRef },
    /// Close on `target` until in weapon range, then fire until it dies.
    Attack { target: EntityId, field: FieldRef },
    /// Walk toward `goal`, stopping to fire on anything hostile in range.
    AttackMove { goal: FormationGoal, field: FieldRef },
    /// Walk toward `target` and hold at interaction reach.
    Follow { target: EntityId, goal: FormationGoal, field: FieldRef },
}

/// One stable byte per order variant.
pub open spec fn spec_order_tag(o: Order) -> u8 {
    match o {
        Order::Idle => 0,
        Order::Move { .. } => 1,
        Order::Gather { .. } => 2,
        Order::Build { .. } => 3,
        Order::Attack { .. } => 4,
        Order::AttackMove { .. } => 5,
        Order::Follow { .. } => 6,
    }
}

/// `o` with its field handle replaced; orders that hold none (idle, and
/// mining) unchanged.
pub open spec fn spec_with_field(o: Order, field: FieldRef) -> Order {
    match o {
        Order::Move { goal, .. } => Order::Move { goal, field },
        Order::Build { site, goal, .. } => Order::Build { site, goal, field },
        Order::Gather { node, phase } => match phase {
            GatherPhase::ToNode { goal, .. } => Order::Gather { node, phase: GatherPhase::ToNode { goal, field } },
            GatherPhase::Returning { drop_off, .. } => Order::Gather {
                node,
                phase: GatherPhase::Returning { drop_off, field },
            },
            GatherPhase::Mining { .. } => o,
        },
        Order::Attack { target, .. } => Order::Attack { target, field },
        Order::AttackMove { goal, .. } => Order::AttackMove { goal, field },
        Order::Follow { target, goal, .. } => Order::Follow { target, goal, field },
        Order::Idle => o,
    }
}

impl Order {
    /// One stable byte per variant, for the state hash.
    pub fn tag(self) -> (r: u8)
        ensures
            r == spec_order_tag(self),
    {
        match self {
            Order::Idle => 0,
            Order::Move { .. } => 1,
            Order::Gather { .. } => 2,
            Order::Build { .. } => 3,
            Order::Attack { .. } => 4,
            Order::AttackMove { .. } => 5,
            Order::Follow { .. } => 6,
        }
    }

    /// The same order with its cached field handle replaced.
    pub fn with_field(self, field: FieldRef) -> (r: Self)
        ensures
            r == spec_with_field(self, field),
    {
        match self {
            Order::Move { goal, .. } => Order::Move { goal, field },
            Order::Build { site, goal, .. } => Order::Build { site, goal, field },
            Order::Gather { node, phase: GatherPhase::ToNode { goal, .. } } => Order::Gather {
                node,
                phase: GatherPhase::ToNode { goal, field },
            },
            Order::Gather { node, phase: GatherPhase::Returning { drop_off, .. } } => Order::Gather {
                node,
                phase: GatherPhase::Returning { drop_off, field },
            },
            Order::Attack { target, .. } => Order::Attack { target, field },
            Order::AttackMove { goal, .. } => Order::AttackMove { goal, field },
            Order::Follow { target, goal, .. } => Order::Follow { target, goal, field },
            other => other,
        }
    }
}

/// Replacing the field handle twice keeps only the second: the variant and
/// payload of an order survive any number of re-acquired fields.
pub proof fn lemma_with_field_last_wins(o: Order, f1: FieldRef, f2: FieldRef)
    ensures
        spec_with_field(spec_with_field(o, f1), f2) == spec_with_field(o, f2),
        spec_order_tag(spec_with_field(o, f1)) == spec_order_tag(o),
{
}

/// State-hash bytes of a field handle: slot, then epoch.
pub open spec fn field_hash_bytes(f: FieldRef) -> Seq<u8> {
    seq![f.slot] + le64(f.epoch)
}

/// State-hash bytes of a formation goal: anchor, then slot.
pub open spec fn goal_hash_bytes(g: FormationGoal) -> Seq<u8> {
    le32(g.anchor.x) + le32(g.anchor.y) + le32(g.slot.x) + le32(g.slot.y)
}

/// State-hash bytes of a handle: index, then generation.
pub open spec fn id_hash_bytes(id: EntityId) -> Seq<u8> {
    le32(id.index) + le32(id.generation)
}

/// The bytes that stand for an absent goal and field: a zero goal, slot 0
/// and epoch 0.
pub open spec fn blank_goal_field_bytes() -> Seq<u8> {
    goal_hash_bytes(FormationGoal { anchor: Cell { x: 0, y: 0 }, slot: Cell { x: 0, y: 0 } }) + seq![0u8] + le64(0)
}

/// State-hash bytes of one order: its tag, then a fixed-width payload per
/// variant.
pub open spec fn order_hash_bytes(o: Order) -> Seq<u8> {
    seq![spec_order_tag(o)] + match o {
        Order::Idle => blank_goal_field_bytes(),
        Order::Move { goal, field } => goal_hash_bytes(goal) + field_hash_bytes(field),
        Order::Gather { node, phase } => id_hash_bytes(node) + seq![spec_phase_tag(phase)] + match phase {
            GatherPhase::ToNode { goal, field } => goal_hash_bytes(goal) + field_hash_bytes(field) + le32(0),
            GatherPhase::Mining { ticks_left } => blank_goal_field_bytes() + le32(ticks_left),
            GatherPhase::Returning { drop_off, field } => goal_hash_bytes(
                FormationGoal { anchor: Cell { x: 0, y: 0 }, slot: Cell { x: 0, y: 0 } },
            ) + field_hash_bytes(field) + id_hash_bytes(drop_off),
        },
        Order::Build { site, goal, field } => id_hash_bytes(site) + goal_hash_bytes(goal) + field_hash_bytes(field),
        Order::Attack { target, field } => id_hash_bytes(target) + field_hash_bytes(field),
        Order::AttackMove { goal, field } => goal_hash_bytes(goal) + field_hash_bytes(field),
        Order::Follow { target, goal, field } => id_hash_bytes(target) + goal_hash_bytes(goal) + field_hash_bytes(field),
    }
}

/// State-hash bytes of the listed slots' orders, in list order.
pub open spec fn orders_hash_bytes(orders: Seq<Order>, live: Seq<usize>) -> Seq<u8>
    decreases live.len(),
{
    if live.len() == 0 {
        Seq::empty()
    } else {
        orders_hash_bytes(orders, live.drop_last()) + order_hash_bytes(orders[live.last() as int])
    }
}

fn hash_u8(h: &mut Sha256State, b: u8)
    ensures
        sha256_fed(*final(h)) == sha256_fed(*old(h)) + seq![b],
{
    let a = [b];
    h.update(a.as_slice());
    assert(a@ =~= seq![b]);
}

fn hash_u32(h: &mut Sha256State, v: u32)
    ensures
        sha256_fed(*final(h)) == sha256_fed(*old(h)) + le32(v),
{
    h.update(u32_le(v).as_slice());
}

fn hash_u64(h: &mut Sha256State, v: u64)
    ensures
        sha256_fed(*final(h)) == sha256_fed(*old(h)) + le64(v),
{
    h.update(u64_le(v).as_slice());
}

/// A cached field handle's contribution to the state hash: slot then epoch.
fn hash_field(h: &mut Sha256State, field: FieldRef)
    ensures
        sha256_fed(*final(h)) == sha256_fed(*old(h)) + field_hash_bytes(field),
{
    hash_u8(h, field.slot);
    hash_u64(h, field.epoch);
    assert(sha256_fed(*h) =~= sha256_fed(*old(h)) + field_hash_bytes(field));
}

/// A formation goal's contribution to the state hash: anchor then slot.
fn hash_goal(h: &mut Sha256State, goal: FormationGoal)
    ensures
        sha256_fed(*final(h)) == sha256_fed(*old(h)) + goal_hash_bytes(goal),
{
    hash_u32(h, goal.anchor.x);
    hash_u32(h, goal.anchor.y);
    hash_u32(h, goal.slot.x);
    hash_u32(h, goal.slot.y);
    assert(sha256_fed(*h) =~= sha256_fed(*old(h)) + goal_hash_bytes(goal));
}

fn hash_id(h: &mut Sha256State, id: EntityId)
    ensures
        sha256_fed(*final(h)) == sha256_fed(*old(h)) + id_hash_bytes(id),
{
    hash_u32(h, id.index);
    hash_u32(h, id.generation);
    assert(sha256_fed(*h) =~= sha256_fed(*old(h)) + id_hash_bytes(id));
}

fn hash_blank_goal_field(h: &mut Sha256State)
    ensures
        sha256_fed(*final(h)) == sha256_fed(*old(h)) + blank_goal_field_bytes(),
{
    hash_goal(h, FormationGoal::at(Cell { x: 0, y: 0 }));
    hash_u8(h, 0);
    hash_u64(h, 0);
    assert(sha256_fed(*h) =~= sha256_fed(*old(h)) + blank_goal_field_bytes());
}

fn hash_order(h: &mut Sha256State, order: Order)
    ensures
        sha256_fed(*final(h)) == sha256_fed(*old(h)) + order_hash_bytes(order),
{
    let ghost start = sha256_fed(*h);
    hash_u8(h, order.tag());
    match order {
        Order::Idle => {
            hash_blank_goal_field(h);
        },
        Order::Move { goal, field } => {
            hash_goal(h, goal);
            hash_field(h, field);
        },
        Order::Gather { node, phase } => {
            hash_id(h, node);
            hash_u8(h, phase.tag());
            match phase {
                GatherPhase::ToNode { goal, field } => {
                    hash_goal(h, goal);
                    hash_field(h, field);
                    hash_u32(h, 0);
                },
                GatherPhase::Mining { ticks_left } => {
                    hash_blank_goal_field(h);
                    hash_u32(h, ticks_left);
                },
                GatherPhase::Returning { drop_off, field } => {
                    hash_goal(h, FormationGoal::at(Cell { x: 0, y: 0 }));
                    hash_field(h, field);
                    hash_id(h, drop_off);
                },
            }
        },
        Order::Build { site, goal, field } => {
            hash_id(h, site);
            hash_goal(h, goal);
            hash_field(h, field);
        },
        Order::Attack { target, field } => {
            hash_id(h, target);
            hash_field(h, field);
        },
        Order::AttackMove { goal, field } => {
            hash_goal(h, goal);
            hash_field(h, field);
        },
        Order::Follow { target, goal, field } => {
            hash_id(h, target);
            hash_goal(h, goal);
            hash_field(h, field);
        },
    }
    assert(sha256_fed(*h) =~= start + order_hash_bytes(order));
}

/// Whether an order binds its unit to the entity `id`: building it, or
/// hauling to it as a drop-off.
pub open spec fn bound_to(o: Order, id: EntityId) -> bool {
    match o {
        Order::Build { site, .. } => site == id,
        Order::Gather { phase: GatherPhase::Returning { drop_off, .. }, .. } => drop_off == id,
        _ => false,
    }
}

/// Whether slot `i`'s order `o` is released by the death of the building
/// `id`: `i` holds another live entity whose order is bound to it.
pub open spec fn released(v: StoreView, id: EntityId, i: int, o: Order) -> bool {
    &&& i < v.slots.len()
    &&& v.slots[i].alive
    &&& i != id.index
    &&& bound_to(o, id)
}

/// One order per entity slot, preallocated to [`MAX_ENTITIES`].
#[derive(Debug, Clone)]
pub struct OrderTable {
    orders: Vec<Order>,
}

impl View for OrderTable {
    type V = Seq<Order>;

    closed spec fn view(&self) -> Seq<Order> {
        self.orders@
    }
}

impl OrderTable {
    /// One order per entity slot.
    pub open spec fn wf(&self) -> bool {
        self@.len() == MAX_ENTITIES
    }

    /// Every slot idle.
    pub fn new() -> (t: Self)
        ensures
            t.wf(),
            forall|i: int| 0 <= i < MAX_ENTITIES ==> #[trigger] t@[i] == Order::Idle,
    {
        let mut orders: Vec<Order> = Vec::new();
        let mut k: usize = 0;
        while k < MAX_ENTITIES
            invariant
                k <= MAX_ENTITIES,
                orders.len() == k,
                forall|i: int| 0 <= i < k ==> #[trigger] orders@[i] == Order::Idle,
            decreases MAX_ENTITIES - k,
        {
            orders.push(Order::Idle);
            k = k + 1;
        }
        OrderTable { orders }
    }

    pub fn get(&self, slot: usize) -> (r: Order)
        requires
            self.wf(),
            slot < MAX_ENTITIES,
        ensures
            r == self@[slot as int],
    {
        self.orders[slot]
    }

    pub fn set(&mut self, slot: usize, order: Order)
        requires
            old(self).wf(),
            slot < MAX_ENTITIES,
        ensures
            final(self).wf(),
            final(self)@ == old(self)@.update(slot as int, order),
    {
        self.orders.set(slot, order);
    }

    pub fn clear(&mut self, slot: usize)
        requires
            old(self).wf(),
            slot < MAX_ENTITIES,
        ensures
            final(self).wf(),
            final(self)@ == old(self)@.update(slot as int, Order::Idle),
    {
        self.orders.set(slot, Order::Idle);
    }

    /// A building has died: every other live entity whose order named it
    /// goes idle now, a builder attending it and a hauler bound for it as a
    /// drop-off alike. Every other order, and every dead slot's, is kept.
    pub fn release_building(&mut self, store: &EntityStore, id: EntityId)
        requires
            old(self).wf(),
        ensures
            final(self).wf(),
            forall|i: int|
                0 <= i < MAX_ENTITIES ==> #[trigger] final(self)@[i] == if released(store@, id, i, old(self)@[i]) {
                    Order::Idle
                } else {
                    old(self)@[i]
                },
    {
        let n = store.slot_count();
        let mut s: usize = 0;
        while s < n
            invariant
                self.wf(),
                n == store@.slots.len(),
                s <= n,
                forall|i: int|
                    0 <= i < MAX_ENTITIES ==> #[trigger] self@[i] == if i < s && released(store@, id, i, old(self)@[i]) {
                        Order::Idle
                    } else {
                        old(self)@[i]
                    },
            decreases n - s,
        {
            if s != id.index as usize && s < MAX_ENTITIES && store.alive(s) {
                let bound = match self.orders[s] {
                    Order::Build { site, .. } => site == id,
                    Order::Gather { phase: GatherPhase::Returning { drop_off, .. }, .. } => drop_off == id,
                    _ => false,
                };
                if bound {
                    self.orders.set(s, Order::Idle);
                }
            }
            s = s + 1;
        }
    }

    /// Feed the listed slots' orders into the state hash, in list order,
    /// fixed width per slot.
    pub fn hash_into(&self, h: &mut Sha256State, live: &[usize])
        requires
            self.wf(),
            forall|k: int| 0 <= k < live@.len() ==> #[trigger] live@[k] < MAX_ENTITIES,
        ensures
            sha256_fed(*final(h)) == sha256_fed(*old(h)) + orders_hash_bytes(self@, live@),
    {
        let ghost start = sha256_fed(*h);
        let mut k: usize = 0;
        while k < live.len()
            invariant
                k <= live@.len(),
                self.wf(),
                forall|j: int| 0 <= j < live@.len() ==> #[trigger] live@[j] < MAX_ENTITIES,
                sha256_fed(*h) == start + orders_hash_bytes(self@, live@.subrange(0, k as int)),
            decreases live@.len() - k,
        {
            let slot = live[k];
            hash_order(h, self.orders[slot]);
            proof {
                let pre1 = live@.subrange(0, k as int + 1);
                assert(pre1.drop_last() =~= live@.subrange(0, k as int));
                assert(pre1.last() == slot);
                assert(start + orders_hash_bytes(self@, pre1) =~= start + orders_hash_bytes(self@, live@.subrange(0, k as int))
                    + order_hash_bytes(self@[slot as int]));
            }
            k = k + 1;
        }
        proof {
            assert(live@.subrange(0, k as int) =~= live@);
        }
    }
}

/// Distance, in half cells, from the centre of cell `v` to the span of
/// cells `lo..lo + e` along one axis; `0` inside it.
pub open spec fn half_span_gap(v: int, lo: int, e: int) -> int {
    if 2 * v + 1 < 2 * lo {
        2 * lo - (2 * v + 1)
    } else if 2 * v + 1 > 2 * lo + 2 * e {
        2 * v + 1 - 2 * lo - 2 * e
    } else {
        0
    }
}

/// Squared distance from the centre of cell `p` to the `e`-cell footprint
/// square whose minimum corner is `min`, in quarter cells: the footprint
/// distance `d` in cells is `sqrt(approach_dist2) / 2`.
pub open spec fn approach_dist2(p: (int, int), min: Cell, e: int) -> int {
    let gx = half_span_gap(p.0, min.x as int, e);
    let gy = half_span_gap(p.1, min.y as int, e);
    gx * gx + gy * gy
}

/// Cells on ring `r` around an `e`-cell footprint: the border of the
/// footprint box grown by `r`, corners included.
pub open spec fn ring_len(e: int, r: int) -> int {
    4 * (e + 2 * r) - 4
}

/// The `k`-th cell of ring `r` in scan order: the top row left to right,
/// the right column top to bottom without its corners, the bottom row left
/// to right, then the left column top to bottom without its corners.
pub open spec fn ring_pos(min: Cell, e: int, r: int, k: int) -> (int, int) {
    let l = e + 2 * r;
    let x0 = min.x - r;
    let y0 = min.y - r;
    let x1 = min.x + e - 1 + r;
    let y1 = min.y + e - 1 + r;
    if k < l {
        (x0 + k, y0)
    } else if k < 2 * l - 2 {
        (x1, y0 + 1 + (k - l))
    } else if k < 3 * l - 2 {
        (x0 + (k - (2 * l - 2)), y1)
    } else {
        (x0, y0 + 1 + (k - (3 * l - 2)))
    }
}

/// Cell `k` of ring `r` is on the grid and a body may stand there, for
/// rings out to the grid's larger side.
pub open spec fn approach_candidate(blocked: Seq<bool>, w: int, h: int, min: Cell, e: int, r: int, k: int) -> bool {
    &&& 1 <= r <= (if w >= h { w } else { h })
    &&& 0 <= k < ring_len(e, r)
    &&& on_grid(w, h, ring_pos(min, e, r, k).0, ring_pos(min, e, r, k).1)
    &&& !blocked[cell_index(w, ring_pos(min, e, r, k).0, ring_pos(min, e, r, k).1)]
}

/// Ring position `(r, k)` comes before `(r2, k2)` in scan order, or is it.
pub open spec fn scan_le(r: int, k: int, r2: int, k2: int) -> bool {
    r < r2 || (r == r2 && k <= k2)
}

/// Cell `k` of ring `r` is the approach: a candidate nearest the footprint,
/// the first in scan order among equally near ones.
pub open spec fn is_best_approach(blocked: Seq<bool>, w: int, h: int, min: Cell, e: int, r: int, k: int) -> bool {
    &&& approach_candidate(blocked, w, h, min, e, r, k)
    &&& forall|r2: int, k2: int|
        #[trigger] approach_candidate(blocked, w, h, min, e, r2, k2) ==> {
            let d = approach_dist2(ring_pos(min, e, r, k), min, e);
            let d2 = approach_dist2(ring_pos(min, e, r2, k2), min, e);
            d < d2 || (d == d2 && scan_le(r, k, r2, k2))
        }
}

/// No cell of ring `r` is nearer the footprint than `r - 1/2` cells.
proof fn lemma_ring_floor(min: Cell, e: int, r: int, k: int)
    requires
        e >= 1,
        r >= 1,
        0 <= k < ring_len(e, r),
    ensures
        approach_dist2(ring_pos(min, e, r, k), min, e) >= (2 * r - 1) * (2 * r - 1),
{
    let p = ring_pos(min, e, r, k);
    let gx = half_span_gap(p.0, min.x as int, e);
    let gy = half_span_gap(p.1, min.y as int, e);
    assert(gx * gx >= 0 && gy * gy >= 0) by (nonlinear_arith);
    let l = e + 2 * r;
    if k < l || (2 * l - 2 <= k < 3 * l - 2) {
        assert(gy == 2 * r - 1);
    } else {
        assert(gx == 2 * r - 1);
    }
}

/// On a ring, the cells beside the footprint (on-axis: level with it along
/// the ring's side) are exactly `r - 1/2` cells from it, and every corner
/// cell of the ring (off-axis) is strictly farther: widening the scan from
/// the four rays to the whole ring can only change an answer the rays left
/// empty.
pub proof fn lemma_on_axis_cells_are_nearest(min: Cell, e: int, r: int, k: int)
    requires
        e >= 1,
        r >= 1,
        0 <= k < ring_len(e, r),
    ensures
        ({
            let p = ring_pos(min, e, r, k);
            let on_axis = half_span_gap(p.0, min.x as int, e) == 0 || half_span_gap(p.1, min.y as int, e) == 0;
            &&& on_axis ==> approach_dist2(p, min, e) == (2 * r - 1) * (2 * r - 1)
            &&& !on_axis ==> approach_dist2(p, min, e) > (2 * r - 1) * (2 * r - 1)
        }),
{
    let p = ring_pos(min, e, r, k);
    let gx = half_span_gap(p.0, min.x as int, e);
    let gy = half_span_gap(p.1, min.y as int, e);
    let l = e + 2 * r;
    assert(gx >= 0 && gy >= 0);
    if k < l || (2 * l - 2 <= k < 3 * l - 2) {
        assert(gy == 2 * r - 1);
        if gx > 0 {
            assert(gx * gx > 0) by (nonlinear_arith)
                requires
                    gx > 0,
            ;
        }
    } else {
        assert(gx == 2 * r - 1);
        if gy > 0 {
            assert(gy * gy > 0) by (nonlinear_arith)
                requires
                    gy > 0,
            ;
        }
    }
}

/// Cell `k` of ring `r` as coordinates.
fn ring_cell(min: Cell, e: u32, r: u64, k: u64) -> (p: (i64, i64))
    requires
        e >= 1,
        1 <= r <= u32::MAX,
        k < ring_len(e as int, r as int),
    ensures
        p.0 == ring_pos(min, e as int, r as int, k as int).0,
        p.1 == ring_pos(min, e as int, r as int, k as int).1,
{
    let l = e as i64 + 2 * r as i64;
    let k = k as i64;
    let x0 = min.x as i64 - r as i64;
    let y0 = min.y as i64 - r as i64;
    let x1 = min.x as i64 + e as i64 - 1 + r as i64;
    let y1 = min.y as i64 + e as i64 - 1 + r as i64;
    if k < l {
        (x0 + k, y0)
    } else if k < 2 * l - 2 {
        (x1, y0 + 1 + (k - l))
    } else if k < 3 * l - 2 {
        (x0 + (k - (2 * l - 2)), y1)
    } else {
        (x0, y0 + 1 + (k - (3 * l - 2)))
    }
}

/// `approach_dist2` of an on-grid cell.
fn approach_dist2_exec(x: i64, y: i64, min: Cell, e: u32) -> (d: u128)
    requires
        0 <= x <= u32::MAX,
        0 <= y <= u32::MAX,
        e >= 1,
    ensures
        d == approach_dist2((x as int, y as int), min, e as int),
{
    let gx: i128 = gap_exec(x, min.x, e);
    let gy: i128 = gap_exec(y, min.y, e);
    assert(0 <= gx * gx <= 0x10_0000_0000_0000_0000 && 0 <= gy * gy <= 0x10_0000_0000_0000_0000) by (nonlinear_arith)
        requires
            0 <= gx <= 0x4_0000_0000,
            0 <= gy <= 0x4_0000_0000,
    ;
    (gx * gx + gy * gy) as u128
}

/// `half_span_gap` of an on-grid coordinate.
fn gap_exec(v: i64, lo: u32, e: u32) -> (g: i128)
    requires
        0 <= v <= u32::MAX,
    ensures
        g == half_span_gap(v as int, lo as int, e as int),
        0 <= g <= 0x4_0000_0000,
{
    let c: i128 = 2 * v as i128 + 1;
    let a: i128 = 2 * lo as i128;
    let b: i128 = 2 * lo as i128 + 2 * e as i128;
    if c < a {
        a - c
    } else if c > b {
        c - b
    } else {
        0
    }
}

/// The cell a unit of `mover_kind` is routed to when heading for a target
/// whose `edge`-cell footprint has its minimum corner at `min`: a cell a
/// body may stand on, on the square rings around the footprint, nearest the
/// footprint and first in scan order among equally near ones; with its
/// squared footprint distance in quarter cells. The scan stops once a ring's
/// floor `r - 1/2` reaches the best distance found, which cannot change the
/// answer. With no such cell on any ring out to the grid's size, the
/// footprint's own centre cell and `0`.
pub fn entity_approach_cell(static_nav: &StaticNav, min: Cell, edge: u32, mover_kind: UnitKind) -> (res: (Cell, u128))
    requires
        static_nav.wf(),
        edge >= 1,
        min.x + edge <= u32::MAX,
        min.y + edge <= u32::MAX,
    ensures
        (exists|r: int, k: int|
            approach_candidate(
                static_nav@.center_blocked,
                static_nav@.width as int,
                static_nav@.height as int,
                min,
                edge as int,
                r,
                k,
            )) ==> exists|r: int, k: int|
            is_best_approach(
                static_nav@.center_blocked,
                static_nav@.width as int,
                static_nav@.height as int,
                min,
                edge as int,
                r,
                k,
            ) && res.0.x == ring_pos(min, edge as int, r, k).0 && res.0.y == ring_pos(min, edge as int, r, k).1
                && res.1 == approach_dist2(ring_pos(min, edge as int, r, k), min, edge as int),
        !(exists|r: int, k: int|
            approach_candidate(
                static_nav@.center_blocked,
                static_nav@.width as int,
                static_nav@.height as int,
                min,
                edge as int,
                r,
                k,
            )) ==> res == (Cell { x: (min.x + edge / 2) as u32, y: (min.y + edge / 2) as u32 }, 0u128),
{
    let width = static_nav.width();
    let height = static_nav.height();
    let blocked = static_nav.center_blocked();
    let ghost bl = blocked@;
    let ghost wi = width as int;
    let ghost hi = height as int;
    let ghost e = edge as int;
    let max_radius: u64 = if width >= height {
        width as u64
    } else {
        height as u64
    };
    let mut best: Option<(u128, u32, u32)> = None;
    let ghost mut br: int = 0;
    let ghost mut bk: int = 0;
    let mut r: u64 = 1;
    while r <= max_radius
        invariant_except_break
            1 <= r <= max_radius + 1,
        invariant
            wi == width,
            hi == height,
            bl == blocked@,
            bl == static_nav@.center_blocked,
            wi == static_nav@.width,
            hi == static_nav@.height,
            bl.len() == wi * hi,
            wi > 0,
            hi > 0,
            wi * hi < u32::MAX,
            e == edge,
            e >= 1,
            max_radius == (if wi >= hi { wi } else { hi }),
            1 <= r,
            match best {
                None => forall|r2: int, k2: int|
                    #[trigger] approach_candidate(bl, wi, hi, min, e, r2, k2) ==> r2 >= r,
                Some((bd, bx, by)) => {
                    &&& approach_candidate(bl, wi, hi, min, e, br, bk)
                    &&& br < r
                    &&& bx == ring_pos(min, e, br, bk).0
                    &&& by == ring_pos(min, e, br, bk).1
                    &&& bd == approach_dist2(ring_pos(min, e, br, bk), min, e)
                    &&& forall|r2: int, k2: int|
                        #[trigger] approach_candidate(bl, wi, hi, min, e, r2, k2) && r2 < r ==> {
                            let d2 = approach_dist2(ring_pos(min, e, r2, k2), min, e);
                            bd < d2 || (bd == d2 && scan_le(br, bk, r2, k2))
                        }
                },
            },
        ensures
            match best {
                None => forall|r2: int, k2: int| !#[trigger] approach_candidate(bl, wi, hi, min, e, r2, k2),
                Some((bd, bx, by)) => {
                    &&& is_best_approach(bl, wi, hi, min, e, br, bk)
                    &&& bx == ring_pos(min, e, br, bk).0
                    &&& by == ring_pos(min, e, br, bk).1
                    &&& bd == approach_dist2(ring_pos(min, e, br, bk), min, e)
                },
            },
        decreases max_radius + 1 - r,
    {
        // Nothing on this ring, or any ring beyond it, can beat what is held.
        if let Some((bd, _, _)) = best {
            let t: u128 = 2 * r as u128 - 1;
            assert(t * t <= 0x4_0000_0000_0000_0000_0000) by (nonlinear_arith)
                requires
                    0 <= t <= 0x2_0000_0000,
            ;
            let floor: u128 = t * t;
            if floor >= bd {
                proof {
                    assert forall|r2: int, k2: int| #[trigger] approach_candidate(bl, wi, hi, min, e, r2, k2) implies {
                        let d = approach_dist2(ring_pos(min, e, br, bk), min, e);
                        let d2 = approach_dist2(ring_pos(min, e, r2, k2), min, e);
                        d < d2 || (d == d2 && scan_le(br, bk, r2, k2))
                    } by {
                        if r2 >= r {
                            lemma_ring_floor(min, e, r2, k2);
                            let rr = r as int;
                            assert((2 * r2 - 1) * (2 * r2 - 1) >= (2 * rr - 1) * (2 * rr - 1)) by (nonlinear_arith)
                                requires
                                    r2 >= rr,
                                    rr >= 1,
                            ;
                        }
                    }
                }
                break;
            }
        }
        let l: u64 = edge as u64 + 2 * r;
        let len: u64 = 4 * l - 4;
        let mut k: u64 = 0;
        while k < len
            invariant
                wi == width,
                hi == height,
                bl == blocked@,
                bl.len() == wi * hi,
                wi > 0,
                hi > 0,
                wi * hi < u32::MAX,
                e == edge,
                e >= 1,
                max_radius == (if wi >= hi { wi } else { hi }),
                1 <= r <= max_radius,
                len == ring_len(e, r as int),
                k <= len,
                match best {
                    None => forall|r2: int, k2: int|
                        #[trigger] approach_candidate(bl, wi, hi, min, e, r2, k2) ==> r2 > r || (r2 == r && k2 >= k),
                    Some((bd, bx, by)) => {
                        &&& approach_candidate(bl, wi, hi, min, e, br, bk)
                        &&& scan_le(br, bk, r as int, k as int) && !(br == r && bk == k)
                        &&& bx == ring_pos(min, e, br, bk).0
                        &&& by == ring_pos(min, e, br, bk).1
                        &&& bd == approach_dist2(ring_pos(min, e, br, bk), min, e)
                        &&& forall|r2: int, k2: int|
                            #[trigger] approach_candidate(bl, wi, hi, min, e, r2, k2) && (r2 < r || (r2 == r && k2 < k)) ==> {
                                let d2 = approach_dist2(ring_pos(min, e, r2, k2), min, e);
                                bd < d2 || (bd == d2 && scan_le(br, bk, r2, k2))
                            }
                    },
                },
            decreases len - k,
        {
            let (x, y) = ring_cell(min, edge, r, k);
            if 0 <= x && x < width as i64 && 0 <= y && y < height as i64 {
                proof {
                    lemma_index(wi, hi, x as int, y as int);
                }
                let idx = x as usize + y as usize * width as usize;
                if !blocked[idx] {
                    let d = approach_dist2_exec(x, y, min, edge);
                    let take = match best {
                        None => true,
                        Some((bd, _, _)) => d < bd,
                    };
                    if take {
                        best = Some((d, x as u32, y as u32));
                        proof {
                            br = r as int;
                            bk = k as int;
                        }
                    }
                }
            }
            k = k + 1;
        }
        r = r + 1;
    }
    match best {
        Some((d, x, y)) => (Cell { x, y }, d),
        None => (Cell { x: min.x + edge / 2, y: min.y + edge / 2 }, 0),
    }
}

/// Is a step from cell `(cx, cy)` into cell `(tx, ty)` one the RTS mover
/// may take? The same rule as the horde walk's, so the two can never
/// disagree on what "reachable" means.
pub fn step_admissible(cx: i32, cy: i32, tx: i32, ty: i32, width: u32, height: u32, blocked: &[bool]) -> (r: bool)
    requires
        blocked@.len() == width * height,
    ensures
        r == spec_step_admissible(blocked@, width as int, height as int, (cx as int, cy as int), (tx as int, ty as int)),
{
    crate::sim::tick::step_admissible(cx, cy, tx, ty, width, height, blocked)
}

} // verus!
