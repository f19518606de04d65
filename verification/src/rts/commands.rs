//! The world's production, damage and attack-command rules, over the state
//! they read: a building's kind, owner and completion, its queue, the
//! player's supply and stock, a target's kind and hit points, and the units
//! an attack command orders.

use vstd::prelude::*;

use super::economy::{sat_add, sat_sub, spec_supply_cost, supply_cost, Resources, Supply};
use super::entity::{
    armor, spec_armor, spec_contains, BuildingKind, EntityId, EntityKind, EntityStore, Slot, StoreView, UnitKind,
    MAX_ENTITIES, OWNER_ENEMY, OWNER_PLAYER,
};
use super::production::{
    all_producible, can_produce, lemma_queue_ok, producible, spec_unit_cost, unit_cost, ProduceError, ProductionQueue,
    PRODUCTION_QUEUE_CAP,
};
use super::formation::{FormationError, FormationGoal};
use super::combat::{spec_weapon, weapon};
use super::orders::{FieldRef, GatherPhase, Order, OrderTable};
use super::selection::{Pick, Selection};
use super::world::{
    CommandReceipt, CommandRejectReason, ContextOrderReason, ContextOrderResult, DamageResult, IssuedOrder,
    OrderReceiptBuffer, UnitOrderReceipt,
};
use crate::scenario::Cell;

verus! {

/// What a production command reads of the building it names: its kind,
/// owner, and whether it is finished. `None` for a stale id or a
/// non-building.
#[derive(Clone, Copy, Debug, PartialEq, Eq, Structural)]
pub struct Producer {
    pub kind: BuildingKind,
    pub owner: u8,
    pub finished: bool,
}

/// The first rule an enqueue breaks, checked in this order: the building
/// must be live and player-owned, finished, able to produce the unit, have
/// queue room, have free supply, then have the resources.
pub open spec fn enqueue_fault(
    building: Option<Producer>,
    unit: UnitKind,
    queue_len: nat,
    supply: Supply,
    stock: Resources,
) -> Option<ProduceError> {
    match building {
        None => Some(ProduceError::NoBuilding),
        Some(b) => if b.owner != OWNER_PLAYER {
            Some(ProduceError::NoBuilding)
        } else if !b.finished {
            Some(ProduceError::UnderConstruction)
        } else if !((b.kind is Hq && unit is Worker) || (b.kind is Barracks && unit is Soldier)) {
            Some(ProduceError::WrongBuilding)
        } else if queue_len >= PRODUCTION_QUEUE_CAP {
            Some(ProduceError::QueueFull)
        } else if spec_supply_cost(unit) > supply.free_spec() {
            Some(ProduceError::SupplyBlocked)
        } else if !stock.spec_covers(spec_unit_cost(unit)) {
            Some(ProduceError::Unaffordable)
        } else {
            None
        },
    }
}

/// Queue `unit` at a building: on success the cost is paid, the supply
/// reserved and the unit queued; on any refusal nothing changes, so a
/// supply-blocked enqueue never takes the player's money.
pub fn enqueue_unit(
    building: Option<Producer>,
    unit: UnitKind,
    queue: &mut ProductionQueue,
    supply: &mut Supply,
    resources: &mut Resources,
) -> (r: Result<(), ProduceError>)
    requires
        old(queue).wf(),
    ensures
        final(queue).wf(),
        match enqueue_fault(building, unit, old(queue)@.entries.len(), *old(supply), *old(resources)) {
            Some(e) => r == Err::<(), ProduceError>(e) && *final(queue) == *old(queue) && *final(supply) == *old(supply)
                && *final(resources) == *old(resources),
            None => {
                &&& r == Ok::<(), ProduceError>(())
                &&& final(queue)@.entries == old(queue)@.entries.push(unit)
                &&& final(queue)@.progress == old(queue)@.progress
                &&& final(supply).used_spec() == sat_add(old(supply).used_spec(), spec_supply_cost(unit))
                &&& final(supply).cap_spec() == old(supply).cap_spec()
                &&& *final(resources) == old(resources).spec_debit(spec_unit_cost(unit))
            },
        },
{
    proof {
        lemma_queue_ok(*queue);
    }
    let b = match building {
        None => {
            return Err(ProduceError::NoBuilding);
        },
        Some(b) => b,
    };
    if b.owner != OWNER_PLAYER {
        return Err(ProduceError::NoBuilding);
    }
    if !b.finished {
        return Err(ProduceError::UnderConstruction);
    }
    if !can_produce(b.kind, unit) {
        return Err(ProduceError::WrongBuilding);
    }
    if queue.is_full() {
        return Err(ProduceError::QueueFull);
    }
    if !supply.fits(supply_cost(unit)) {
        return Err(ProduceError::SupplyBlocked);
    }
    if !resources.try_debit(unit_cost(unit)) {
        return Err(ProduceError::Unaffordable);
    }
    queue.push(unit);
    supply.add_used(supply_cost(unit));
    Ok(())
}

/// Cancel queue entry `index` at a building, refunding its cost and
/// releasing its supply; `false`, and nothing changes, for a non-building
/// or a missing entry.
pub fn cancel_queued(
    is_building: bool,
    index: usize,
    queue: &mut ProductionQueue,
    supply: &mut Supply,
    resources: &mut Resources,
) -> (r: bool)
    requires
        old(queue).wf(),
        all_producible(old(queue)@.entries),
    ensures
        final(queue).wf(),
        r == (is_building && index < old(queue)@.entries.len()),
        !r ==> *final(queue) == *old(queue) && *final(supply) == *old(supply) && *final(resources) == *old(resources),
        r ==> {
            let kind = old(queue)@.entries[index as int];
            &&& final(queue)@.entries == old(queue)@.entries.remove(index as int)
            &&& final(queue)@.progress == if index == 0 { 0 } else { old(queue)@.progress }
            &&& *final(resources) == old(resources).spec_credit(spec_unit_cost(kind))
            &&& final(supply).used_spec() == sat_sub(old(supply).used_spec(), spec_supply_cost(kind))
            &&& final(supply).cap_spec() == old(supply).cap_spec()
        },
{
    proof {
        lemma_queue_ok(*queue);
    }
    if !is_building {
        return false;
    }
    let kind = match queue.cancel(index) {
        None => {
            return false;
        },
        Some(k) => k,
    };
    proof {
        assert(producible(old(queue)@.entries[index as int]));
    }
    resources.credit(unit_cost(kind));
    supply.remove_used(supply_cost(kind));
    true
}

/// Queueing a unit and cancelling it again leaves the queue's entries, the
/// stock and the supply usage exactly as they were.
pub proof fn lemma_cancel_refunds_enqueue(
    entries: Seq<UnitKind>,
    used: u32,
    stock: Resources,
    unit: UnitKind,
)
    requires
        stock.spec_covers(spec_unit_cost(unit)),
        used + spec_supply_cost(unit) <= u32::MAX,
    ensures
        entries.push(unit).remove(entries.len() as int) == entries,
        sat_sub(sat_add(used, spec_supply_cost(unit)), spec_supply_cost(unit)) == used,
        stock.spec_debit(spec_unit_cost(unit)).spec_credit(spec_unit_cost(unit)) == stock,
{
    assert(entries.push(unit).remove(entries.len() as int) =~= entries);
}

/// Supply the entries of one queue reserve.
pub open spec fn queue_supply(entries: Seq<UnitKind>) -> nat
    decreases entries.len(),
{
    if entries.len() == 0 {
        0
    } else {
        queue_supply(entries.drop_last()) + spec_supply_cost(entries.last()) as nat
    }
}

/// Supply reserved by a list of queues.
pub open spec fn queues_supply(queues: Seq<ProductionQueue>) -> nat
    decreases queues.len(),
{
    if queues.len() == 0 {
        0
    } else {
        queues_supply(queues.drop_last()) + queue_supply(queues.last()@.entries)
    }
}

proof fn lemma_queue_supply_bound(entries: Seq<UnitKind>)
    ensures
        queue_supply(entries) <= 2 * entries.len(),
    decreases entries.len(),
{
    if entries.len() > 0 {
        lemma_queue_supply_bound(entries.drop_last());
    }
}

/// Well-formed queues reserve at most ten supply each.
pub proof fn lemma_queues_supply_bound(queues: Seq<ProductionQueue>)
    requires
        forall|i: int| 0 <= i < queues.len() ==> (#[trigger] queues[i]).wf(),
    ensures
        queues_supply(queues) <= 10 * queues.len(),
    decreases queues.len(),
{
    if queues.len() > 0 {
        let q = queues.last();
        assert(q.wf());
        lemma_queue_ok(q);
        lemma_queue_supply_bound(q@.entries);
        assert forall|i: int| 0 <= i < queues.drop_last().len() implies (#[trigger] queues.drop_last()[i]).wf() by {
            assert(queues.drop_last()[i] == queues[i]);
        }
        lemma_queues_supply_bound(queues.drop_last());
    }
}

/// Supply reserved by every live building's production queue.
pub fn reserved_supply(queues: &[ProductionQueue]) -> (r: u32)
    requires
        queues@.len() <= MAX_ENTITIES,
        forall|i: int| 0 <= i < queues@.len() ==> (#[trigger] queues@[i]).wf(),
    ensures
        r == queues_supply(queues@),
{
    let mut total: u32 = 0;
    let mut i: usize = 0;
    while i < queues.len()
        invariant
            i <= queues@.len(),
            queues@.len() <= MAX_ENTITIES,
            forall|j: int| 0 <= j < queues@.len() ==> (#[trigger] queues@[j]).wf(),
            total == queues_supply(queues@.subrange(0, i as int)),
            total <= 10 * i,
        decreases queues@.len() - i,
    {
        let entries = queues[i].entries();
        let ghost pre = queues@.subrange(0, i as int);
        let ghost pre1 = queues@.subrange(0, i as int + 1);
        proof {
            assert(pre1.drop_last() =~= pre);
            assert(pre1.last() == queues@[i as int]);
            lemma_queue_ok(queues@[i as int]);
            lemma_queue_supply_bound(entries@);
        }
        let mut add: u32 = 0;
        let mut k: usize = 0;
        while k < entries.len()
            invariant
                k <= entries@.len(),
                entries@ == queues@[i as int]@.entries,
                entries@.len() <= 5,
                add == queue_supply(entries@.subrange(0, k as int)),
                add <= 2 * k,
            decreases entries@.len() - k,
        {
            proof {
                let e1 = entries@.subrange(0, k as int + 1);
                assert(e1.drop_last() =~= entries@.subrange(0, k as int));
                assert(e1.last() == entries@[k as int]);
            }
            add = add + supply_cost(entries[k]);
            k = k + 1;
        }
        proof {
            assert(entries@.subrange(0, k as int) =~= entries@);
        }
        total = total + add;
        i = i + 1;
    }
    proof {
        assert(queues@.subrange(0, i as int) =~= queues@);
    }
    total
}

/// What one hit does to a target that has `hp` hit points: it loses
/// `max(1, damage - armor)` and dies at zero; a resource node is
/// indestructible and a missing target is no target.
pub open spec fn spec_damage(target: Option<(EntityKind, u32)>, damage: u32) -> DamageResult {
    match target {
        None => DamageResult::NoTarget,
        Some((kind, hp)) => if kind is Node {
            DamageResult::Indestructible
        } else {
            let dealt = if sat_sub(damage, spec_armor(kind)) > 1 { sat_sub(damage, spec_armor(kind)) } else { 1 };
            if dealt < hp {
                DamageResult::Damaged { remaining_hp: (hp - dealt) as u32 }
            } else {
                DamageResult::Killed
            }
        },
    }
}

/// Resolve one hit on a target given by its kind and hit points.
pub fn apply_damage(target: Option<(EntityKind, u32)>, damage: u32) -> (r: DamageResult)
    ensures
        r == spec_damage(target, damage),
{
    match target {
        None => DamageResult::NoTarget,
        Some((kind, hp)) => {
            if let EntityKind::Node(_) = kind {
                return DamageResult::Indestructible;
            }
            let reduced = damage.saturating_sub(armor(kind));
            let dealt = if reduced > 1 { reduced } else { 1 };
            if dealt < hp {
                DamageResult::Damaged { remaining_hp: hp - dealt }
            } else {
                DamageResult::Killed
            }
        },
    }
}

/// Every hit on a destructible target costs it at least one hit point.
pub proof fn lemma_every_hit_lands(kind: EntityKind, hp: u32, damage: u32)
    requires
        !(kind is Node),
    ensures
        match spec_damage(Some((kind, hp)), damage) {
            DamageResult::Damaged { remaining_hp } => remaining_hp < hp,
            DamageResult::Killed => true,
            _ => false,
        },
{
}

/// What a production command reads of the entity `id` names: a live
/// building's kind, owner, and whether it is finished (no construction
/// target left); `None` for a stale id or a non-building.
pub open spec fn spec_producer(v: StoreView, id: EntityId) -> Option<Producer> {
    if spec_contains(v, id) && v.slots[id.index as int].kind is Building {
        let s = v.slots[id.index as int];
        Some(Producer { kind: s.kind->Building_0, owner: s.owner, finished: s.progress_target == 0 })
    } else {
        None
    }
}

/// The building `id` names, as a production command reads it.
pub fn producer_of(store: &EntityStore, id: EntityId) -> (r: Option<Producer>)
    ensures
        r == spec_producer(store@, id),
{
    match store.slot(id) {
        None => None,
        Some(slot) => match store.kind(slot) {
            EntityKind::Building(kind) => Some(
                Producer { kind, owner: store.owner(slot), finished: store.progress_target(slot) == 0 },
            ),
            _ => None,
        },
    }
}

/// What a hit reads of the entity `id` names: its kind and hit points;
/// `None` for a stale id.
pub open spec fn spec_damage_target(v: StoreView, id: EntityId) -> Option<(EntityKind, u32)> {
    if spec_contains(v, id) {
        Some((v.slots[id.index as int].kind, v.slots[id.index as int].hp))
    } else {
        None
    }
}

/// The entity `id` names, as a hit reads it.
pub fn damage_target(store: &EntityStore, id: EntityId) -> (r: Option<(EntityKind, u32)>)
    ensures
        r == spec_damage_target(store@, id),
{
    match store.slot(id) {
        None => None,
        Some(slot) => Some((store.kind(slot), store.hp(slot))),
    }
}

/// How many of `units` (each an id and whether it is armed) are unarmed.
pub open spec fn walkers(units: Seq<(EntityId, bool)>) -> nat
    decreases units.len(),
{
    if units.len() == 0 {
        0
    } else {
        walkers(units.drop_last()) + if units.last().1 { 0nat } else { 1nat }
    }
}

/// Why an attack on a target is refused, in the order the checks run: no
/// orderable unit selected; the target is not a live enemy; no selected unit
/// is armed; no approach cell around the target; no navigation field to it;
/// the unarmed units' formation could not be planned (for want of room, or
/// otherwise). `anchor`, `field` and `plan` are the outcomes of those three
/// steps, each consulted only once the checks before it pass.
pub open spec fn attack_refusal(
    units: Seq<(EntityId, bool)>,
    target_is_enemy: bool,
    anchor: Option<Cell>,
    field: Result<FieldRef, ()>,
    plan: Result<(), FormationError>,
) -> Option<CommandRejectReason> {
    if units.len() == 0 {
        Some(CommandRejectReason::EmptySelection)
    } else if !target_is_enemy {
        Some(CommandRejectReason::NoTarget)
    } else if walkers(units) == units.len() {
        Some(CommandRejectReason::NoArmedUnits)
    } else if anchor is None || field is Err {
        Some(CommandRejectReason::Unreachable)
    } else if walkers(units) > 0 && plan is Err {
        if plan == Err::<(), FormationError>(FormationError::NoFormationSpace) {
            Some(CommandRejectReason::NoFormationSpace)
        } else {
            Some(CommandRejectReason::Unreachable)
        }
    } else {
        None
    }
}

/// The order an accepted attack command gives the `i`-th unit: an armed
/// unit attacks the target, an unarmed one walks to its own formation slot
/// around the anchor, in the order the unarmed units come.
pub open spec fn attack_order(
    units: Seq<(EntityId, bool)>,
    i: int,
    target: EntityId,
    field: FieldRef,
    anchor: Cell,
    slots: Seq<Cell>,
) -> Order {
    if units[i].1 {
        Order::Attack { target, field }
    } else {
        Order::Move { goal: FormationGoal { anchor, slot: slots[walkers(units.subrange(0, i)) as int] }, field }
    }
}

/// The receipt an accepted attack command writes for the `i`-th unit.
pub open spec fn attack_receipt(units: Seq<(EntityId, bool)>, i: int) -> UnitOrderReceipt {
    UnitOrderReceipt {
        id: units[i].0,
        order: if units[i].1 { IssuedOrder::Attack } else { IssuedOrder::Move },
    }
}

proof fn lemma_walkers_prefix(units: Seq<(EntityId, bool)>, i: int)
    requires
        0 <= i < units.len(),
    ensures
        walkers(units.subrange(0, i + 1)) == walkers(units.subrange(0, i)) + if units[i].1 { 0nat } else { 1nat },
        walkers(units.subrange(0, i)) <= i,
{
    assert(units.subrange(0, i + 1).drop_last() =~= units.subrange(0, i));
    lemma_walkers_bound(units.subrange(0, i));
}

proof fn lemma_walkers_bound(units: Seq<(EntityId, bool)>)
    ensures
        walkers(units) <= units.len(),
    decreases units.len(),
{
    if units.len() > 0 {
        lemma_walkers_bound(units.drop_last());
    }
}

/// Player command: every selected orderable unit (`units`, in slot order,
/// each with whether it is armed) acts on the enemy `target`. An armed unit
/// chases and attacks it; an unarmed one walks to its slot of the formation
/// planned around `anchor`, `slots` holding one slot per unarmed unit in
/// order. Refused whole, writing no order, for the first reason of
/// [`attack_refusal`]. Returns the receipt and each unit's new order; the
/// receipt buffer holds one receipt per order written.
pub fn attack_target_command(
    units: &[(EntityId, bool)],
    target: EntityId,
    target_is_enemy: bool,
    anchor: Option<Cell>,
    field: Result<FieldRef, ()>,
    plan: Result<(), FormationError>,
    slots: &[Cell],
    receipts: &mut OrderReceiptBuffer,
) -> (r: (CommandReceipt, Vec<(EntityId, Order)>))
    requires
        attack_refusal(units@, target_is_enemy, anchor, field, plan) is None ==> slots@.len() >= walkers(units@),
    ensures
        match attack_refusal(units@, target_is_enemy, anchor, field, plan) {
            Some(reason) => {
                &&& r.0 == (CommandReceipt { accepted: 0, rejected: units@.len() as usize, reason: Some(reason) })
                &&& r.1@ == Seq::<(EntityId, Order)>::empty()
                &&& final(receipts)@ == Seq::<UnitOrderReceipt>::empty()
            },
            None => {
                &&& r.0 == (CommandReceipt { accepted: units@.len() as usize, rejected: 0, reason: None })
                &&& r.1@.len() == units@.len()
                &&& forall|i: int| 0 <= i < units@.len() ==> #[trigger] r.1@[i] == (units@[i].0,
                    attack_order(units@, i, target, field->Ok_0, anchor->Some_0, slots@))
                &&& final(receipts)@.len() == units@.len()
                &&& forall|i: int| 0 <= i < units@.len() ==> #[trigger] final(receipts)@[i] == attack_receipt(units@, i)
            },
        },
{
    receipts.clear();
    let n = units.len();
    let mut walking: usize = 0;
    let mut i: usize = 0;
    while i < n
        invariant
            n == units@.len(),
            i <= n,
            walking == walkers(units@.subrange(0, i as int)),
        decreases n - i,
    {
        proof {
            lemma_walkers_prefix(units@, i as int);
        }
        if !units[i].1 {
            walking = walking + 1;
        }
        i = i + 1;
    }
    proof {
        assert(units@.subrange(0, n as int) =~= units@);
    }
    let refuse = |reason: CommandRejectReason| -> (c: CommandReceipt)
        ensures
            c == (CommandReceipt { accepted: 0, rejected: n, reason: Some(reason) }),
    {
        CommandReceipt { accepted: 0, rejected: n, reason: Some(reason) }
    };
    if n == 0 {
        return (refuse(CommandRejectReason::EmptySelection), Vec::new());
    }
    if !target_is_enemy {
        return (refuse(CommandRejectReason::NoTarget), Vec::new());
    }
    if walking == n {
        return (refuse(CommandRejectReason::NoArmedUnits), Vec::new());
    }
    let anchor = match anchor {
        Some(a) => a,
        None => {
            return (refuse(CommandRejectReason::Unreachable), Vec::new());
        },
    };
    let field = match field {
        Ok(f) => f,
        Err(()) => {
            return (refuse(CommandRejectReason::Unreachable), Vec::new());
        },
    };
    if walking > 0 {
        match plan {
            Err(FormationError::NoFormationSpace) => {
                return (refuse(CommandRejectReason::NoFormationSpace), Vec::new());
            },
            Err(_) => {
                return (refuse(CommandRejectReason::Unreachable), Vec::new());
            },
            Ok(()) => {},
        }
    }
    let mut orders: Vec<(EntityId, Order)> = Vec::new();
    let mut walker: usize = 0;
    let mut i: usize = 0;
    while i < n
        invariant
            n == units@.len(),
            i <= n,
            walker == walkers(units@.subrange(0, i as int)),
            walkers(units@) <= slots@.len(),
            orders@.len() == i,
            receipts@.len() == i,
            forall|k: int| 0 <= k < i ==> #[trigger] orders@[k] == (units@[k].0, attack_order(units@, k, target, field, anchor, slots@)),
            forall|k: int| 0 <= k < i ==> #[trigger] receipts@[k] == attack_receipt(units@, k),
        decreases n - i,
    {
        proof {
            lemma_walkers_prefix(units@, i as int);
            lemma_walkers_monotone(units@, i as int + 1);
        }
        let (id, armed) = units[i];
        if armed {
            orders.push((id, Order::Attack { target, field }));
            receipts.push(id, IssuedOrder::Attack);
        } else {
            let goal = FormationGoal { anchor, slot: slots[walker] };
            orders.push((id, Order::Move { goal, field }));
            receipts.push(id, IssuedOrder::Move);
            walker = walker + 1;
        }
        i = i + 1;
    }
    (CommandReceipt { accepted: n, rejected: 0, reason: None }, orders)
}

proof fn lemma_walkers_monotone(units: Seq<(EntityId, bool)>, i: int)
    requires
        0 <= i <= units.len(),
    ensures
        walkers(units.subrange(0, i)) <= walkers(units),
    decreases units.len() - i,
{
    if i < units.len() {
        lemma_walkers_prefix(units, i);
        lemma_walkers_monotone(units, i + 1);
    } else {
        assert(units.subrange(0, i) =~= units);
    }
}

/// Whether slot `i` holds a selected unit the player can order: a live
/// player unit whose handle is in the selection.
pub open spec fn selected_unit(slots: Seq<Slot>, selection: Seq<EntityId>, i: int) -> bool {
    &&& 0 <= i < slots.len()
    &&& slots[i].alive
    &&& slots[i].kind is Unit
    &&& slots[i].owner == OWNER_PLAYER
    &&& selection.contains(EntityId { index: i as u32, generation: slots[i].generation })
}

/// The receipts a stop writes for the first `n` slots: one per selected_unit
/// slot, ascending.
pub open spec fn stop_receipts(slots: Seq<Slot>, selection: Seq<EntityId>, n: int) -> Seq<UnitOrderReceipt>
    decreases n,
{
    if n <= 0 {
        Seq::empty()
    } else {
        let pre = stop_receipts(slots, selection, n - 1);
        let i = n - 1;
        if selected_unit(slots, selection, i) {
            pre.push(UnitOrderReceipt {
                id: EntityId { index: i as u32, generation: slots[i].generation },
                order: IssuedOrder::Stop,
            })
        } else {
            pre
        }
    }
}

/// Player command: every selected live player unit stops, its order set to
/// `Idle`; every other order is kept. One `Stop` receipt per unit stopped,
/// ascending by slot. Refused as an empty selection when nothing stopped.
pub fn cmd_stop(
    selection: &Selection,
    store: &EntityStore,
    orders: &mut OrderTable,
    receipts: &mut OrderReceiptBuffer,
) -> (r: CommandReceipt)
    requires
        selection.wf(),
        store.wf(),
        old(orders).wf(),
    ensures
        final(orders).wf(),
        forall|i: int|
            0 <= i < MAX_ENTITIES ==> #[trigger] final(orders)@[i] == if selected_unit(store@.slots, selection@, i) {
                Order::Idle
            } else {
                old(orders)@[i]
            },
        final(receipts)@ == stop_receipts(store@.slots, selection@, store@.slots.len() as int),
        r == if final(receipts)@.len() == 0 {
            CommandReceipt { accepted: 0, rejected: 0, reason: Some(CommandRejectReason::EmptySelection) }
        } else {
            CommandReceipt { accepted: final(receipts)@.len() as usize, rejected: 0, reason: None }
        },
{
    proof {
        store.lemma_store_ok();
    }
    receipts.clear();
    let n = store.slot_count();
    let mut accepted: usize = 0;
    let mut i: usize = 0;
    while i < n
        invariant
            n == store@.slots.len(),
            n <= MAX_ENTITIES,
            i <= n,
            selection.wf(),
            orders.wf(),
            receipts@ == stop_receipts(store@.slots, selection@, i as int),
            accepted == receipts@.len(),
            accepted <= i,
            forall|k: int|
                0 <= k < MAX_ENTITIES ==> #[trigger] orders@[k] == if k < i && selected_unit(store@.slots, selection@, k) {
                    Order::Idle
                } else {
                    old(orders)@[k]
                },
        decreases n - i,
    {
        if let Some(id) = store.id_at(i) {
            let unit = match store.kind(i) {
                EntityKind::Unit(_) => true,
                _ => false,
            };
            if unit && store.owner(i) == OWNER_PLAYER && selection.contains(id) {
                orders.clear(i);
                receipts.push(id, IssuedOrder::Stop);
                accepted = accepted + 1;
            }
        }
        i = i + 1;
    }
    if accepted == 0 {
        return CommandReceipt { accepted: 0, rejected: 0, reason: Some(CommandRejectReason::EmptySelection) };
    }
    CommandReceipt { accepted, rejected: 0, reason: None }
}

/// What a group order is aimed at.
#[derive(Clone, Copy, Debug, PartialEq, Eq, Structural)]
pub enum GroupTarget {
    /// Walk to a cell.
    Ground(Cell),
    /// Walk to a cell, the armed firing on anything hostile on the way.
    AttackGround(Cell),
    /// Mine a node.
    Node(EntityId),
    /// Attend a construction site.
    Site(EntityId),
}

/// Whether a unit of `kind` can take an order aimed at `target` at all: any
/// unit walks; a worker mines only a node that still holds resources
/// (`node_stocked`), any other unit just walks over to it; only a worker
/// builds.
pub open spec fn eligible(kind: UnitKind, target: GroupTarget, node_stocked: bool) -> bool {
    match target {
        GroupTarget::Ground(_) | GroupTarget::AttackGround(_) => true,
        GroupTarget::Node(_) => !(kind is Worker) || node_stocked,
        GroupTarget::Site(_) => kind is Worker,
    }
}

/// The order and receipt a group order gives one member of `kind`, walking
/// to `goal` over `field`.
pub open spec fn group_order(target: GroupTarget, kind: UnitKind, goal: FormationGoal, field: FieldRef) -> (Order, IssuedOrder) {
    match target {
        GroupTarget::AttackGround(_) => if spec_weapon(kind) is Some {
            (Order::AttackMove { goal, field }, IssuedOrder::AttackMove)
        } else {
            (Order::Move { goal, field }, IssuedOrder::Move)
        },
        GroupTarget::Ground(_) => (Order::Move { goal, field }, IssuedOrder::Move),
        GroupTarget::Node(node) => if kind is Worker {
            (Order::Gather { node, phase: GatherPhase::ToNode { goal, field } }, IssuedOrder::Gather)
        } else {
            (Order::Move { goal, field }, IssuedOrder::Move)
        },
        GroupTarget::Site(site) => (Order::Build { site, goal, field }, IssuedOrder::Build),
    }
}

/// Whether slot `i` joins a group order: a live player unit named in `ids`
/// and eligible for the target.
pub open spec fn joins(slots: Seq<Slot>, ids: Seq<EntityId>, target: GroupTarget, node_stocked: bool, i: int) -> bool {
    &&& 0 <= i < slots.len()
    &&& slots[i].alive
    &&& slots[i].owner == OWNER_PLAYER
    &&& slots[i].kind matches EntityKind::Unit(k) && eligible(k, target, node_stocked)
    &&& ids.contains(EntityId { index: i as u32, generation: slots[i].generation })
}

/// The members of a group order among the first `n` slots, ascending by
/// slot, each with its unit kind: the caller's order of `ids` never reaches
/// the plan.
pub open spec fn group_members(slots: Seq<Slot>, ids: Seq<EntityId>, target: GroupTarget, node_stocked: bool, n: int) -> Seq<
    (EntityId, UnitKind),
>
    decreases n,
{
    if n <= 0 {
        Seq::empty()
    } else {
        let pre = group_members(slots, ids, target, node_stocked, n - 1);
        let i = n - 1;
        if joins(slots, ids, target, node_stocked, i) {
            pre.push((EntityId { index: i as u32, generation: slots[i].generation }, slots[i].kind->Unit_0))
        } else {
            pre
        }
    }
}

/// Canonicalize a group order's members: every live player unit named in
/// `ids` that can take an order aimed at `target`, ascending by slot.
pub fn collect_group(store: &EntityStore, ids: &[EntityId], target: GroupTarget, node_stocked: bool) -> (r: Vec<
    (EntityId, UnitKind),
>)
    requires
        store.wf(),
    ensures
        r@ == group_members(store@.slots, ids@, target, node_stocked, store@.slots.len() as int),
{
    proof {
        store.lemma_store_ok();
    }
    let n = store.slot_count();
    let mut out: Vec<(EntityId, UnitKind)> = Vec::new();
    let mut i: usize = 0;
    while i < n
        invariant
            n == store@.slots.len(),
            n <= MAX_ENTITIES,
            i <= n,
            out@ == group_members(store@.slots, ids@, target, node_stocked, i as int),
        decreases n - i,
    {
        if let Some(id) = store.id_at(i) {
            if store.owner(i) == OWNER_PLAYER {
                if let EntityKind::Unit(k) = store.kind(i) {
                    let ok = match target {
                        GroupTarget::Ground(_) | GroupTarget::AttackGround(_) => true,
                        GroupTarget::Node(_) => !(k == UnitKind::Worker) || node_stocked,
                        GroupTarget::Site(_) => k == UnitKind::Worker,
                    };
                    if ok && slice_contains(ids, id) {
                        out.push((id, k));
                    }
                }
            }
        }
        i = i + 1;
    }
    out
}

/// Whether `ids` holds `id`.
fn slice_contains(ids: &[EntityId], id: EntityId) -> (r: bool)
    ensures
        r == ids@.contains(id),
{
    let mut k: usize = 0;
    while k < ids.len()
        invariant
            k <= ids@.len(),
            forall|j: int| 0 <= j < k ==> ids@[j] != id,
        decreases ids@.len() - k,
    {
        if ids[k] == id {
            assert(ids@[k as int] == id);
            return true;
        }
        k = k + 1;
    }
    false
}

/// The order a planned group order gives member `k`: its own slot
/// `slots[k]` around the shared anchor, under the order its kind takes.
pub open spec fn member_order(
    target: GroupTarget,
    anchor: Cell,
    field: FieldRef,
    members: Seq<(EntityId, UnitKind)>,
    slots: Seq<Cell>,
    k: int,
) -> (EntityId, Order) {
    (members[k].0, group_order(target, members[k].1, FormationGoal { anchor, slot: slots[k] }, field).0)
}

/// The receipt a planned group order writes for member `k`.
pub open spec fn member_receipt(
    target: GroupTarget,
    anchor: Cell,
    field: FieldRef,
    members: Seq<(EntityId, UnitKind)>,
    slots: Seq<Cell>,
    k: int,
) -> UnitOrderReceipt {
    UnitOrderReceipt {
        id: members[k].0,
        order: group_order(target, members[k].1, FormationGoal { anchor, slot: slots[k] }, field).1,
    }
}

/// Write a planned group order: member `i` walks to its own slot
/// `slots[i]` around the shared `anchor`, over the one `field` acquired for
/// the whole group, under the order its kind takes for `target`
/// ([`group_order`]); one receipt each, in member order.
pub fn commit_group(
    target: GroupTarget,
    anchor: Cell,
    field: FieldRef,
    members: &[(EntityId, UnitKind)],
    slots: &[Cell],
    receipts: &mut OrderReceiptBuffer,
) -> (r: Vec<(EntityId, Order)>)
    requires
        slots@.len() >= members@.len(),
    ensures
        r@.len() == members@.len(),
        final(receipts)@.len() == members@.len(),
        forall|i: int| 0 <= i < members@.len() ==> #[trigger] r@[i] == member_order(target, anchor, field, members@, slots@, i),
        forall|i: int|
            0 <= i < members@.len() ==> #[trigger] final(receipts)@[i] == member_receipt(
                target,
                anchor,
                field,
                members@,
                slots@,
                i,
            ),
{
    receipts.clear();
    let mut out: Vec<(EntityId, Order)> = Vec::new();
    let mut i: usize = 0;
    while i < members.len()
        invariant
            i <= members@.len(),
            slots@.len() >= members@.len(),
            out@.len() == i,
            receipts@.len() == i,
            forall|k: int| 0 <= k < i ==> #[trigger] out@[k] == member_order(target, anchor, field, members@, slots@, k),
            forall|k: int|
                0 <= k < i ==> #[trigger] receipts@[k] == member_receipt(target, anchor, field, members@, slots@, k),
        decreases members@.len() - i,
    {
        let (id, kind) = members[i];
        let goal = FormationGoal { anchor, slot: slots[i] };
        let (order, issued) = match target {
            GroupTarget::AttackGround(_) => if weapon(kind).is_some() {
                (Order::AttackMove { goal, field }, IssuedOrder::AttackMove)
            } else {
                (Order::Move { goal, field }, IssuedOrder::Move)
            },
            GroupTarget::Ground(_) => (Order::Move { goal, field }, IssuedOrder::Move),
            GroupTarget::Node(node) => if kind == UnitKind::Worker {
                (Order::Gather { node, phase: GatherPhase::ToNode { goal, field } }, IssuedOrder::Gather)
            } else {
                (Order::Move { goal, field }, IssuedOrder::Move)
            },
            GroupTarget::Site(site) => (Order::Build { site, goal, field }, IssuedOrder::Build),
        };
        proof {
            assert(group_order(target, kind, goal, field) == (order, issued));
        }
        out.push((id, order));
        receipts.push(id, issued);
        i = i + 1;
    }
    out
}

/// What a context click is aimed at: a picked node is mined, a picked site
/// attended; anything else (a finished building, a unit, empty ground) sends
/// the group to the clicked cell, `ground`, or nowhere when the click is off
/// the grid. `is_site` says whether a picked building is under construction.
pub open spec fn spec_context_target(pick: Pick, is_site: bool, ground: Option<Cell>) -> Option<GroupTarget> {
    match pick {
        Pick::Node(n) => Some(GroupTarget::Node(n)),
        Pick::Building(b) if is_site => Some(GroupTarget::Site(b)),
        _ => match ground {
            Some(c) => Some(GroupTarget::Ground(c)),
            None => None,
        },
    }
}

/// What a context click is aimed at (see [`spec_context_target`]).
pub fn context_target(pick: Pick, is_site: bool, ground: Option<Cell>) -> (r: Option<GroupTarget>)
    ensures
        r == spec_context_target(pick, is_site, ground),
{
    match pick {
        Pick::Node(n) => Some(GroupTarget::Node(n)),
        Pick::Building(b) if is_site => Some(GroupTarget::Site(b)),
        _ => match ground {
            Some(c) => Some(GroupTarget::Ground(c)),
            None => None,
        },
    }
}

/// The answer to a context click over `selected` orderable units: with no
/// target, all of them refused for want of a target cell; otherwise the
/// group order's count accepted and the rest refused, a shared reason given
/// only when the whole order failed for an unreachable anchor or a lack of
/// formation room.
pub open spec fn spec_context_result(
    pick: Pick,
    selected: usize,
    target: Option<GroupTarget>,
    outcome: Result<usize, FormationError>,
) -> ContextOrderResult {
    match target {
        None => ContextOrderResult {
            pick,
            accepted: 0,
            rejected: selected,
            reason: Some(ContextOrderReason::NoTargetCell),
        },
        Some(_) => match outcome {
            Ok(n) => ContextOrderResult { pick, accepted: n, rejected: (selected - n) as usize, reason: None },
            Err(FormationError::Unreachable) => ContextOrderResult {
                pick,
                accepted: 0,
                rejected: selected,
                reason: Some(ContextOrderReason::Unreachable),
            },
            Err(FormationError::NoFormationSpace) => ContextOrderResult {
                pick,
                accepted: 0,
                rejected: selected,
                reason: Some(ContextOrderReason::NoFormationSpace),
            },
            Err(_) => ContextOrderResult { pick, accepted: 0, rejected: selected, reason: None },
        },
    }
}

/// The answer to a context click (see [`spec_context_result`]).
pub fn context_result(
    pick: Pick,
    selected: usize,
    target: Option<GroupTarget>,
    outcome: Result<usize, FormationError>,
) -> (r: ContextOrderResult)
    requires
        outcome matches Ok(n) ==> n <= selected,
    ensures
        r == spec_context_result(pick, selected, target, outcome),
{
    match target {
        None => ContextOrderResult { pick, accepted: 0, rejected: selected, reason: Some(ContextOrderReason::NoTargetCell) },
        Some(_) => match outcome {
            Ok(n) => ContextOrderResult { pick, accepted: n, rejected: selected - n, reason: None },
            Err(FormationError::Unreachable) => ContextOrderResult {
                pick,
                accepted: 0,
                rejected: selected,
                reason: Some(ContextOrderReason::Unreachable),
            },
            Err(FormationError::NoFormationSpace) => ContextOrderResult {
                pick,
                accepted: 0,
                rejected: selected,
                reason: Some(ContextOrderReason::NoFormationSpace),
            },
            Err(_) => ContextOrderResult { pick, accepted: 0, rejected: selected, reason: None },
        },
    }
}

/// The ground marker a context click plants: at the clicked cell, only when
/// a ground order was given to at least one unit.
pub fn click_marker(target: Option<GroupTarget>, outcome: Result<usize, FormationError>) -> (r: Option<Cell>)
    ensures
        r == match (target, outcome) {
            (Some(GroupTarget::Ground(c)), Ok(n)) => if n > 0 { Some(c) } else { None },
            _ => None::<Cell>,
        },
{
    match (target, outcome) {
        (Some(GroupTarget::Ground(c)), Ok(n)) => if n > 0 { Some(c) } else { None },
        _ => None,
    }
}

/// The receipt of a group command (attack-move) over `selected` orderable
/// units: the group order's count accepted and the rest refused; refused
/// whole, with its reason, when the group order failed.
pub open spec fn spec_group_receipt(selected: usize, outcome: Result<usize, FormationError>) -> CommandReceipt {
    match outcome {
        Ok(n) => CommandReceipt { accepted: n, rejected: (selected - n) as usize, reason: None },
        Err(e) => CommandReceipt {
            accepted: 0,
            rejected: selected,
            reason: Some(
                match e {
                    FormationError::Unreachable => CommandRejectReason::Unreachable,
                    FormationError::NoFormationSpace => CommandRejectReason::NoFormationSpace,
                    _ => CommandRejectReason::EmptySelection,
                },
            ),
        },
    }
}

/// The receipt of a group command (see [`spec_group_receipt`]).
pub fn group_receipt(selected: usize, outcome: Result<usize, FormationError>) -> (r: CommandReceipt)
    requires
        outcome matches Ok(n) ==> n <= selected,
    ensures
        r == spec_group_receipt(selected, outcome),
{
    match outcome {
        Ok(n) => CommandReceipt { accepted: n, rejected: selected - n, reason: None },
        Err(e) => CommandReceipt {
            accepted: 0,
            rejected: selected,
            reason: Some(
                match e {
                    FormationError::Unreachable => CommandRejectReason::Unreachable,
                    FormationError::NoFormationSpace => CommandRejectReason::NoFormationSpace,
                    _ => CommandRejectReason::EmptySelection,
                },
            ),
        },
    }
}

/// The units an attack command orders among the first `n` slots, ascending:
/// each selected unit the player can order, with whether it is armed.
pub open spec fn attack_members(slots: Seq<Slot>, selection: Seq<EntityId>, n: int) -> Seq<(EntityId, bool)>
    decreases n,
{
    if n <= 0 {
        Seq::empty()
    } else {
        let pre = attack_members(slots, selection, n - 1);
        let i = n - 1;
        if selected_unit(slots, selection, i) {
            pre.push((
                EntityId { index: i as u32, generation: slots[i].generation },
                spec_weapon(slots[i].kind->Unit_0) is Some,
            ))
        } else {
            pre
        }
    }
}

/// The units an attack command orders, read from the selection and the
/// store: every selected live player unit, ascending by slot, with whether
/// it is armed.
pub fn attack_units(selection: &Selection, store: &EntityStore) -> (r: Vec<(EntityId, bool)>)
    requires
        selection.wf(),
        store.wf(),
    ensures
        r@ == attack_members(store@.slots, selection@, store@.slots.len() as int),
{
    proof {
        store.lemma_store_ok();
    }
    let n = store.slot_count();
    let mut out: Vec<(EntityId, bool)> = Vec::new();
    let mut i: usize = 0;
    while i < n
        invariant
            n == store@.slots.len(),
            n <= MAX_ENTITIES,
            i <= n,
            selection.wf(),
            out@ == attack_members(store@.slots, selection@, i as int),
        decreases n - i,
    {
        if let Some(id) = store.id_at(i) {
            if store.owner(i) == OWNER_PLAYER {
                if let EntityKind::Unit(k) = store.kind(i) {
                    if selection.contains(id) {
                        out.push((id, weapon(k).is_some()));
                    }
                }
            }
        }
        i = i + 1;
    }
    out
}

/// Whether `target` names a live enemy: what an attack command may aim at.
pub fn enemy_target(store: &EntityStore, target: EntityId) -> (r: bool)
    ensures
        r == (spec_contains(store@, target) && store@.slots[target.index as int].owner == OWNER_ENEMY),
{
    match store.slot(target) {
        Some(s) => store.owner(s) == OWNER_ENEMY,
        None => false,
    }
}

/// A ground order is a plain move for every member, armed or not: each
/// walks to its own slot around the anchor over the shared field, with a
/// `Move` receipt. Only an attack-ground order ever yields an attack-move.
pub proof fn lemma_ground_orders_move(
    c: Cell,
    target: GroupTarget,
    anchor: Cell,
    field: FieldRef,
    members: Seq<(EntityId, UnitKind)>,
    slots: Seq<Cell>,
    i: int,
)
    requires
        0 <= i < members.len(),
        i < slots.len(),
    ensures
        member_order(GroupTarget::Ground(c), anchor, field, members, slots, i) == (
            members[i].0,
            Order::Move { goal: FormationGoal { anchor, slot: slots[i] }, field },
        ),
        member_receipt(GroupTarget::Ground(c), anchor, field, members, slots, i) == (UnitOrderReceipt {
            id: members[i].0,
            order: IssuedOrder::Move,
        }),
        member_order(target, anchor, field, members, slots, i).1 is AttackMove ==> target is AttackGround,
        member_receipt(target, anchor, field, members, slots, i).order == IssuedOrder::AttackMove ==> target is AttackGround,
{
}

/// A context click on anything but a node or a construction site (a unit,
/// a finished building, empty ground) sends the group to the clicked cell
/// whenever the click lands on the grid, and nowhere only when it does not.
pub proof fn lemma_context_click_walks_to_ground(pick: Pick, is_site: bool, ground: Option<Cell>)
    requires
        !(pick is Node),
        !(pick is Building && is_site),
    ensures
        spec_context_target(pick, is_site, ground) == match ground {
            Some(c) => Some(GroupTarget::Ground(c)),
            None => None::<GroupTarget>,
        },
        spec_context_target(pick, is_site, ground) is None <==> ground is None,
{
}

/// A hit on a destructible target of `hp` hit points deals `max(1, damage -
/// armor)`: short of `hp` it leaves the target damaged with exactly the
/// difference, otherwise it kills. A node takes no damage; no target, no hit.
pub proof fn lemma_hit_leaves_the_difference(kind: EntityKind, hp: u32, damage: u32)
    ensures
        ({
            let dealt: int = if damage >= spec_armor(kind) + 2 { damage - spec_armor(kind) } else { 1 };
            &&& !(kind is Node) && dealt < hp ==> spec_damage(Some((kind, hp)), damage)
                == (DamageResult::Damaged { remaining_hp: (hp - dealt) as u32 })
            &&& !(kind is Node) && dealt >= hp ==> spec_damage(Some((kind, hp)), damage) == DamageResult::Killed
            &&& kind is Node ==> spec_damage(Some((kind, hp)), damage) == DamageResult::Indestructible
            &&& spec_damage(None, damage) == DamageResult::NoTarget
        }),
{
}

} // verus!
