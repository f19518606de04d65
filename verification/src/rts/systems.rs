//! The integer decisions of the world's per-tick systems: one gathering
//! worker's round trip, one construction site's progress, one armed entity's
//! trigger, and the tally of what a shot killed.
//!
//! Each system's geometry ("has the worker reached its approach slot", "which
//! drop-off is nearest", "can every body under a finished footprint be moved
//! out") is measured by the caller and handed in as a plain value; what the
//! system decides from it is stated and proved here.

use vstd::prelude::*;

use super::combat::{building_weapon, spec_building_weapon, spec_weapon, weapon, Weapon};
use super::commands::{lemma_queues_supply_bound, queue_supply, queues_supply, reserved_supply, spec_damage};
use super::economy::{spec_supply_cost, supply_cost, Resources};
use super::entity::{
    despawned, spawned, spawned_slot, spec_contains, store_ok, EntityId, EntityKind, EntityStore, ResourceKind, Slot,
    StoreView, UnitKind, MAX_ENTITIES, OWNER_ENEMY, OWNER_PLAYER,
};
use super::placement::{building_cost, spec_building_cost};
use super::production::{head_producible, spec_head_ready, ProductionQueue, ProductionTable};
use super::formation::FormationGoal;
use super::orders::{FieldRef, GatherPhase, Order, OrderTable};
use crate::scenario::{Cell, WaveSpec};
use super::world::DamageResult;

verus! {

/// Ticks a worker spends at a node filling one load.
pub const GATHER_TICKS: u32 = 60;

/// The most a worker carries back in one load.
pub const WORKER_CARRY_CAPACITY: u32 = 5;

/// Consecutive ticks a site may fail to finish before it is cancelled.
pub const STALLED_SITE_TICKS: u32 = 60;

/// How far a walking worker has got toward the thing its phase walks to.
#[derive(Clone, Copy, Debug, PartialEq, Eq, Structural)]
pub enum Approach {
    /// The destination no longer exists (a destroyed drop-off).
    Gone,
    /// Still on the way.
    Walking,
    /// Within reach of it.
    Arrived,
}

/// What one tick of gathering leaves behind for one worker.
#[derive(Clone, Copy, Debug, PartialEq, Eq)]
pub struct GatherTick {
    /// The worker's order after the tick.
    pub order: Order,
    /// The node's remaining amount after the tick (0 when the node is gone).
    pub node_amount: u32,
    /// What the worker carries after the tick.
    pub carry: Option<(ResourceKind, u32)>,
    /// The player's stock after the tick.
    pub resources: Resources,
    /// The worker banked its load at a node that still holds resources: send
    /// it back to the node (a fresh gather order), or leave it idle if that
    /// order cannot be given.
    pub replan: bool,
}

/// `stock` with a load banked into it.
pub open spec fn banked(stock: Resources, load: Option<(ResourceKind, u32)>) -> Resources {
    match load {
        Some((ResourceKind::Crystal, a)) => stock.spec_credit(Resources { crystal: a, gas: 0 }),
        Some((ResourceKind::Gas, a)) => stock.spec_credit(Resources { crystal: 0, gas: a }),
        None => stock,
    }
}

/// The load a worker takes from a node holding `amount`.
pub open spec fn load_size(amount: u32) -> u32 {
    if amount < WORKER_CARRY_CAPACITY { amount } else { WORKER_CARRY_CAPACITY }
}

/// Whether this tick the worker fills its load: its mining countdown is on
/// its last tick and the live node still holds something. The drop-off it
/// then heads for is looked up only in that case.
pub open spec fn spec_loads_now(order: Order, node: Option<(ResourceKind, u32)>) -> bool {
    match (order, node) {
        (Order::Gather { phase: GatherPhase::Mining { ticks_left }, .. }, Some((_, amount))) =>
            ticks_left <= 1 && amount > 0,
        _ => false,
    }
}

/// One tick of a worker's gather round trip.
///
/// - `order` is the worker's order; anything but a gather order is left alone.
/// - `carry` is what it holds, `stock` the player's resources.
/// - `node` is the gathered node's resource and remaining amount, `None`
///   when the node no longer exists (the order then dies).
/// - `approach` says whether the worker has reached what its phase walks to:
///   its slot at the node (`ToNode`) or its drop-off (`Returning`).
/// - `delivery` is the nearest drop-off and the navigation field acquired to
///   it, consulted only on the tick the worker loads up; `None` when there
///   is no drop-off (the worker stops, holding its load).
pub open spec fn spec_gather_step(
    order: Order,
    carry: Option<(ResourceKind, u32)>,
    stock: Resources,
    node: Option<(ResourceKind, u32)>,
    approach: Approach,
    delivery: Option<(EntityId, Result<FieldRef, ()>)>,
) -> GatherTick {
    let remaining: u32 = match node {
        Some((_, a)) => a,
        None => 0,
    };
    let keep = GatherTick { order, node_amount: remaining, carry, resources: stock, replan: false };
    let stop = GatherTick { order: Order::Idle, node_amount: remaining, carry, resources: stock, replan: false };
    match order {
        Order::Gather { node: node_id, phase } => match node {
            None => stop,
            Some((res, amount)) => match phase {
                GatherPhase::ToNode { .. } => if amount == 0 {
                    stop
                } else if approach == Approach::Arrived {
                    GatherTick {
                        order: Order::Gather { node: node_id, phase: GatherPhase::Mining { ticks_left: GATHER_TICKS } },
                        node_amount: remaining, carry, resources: stock, replan: false,
                    }
                } else {
                    keep
                },
                GatherPhase::Mining { ticks_left } => if ticks_left > 1 {
                    GatherTick {
                        order: Order::Gather {
                            node: node_id,
                            phase: GatherPhase::Mining { ticks_left: (ticks_left - 1) as u32 },
                        },
                        node_amount: remaining, carry, resources: stock, replan: false,
                    }
                } else if load_size(amount) == 0 {
                    stop
                } else {
                    GatherTick {
                        order: match delivery {
                            Some((drop_off, Ok(field))) => Order::Gather {
                                node: node_id,
                                phase: GatherPhase::Returning { drop_off, field },
                            },
                            _ => Order::Idle,
                        },
                        node_amount: (amount - load_size(amount)) as u32,
                        carry: Some((res, load_size(amount))),
                        resources: stock,
                        replan: false,
                    }
                },
                GatherPhase::Returning { .. } => match approach {
                    Approach::Gone => stop,
                    Approach::Walking => keep,
                    Approach::Arrived => GatherTick {
                        order: Order::Idle,
                        node_amount: amount,
                        carry: None,
                        resources: banked(stock, carry),
                        replan: amount != 0,
                    },
                },
            },
        },
        _ => keep,
    }
}

/// Whether this tick the worker fills its load (see [`spec_loads_now`]).
pub fn loads_now(order: Order, node: Option<(ResourceKind, u32)>) -> (r: bool)
    ensures
        r == spec_loads_now(order, node),
{
    match (order, node) {
        (Order::Gather { phase: GatherPhase::Mining { ticks_left }, .. }, Some((_, amount))) =>
            ticks_left <= 1 && amount > 0,
        _ => false,
    }
}

/// Bank a worker's load into the player's stock.
fn bank(stock: Resources, load: Option<(ResourceKind, u32)>) -> (r: Resources)
    ensures
        r == banked(stock, load),
{
    let mut s = stock;
    match load {
        Some((ResourceKind::Crystal, a)) => s.credit(Resources { crystal: a, gas: 0 }),
        Some((ResourceKind::Gas, a)) => s.credit(Resources { crystal: 0, gas: a }),
        None => {},
    }
    s
}

/// One tick of a worker's gather round trip: walk to the node, mine for
/// [`GATHER_TICKS`], take at most [`WORKER_CARRY_CAPACITY`], haul it to the
/// drop-off, bank it, and go back while the node lasts.
pub fn gather_step(
    order: Order,
    carry: Option<(ResourceKind, u32)>,
    stock: Resources,
    node: Option<(ResourceKind, u32)>,
    approach: Approach,
    delivery: Option<(EntityId, Result<FieldRef, ()>)>,
) -> (r: GatherTick)
    ensures
        r == spec_gather_step(order, carry, stock, node, approach, delivery),
{
    let remaining: u32 = match node {
        Some((_, a)) => a,
        None => 0,
    };
    let keep = GatherTick { order, node_amount: remaining, carry, resources: stock, replan: false };
    let stop = GatherTick { order: Order::Idle, node_amount: remaining, carry, resources: stock, replan: false };
    let (node_id, phase) = match order {
        Order::Gather { node, phase } => (node, phase),
        _ => return keep,
    };
    let (res, amount) = match node {
        Some(n) => n,
        None => return stop,
    };
    match phase {
        GatherPhase::ToNode { .. } => {
            if amount == 0 {
                stop
            } else if approach == Approach::Arrived {
                GatherTick {
                    order: Order::Gather { node: node_id, phase: GatherPhase::Mining { ticks_left: GATHER_TICKS } },
                    node_amount: remaining, carry, resources: stock, replan: false,
                }
            } else {
                keep
            }
        },
        GatherPhase::Mining { ticks_left } => {
            if ticks_left > 1 {
                return GatherTick {
                    order: Order::Gather {
                        node: node_id,
                        phase: GatherPhase::Mining { ticks_left: ticks_left - 1 },
                    },
                    node_amount: remaining, carry, resources: stock, replan: false,
                };
            }
            let take = if amount < WORKER_CARRY_CAPACITY { amount } else { WORKER_CARRY_CAPACITY };
            if take == 0 {
                return stop;
            }
            let next = match delivery {
                Some((drop_off, Ok(field))) => Order::Gather {
                    node: node_id,
                    phase: GatherPhase::Returning { drop_off, field },
                },
                _ => Order::Idle,
            };
            GatherTick {
                order: next,
                node_amount: amount - take,
                carry: Some((res, take)),
                resources: stock,
                replan: false,
            }
        },
        GatherPhase::Returning { .. } => match approach {
            Approach::Gone => stop,
            Approach::Walking => keep,
            Approach::Arrived => GatherTick {
                order: Order::Idle,
                node_amount: amount,
                carry: None,
                resources: bank(stock, carry),
                replan: amount != 0,
            },
        },
    }
}

/// Gathering conserves resources: a tick never adds to a node, what leaves
/// the node is exactly the load the worker picks up (never more than
/// [`WORKER_CARRY_CAPACITY`]), and the player's stock changes only by the
/// banked load.
pub proof fn lemma_gather_conserves(
    order: Order,
    carry: Option<(ResourceKind, u32)>,
    stock: Resources,
    res: ResourceKind,
    amount: u32,
    approach: Approach,
    delivery: Option<(EntityId, Result<FieldRef, ()>)>,
)
    ensures
        ({
            let r = spec_gather_step(order, carry, stock, Some((res, amount)), approach, delivery);
            &&& r.node_amount <= amount
            &&& r.node_amount < amount ==> r.carry == Some((res, (amount - r.node_amount) as u32))
                && amount - r.node_amount <= WORKER_CARRY_CAPACITY
            &&& r.resources == stock || (r.resources == banked(stock, carry) && r.carry is None)
        }),
{
}

/// A worker whose node is gone stops, and keeps what it carries.
pub proof fn lemma_gather_order_dies_with_node(
    order: Order,
    carry: Option<(ResourceKind, u32)>,
    stock: Resources,
    approach: Approach,
    delivery: Option<(EntityId, Result<FieldRef, ()>)>,
)
    requires
        order is Gather,
    ensures
        spec_gather_step(order, carry, stock, None, approach, delivery)
            == (GatherTick { order: Order::Idle, node_amount: 0, carry, resources: stock, replan: false }),
{
}

/// Mining counts down: [`GATHER_TICKS`] ticks after a worker reaches its
/// node it loads, and not before.
pub proof fn lemma_mining_counts_down(node_id: EntityId, ticks_left: u32, carry: Option<(ResourceKind, u32)>,
    stock: Resources, res: ResourceKind, amount: u32, approach: Approach,
    delivery: Option<(EntityId, Result<FieldRef, ()>)>,
)
    requires
        ticks_left > 1,
    ensures
        spec_gather_step(
            Order::Gather { node: node_id, phase: GatherPhase::Mining { ticks_left } },
            carry, stock, Some((res, amount)), approach, delivery,
        ).order == (Order::Gather { node: node_id, phase: GatherPhase::Mining { ticks_left: (ticks_left - 1) as u32 } }),
        !spec_loads_now(Order::Gather { node: node_id, phase: GatherPhase::Mining { ticks_left } }, Some((res, amount))),
{
}

/// What one tick does to a construction site.
#[derive(Clone, Copy, Debug, PartialEq, Eq, Structural)]
pub enum SiteStep {
    /// Not a site, or no worker attended it: nothing changes.
    Untouched,
    /// One tick of progress; the stall count resets.
    Advanced { progress: u32 },
    /// The site became a finished building; the stall count resets.
    Finished,
    /// The finish could not be applied this tick; the stall count is now
    /// `stall`.
    Stalled { stall: u32 },
    /// The finish failed for [`STALLED_SITE_TICKS`] ticks in a row: the site
    /// is cancelled and its stall count resets.
    Cancelled,
}

/// Whether the finish is attempted this tick: an attended site one tick
/// short of its target. Only then is the finish planned.
pub open spec fn spec_site_due(progress: u32, target: u32, attended: bool) -> bool {
    target != 0 && attended && progress + 1 >= target
}

/// One tick of a site with `progress` of `target` ticks done (`target` 0
/// means a finished building), `attended` when a worker is at it, `stall`
/// consecutive failed finishes so far, and `finish_ok` whether a finish
/// attempted this tick could move every body out of the footprint.
pub open spec fn spec_site_step(progress: u32, target: u32, attended: bool, stall: u32, finish_ok: bool) -> SiteStep {
    if target == 0 || !attended {
        SiteStep::Untouched
    } else if progress + 1 < target {
        SiteStep::Advanced { progress: (progress + 1) as u32 }
    } else if finish_ok {
        SiteStep::Finished
    } else if stall + 1 >= STALLED_SITE_TICKS {
        SiteStep::Cancelled
    } else {
        SiteStep::Stalled { stall: (stall + 1) as u32 }
    }
}

/// Whether the finish is attempted this tick (see [`spec_site_due`]).
pub fn site_due(progress: u32, target: u32, attended: bool) -> (r: bool)
    ensures
        r == spec_site_due(progress, target, attended),
{
    target != 0 && attended && progress >= target - 1
}

/// One tick of one construction site.
pub fn site_step(progress: u32, target: u32, attended: bool, stall: u32, finish_ok: bool) -> (r: SiteStep)
    ensures
        r == spec_site_step(progress, target, attended, stall, finish_ok),
{
    if target == 0 || !attended {
        SiteStep::Untouched
    } else if progress < target - 1 {
        SiteStep::Advanced { progress: progress + 1 }
    } else if finish_ok {
        SiteStep::Finished
    } else if stall >= STALLED_SITE_TICKS - 1 {
        SiteStep::Cancelled
    } else {
        SiteStep::Stalled { stall: stall + 1 }
    }
}

/// A site's progress stays below its target, and a stalled site is
/// cancelled before its stall count reaches [`STALLED_SITE_TICKS`]: waiting
/// on an obstruction is bounded.
pub proof fn lemma_site_bounded(progress: u32, target: u32, attended: bool, stall: u32, finish_ok: bool)
    ensures
        match spec_site_step(progress, target, attended, stall, finish_ok) {
            SiteStep::Advanced { progress: p } => p < target && p == progress + 1,
            SiteStep::Stalled { stall: s } => s < STALLED_SITE_TICKS && s == stall + 1,
            SiteStep::Finished => spec_site_due(progress, target, attended) && finish_ok,
            SiteStep::Cancelled => spec_site_due(progress, target, attended) && !finish_ok,
            SiteStep::Untouched => !attended || target == 0,
        },
{
}

/// A site built from scratch by an attending worker, whose finish always
/// succeeds, finishes exactly on its `target`-th tick: `target - 1` advances,
/// then the finish.
pub proof fn lemma_site_finishes_on_time(progress: u32, target: u32, stall: u32)
    requires
        progress < target,
    ensures
        progress + 1 < target ==> spec_site_step(progress, target, true, stall, true)
            == (SiteStep::Advanced { progress: (progress + 1) as u32 }),
        progress + 1 == target ==> spec_site_step(progress, target, true, stall, true) == SiteStep::Finished,
{
}

/// One armed entity's trigger for one tick.
#[derive(Clone, Copy, Debug, PartialEq, Eq, Structural)]
pub struct TriggerTick {
    /// The weapon's cooldown after the tick.
    pub cooldown: u32,
    /// It has a live target in range: movement holds it in place.
    pub hold: bool,
    /// It fires at that target this tick.
    pub fired: bool,
}

/// One tick of an armed entity's trigger: the cooldown counts down by one;
/// with a target in range it holds, and fires when the cooldown is spent,
/// which reloads the weapon.
pub open spec fn spec_trigger(cooldown: u32, weapon: Weapon, has_target: bool) -> TriggerTick {
    let cd: u32 = if cooldown > 0 { (cooldown - 1) as u32 } else { 0 };
    if !has_target {
        TriggerTick { cooldown: cd, hold: false, fired: false }
    } else if cd != 0 {
        TriggerTick { cooldown: cd, hold: true, fired: false }
    } else {
        TriggerTick { cooldown: weapon.cooldown_ticks, hold: true, fired: true }
    }
}

/// One tick of an armed entity's trigger (see [`spec_trigger`]).
pub fn pull_trigger(cooldown: u32, weapon: Weapon, has_target: bool) -> (r: TriggerTick)
    ensures
        r == spec_trigger(cooldown, weapon, has_target),
{
    let cd = if cooldown > 0 { cooldown - 1 } else { 0 };
    if !has_target {
        TriggerTick { cooldown: cd, hold: false, fired: false }
    } else if cd != 0 {
        TriggerTick { cooldown: cd, hold: true, fired: false }
    } else {
        TriggerTick { cooldown: weapon.cooldown_ticks, hold: true, fired: true }
    }
}

/// An armed entity with a target in range fires exactly on the tick its
/// cooldown runs out, and firing reloads the weapon to its full cooldown.
pub proof fn lemma_fires_when_reloaded(weapon: Weapon, cooldown: u32)
    ensures
        spec_trigger(cooldown, weapon, true).fired <==> cooldown <= 1,
        spec_trigger(cooldown, weapon, true).fired ==> spec_trigger(cooldown, weapon, true).cooldown == weapon.cooldown_ticks,
        !spec_trigger(cooldown, weapon, false).fired,
{
}

/// What an entity aims at this tick: its weapon (none for the unarmed and
/// for a site, which never fires), whether its order is cleared, and the
/// target it fires on.
#[derive(Clone, Copy, Debug, PartialEq, Eq, Structural)]
pub struct Aim {
    pub weapon: Option<Weapon>,
    pub clears_order: bool,
    pub target: Option<EntityId>,
}

/// The weapon an entity of `kind` fires with: a unit's own, a finished
/// building's (`progress_target` 0), nothing else.
pub open spec fn spec_armament(kind: EntityKind, progress_target: u32) -> Option<Weapon> {
    match kind {
        EntityKind::Unit(k) => spec_weapon(k),
        EntityKind::Building(b) => if progress_target == 0 { spec_building_weapon(b) } else { None },
        EntityKind::Node(_) => None,
    }
}

/// Combat targeting for one entity of `kind` under `order`. An idle or
/// attack-moving unit fires on the nearest hostile in range (`nearest`); a
/// unit attacking a live target fires on it only while it is in range
/// (`in_range`), and one whose target is gone clears its order and fires on
/// the nearest hostile instead; a unit moving, gathering, building or
/// following never fires; a finished armed building fires on the nearest
/// hostile. The unarmed aim at nothing.
pub open spec fn spec_aim(
    kind: EntityKind,
    progress_target: u32,
    order: Order,
    target_live: bool,
    in_range: bool,
    nearest: Option<EntityId>,
) -> Aim {
    let w = spec_armament(kind, progress_target);
    if w is None {
        Aim { weapon: None, clears_order: false, target: None }
    } else {
        match kind {
            EntityKind::Unit(_) => match order {
                Order::Idle | Order::AttackMove { .. } => Aim { weapon: w, clears_order: false, target: nearest },
                Order::Attack { target, .. } => if target_live {
                    Aim { weapon: w, clears_order: false, target: if in_range { Some(target) } else { None } }
                } else {
                    Aim { weapon: w, clears_order: true, target: nearest }
                },
                _ => Aim { weapon: w, clears_order: false, target: None },
            },
            _ => Aim { weapon: w, clears_order: false, target: nearest },
        }
    }
}

/// Combat targeting for one entity (see [`spec_aim`]).
pub fn aim(
    kind: EntityKind,
    progress_target: u32,
    order: Order,
    target_live: bool,
    in_range: bool,
    nearest: Option<EntityId>,
) -> (r: Aim)
    ensures
        r == spec_aim(kind, progress_target, order, target_live, in_range, nearest),
{
    let w = match kind {
        EntityKind::Unit(k) => weapon(k),
        EntityKind::Building(b) => if progress_target == 0 { building_weapon(b) } else { None },
        EntityKind::Node(_) => None,
    };
    if w.is_none() {
        return Aim { weapon: None, clears_order: false, target: None };
    }
    match kind {
        EntityKind::Unit(_) => match order {
            Order::Idle | Order::AttackMove { .. } => Aim { weapon: w, clears_order: false, target: nearest },
            Order::Attack { target, .. } => if target_live {
                Aim { weapon: w, clears_order: false, target: if in_range { Some(target) } else { None } }
            } else {
                Aim { weapon: w, clears_order: true, target: nearest }
            },
            _ => Aim { weapon: w, clears_order: false, target: None },
        },
        _ => Aim { weapon: w, clears_order: false, target: nearest },
    }
}

/// Combat targeting for the live entity in `slot`, read from the store and
/// the order table: its kind, build state and order, and whether the target
/// its attack order names still lives. `in_range` (its attack target within
/// weapon range) and `nearest` (the nearest hostile in range) are measured
/// by the caller.
pub fn aim_at(store: &EntityStore, orders: &OrderTable, slot: usize, in_range: bool, nearest: Option<EntityId>) -> (r: Aim)
    requires
        orders.wf(),
        slot < store@.slots.len(),
        slot < MAX_ENTITIES,
        store@.slots[slot as int].alive,
    ensures
        r == spec_aim(
            store@.slots[slot as int].kind,
            store@.slots[slot as int].progress_target,
            orders@[slot as int],
            match orders@[slot as int] {
                Order::Attack { target, .. } => spec_contains(store@, target),
                _ => false,
            },
            in_range,
            nearest,
        ),
{
    let order = orders.get(slot);
    let live = match order {
        Order::Attack { target, .. } => store.contains(target),
        _ => false,
    };
    aim(store.kind(slot), store.progress_target(slot), order, live, in_range, nearest)
}

/// An aim that fires is backed by a weapon, and only a unit attacking a
/// target that is gone clears its order.
pub proof fn lemma_aim_sound(
    kind: EntityKind,
    progress_target: u32,
    order: Order,
    target_live: bool,
    in_range: bool,
    nearest: Option<EntityId>,
)
    ensures
        ({
            let a = spec_aim(kind, progress_target, order, target_live, in_range, nearest);
            &&& a.target is Some ==> a.weapon is Some
            &&& a.clears_order ==> kind is Unit && order is Attack && !target_live
            &&& (kind is Building && progress_target != 0) ==> a.weapon is None && a.target is None
            &&& (kind is Unit && (order is Move || order is Gather || order is Build || order is Follow)) ==> a.target is None
        }),
{
}

/// An armed unit that is idle or attack-moving fires on the nearest
/// hostile in range, whatever else is measured, and keeps its order: an
/// attack-move engages what it passes exactly as an idle unit does.
pub proof fn lemma_idle_and_attack_move_engage(
    k: UnitKind,
    order: Order,
    progress_target: u32,
    target_live: bool,
    in_range: bool,
    nearest: Option<EntityId>,
)
    requires
        spec_weapon(k) is Some,
        order is Idle || order is AttackMove,
    ensures
        spec_aim(EntityKind::Unit(k), progress_target, order, target_live, in_range, nearest) == (Aim {
            weapon: spec_weapon(k),
            clears_order: false,
            target: nearest,
        }),
        spec_aim(EntityKind::Unit(k), progress_target, order, target_live, in_range, nearest)
            == spec_aim(EntityKind::Unit(k), progress_target, Order::Idle, target_live, in_range, nearest),
{
}

/// What movement does with one unit this tick.
#[derive(Clone, Copy, Debug, PartialEq, Eq, Structural)]
pub enum Stride {
    /// No step; the order stays.
    Stand,
    /// No step; the order ends (`Idle`).
    Stop,
    /// Take a step toward the order's goal.
    Walk,
}

/// How a unit's order ends or holds before it steps. `target` is the kind
/// of the entity the order names (the gathered node, the drop-off, the site,
/// the attack or follow target), `None` when it is gone. Measured by the
/// caller: `hold` (combat holds it in place), `reached` (a builder is at its
/// site, a follower within reach of its target), `repath` (a follower's
/// target drifted and a fresh field was (`Some(true)`) or could not be
/// (`Some(false)`) acquired), `arrived` (a mover stands on its slot, its body
/// clear of every other) and `built_over` (inside its capture ring, a mover's
/// slot has been built over).
pub open spec fn spec_stride(
    order: Order,
    target: Option<EntityKind>,
    hold: bool,
    reached: bool,
    repath: Option<bool>,
    arrived: bool,
    built_over: bool,
) -> Stride {
    match order {
        Order::Move { .. } => if arrived || built_over { Stride::Stop } else { Stride::Walk },
        Order::Gather { phase, .. } => match phase {
            GatherPhase::Mining { .. } => Stride::Stand,
            _ => if target is None { Stride::Stand } else { Stride::Walk },
        },
        Order::Build { .. } => match target {
            Some(EntityKind::Building(_)) => if reached { Stride::Stand } else { Stride::Walk },
            _ => Stride::Stand,
        },
        Order::Attack { .. } => match target {
            None => Stride::Stop,
            Some(k) => if hold {
                Stride::Stand
            } else if k is Node {
                Stride::Stop
            } else {
                Stride::Walk
            },
        },
        Order::AttackMove { .. } => if hold { Stride::Stand } else { Stride::Walk },
        Order::Follow { .. } => if target is None || repath == Some(false) {
            Stride::Stop
        } else if reached {
            Stride::Stand
        } else {
            Stride::Walk
        },
        Order::Idle => Stride::Stand,
    }
}

/// How a unit's order ends or holds before it steps (see [`spec_stride`]).
pub fn stride(
    order: Order,
    target: Option<EntityKind>,
    hold: bool,
    reached: bool,
    repath: Option<bool>,
    arrived: bool,
    built_over: bool,
) -> (r: Stride)
    ensures
        r == spec_stride(order, target, hold, reached, repath, arrived, built_over),
{
    match order {
        Order::Move { .. } => if arrived || built_over { Stride::Stop } else { Stride::Walk },
        Order::Gather { phase, .. } => match phase {
            GatherPhase::Mining { .. } => Stride::Stand,
            _ => if target.is_none() { Stride::Stand } else { Stride::Walk },
        },
        Order::Build { .. } => match target {
            Some(EntityKind::Building(_)) => if reached { Stride::Stand } else { Stride::Walk },
            _ => Stride::Stand,
        },
        Order::Attack { .. } => match target {
            None => Stride::Stop,
            Some(k) => if hold {
                Stride::Stand
            } else if let EntityKind::Node(_) = k {
                Stride::Stop
            } else {
                Stride::Walk
            },
        },
        Order::AttackMove { .. } => if hold { Stride::Stand } else { Stride::Walk },
        Order::Follow { .. } => {
            let lost = match repath {
                Some(false) => true,
                _ => false,
            };
            if target.is_none() || lost {
                Stride::Stop
            } else if reached {
                Stride::Stand
            } else {
                Stride::Walk
            }
        },
        Order::Idle => Stride::Stand,
    }
}

/// Only a move, an attack or a follow ever ends in movement: a gather or
/// build order is ended by its own system, never by the mover; and an
/// attack, an attack-move and a follow end or hold exactly as stated.
pub proof fn lemma_stride_ends(
    order: Order,
    target: Option<EntityKind>,
    hold: bool,
    reached: bool,
    repath: Option<bool>,
    arrived: bool,
    built_over: bool,
)
    ensures
        spec_stride(order, target, hold, reached, repath, arrived, built_over) == Stride::Stop ==> (order is Move
            || order is Attack || order is Follow),
        (order is Attack && target is None) ==> spec_stride(order, target, hold, reached, repath, arrived, built_over)
            == Stride::Stop,
        (order is Follow && target is None) ==> spec_stride(order, target, hold, reached, repath, arrived, built_over)
            == Stride::Stop,
{
}

/// The battle score after one shot: `(kills, losses)`.
pub open spec fn spec_tally(kills: u32, losses: u32, target_owner: u8, result: DamageResult) -> (u32, u32) {
    if result == DamageResult::Killed && target_owner == OWNER_ENEMY {
        ((kills + 1) as u32, losses)
    } else if result == DamageResult::Killed && target_owner == OWNER_PLAYER {
        (kills, (losses + 1) as u32)
    } else {
        (kills, losses)
    }
}

/// Resolve one shot of `damage` on a target of `target_owner`, given by kind
/// and hit points, and count it: a killed enemy is a kill, a killed player
/// entity a loss.
pub fn fire_shot(kills: u32, losses: u32, target_owner: u8, target: Option<(EntityKind, u32)>, damage: u32) -> (r: (DamageResult, u32, u32))
    requires
        kills < u32::MAX,
        losses < u32::MAX,
    ensures
        r.0 == spec_damage(target, damage),
        (r.1, r.2) == spec_tally(kills, losses, target_owner, r.0),
{
    let result = super::commands::apply_damage(target, damage);
    let killed = match result {
        DamageResult::Killed => true,
        _ => false,
    };
    if killed && target_owner == OWNER_ENEMY {
        (result, kills + 1, losses)
    } else if killed && target_owner == OWNER_PLAYER {
        (result, kills, losses + 1)
    } else {
        (result, kills, losses)
    }
}

/// Place a ready queue head on the grid: a player unit of the head's kind
/// spawns at `pos`, the centre the caller found for it, and leaves the
/// queue. With no centre found (`None`), or with the store full, the head
/// stays ready, paid for and reserved, to be retried next tick.
pub fn deliver_head(queue: &mut ProductionQueue, store: &mut EntityStore, pos: Option<[u32; 2]>) -> (r: Option<EntityId>)
    requires
        old(queue).wf(),
        head_producible(old(queue)@),
        spec_head_ready(old(queue)@),
        old(store).wf(),
    ensures
        final(queue).wf(),
        final(store).wf(),
        match pos {
            None => r is None && *final(queue) == *old(queue) && final(store)@ == old(store)@,
            Some(p) => {
                let (v, id) = spawned(old(store)@, EntityKind::Unit(old(queue)@.entries[0]), OWNER_PLAYER, p);
                &&& final(store)@ == v
                &&& r == id
                &&& id is None ==> *final(queue) == *old(queue)
                &&& id is Some ==> final(queue)@.entries == old(queue)@.entries.drop_first() && final(queue)@.progress == 0
            },
        },
{
    let p = match pos {
        Some(p) => p,
        None => {
            return None;
        },
    };
    let kind = match queue.head() {
        Some(k) => k,
        None => {
            return None;
        },
    };
    let id = store.spawn(EntityKind::Unit(kind), OWNER_PLAYER, p);
    if id.is_some() {
        queue.pop_ready();
    }
    id
}

/// Supply one slot's occupant uses: a live player unit's supply cost.
pub open spec fn slot_supply(s: Slot) -> nat {
    if s.alive && s.owner == OWNER_PLAYER {
        match s.kind {
            EntityKind::Unit(k) => spec_supply_cost(k) as nat,
            _ => 0,
        }
    } else {
        0
    }
}

/// Supply the live player units in `slots` use.
pub open spec fn units_supply(slots: Seq<Slot>) -> nat
    decreases slots.len(),
{
    if slots.len() == 0 {
        0
    } else {
        units_supply(slots.drop_last()) + slot_supply(slots.last())
    }
}

proof fn lemma_units_supply_update(s: Seq<Slot>, i: int, x: Slot)
    requires
        0 <= i < s.len(),
    ensures
        units_supply(s.update(i, x)) == units_supply(s) - slot_supply(s[i]) + slot_supply(x),
    decreases s.len(),
{
    let t = s.update(i, x);
    if i == s.len() - 1 {
        assert(t.drop_last() =~= s.drop_last());
    } else {
        assert(t.drop_last() =~= s.drop_last().update(i, x));
        lemma_units_supply_update(s.drop_last(), i, x);
    }
}

proof fn lemma_queue_supply_first(k: UnitKind, rest: Seq<UnitKind>)
    ensures
        queue_supply(seq![k] + rest) == spec_supply_cost(k) + queue_supply(rest),
    decreases rest.len(),
{
    let s = seq![k] + rest;
    if rest.len() == 0 {
        assert(s.drop_last() =~= Seq::<UnitKind>::empty());
        assert(s.last() == k);
        assert(queue_supply(rest) == 0);
        assert(queue_supply(s) == queue_supply(s.drop_last()) + spec_supply_cost(s.last()) as nat);
    } else {
        assert(s.drop_last() =~= seq![k] + rest.drop_last());
        assert(s.last() == rest.last());
        lemma_queue_supply_first(k, rest.drop_last());
        assert(queue_supply(s) == queue_supply(s.drop_last()) + spec_supply_cost(s.last()) as nat);
        assert(queue_supply(rest) == queue_supply(rest.drop_last()) + spec_supply_cost(rest.last()) as nat);
    }
}

proof fn lemma_queues_supply_update(qs: Seq<ProductionQueue>, j: int, q: ProductionQueue)
    requires
        0 <= j < qs.len(),
    ensures
        queues_supply(qs.update(j, q)) == queues_supply(qs) - queue_supply(qs[j]@.entries) + queue_supply(q@.entries),
    decreases qs.len(),
{
    let t = qs.update(j, q);
    if j == qs.len() - 1 {
        assert(t.drop_last() =~= qs.drop_last());
    } else {
        assert(t.drop_last() =~= qs.drop_last().update(j, q));
        lemma_queues_supply_update(qs.drop_last(), j, q);
    }
}

/// Delivering a ready unit never changes the supply count: the supply its
/// queue entry reserved becomes the supply the new live unit uses. Stated
/// over the store before and after the spawn, and the queues before and
/// after the head leaves its queue.
pub proof fn lemma_delivery_keeps_supply(
    v: StoreView,
    pos: [u32; 2],
    queues: Seq<ProductionQueue>,
    j: int,
    after: ProductionQueue,
)
    requires
        store_ok(v),
        0 <= j < queues.len(),
        queues[j]@.entries.len() > 0,
        after@.entries == queues[j]@.entries.drop_first(),
        spawned(v, EntityKind::Unit(queues[j]@.entries[0]), OWNER_PLAYER, pos).1 is Some,
    ensures
        units_supply(spawned(v, EntityKind::Unit(queues[j]@.entries[0]), OWNER_PLAYER, pos).0.slots)
            + queues_supply(queues.update(j, after)) == units_supply(v.slots) + queues_supply(queues),
{
    let kind = queues[j]@.entries[0];
    let w = spawned(v, EntityKind::Unit(kind), OWNER_PLAYER, pos).0;
    if v.free.len() > 0 {
        let i = v.free.last() as int;
        assert(v.free[v.free.len() - 1] == v.free.last());
        assert(!v.slots[i].alive);
        lemma_units_supply_update(v.slots, i, spawned_slot(v.slots[i].generation, EntityKind::Unit(kind), OWNER_PLAYER, pos));
    } else {
        assert(w.slots.drop_last() =~= v.slots);
    }
    assert(units_supply(w.slots) == units_supply(v.slots) + spec_supply_cost(kind));
    let e = queues[j]@.entries;
    assert(e =~= seq![kind] + e.drop_first());
    lemma_queue_supply_first(kind, e.drop_first());
    lemma_queues_supply_update(queues, j, after);
}

/// Recount used supply from scratch: every live player unit's cost plus
/// every queue's reservations. Enemies never count; nothing is carried over
/// from the last count, so the figure cannot drift.
pub fn supply_recount(store: &EntityStore, queues: &[ProductionQueue]) -> (r: u32)
    requires
        store.wf(),
        queues@.len() <= MAX_ENTITIES,
        forall|i: int| 0 <= i < queues@.len() ==> (#[trigger] queues@[i]).wf(),
    ensures
        r == units_supply(store@.slots) + queues_supply(queues@),
{
    proof {
        store.lemma_store_ok();
    }
    let n = store.slot_count();
    let mut used: u32 = 0;
    let mut i: usize = 0;
    while i < n
        invariant
            n == store@.slots.len(),
            n <= MAX_ENTITIES,
            i <= n,
            used == units_supply(store@.slots.subrange(0, i as int)),
            used <= 2 * i,
        decreases n - i,
    {
        proof {
            let pre1 = store@.slots.subrange(0, i as int + 1);
            assert(pre1.drop_last() =~= store@.slots.subrange(0, i as int));
            assert(pre1.last() == store@.slots[i as int]);
        }
        if store.alive(i) && store.owner(i) == OWNER_PLAYER {
            if let EntityKind::Unit(k) = store.kind(i) {
                used = used + supply_cost(k);
            }
        }
        i = i + 1;
    }
    proof {
        assert(store@.slots.subrange(0, n as int) =~= store@.slots);
        lemma_queues_supply_bound(queues@);
    }
    let reserved = reserved_supply(queues);
    used + reserved
}

/// Whether slot `i` holds a live enemy unit.
pub open spec fn enemy_unit(slots: Seq<Slot>, i: int) -> bool {
    &&& 0 <= i < slots.len()
    &&& slots[i].alive
    &&& slots[i].owner == OWNER_ENEMY
    &&& slots[i].kind is Unit
}

/// An enemy's order needs re-aiming at the objective `obj`: it is idle, or
/// attack-moving somewhere else.
pub open spec fn stale_for(o: Order, obj: Cell) -> bool {
    match o {
        Order::Idle => true,
        Order::AttackMove { goal, .. } => goal.anchor != obj,
        _ => false,
    }
}

/// Some live enemy unit needs re-aiming at `obj`; only then is a field to
/// the objective acquired.
pub open spec fn any_stale(slots: Seq<Slot>, orders: Seq<Order>, obj: Cell) -> bool {
    exists|i: int| enemy_unit(slots, i) && i < orders.len() && #[trigger] stale_for(orders[i], obj)
}

/// What the enemy faction's march does to slot `i`'s order `o`.
pub open spec fn marched(slots: Seq<Slot>, i: int, o: Order, objective: Option<Cell>, field: Result<FieldRef, ()>) -> Order {
    match objective {
        None => if 0 <= i < slots.len() && slots[i].alive && slots[i].owner == OWNER_ENEMY && o is AttackMove {
            Order::Idle
        } else {
            o
        },
        Some(obj) => match field {
            Ok(f) => if enemy_unit(slots, i) && stale_for(o, obj) {
                Order::AttackMove { goal: FormationGoal { anchor: obj, slot: obj }, field: f }
            } else {
                o
            },
            Err(()) => o,
        },
    }
}

/// Whether the enemy faction's march needs a field to `objective` this tick.
pub fn march_needs_field(store: &EntityStore, orders: &OrderTable, objective: Cell) -> (r: bool)
    requires
        store.wf(),
        orders.wf(),
    ensures
        r == any_stale(store@.slots, orders@, objective),
{
    proof {
        store.lemma_store_ok();
    }
    let n = store.slot_count();
    let mut i: usize = 0;
    while i < n
        invariant
            n == store@.slots.len(),
            n <= MAX_ENTITIES,
            orders.wf(),
            i <= n,
            forall|k: int| 0 <= k < i ==> !(enemy_unit(store@.slots, k) && #[trigger] stale_for(orders@[k], objective)),
        decreases n - i,
    {
        if store.alive(i) && store.owner(i) == OWNER_ENEMY {
            let unit = match store.kind(i) {
                EntityKind::Unit(_) => true,
                _ => false,
            };
            let stale = match orders.get(i) {
                Order::Idle => true,
                Order::AttackMove { goal, .. } => goal.anchor != objective,
                _ => false,
            };
            if unit && stale {
                assert(enemy_unit(store@.slots, i as int) && stale_for(orders@[i as int], objective));
                return true;
            }
        }
        i = i + 1;
    }
    false
}

/// The enemy faction's march for one tick. With no objective left, every
/// attack-moving enemy stops. Otherwise every live enemy unit that is idle or
/// marching elsewhere attack-moves on `objective` over `field`, the one
/// navigation field acquired to it this tick ([`march_needs_field`]); with no
/// field to it, the whole faction waits for the next tick.
pub fn march_enemies(store: &EntityStore, orders: &mut OrderTable, objective: Option<Cell>, field: Result<FieldRef, ()>)
    requires
        store.wf(),
        old(orders).wf(),
    ensures
        final(orders).wf(),
        forall|i: int|
            0 <= i < MAX_ENTITIES ==> #[trigger] final(orders)@[i] == marched(store@.slots, i, old(orders)@[i], objective, field),
{
    proof {
        store.lemma_store_ok();
    }
    let f = match (objective, field) {
        (Some(_), Err(())) => {
            return;
        },
        (_, Ok(f)) => Some(f),
        (None, Err(())) => None,
    };
    let n = store.slot_count();
    let mut i: usize = 0;
    while i < n
        invariant
            n == store@.slots.len(),
            n <= MAX_ENTITIES,
            old(orders).wf(),
            orders.wf(),
            i <= n,
            objective is Some ==> field == Ok::<FieldRef, ()>(f->Some_0) && f is Some,
            forall|k: int|
                0 <= k < MAX_ENTITIES ==> #[trigger] orders@[k] == if k < i {
                    marched(store@.slots, k, old(orders)@[k], objective, field)
                } else {
                    old(orders)@[k]
                },
        decreases n - i,
    {
        if store.alive(i) && store.owner(i) == OWNER_ENEMY {
            let o = orders.get(i);
            match objective {
                None => {
                    if let Order::AttackMove { .. } = o {
                        orders.clear(i);
                    }
                },
                Some(obj) => {
                    let unit = match store.kind(i) {
                        EntityKind::Unit(_) => true,
                        _ => false,
                    };
                    let stale = match o {
                        Order::Idle => true,
                        Order::AttackMove { goal, .. } => goal.anchor != obj,
                        _ => false,
                    };
                    if unit && stale {
                        let fr = match f {
                            Some(fr) => fr,
                            None => {
                                return;
                            },
                        };
                        orders.set(i, Order::AttackMove { goal: FormationGoal::at(obj), field: fr });
                    }
                },
            }
        }
        i = i + 1;
    }
    proof {
        assert forall|k: int| n <= k < MAX_ENTITIES implies #[trigger] old(orders)@[k] == marched(
            store@.slots,
            k,
            old(orders)@[k],
            objective,
            field,
        ) by {}
    }
}

/// Whether `site` names a live building still under construction.
pub open spec fn spec_is_site(v: StoreView, site: EntityId) -> bool {
    spec_contains(v, site) && v.slots[site.index as int].kind is Building
        && v.slots[site.index as int].progress_target != 0
}

/// Whether the death or cancellation of `site` frees slot `i`'s order: a
/// live entity whose order builds it.
pub open spec fn builds(v: StoreView, i: int, o: Order, site: EntityId) -> bool {
    &&& 0 <= i < v.slots.len()
    &&& v.slots[i].alive
    &&& o matches Order::Build { site: s, .. } && s == site
}

/// Cancel an unfinished site: refund its full cost, despawn it, drop its
/// production queue and rally point, and idle every worker that was building
/// it. `false`, and nothing changes, for anything but a live site.
pub fn cancel_construction(
    store: &mut EntityStore,
    orders: &mut OrderTable,
    production: &mut ProductionTable,
    resources: &mut Resources,
    site: EntityId,
) -> (r: bool)
    requires
        old(store).wf(),
        old(orders).wf(),
        old(production).wf(),
        spec_is_site(old(store)@, site) ==> !(old(store)@.slots[site.index as int].kind matches EntityKind::Building(
            k,
        ) && k is Turret),
    ensures
        final(store).wf(),
        final(orders).wf(),
        final(production).wf(),
        r == spec_is_site(old(store)@, site),
        !r ==> final(store)@ == old(store)@ && final(orders)@ == old(orders)@ && *final(resources) == *old(resources)
            && final(production).queues() == old(production).queues() && final(production).rallies() == old(
            production,
        ).rallies(),
        r ==> {
            let kind = old(store)@.slots[site.index as int].kind->Building_0;
            &&& *final(resources) == old(resources).spec_credit(spec_building_cost(kind))
            &&& final(store)@ == despawned(old(store)@, site)
            &&& final(production).queues()[site.index as int]@.entries.len() == 0
            &&& final(production).rallies() == old(production).rallies().update(site.index as int, None)
            &&& forall|i: int|
                0 <= i < MAX_ENTITIES && i != site.index ==> #[trigger] final(production).queues()[i] == old(
                    production,
                ).queues()[i]
            &&& forall|i: int|
                0 <= i < MAX_ENTITIES ==> #[trigger] final(orders)@[i] == if builds(final(store)@, i, old(orders)@[i], site) {
                    Order::Idle
                } else {
                    old(orders)@[i]
                }
        },
{
    proof {
        store.lemma_store_ok();
    }
    let slot = match store.slot(site) {
        Some(s) => s,
        None => {
            return false;
        },
    };
    let kind = match store.kind(slot) {
        EntityKind::Building(k) => k,
        _ => {
            return false;
        },
    };
    if store.progress_target(slot) == 0 {
        return false;
    }
    resources.credit(building_cost(kind));
    store.despawn(site);
    production.clear(slot);
    proof {
        store.lemma_store_ok();
    }
    let n = store.slot_count();
    let mut i: usize = 0;
    while i < n
        invariant
            n == store@.slots.len(),
            n <= MAX_ENTITIES,
            orders.wf(),
            old(orders).wf(),
            i <= n,
            forall|k: int|
                0 <= k < MAX_ENTITIES ==> #[trigger] orders@[k] == if k < i && builds(store@, k, old(orders)@[k], site) {
                    Order::Idle
                } else {
                    old(orders)@[k]
                },
        decreases n - i,
    {
        if store.alive(i) {
            if let Order::Build { site: s, .. } = orders.get(i) {
                if s == site {
                    orders.clear(i);
                }
            }
        }
        i = i + 1;
    }
    true
}

/// Where the enemy wave schedule stands: the first wave not fully spawned,
/// how many of its Ghouls are still owed, and how many enemies have spawned
/// so far.
#[derive(Clone, Copy, Debug, PartialEq, Eq, Structural)]
pub struct WaveState {
    pub cursor: usize,
    pub pending: u32,
    pub spawned: u32,
}

/// The next Ghoul the schedule owes at tick `tick`: the wave under the
/// cursor once its tick has come, armed with its count when it starts, and
/// the spawn point it comes from; `None` while no wave is due.
pub open spec fn spec_next_enemy(s: WaveState, waves: Seq<WaveSpec>, points: Seq<Cell>, tick: u64) -> Option<(WaveState, Cell)> {
    if s.cursor < waves.len() && tick >= waves[s.cursor as int].at_tick {
        let w = waves[s.cursor as int];
        Some((
            WaveState { pending: if s.pending == 0 { w.count } else { s.pending }, ..s },
            points[w.spawn_point as int],
        ))
    } else {
        None
    }
}

/// The next Ghoul the schedule owes at `tick` (see [`spec_next_enemy`]).
/// The caller places it, and records it with [`record_enemy_spawn`]; a Ghoul
/// it cannot place stays owed, to be retried next tick.
pub fn next_enemy(s: WaveState, waves: &[WaveSpec], points: &[Cell], tick: u64) -> (r: Option<(WaveState, Cell)>)
    requires
        forall|i: int| 0 <= i < waves@.len() ==> (#[trigger] waves@[i]).spawn_point < points@.len(),
    ensures
        r == spec_next_enemy(s, waves@, points@, tick),
{
    if s.cursor < waves.len() && tick >= waves[s.cursor].at_tick as u64 {
        let w = waves[s.cursor];
        let pending = if s.pending == 0 { w.count } else { s.pending };
        Some((WaveState { cursor: s.cursor, pending, spawned: s.spawned }, points[w.spawn_point as usize]))
    } else {
        None
    }
}

/// One owed Ghoul placed: one fewer pending, one more spawned, and the
/// cursor moves to the next wave once this one is fully spawned.
pub open spec fn spec_record_enemy_spawn(s: WaveState) -> WaveState {
    let pending = (s.pending - 1) as u32;
    WaveState {
        cursor: if pending == 0 { (s.cursor + 1) as usize } else { s.cursor },
        pending,
        spawned: (s.spawned + 1) as u32,
    }
}

/// Record one owed Ghoul placed (see [`spec_record_enemy_spawn`]).
pub fn record_enemy_spawn(s: WaveState) -> (r: WaveState)
    requires
        s.pending > 0,
        s.spawned < u32::MAX,
        s.cursor < usize::MAX,
    ensures
        r == spec_record_enemy_spawn(s),
{
    let pending = s.pending - 1;
    WaveState { cursor: if pending == 0 { s.cursor + 1 } else { s.cursor }, pending, spawned: s.spawned + 1 }
}

/// Every Ghoul of a due wave is spawned exactly once: a wave of `count`
/// Ghouls, armed and then recorded `count` times, leaves the cursor on the
/// next wave with nothing pending and `count` more spawned.
pub proof fn lemma_wave_drains(s: WaveState, count: u32)
    requires
        s.pending == count,
        count > 0,
        s.spawned + count <= u32::MAX,
        s.cursor < usize::MAX,
    ensures
        drain(s, count as nat) == (WaveState { cursor: (s.cursor + 1) as usize, pending: 0, spawned: (s.spawned + count) as u32 }),
    decreases count,
{
    let t = spec_record_enemy_spawn(s);
    assert(drain(s, count as nat) == drain(t, (count - 1) as nat));
    if count > 1 {
        lemma_wave_drains(t, (count - 1) as u32);
        assert(((count - 1) as u32) as nat == (count - 1) as nat);
    } else {
        assert(drain(t, 0) == t);
    }
}

/// `n` Ghouls recorded in a row.
pub open spec fn drain(s: WaveState, n: nat) -> WaveState
    decreases n,
{
    if n == 0 {
        s
    } else {
        drain(spec_record_enemy_spawn(s), (n - 1) as nat)
    }
}

} // verus!
