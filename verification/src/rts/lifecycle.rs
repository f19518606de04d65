//! A building's completion and an entity's death: the writes each makes to
//! the store, the navigation masks, the supply cap, the production table and
//! the orders.
//!
//! A building's footprint corner `min` is computed by the caller from the
//! building's cell-space centre.

use vstd::prelude::*;

use crate::scenario::{Cell, MAX_SUPPLY_CAP};

use super::economy::{sat_add, sat_sub, Supply};
use super::entity::{
    despawned, spec_building_footprint, spec_contains, BuildingKind, EntityId, EntityKind, EntityStore, Slot,
    RTS_UNIT_BODY_RADIUS_HALF_CELLS, MAX_ENTITIES,
};
use super::grid::centre_mask;
use super::orders::{bound_to, released, Order, OrderTable};
use super::entity::StoreView;
use super::placement::{spec_supply_grant, supply_grant};
use super::production::ProductionTable;
use super::static_nav::{paint_square, StaticNav};
use super::world::DeathEvent;

verus! {

/// The supply cap after a finished building of `kind` grants its supply,
/// clamped to [`MAX_SUPPLY_CAP`].
pub open spec fn granted_cap(cap: u32, kind: BuildingKind) -> u32 {
    if sat_add(cap, spec_supply_grant(kind)) <= MAX_SUPPLY_CAP {
        sat_add(cap, spec_supply_grant(kind))
    } else {
        MAX_SUPPLY_CAP
    }
}

/// Commit a site's completion, once every body its footprint covers has been
/// moved out: the building is finished (no build time left), its footprint
/// at `min` is stamped into both solid masks, the centre mask and regions are
/// rebuilt around it, and its supply is granted.
pub fn commit_finish(store: &mut EntityStore, static_nav: &mut StaticNav, supply: &mut Supply, slot: usize, min: Cell)
    requires
        old(store).wf(),
        old(static_nav).wf(),
        slot < old(store)@.slots.len(),
        old(store)@.slots[slot as int].alive,
        old(store)@.slots[slot as int].kind matches EntityKind::Building(k) && !(k is Turret) && min.x
            + spec_building_footprint(k) <= 0x1_0000_0000 && min.y + spec_building_footprint(k) <= 0x1_0000_0000,
    ensures
        ({
            let kind = old(store)@.slots[slot as int].kind->Building_0;
            let edge = spec_building_footprint(kind) as int;
            &&& final(store).wf()
            &&& final(store)@.free == old(store)@.free
            &&& final(store)@.slots == old(store)@.slots.update(
                slot as int,
                Slot { progress: 0, progress_target: 0, ..old(store)@.slots[slot as int] },
            )
            &&& final(static_nav).wf()
            &&& final(static_nav)@.width == old(static_nav)@.width
            &&& final(static_nav)@.height == old(static_nav)@.height
            &&& final(static_nav)@.solids == paint_square(old(static_nav)@.solids, old(static_nav)@.width as int, min, edge, true)
            &&& final(static_nav)@.placement_solids == paint_square(
                old(static_nav)@.placement_solids,
                old(static_nav)@.width as int,
                min,
                edge,
                true,
            )
            &&& centre_mask(
                final(static_nav)@.solids,
                final(static_nav)@.width as int,
                final(static_nav)@.height as int,
                RTS_UNIT_BODY_RADIUS_HALF_CELLS as int,
                final(static_nav)@.center_blocked,
            )
            &&& final(supply).used_spec() == old(supply).used_spec()
            &&& final(supply).cap_spec() == granted_cap(old(supply).cap_spec(), kind)
        }),
{
    let kind = match store.kind(slot) {
        EntityKind::Building(k) => k,
        _ => {
            return;
        },
    };
    store.set_progress(slot, 0, 0);
    static_nav.stamp_finished_building(min, kind.footprint_cells());
    static_nav.rebuild_center_blocked(RTS_UNIT_BODY_RADIUS_HALF_CELLS);
    supply.grant_cap(supply_grant(kind));
}

/// Resolve the death of the live entity `id`, whose footprint corner is
/// `min` when it is a building, and report it. A unit's order is cleared. A
/// building's order, production queue and rally point are cleared; every
/// other live entity building it or hauling to it goes idle; and a finished
/// building is un-stamped from both solid masks, the centre mask and regions
/// rebuilt without it, and its supply grant revoked. Then the entity
/// despawns.
pub fn apply_death(
    store: &mut EntityStore,
    static_nav: &mut StaticNav,
    supply: &mut Supply,
    production: &mut ProductionTable,
    orders: &mut OrderTable,
    id: EntityId,
    min: Cell,
) -> (r: DeathEvent)
    requires
        old(store).wf(),
        old(static_nav).wf(),
        old(production).wf(),
        old(orders).wf(),
        spec_contains(old(store)@, id),
        !(old(store)@.slots[id.index as int].kind is Node),
        old(store)@.slots[id.index as int].kind matches EntityKind::Building(k) ==> !(k is Turret) && min.x
            + spec_building_footprint(k) <= 0x1_0000_0000 && min.y + spec_building_footprint(k) <= 0x1_0000_0000,
    ensures
        ({
            let s = old(store)@.slots[id.index as int];
            let i = id.index as int;
            &&& r.kind == s.kind
            &&& r.owner == s.owner
            &&& r.center@ == seq![s.pos_x, s.pos_y]
            &&& final(store).wf()
            &&& final(store)@ == despawned(old(store)@, id)
            &&& final(orders).wf()
            &&& final(production).wf()
            &&& final(static_nav).wf()
            &&& match s.kind {
                EntityKind::Building(k) => {
                    let edge = spec_building_footprint(k) as int;
                    let finished = s.progress_target == 0;
                    &&& forall|j: int|
                        0 <= j < MAX_ENTITIES ==> #[trigger] final(orders)@[j] == if j == i || released(
                            old(store)@,
                            id,
                            j,
                            old(orders)@[j],
                        ) {
                            Order::Idle
                        } else {
                            old(orders)@[j]
                        }
                    &&& final(production).queues()[i]@.entries.len() == 0
                    &&& final(production).rallies() == old(production).rallies().update(i, None)
                    &&& forall|j: int|
                        0 <= j < MAX_ENTITIES && j != i ==> #[trigger] final(production).queues()[j] == old(
                            production,
                        ).queues()[j]
                    &&& final(supply).used_spec() == old(supply).used_spec()
                    &&& final(supply).cap_spec() == if finished {
                        sat_sub(old(supply).cap_spec(), spec_supply_grant(k))
                    } else {
                        old(supply).cap_spec()
                    }
                    &&& finished ==> {
                        &&& final(static_nav)@.solids == paint_square(
                            old(static_nav)@.solids,
                            old(static_nav)@.width as int,
                            min,
                            edge,
                            false,
                        )
                        &&& final(static_nav)@.placement_solids == paint_square(
                            old(static_nav)@.placement_solids,
                            old(static_nav)@.width as int,
                            min,
                            edge,
                            false,
                        )
                        &&& centre_mask(
                            final(static_nav)@.solids,
                            final(static_nav)@.width as int,
                            final(static_nav)@.height as int,
                            RTS_UNIT_BODY_RADIUS_HALF_CELLS as int,
                            final(static_nav)@.center_blocked,
                        )
                    }
                    &&& !finished ==> final(static_nav)@ == old(static_nav)@
                },
                _ => {
                    &&& final(orders)@ == old(orders)@.update(i, Order::Idle)
                    &&& final(production).queues() == old(production).queues()
                    &&& final(production).rallies() == old(production).rallies()
                    &&& *final(supply) == *old(supply)
                    &&& final(static_nav)@ == old(static_nav)@
                },
            }
        }),
{
    proof {
        store.lemma_store_ok();
    }
    let slot = id.index as usize;
    let kind = store.kind(slot);
    let event = DeathEvent { kind, owner: store.owner(slot), center: store.position(slot) };
    match kind {
        EntityKind::Building(b) => {
            if store.progress_target(slot) == 0 {
                static_nav.unstamp_finished_building(min, b.footprint_cells());
                static_nav.rebuild_center_blocked(RTS_UNIT_BODY_RADIUS_HALF_CELLS);
                supply.revoke_cap(supply_grant(b));
            }
            production.clear(slot);
            orders.clear(slot);
            let ghost cleared = orders@;
            orders.release_building(store, id);
            proof {
                assert forall|j: int| 0 <= j < MAX_ENTITIES implies #[trigger] orders@[j] == if j == id.index || released(
                    old(store)@,
                    id,
                    j,
                    old(orders)@[j],
                ) {
                    Order::Idle
                } else {
                    old(orders)@[j]
                } by {
                    if j != id.index {
                        assert(cleared[j] == old(orders)@[j]);
                    } else {
                        assert(!released(store@, id, j, cleared[j]));
                    }
                }
            }
        },
        _ => {
            orders.clear(slot);
        },
    }
    store.despawn(id);
    event
}

/// No order outlives the building it names: after a building's death, no
/// live entity is left building it or hauling to it.
pub proof fn lemma_no_order_outlives_its_building(v: StoreView, id: EntityId, before: Seq<Order>, after: Seq<Order>)
    requires
        forall|j: int|
            0 <= j < MAX_ENTITIES ==> #[trigger] after[j] == if j == id.index || released(v, id, j, before[j]) {
                Order::Idle
            } else {
                before[j]
            },
    ensures
        forall|j: int| 0 <= j < MAX_ENTITIES && j < v.slots.len() && v.slots[j].alive ==> !bound_to(#[trigger] after[j], id),
{
}

/// Finishing a building and then losing it gives the supply cap back
/// exactly, whenever the grant fit under [`MAX_SUPPLY_CAP`]; past the
/// clamp, the loss can take back more than the finish added.
pub proof fn lemma_finish_then_loss_restores_cap(cap: u32, kind: BuildingKind)
    requires
        cap + spec_supply_grant(kind) <= MAX_SUPPLY_CAP,
    ensures
        sat_sub(granted_cap(cap, kind), spec_supply_grant(kind)) == cap,
{
}

} // verus!
