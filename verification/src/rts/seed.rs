//! Seeding a world from its scenario: the HQ and the resource nodes, then
//! the workers and the pre-placed enemies, then the opening stock and supply.
//!
//! Where each entity stands is a cell-space centre: a fixture's is its
//! footprint centre, a unit's the nearest free body centre to its scenario
//! cell, found against the navigation masks the fixtures make. Those
//! positions are computed by the caller and handed in as the bit patterns
//! the store keeps; what goes into the store, in which order, with which
//! owner and amount, and when seeding fails, is decided here.

use vstd::prelude::*;

use crate::scenario::{Scenario, MAX_SUPPLY_CAP};

use super::economy::{sat_add, Resources, Supply, WORKER_SUPPLY_COST};
use super::entity::{
    spawned_slot, BuildingKind, EntityKind, EntityStore, ResourceKind, Slot, UnitKind, MAX_ENTITIES, OWNER_ENEMY,
    OWNER_NEUTRAL, OWNER_PLAYER,
};
use super::world::{RtsWorldError, NODE_CRYSTAL_AMOUNT, NODE_GAS_AMOUNT};

verus! {

/// What a freshly seeded node of `kind` holds.
pub open spec fn spec_node_amount(kind: ResourceKind) -> u32 {
    match kind {
        ResourceKind::Crystal => NODE_CRYSTAL_AMOUNT,
        ResourceKind::Gas => NODE_GAS_AMOUNT,
    }
}

/// What a freshly seeded node of `kind` holds.
pub fn node_amount(kind: ResourceKind) -> (r: u32)
    ensures
        r == spec_node_amount(kind),
{
    match kind {
        ResourceKind::Crystal => NODE_CRYSTAL_AMOUNT,
        ResourceKind::Gas => NODE_GAS_AMOUNT,
    }
}

/// A freshly seeded node: neutral, full.
pub open spec fn node_slot(kind: ResourceKind, pos: [u32; 2]) -> Slot {
    Slot { amount: spec_node_amount(kind), ..spawned_slot(0, EntityKind::Node(kind), OWNER_NEUTRAL, pos) }
}

/// The fixtures' slots, in seeding order: the player's HQ, every crystal
/// node, every gas node.
pub open spec fn fixture_slots(hq_pos: [u32; 2], crystal: Seq<[u32; 2]>, gas: Seq<[u32; 2]>) -> Seq<Slot> {
    seq![spawned_slot(0, EntityKind::Building(BuildingKind::Hq), OWNER_PLAYER, hq_pos)]
        + crystal.map_values(|p: [u32; 2]| node_slot(ResourceKind::Crystal, p))
        + gas.map_values(|p: [u32; 2]| node_slot(ResourceKind::Gas, p))
}

/// The units' slots, in seeding order: every worker for the player, then
/// every pre-placed enemy.
pub open spec fn unit_slots(workers: Seq<[u32; 2]>, ghouls: Seq<[u32; 2]>) -> Seq<Slot> {
    workers.map_values(|p: [u32; 2]| spawned_slot(0, EntityKind::Unit(UnitKind::Worker), OWNER_PLAYER, p))
        + ghouls.map_values(|p: [u32; 2]| spawned_slot(0, EntityKind::Unit(UnitKind::Ghoul), OWNER_ENEMY, p))
}

/// Append one fresh entity to a store that has never freed a slot.
fn append(store: &mut EntityStore, kind: EntityKind, owner: u8, pos: [u32; 2]) -> (ok: bool)
    requires
        old(store).wf(),
        old(store)@.free.len() == 0,
    ensures
        final(store).wf(),
        final(store)@.free.len() == 0,
        ok == (old(store)@.slots.len() < MAX_ENTITIES),
        ok ==> final(store)@.slots == old(store)@.slots.push(spawned_slot(0, kind, owner, pos)),
        !ok ==> final(store)@ == old(store)@,
{
    store.spawn(kind, owner, pos).is_some()
}

/// Seed the HQ and the resource nodes into an empty store: the HQ at
/// `hq_pos`, then a crystal node at each of `crystal_pos` and a gas node at
/// each of `gas_pos`, one per node cell of the scenario, in its order.
/// Refused for a scenario without an RTS block, and when the fixtures do
/// not fit in [`MAX_ENTITIES`] slots (naming the first that did not fit).
pub fn seed_fixtures(scenario: &Scenario, hq_pos: [u32; 2], crystal_pos: &[[u32; 2]], gas_pos: &[[u32; 2]]) -> (r:
    Result<EntityStore, RtsWorldError>)
    requires
        scenario@.rts matches Some(rts) ==> crystal_pos@.len() == rts.crystal_nodes@.len() && gas_pos@.len()
            == rts.gas_nodes@.len(),
    ensures
        scenario@.rts is None <==> r matches Err(RtsWorldError::NotAnRtsScene { .. }),
        r matches Err(RtsWorldError::NotAnRtsScene { version }) ==> version@ == scenario@.version,
        scenario@.rts is Some ==> (r is Ok <==> 1 + crystal_pos@.len() + gas_pos@.len() <= MAX_ENTITIES),
        scenario@.rts is Some && 1 + crystal_pos@.len() > MAX_ENTITIES ==> (r matches Err(
            RtsWorldError::StoreFull { what },
        ) && what@ == "crystal node"@),
        scenario@.rts is Some && 1 + crystal_pos@.len() <= MAX_ENTITIES < 1 + crystal_pos@.len() + gas_pos@.len()
            ==> (r matches Err(RtsWorldError::StoreFull { what }) && what@ == "gas node"@),
        r matches Ok(store) ==> {
            &&& store.wf()
            &&& store@.free.len() == 0
            &&& store@.slots == fixture_slots(hq_pos, crystal_pos@, gas_pos@)
        },
{
    proof {
        reveal_strlit("crystal node");
        reveal_strlit("gas node");
    }
    if scenario.rts().is_none() {
        return Err(RtsWorldError::NotAnRtsScene { version: scenario.version().to_owned() });
    }
    let mut store = EntityStore::new();
    append(&mut store, EntityKind::Building(BuildingKind::Hq), OWNER_PLAYER, hq_pos);
    let ghost hq = seq![spawned_slot(0, EntityKind::Building(BuildingKind::Hq), OWNER_PLAYER, hq_pos)];
    assert(store@.slots =~= hq);
    let crystal_amount = node_amount(ResourceKind::Crystal);
    let mut k: usize = 0;
    while k < crystal_pos.len()
        invariant
            store.wf(),
            store@.free.len() == 0,
            scenario@.rts is Some,
            k <= crystal_pos@.len(),
            1 + k <= MAX_ENTITIES,
            store@.slots.len() == 1 + k,
            crystal_amount == NODE_CRYSTAL_AMOUNT,
            store@.slots == hq + crystal_pos@.subrange(0, k as int).map_values(
                |p: [u32; 2]| node_slot(ResourceKind::Crystal, p),
            ),
        decreases crystal_pos@.len() - k,
    {
        let ghost before = store@.slots;
        if !append(&mut store, EntityKind::Node(ResourceKind::Crystal), OWNER_NEUTRAL, crystal_pos[k]) {
            return Err(RtsWorldError::StoreFull { what: "crystal node".to_owned() });
        }
        store.set_amount(1 + k, crystal_amount);
        proof {
            assert(store@.slots =~= hq + crystal_pos@.subrange(0, k as int + 1).map_values(
                |p: [u32; 2]| node_slot(ResourceKind::Crystal, p),
            ));
        }
        k = k + 1;
    }
    let ghost crystal = hq + crystal_pos@.map_values(|p: [u32; 2]| node_slot(ResourceKind::Crystal, p));
    assert(crystal_pos@.subrange(0, k as int) =~= crystal_pos@);
    let gas_amount = node_amount(ResourceKind::Gas);
    let base = 1 + crystal_pos.len();
    let mut k: usize = 0;
    while k < gas_pos.len()
        invariant
            store.wf(),
            store@.free.len() == 0,
            scenario@.rts is Some,
            k <= gas_pos@.len(),
            base == 1 + crystal_pos@.len(),
            base + k <= MAX_ENTITIES,
            store@.slots.len() == base + k,
            gas_amount == NODE_GAS_AMOUNT,
            store@.slots == crystal + gas_pos@.subrange(0, k as int).map_values(
                |p: [u32; 2]| node_slot(ResourceKind::Gas, p),
            ),
        decreases gas_pos@.len() - k,
    {
        if !append(&mut store, EntityKind::Node(ResourceKind::Gas), OWNER_NEUTRAL, gas_pos[k]) {
            return Err(RtsWorldError::StoreFull { what: "gas node".to_owned() });
        }
        store.set_amount(base + k, gas_amount);
        proof {
            assert(store@.slots =~= crystal + gas_pos@.subrange(0, k as int + 1).map_values(
                |p: [u32; 2]| node_slot(ResourceKind::Gas, p),
            ));
        }
        k = k + 1;
    }
    assert(gas_pos@.subrange(0, k as int) =~= gas_pos@);
    Ok(store)
}

/// Seed the units into a store holding the fixtures: a player worker at each
/// of `worker_pos` (one per scenario spawn cell), then an enemy Ghoul at each
/// of `ghoul_pos` (one per pre-placed enemy). `Err` when they do not all fit
/// in [`MAX_ENTITIES`] slots, naming the first kind that did not fit; the
/// partly seeded store is then discarded with the world.
pub fn seed_units(store: &mut EntityStore, worker_pos: &[[u32; 2]], ghoul_pos: &[[u32; 2]]) -> (r: Result<
    (),
    RtsWorldError,
>)
    requires
        old(store).wf(),
        old(store)@.free.len() == 0,
    ensures
        final(store).wf(),
        r is Ok <==> old(store)@.slots.len() + worker_pos@.len() + ghoul_pos@.len() <= MAX_ENTITIES,
        old(store)@.slots.len() + worker_pos@.len() > MAX_ENTITIES ==> (r matches Err(
            RtsWorldError::StoreFull { what },
        ) && what@ == "worker"@),
        old(store)@.slots.len() + worker_pos@.len() <= MAX_ENTITIES < old(store)@.slots.len() + worker_pos@.len()
            + ghoul_pos@.len() ==> (r matches Err(RtsWorldError::StoreFull { what }) && what@ == "ghoul"@),
        r is Ok ==> final(store)@.free.len() == 0 && final(store)@.slots == old(store)@.slots + unit_slots(
            worker_pos@,
            ghoul_pos@,
        ),
{
    proof {
        reveal_strlit("worker");
        reveal_strlit("ghoul");
        store.lemma_store_ok();
    }
    let ghost start = store@.slots;
    let mut k: usize = 0;
    while k < worker_pos.len()
        invariant
            store.wf(),
            store@.free.len() == 0,
            k <= worker_pos@.len(),
            start == old(store)@.slots,
            start.len() + k <= MAX_ENTITIES,
            store@.slots.len() == start.len() + k,
            store@.slots == start + worker_pos@.subrange(0, k as int).map_values(
                |p: [u32; 2]| spawned_slot(0, EntityKind::Unit(UnitKind::Worker), OWNER_PLAYER, p),
            ),
        decreases worker_pos@.len() - k,
    {
        if !append(store, EntityKind::Unit(UnitKind::Worker), OWNER_PLAYER, worker_pos[k]) {
            return Err(RtsWorldError::StoreFull { what: "worker".to_owned() });
        }
        proof {
            assert(store@.slots =~= start + worker_pos@.subrange(0, k as int + 1).map_values(
                |p: [u32; 2]| spawned_slot(0, EntityKind::Unit(UnitKind::Worker), OWNER_PLAYER, p),
            ));
        }
        k = k + 1;
    }
    assert(worker_pos@.subrange(0, k as int) =~= worker_pos@);
    let ghost mid = store@.slots;
    let mut k: usize = 0;
    while k < ghoul_pos.len()
        invariant
            store.wf(),
            store@.free.len() == 0,
            k <= ghoul_pos@.len(),
            start == old(store)@.slots,
            mid.len() == start.len() + worker_pos@.len(),
            mid.len() + k <= MAX_ENTITIES,
            store@.slots.len() == mid.len() + k,
            store@.slots == mid + ghoul_pos@.subrange(0, k as int).map_values(
                |p: [u32; 2]| spawned_slot(0, EntityKind::Unit(UnitKind::Ghoul), OWNER_ENEMY, p),
            ),
        decreases ghoul_pos@.len() - k,
    {
        if !append(store, EntityKind::Unit(UnitKind::Ghoul), OWNER_ENEMY, ghoul_pos[k]) {
            return Err(RtsWorldError::StoreFull { what: "ghoul".to_owned() });
        }
        proof {
            assert(store@.slots =~= mid + ghoul_pos@.subrange(0, k as int + 1).map_values(
                |p: [u32; 2]| spawned_slot(0, EntityKind::Unit(UnitKind::Ghoul), OWNER_ENEMY, p),
            ));
        }
        k = k + 1;
    }
    assert(ghoul_pos@.subrange(0, k as int) =~= ghoul_pos@);
    assert(store@.slots =~= start + unit_slots(worker_pos@, ghoul_pos@));
    Ok(())
}

/// The opening stock and supply of a scenario's RTS block: its starting
/// crystal and gas; its starting cap, clamped to [`MAX_SUPPLY_CAP`]; and
/// one worker's supply used for each spawn cell.
pub fn opening_stock(scenario: &Scenario) -> (r: Result<(Resources, Supply), RtsWorldError>)
    ensures
        scenario@.rts is None <==> r is Err,
        r matches Err(e) ==> e matches RtsWorldError::NotAnRtsScene { version } && version@ == scenario@.version,
        r matches Ok((stock, supply)) ==> {
            let rts = scenario@.rts->Some_0;
            &&& stock == Resources { crystal: rts.start_crystal, gas: rts.start_gas }
            &&& supply.cap_spec() == if rts.start_supply_cap <= MAX_SUPPLY_CAP {
                rts.start_supply_cap
            } else {
                MAX_SUPPLY_CAP
            }
            &&& supply.used_spec() == if scenario@.spawn_cells.len() * WORKER_SUPPLY_COST <= u32::MAX {
                scenario@.spawn_cells.len() * WORKER_SUPPLY_COST
            } else {
                u32::MAX as int
            }
            &&& supply.wf()
        },
{
    let rts = match scenario.rts() {
        Some(rts) => rts,
        None => {
            return Err(RtsWorldError::NotAnRtsScene { version: scenario.version().to_owned() });
        },
    };
    let stock = Resources { crystal: rts.start_crystal, gas: rts.start_gas };
    let mut supply = Supply::new(rts.start_supply_cap);
    let workers = scenario.spawn_cells().len();
    let used: u32 = if workers <= u32::MAX as usize { workers as u32 } else { u32::MAX };
    supply.add_used(used);
    Ok((stock, supply))
}

} // verus!
