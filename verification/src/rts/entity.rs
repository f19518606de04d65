//! Entity kinds, per-kind stats and generational entity handles.

use vstd::prelude::*;

use crate::digest::{le32, sha256_fed, u32_le, Sha256State};

use crate::scenario::{
    BARRACKS_FOOTPRINT_CELLS, DEPOT_FOOTPRINT_CELLS, HQ_FOOTPRINT_CELLS, TURRET_FOOTPRINT_CELLS,
};

verus! {

/// Hard ceiling on simultaneous RTS entities: units + buildings + nodes.
pub const MAX_ENTITIES: usize = 2_048;

/// Owner id of the human player.
pub const OWNER_PLAYER: u8 = 0;
/// Owner id of the enemy faction.
pub const OWNER_ENEMY: u8 = 1;
/// Owner id of unowned world objects (resource nodes).
pub const OWNER_NEUTRAL: u8 = 255;

/// Body radius shared by every current RTS unit kind, in half cells
/// (3 cells).
pub const RTS_UNIT_BODY_RADIUS_HALF_CELLS: u32 = 6;
/// Body diameter shared by every current RTS unit kind, in whole cells.
pub const RTS_UNIT_BODY_DIAMETER_CELLS: u32 = 6;

/// Producible unit kinds.
#[derive(Clone, Copy, Debug, PartialEq, Eq, Hash, Structural)]
pub enum UnitKind {
    Worker,
    Soldier,
    /// Melee enemy. Never player-producible, never supply-counted.
    Ghoul,
}

/// Placeable building kinds.
#[derive(Clone, Copy, Debug, PartialEq, Eq, Hash, Structural)]
pub enum BuildingKind {
    Hq,
    Depot,
    Barracks,
    /// Static defence: fires on its own, takes no orders.
    Turret,
}

/// Harvestable resource kinds.
#[derive(Clone, Copy, Debug, PartialEq, Eq, Hash, Structural)]
pub enum ResourceKind {
    Crystal,
    Gas,
}

/// What an entity is. Discriminants are appended, never inserted — a recorded
/// state hash names a kind by value.
#[derive(Clone, Copy, Debug, PartialEq, Eq, Hash, Structural)]
pub enum EntityKind {
    Unit(UnitKind),
    Building(BuildingKind),
    Node(ResourceKind),
}

/// Discriminant of a unit kind.
pub open spec fn unit_discriminant(k: UnitKind) -> u8 {
    match k {
        UnitKind::Worker => 0,
        UnitKind::Soldier => 1,
        UnitKind::Ghoul => 2,
    }
}

/// Discriminant of a building kind.
pub open spec fn building_discriminant(k: BuildingKind) -> u8 {
    match k {
        BuildingKind::Hq => 0,
        BuildingKind::Depot => 1,
        BuildingKind::Barracks => 2,
        BuildingKind::Turret => 3,
    }
}

/// Discriminant of a resource kind.
pub open spec fn resource_discriminant(k: ResourceKind) -> u8 {
    match k {
        ResourceKind::Crystal => 0,
        ResourceKind::Gas => 1,
    }
}

/// One stable byte per kind: `0x1_` unit, `0x2_` building, `0x3_` node, low
/// nibble the inner discriminant.
pub open spec fn spec_tag(kind: EntityKind) -> u8 {
    match kind {
        EntityKind::Unit(k) => (0x10 + unit_discriminant(k)) as u8,
        EntityKind::Building(k) => (0x20 + building_discriminant(k)) as u8,
        EntityKind::Node(k) => (0x30 + resource_discriminant(k)) as u8,
    }
}

/// Footprint edge of a building kind, in cells.
pub open spec fn spec_building_footprint(k: BuildingKind) -> u32 {
    match k {
        BuildingKind::Hq => HQ_FOOTPRINT_CELLS,
        BuildingKind::Depot => DEPOT_FOOTPRINT_CELLS,
        BuildingKind::Barracks => BARRACKS_FOOTPRINT_CELLS,
        BuildingKind::Turret => TURRET_FOOTPRINT_CELLS,
    }
}

/// Footprint edge of any entity kind: one cell for units and nodes.
pub open spec fn spec_footprint(kind: EntityKind) -> u32 {
    match kind {
        EntityKind::Building(k) => spec_building_footprint(k),
        _ => 1,
    }
}

impl UnitKind {
    /// The unit discriminant as a byte.
    pub fn discriminant(self) -> (r: u8)
        ensures
            r == unit_discriminant(self),
    {
        match self {
            UnitKind::Worker => 0,
            UnitKind::Soldier => 1,
            UnitKind::Ghoul => 2,
        }
    }
}

impl BuildingKind {
    /// The building discriminant as a byte.
    pub fn discriminant(self) -> (r: u8)
        ensures
            r == building_discriminant(self),
    {
        match self {
            BuildingKind::Hq => 0,
            BuildingKind::Depot => 1,
            BuildingKind::Barracks => 2,
            BuildingKind::Turret => 3,
        }
    }

    /// Footprint edge in cells, from the scenario contract's constants.
    pub fn footprint_cells(self) -> (r: u32)
        ensures
            r == spec_building_footprint(self),
    {
        match self {
            BuildingKind::Hq => HQ_FOOTPRINT_CELLS,
            BuildingKind::Depot => DEPOT_FOOTPRINT_CELLS,
            BuildingKind::Barracks => BARRACKS_FOOTPRINT_CELLS,
            BuildingKind::Turret => TURRET_FOOTPRINT_CELLS,
        }
    }

    /// Whether workers may return cargo here. Only the HQ.
    pub fn is_drop_off(self) -> (r: bool)
        ensures
            r == (self == BuildingKind::Hq),
    {
        match self {
            BuildingKind::Hq => true,
            _ => false,
        }
    }
}

impl ResourceKind {
    /// The resource discriminant as a byte.
    pub fn discriminant(self) -> (r: u8)
        ensures
            r == resource_discriminant(self),
    {
        match self {
            ResourceKind::Crystal => 0,
            ResourceKind::Gas => 1,
        }
    }
}

impl EntityKind {
    /// One stable byte per kind, for the state hash.
    pub fn tag(self) -> (r: u8)
        ensures
            r == spec_tag(self),
    {
        match self {
            EntityKind::Unit(k) => 0x10 + k.discriminant(),
            EntityKind::Building(k) => 0x20 + k.discriminant(),
            EntityKind::Node(k) => 0x30 + k.discriminant(),
        }
    }

    /// Footprint edge in cells. Units and nodes occupy a single cell.
    pub fn footprint_cells(self) -> (r: u32)
        ensures
            r == spec_footprint(self),
    {
        match self {
            EntityKind::Building(k) => k.footprint_cells(),
            _ => 1,
        }
    }
}

/// Distinct kinds hash as distinct bytes: the tag of an entity kind names it
/// uniquely.
pub proof fn lemma_tag_is_injective(a: EntityKind, b: EntityKind)
    requires
        spec_tag(a) == spec_tag(b),
    ensures
        a == b,
{
}

/// Full hit points per kind.
pub const WORKER_MAX_HP: u32 = 25;
pub const SOLDIER_MAX_HP: u32 = 40;
pub const GHOUL_MAX_HP: u32 = 30;
pub const HQ_MAX_HP: u32 = 400;
pub const DEPOT_MAX_HP: u32 = 150;
pub const BARRACKS_MAX_HP: u32 = 200;
pub const TURRET_MAX_HP: u32 = 150;

/// Flat damage reduction per kind — a hit deals `max(1, damage - armor)`.
pub const WORKER_ARMOR: u32 = 0;
pub const SOLDIER_ARMOR: u32 = 0;
pub const GHOUL_ARMOR: u32 = 0;
pub const HQ_ARMOR: u32 = 2;
pub const DEPOT_ARMOR: u32 = 1;
pub const BARRACKS_ARMOR: u32 = 1;
pub const TURRET_ARMOR: u32 = 1;

/// Hit points a full-health entity of `kind` spawns with; `0` for a resource
/// node, which carries no hit points at all.
pub open spec fn spec_max_hp(kind: EntityKind) -> u32 {
    match kind {
        EntityKind::Unit(UnitKind::Worker) => WORKER_MAX_HP,
        EntityKind::Unit(UnitKind::Soldier) => SOLDIER_MAX_HP,
        EntityKind::Unit(UnitKind::Ghoul) => GHOUL_MAX_HP,
        EntityKind::Building(BuildingKind::Hq) => HQ_MAX_HP,
        EntityKind::Building(BuildingKind::Depot) => DEPOT_MAX_HP,
        EntityKind::Building(BuildingKind::Barracks) => BARRACKS_MAX_HP,
        EntityKind::Building(BuildingKind::Turret) => TURRET_MAX_HP,
        EntityKind::Node(_) => 0,
    }
}

/// Flat damage reduction of `kind`.
pub open spec fn spec_armor(kind: EntityKind) -> u32 {
    match kind {
        EntityKind::Unit(UnitKind::Worker) => WORKER_ARMOR,
        EntityKind::Unit(UnitKind::Soldier) => SOLDIER_ARMOR,
        EntityKind::Unit(UnitKind::Ghoul) => GHOUL_ARMOR,
        EntityKind::Building(BuildingKind::Hq) => HQ_ARMOR,
        EntityKind::Building(BuildingKind::Depot) => DEPOT_ARMOR,
        EntityKind::Building(BuildingKind::Barracks) => BARRACKS_ARMOR,
        EntityKind::Building(BuildingKind::Turret) => TURRET_ARMOR,
        EntityKind::Node(_) => 0,
    }
}

/// Hit points a full-health entity of `kind` spawns with.
pub fn max_hp(kind: EntityKind) -> (r: u32)
    ensures
        r == spec_max_hp(kind),
{
    match kind {
        EntityKind::Unit(UnitKind::Worker) => WORKER_MAX_HP,
        EntityKind::Unit(UnitKind::Soldier) => SOLDIER_MAX_HP,
        EntityKind::Unit(UnitKind::Ghoul) => GHOUL_MAX_HP,
        EntityKind::Building(BuildingKind::Hq) => HQ_MAX_HP,
        EntityKind::Building(BuildingKind::Depot) => DEPOT_MAX_HP,
        EntityKind::Building(BuildingKind::Barracks) => BARRACKS_MAX_HP,
        EntityKind::Building(BuildingKind::Turret) => TURRET_MAX_HP,
        EntityKind::Node(_) => 0,
    }
}

/// Flat damage reduction of `kind`: one hit deals `max(1, damage - armor)`.
pub fn armor(kind: EntityKind) -> (r: u32)
    ensures
        r == spec_armor(kind),
{
    match kind {
        EntityKind::Unit(UnitKind::Worker) => WORKER_ARMOR,
        EntityKind::Unit(UnitKind::Soldier) => SOLDIER_ARMOR,
        EntityKind::Unit(UnitKind::Ghoul) => GHOUL_ARMOR,
        EntityKind::Building(BuildingKind::Hq) => HQ_ARMOR,
        EntityKind::Building(BuildingKind::Depot) => DEPOT_ARMOR,
        EntityKind::Building(BuildingKind::Barracks) => BARRACKS_ARMOR,
        EntityKind::Building(BuildingKind::Turret) => TURRET_ARMOR,
        EntityKind::Node(_) => 0,
    }
}

/// Every destructible kind spawns with more hit points than its armor, and
/// only a resource node spawns with none.
pub proof fn lemma_only_nodes_have_no_hp(kind: EntityKind)
    ensures
        (spec_max_hp(kind) == 0) <==> (kind is Node),
        spec_armor(kind) < spec_max_hp(kind) || kind is Node,
{
}

/// Sentinel in the carry column meaning "carrying nothing".
pub const CARRY_NONE: u8 = 0xFF;

/// A stable handle into the entity store: a slot index and the generation
/// that slot had when the entity was spawned.
#[derive(Clone, Copy, Debug, PartialEq, Eq, Hash, Structural)]
pub struct EntityId {
    pub index: u32,
    pub generation: u32,
}

/// Everything the store keeps for one slot. `pos_x` and `pos_y` hold the
/// IEEE-754 bit patterns of the cell-space position: the store carries a
/// position and feeds it to the state hash, but never computes with one.
#[derive(Clone, Copy, Debug, PartialEq, Eq)]
pub struct Slot {
    pub alive: bool,
    pub generation: u32,
    pub kind: EntityKind,
    pub owner: u8,
    pub pos_x: u32,
    pub pos_y: u32,
    pub dir: u8,
    pub frame: u8,
    pub progress: u32,
    pub progress_target: u32,
    pub amount: u32,
    pub carry_kind: u8,
    pub carry_amount: u32,
    pub hp: u32,
    pub cooldown: u32,
}

/// What an entity store holds: every slot ever allocated, dead ones
/// included, and the free list of dead slots, most recently freed last.
pub struct StoreView {
    pub slots: Seq<Slot>,
    pub free: Seq<u32>,
}

/// The generation after `g`: one more, wrapping at `u32::MAX`.
pub open spec fn next_generation(g: u32) -> u32 {
    if g == u32::MAX {
        0
    } else {
        (g + 1) as u32
    }
}

/// A carry byte the store can decode: nothing, or a resource discriminant.
pub open spec fn valid_carry(b: u8) -> bool {
    b == CARRY_NONE || b == 0 || b == 1
}

/// Whether `id` names a live entity of `v`: its slot exists, is alive, and
/// still has the generation the handle was issued with.
pub open spec fn spec_contains(v: StoreView, id: EntityId) -> bool {
    &&& id.index < v.slots.len()
    &&& v.slots[id.index as int].alive
    &&& v.slots[id.index as int].generation == id.generation
}

/// Number of live entities: every allocated slot not on the free list.
pub open spec fn spec_live_count(v: StoreView) -> int {
    v.slots.len() - v.free.len()
}

/// The store's invariant: at most [`MAX_ENTITIES`] slots, and the free list
/// holds each dead slot exactly once and nothing else.
pub open spec fn store_ok(v: StoreView) -> bool {
    &&& v.slots.len() <= MAX_ENTITIES
    &&& v.free.no_duplicates()
    &&& forall|k: int|
        0 <= k < v.free.len() ==> (#[trigger] v.free[k]) < v.slots.len() && !v.slots[v.free[k] as int].alive
    &&& forall|i: int| 0 <= i < v.slots.len() && !(#[trigger] v.slots[i]).alive ==> v.free.contains(i as u32)
    &&& forall|i: int| 0 <= i < v.slots.len() ==> valid_carry((#[trigger] v.slots[i]).carry_kind)
}

/// A freshly spawned entity in a slot of generation `generation`: alive,
/// at `pos`, at full hit points, everything else zeroed and empty-handed.
pub open spec fn spawned_slot(generation: u32, kind: EntityKind, owner: u8, pos: [u32; 2]) -> Slot {
    Slot {
        alive: true,
        generation,
        kind,
        owner,
        pos_x: pos@[0],
        pos_y: pos@[1],
        dir: 0,
        frame: 0,
        progress: 0,
        progress_target: 0,
        amount: 0,
        carry_kind: CARRY_NONE,
        carry_amount: 0,
        hp: spec_max_hp(kind),
        cooldown: 0,
    }
}

/// Spawning: the most recently freed slot is reused first, keeping its
/// generation; with none free a new slot of generation 0 is appended; with
/// [`MAX_ENTITIES`] slots all live, nothing changes and no id is issued.
pub open spec fn spawned(v: StoreView, kind: EntityKind, owner: u8, pos: [u32; 2]) -> (StoreView, Option<EntityId>) {
    if v.free.len() > 0 {
        let i = v.free.last();
        let g = v.slots[i as int].generation;
        (
            StoreView { slots: v.slots.update(i as int, spawned_slot(g, kind, owner, pos)), free: v.free.drop_last() },
            Some(EntityId { index: i, generation: g }),
        )
    } else if v.slots.len() < MAX_ENTITIES {
        (
            StoreView { slots: v.slots.push(spawned_slot(0, kind, owner, pos)), free: v.free },
            Some(EntityId { index: v.slots.len() as u32, generation: 0 }),
        )
    } else {
        (v, None)
    }
}

/// Despawning a live id: its slot dies, its generation advances, and it
/// goes on the free list. A stale or dead id changes nothing.
pub open spec fn despawned(v: StoreView, id: EntityId) -> StoreView {
    if spec_contains(v, id) {
        let i = id.index as int;
        let s = v.slots[i];
        StoreView {
            slots: v.slots.update(i, Slot { alive: false, generation: next_generation(s.generation), ..s }),
            free: v.free.push(id.index),
        }
    } else {
        v
    }
}

/// The state-hash bytes of one live slot.
pub open spec fn slot_hash_bytes(s: Slot) -> Seq<u8> {
    seq![spec_tag(s.kind), s.owner] + le32(s.pos_x) + le32(s.pos_y) + seq![s.dir, s.frame] + le32(s.progress)
        + le32(s.progress_target) + le32(s.amount) + seq![s.carry_kind] + le32(s.carry_amount) + le32(s.hp)
        + le32(s.cooldown)
}

/// The state-hash bytes of a store: every live slot's bytes, ascending.
pub open spec fn store_hash_bytes(slots: Seq<Slot>) -> Seq<u8>
    decreases slots.len(),
{
    if slots.len() == 0 {
        Seq::empty()
    } else {
        store_hash_bytes(slots.drop_last()) + if slots.last().alive {
            slot_hash_bytes(slots.last())
        } else {
            Seq::<u8>::empty()
        }
    }
}

/// Preallocated entity store with generational handles.
pub struct EntityStore {
    slots: Vec<Slot>,
    free: Vec<u32>,
    live: usize,
}

impl View for EntityStore {
    type V = StoreView;

    closed spec fn view(&self) -> StoreView {
        StoreView { slots: self.slots@, free: self.free@ }
    }
}

impl EntityStore {
    /// The store is in a state its operations can reach: [`store_ok`], and
    /// the live counter agrees with the free list.
    pub closed spec fn wf(&self) -> bool {
        &&& store_ok(self@)
        &&& self.live == spec_live_count(self@)
    }

    /// A well-formed store satisfies [`store_ok`].
    pub proof fn lemma_store_ok(&self)
        requires
            self.wf(),
        ensures
            store_ok(self@),
    {
    }

    /// An empty store.
    pub fn new() -> (s: Self)
        ensures
            s.wf(),
            s@.slots == Seq::<Slot>::empty(),
            s@.free == Seq::<u32>::empty(),
    {
        EntityStore { slots: Vec::with_capacity(MAX_ENTITIES), free: Vec::with_capacity(MAX_ENTITIES), live: 0 }
    }

    /// Live entity count.
    pub fn len(&self) -> (r: usize)
        requires
            self.wf(),
        ensures
            r == spec_live_count(self@),
    {
        self.live
    }

    pub fn is_empty(&self) -> (r: bool)
        requires
            self.wf(),
        ensures
            r == (spec_live_count(self@) == 0),
    {
        self.live == 0
    }

    /// Slots ever allocated: the iteration bound, dead slots included.
    pub fn slot_count(&self) -> (r: usize)
        ensures
            r == self@.slots.len(),
    {
        self.slots.len()
    }

    /// Allocate an entity at the position whose coordinate bit patterns are
    /// `pos`. `None` when all [`MAX_ENTITIES`] slots are live: a caller that
    /// cannot spawn must see it.
    pub fn spawn(&mut self, kind: EntityKind, owner: u8, pos: [u32; 2]) -> (r: Option<EntityId>)
        requires
            old(self).wf(),
        ensures
            final(self).wf(),
            (final(self)@, r) == spawned(old(self)@, kind, owner, pos),
    {
        let ghost v = self@;
        let idx: usize;
        if self.free.len() > 0 {
            let i = self.free.pop().unwrap();
            idx = i as usize;
            proof {
                assert(v.free.drop_last() =~= self.free@);
                assert(v.free[v.free.len() - 1] == i);
            }
        } else if self.slots.len() < MAX_ENTITIES {
            idx = self.slots.len();
            let placeholder = Slot {
                alive: false,
                generation: 0,
                kind,
                owner,
                pos_x: 0,
                pos_y: 0,
                dir: 0,
                frame: 0,
                progress: 0,
                progress_target: 0,
                amount: 0,
                carry_kind: CARRY_NONE,
                carry_amount: 0,
                hp: 0,
                cooldown: 0,
            };
            self.slots.push(placeholder);
        } else {
            return None;
        }
        let generation = self.slots[idx].generation;
        let fresh = Slot {
            alive: true,
            generation,
            kind,
            owner,
            pos_x: pos[0],
            pos_y: pos[1],
            dir: 0,
            frame: 0,
            progress: 0,
            progress_target: 0,
            amount: 0,
            carry_kind: CARRY_NONE,
            carry_amount: 0,
            hp: max_hp(kind),
            cooldown: 0,
        };
        self.slots.set(idx, fresh);
        self.live = self.live + 1;
        proof {
            assert(fresh == spawned_slot(generation, kind, owner, pos));
            let w = self@;
            if v.free.len() > 0 {
                assert(w.slots =~= v.slots.update(idx as int, fresh));
                assert(v.free =~= w.free.push(idx as u32));
                assert forall|k: int| 0 <= k < w.free.len() implies (#[trigger] w.free[k]) < w.slots.len()
                    && !w.slots[w.free[k] as int].alive by {
                    assert(w.free[k] == v.free[k]);
                    assert(v.free[k] != v.free[v.free.len() - 1]);
                }
                assert forall|j: int| 0 <= j < w.slots.len() && !(#[trigger] w.slots[j]).alive implies w.free.contains(
                    j as u32,
                ) by {
                    assert(v.free.contains(j as u32));
                    let k = choose|k: int| 0 <= k < v.free.len() && v.free[k] == j as u32;
                    assert(k != v.free.len() - 1);
                    assert(w.free[k] == j as u32);
                }
                assert(w.free.no_duplicates()) by {
                    assert forall|a: int, b: int| 0 <= a < b < w.free.len() implies w.free[a] != w.free[b] by {
                        assert(w.free[a] == v.free[a] && w.free[b] == v.free[b]);
                    }
                }
            } else {
                assert(w.slots =~= v.slots.push(fresh));
                assert forall|j: int| 0 <= j < w.slots.len() && !(#[trigger] w.slots[j]).alive implies w.free.contains(
                    j as u32,
                ) by {
                    assert(j < v.slots.len());
                    assert(v.slots[j] == w.slots[j]);
                }
            }
            assert forall|j: int| 0 <= j < w.slots.len() implies valid_carry((#[trigger] w.slots[j]).carry_kind) by {
                if j != idx {
                    assert(w.slots[j] == v.slots[j]);
                }
            }
        }
        Some(EntityId { index: idx as u32, generation })
    }
    /// Free a live id's slot. `false` for a stale or already-dead id, which
    /// changes nothing. Callers own per-slot side tables and must clear them
    /// before the slot is reused.
    pub fn despawn(&mut self, id: EntityId) -> (r: bool)
        requires
            old(self).wf(),
        ensures
            final(self).wf(),
            r == spec_contains(old(self)@, id),
            final(self)@ == despawned(old(self)@, id),
    {
        if !self.contains(id) {
            return false;
        }
        let ghost v = self@;
        let idx = id.index as usize;
        proof {
            lemma_free_shorter_than_slots(v, idx as int);
        }
        let old_slot = self.slots[idx];
        let generation = if old_slot.generation == u32::MAX {
            0
        } else {
            old_slot.generation + 1
        };
        let dead = Slot { alive: false, generation, ..old_slot };
        self.slots.set(idx, dead);
        self.free.push(id.index);
        self.live = self.live - 1;
        proof {
            let w = self@;
            assert(w.slots =~= v.slots.update(idx as int, dead));
            assert(!v.free.contains(id.index)) by {
                if v.free.contains(id.index) {
                    let k = choose|k: int| 0 <= k < v.free.len() && v.free[k] == id.index;
                    assert(!v.slots[v.free[k] as int].alive);
                }
            }
            assert(w.free.no_duplicates()) by {
                assert forall|a: int, b: int| 0 <= a < b < w.free.len() implies w.free[a] != w.free[b] by {
                    if b == w.free.len() - 1 {
                        assert(w.free[a] == v.free[a]);
                    } else {
                        assert(w.free[a] == v.free[a] && w.free[b] == v.free[b]);
                    }
                }
            }
            assert forall|k: int| 0 <= k < w.free.len() implies (#[trigger] w.free[k]) < w.slots.len()
                && !w.slots[w.free[k] as int].alive by {
                if k < v.free.len() {
                    assert(w.free[k] == v.free[k]);
                }
            }
            assert forall|j: int| 0 <= j < w.slots.len() && !(#[trigger] w.slots[j]).alive implies w.free.contains(
                j as u32,
            ) by {
                if j == idx {
                    assert(w.free[w.free.len() - 1] == j as u32);
                } else {
                    assert(v.slots[j] == w.slots[j]);
                    let k = choose|k: int| 0 <= k < v.free.len() && v.free[k] == j as u32;
                    assert(w.free[k] == j as u32);
                }
            }
            assert forall|j: int| 0 <= j < w.slots.len() implies valid_carry((#[trigger] w.slots[j]).carry_kind) by {
                assert(w.slots[j].carry_kind == v.slots[j].carry_kind);
            }
        }
        true
    }

    /// Whether `id` names a live entity.
    pub fn contains(&self, id: EntityId) -> (r: bool)
        ensures
            r == spec_contains(self@, id),
    {
        let idx = id.index as usize;
        idx < self.slots.len() && self.slots[idx].alive && self.slots[idx].generation == id.generation
    }

    /// Slot index of a live id.
    pub fn slot(&self, id: EntityId) -> (r: Option<usize>)
        ensures
            r == if spec_contains(self@, id) { Some(id.index as usize) } else { None::<usize> },
    {
        if self.contains(id) {
            Some(id.index as usize)
        } else {
            None
        }
    }

    /// The id currently occupying `slot`, if it is live.
    pub fn id_at(&self, slot: usize) -> (r: Option<EntityId>)
        ensures
            r == if slot < self@.slots.len() && self@.slots[slot as int].alive {
                Some(EntityId { index: slot as u32, generation: self@.slots[slot as int].generation })
            } else {
                None::<EntityId>
            },
    {
        if slot < self.slots.len() && self.slots[slot].alive {
            Some(EntityId { index: slot as u32, generation: self.slots[slot].generation })
        } else {
            None
        }
    }

    /// Whether `slot` holds a live entity.
    pub fn alive(&self, slot: usize) -> (r: bool)
        requires
            slot < self@.slots.len(),
        ensures
            r == self@.slots[slot as int].alive,
    {
        self.slots[slot].alive
    }

    pub fn kind(&self, slot: usize) -> (r: EntityKind)
        requires
            slot < self@.slots.len(),
            self@.slots[slot as int].alive,
        ensures
            r == self@.slots[slot as int].kind,
    {
        self.slots[slot].kind
    }

    pub fn owner(&self, slot: usize) -> (r: u8)
        requires
            slot < self@.slots.len(),
            self@.slots[slot as int].alive,
        ensures
            r == self@.slots[slot as int].owner,
    {
        self.slots[slot].owner
    }

    /// The bit patterns of the live entity's position.
    pub fn position(&self, slot: usize) -> (r: [u32; 2])
        requires
            slot < self@.slots.len(),
            self@.slots[slot as int].alive,
        ensures
            r@ == seq![self@.slots[slot as int].pos_x, self@.slots[slot as int].pos_y],
    {
        let r = [self.slots[slot].pos_x, self.slots[slot].pos_y];
        assert(r@ =~= seq![self@.slots[slot as int].pos_x, self@.slots[slot as int].pos_y]);
        r
    }

    pub fn dir(&self, slot: usize) -> (r: u8)
        requires
            slot < self@.slots.len(),
            self@.slots[slot as int].alive,
        ensures
            r == self@.slots[slot as int].dir,
    {
        self.slots[slot].dir
    }

    pub fn frame(&self, slot: usize) -> (r: u8)
        requires
            slot < self@.slots.len(),
            self@.slots[slot as int].alive,
        ensures
            r == self@.slots[slot as int].frame,
    {
        self.slots[slot].frame
    }

    /// Construction or production progress in ticks; `0` when nothing is in
    /// progress.
    pub fn progress(&self, slot: usize) -> (r: u32)
        requires
            slot < self@.slots.len(),
            self@.slots[slot as int].alive,
        ensures
            r == self@.slots[slot as int].progress,
    {
        self.slots[slot].progress
    }

    /// Ticks the current progress must reach; `0` when nothing is in progress.
    pub fn progress_target(&self, slot: usize) -> (r: u32)
        requires
            slot < self@.slots.len(),
            self@.slots[slot as int].alive,
        ensures
            r == self@.slots[slot as int].progress_target,
    {
        self.slots[slot].progress_target
    }

    /// Remaining amount in a resource node; `0` for every other kind.
    pub fn amount(&self, slot: usize) -> (r: u32)
        requires
            slot < self@.slots.len(),
            self@.slots[slot as int].alive,
        ensures
            r == self@.slots[slot as int].amount,
    {
        self.slots[slot].amount
    }

    /// Remaining hit points; `0` for a resource node.
    pub fn hp(&self, slot: usize) -> (r: u32)
        requires
            slot < self@.slots.len(),
            self@.slots[slot as int].alive,
        ensures
            r == self@.slots[slot as int].hp,
    {
        self.slots[slot].hp
    }

    /// Ticks until this entity may fire again; `0` means ready.
    pub fn cooldown(&self, slot: usize) -> (r: u32)
        requires
            slot < self@.slots.len(),
            self@.slots[slot as int].alive,
        ensures
            r == self@.slots[slot as int].cooldown,
    {
        self.slots[slot].cooldown
    }

    /// What this unit carries, and how much; `None` when empty-handed.
    pub fn carry(&self, slot: usize) -> (r: Option<(ResourceKind, u32)>)
        requires
            self.wf(),
            slot < self@.slots.len(),
            self@.slots[slot as int].alive,
        ensures
            r == spec_carry(self@.slots[slot as int]),
    {
        let s = self.slots[slot];
        assert(valid_carry(self@.slots[slot as int].carry_kind));
        if s.carry_kind == CARRY_NONE {
            None
        } else if s.carry_kind == 0 {
            Some((ResourceKind::Crystal, s.carry_amount))
        } else {
            Some((ResourceKind::Gas, s.carry_amount))
        }
    }

    /// Live slot indices in ascending order, into a caller-owned buffer,
    /// which is cleared first.
    pub fn collect_live(&self, out: &mut Vec<usize>)
        ensures
            final(out)@ == live_slots(self@.slots),
    {
        out.clear();
        let mut i: usize = 0;
        while i < self.slots.len()
            invariant
                i <= self@.slots.len(),
                out@ == live_slots(self@.slots.subrange(0, i as int)),
            decreases self@.slots.len() - i,
        {
            proof {
                let pre = self@.slots.subrange(0, i as int + 1);
                assert(pre.drop_last() =~= self@.slots.subrange(0, i as int));
            }
            if self.slots[i].alive {
                out.push(i);
            }
            i = i + 1;
        }
        proof {
            assert(self@.slots.subrange(0, i as int) =~= self@.slots);
        }
    }

    /// Feed every live slot's state into `h`, in ascending slot order.
    pub fn hash_into(&self, h: &mut Sha256State)
        ensures
            sha256_fed(*final(h)) == sha256_fed(*old(h)) + store_hash_bytes(self@.slots),
    {
        let ghost start = sha256_fed(*h);
        let mut i: usize = 0;
        while i < self.slots.len()
            invariant
                i <= self@.slots.len(),
                sha256_fed(*h) == start + store_hash_bytes(self@.slots.subrange(0, i as int)),
            decreases self@.slots.len() - i,
        {
            let ghost before = sha256_fed(*h);
            let s = self.slots[i];
            if s.alive {
                slot_hash_into(h, &s);
            }
            proof {
                let pre = self@.slots.subrange(0, i as int + 1);
                assert(pre.drop_last() =~= self@.slots.subrange(0, i as int));
                assert(pre.last() == s);
                if !s.alive {
                    assert(before + Seq::<u8>::empty() =~= before);
                }
                assert(start + store_hash_bytes(pre) =~= before + if s.alive {
                    slot_hash_bytes(s)
                } else {
                    Seq::<u8>::empty()
                });
            }
            i = i + 1;
        }
        proof {
            assert(self@.slots.subrange(0, i as int) =~= self@.slots);
        }
    }

    /// Overwrite the live slot `slot` with `s`, which keeps it alive under the
    /// same generation.
    fn replace_live(&mut self, slot: usize, s: Slot)
        requires
            old(self).wf(),
            slot < old(self)@.slots.len(),
            old(self)@.slots[slot as int].alive,
            s.alive,
            s.generation == old(self)@.slots[slot as int].generation,
            valid_carry(s.carry_kind),
        ensures
            final(self).wf(),
            final(self)@.slots == old(self)@.slots.update(slot as int, s),
            final(self)@.free == old(self)@.free,
    {
        let ghost v = self@;
        self.slots.set(slot, s);
        proof {
            let w = self@;
            assert forall|k: int| 0 <= k < w.free.len() implies (#[trigger] w.free[k]) < w.slots.len()
                && !w.slots[w.free[k] as int].alive by {
                assert(v.free[k] != slot as u32);
            }
            assert forall|j: int| 0 <= j < w.slots.len() && !(#[trigger] w.slots[j]).alive implies w.free.contains(
                j as u32,
            ) by {
                assert(v.slots[j] == w.slots[j]);
            }
            assert forall|j: int| 0 <= j < w.slots.len() implies valid_carry((#[trigger] w.slots[j]).carry_kind) by {
                if j != slot {
                    assert(v.slots[j] == w.slots[j]);
                }
            }
        }
    }

    /// Place a live entity at the position whose bit patterns are `pos`.
    pub fn set_position(&mut self, slot: usize, pos: [u32; 2])
        requires
            old(self).wf(),
            slot < old(self)@.slots.len(),
            old(self)@.slots[slot as int].alive,
        ensures
            final(self).wf(),
            final(self)@.free == old(self)@.free,
            final(self)@.slots == old(self)@.slots.update(
                slot as int,
                Slot { pos_x: pos@[0], pos_y: pos@[1], ..old(self)@.slots[slot as int] },
            ),
    {
        let s = Slot { pos_x: pos[0], pos_y: pos[1], ..self.slots[slot] };
        self.replace_live(slot, s);
    }

    pub fn set_dir(&mut self, slot: usize, dir: u8)
        requires
            old(self).wf(),
            slot < old(self)@.slots.len(),
            old(self)@.slots[slot as int].alive,
        ensures
            final(self).wf(),
            final(self)@.free == old(self)@.free,
            final(self)@.slots == old(self)@.slots.update(slot as int, Slot { dir, ..old(self)@.slots[slot as int] }),
    {
        let s = Slot { dir, ..self.slots[slot] };
        self.replace_live(slot, s);
    }

    pub fn set_frame(&mut self, slot: usize, frame: u8)
        requires
            old(self).wf(),
            slot < old(self)@.slots.len(),
            old(self)@.slots[slot as int].alive,
        ensures
            final(self).wf(),
            final(self)@.free == old(self)@.free,
            final(self)@.slots == old(self)@.slots.update(slot as int, Slot { frame, ..old(self)@.slots[slot as int] }),
    {
        let s = Slot { frame, ..self.slots[slot] };
        self.replace_live(slot, s);
    }

    pub fn set_progress(&mut self, slot: usize, progress: u32, target: u32)
        requires
            old(self).wf(),
            slot < old(self)@.slots.len(),
            old(self)@.slots[slot as int].alive,
        ensures
            final(self).wf(),
            final(self)@.free == old(self)@.free,
            final(self)@.slots == old(self)@.slots.update(
                slot as int,
                Slot { progress, progress_target: target, ..old(self)@.slots[slot as int] },
            ),
    {
        let s = Slot { progress, progress_target: target, ..self.slots[slot] };
        self.replace_live(slot, s);
    }

    pub fn set_amount(&mut self, slot: usize, amount: u32)
        requires
            old(self).wf(),
            slot < old(self)@.slots.len(),
            old(self)@.slots[slot as int].alive,
        ensures
            final(self).wf(),
            final(self)@.free == old(self)@.free,
            final(self)@.slots == old(self)@.slots.update(slot as int, Slot { amount, ..old(self)@.slots[slot as int] }),
    {
        let s = Slot { amount, ..self.slots[slot] };
        self.replace_live(slot, s);
    }

    pub fn set_hp(&mut self, slot: usize, hp: u32)
        requires
            old(self).wf(),
            slot < old(self)@.slots.len(),
            old(self)@.slots[slot as int].alive,
        ensures
            final(self).wf(),
            final(self)@.free == old(self)@.free,
            final(self)@.slots == old(self)@.slots.update(slot as int, Slot { hp, ..old(self)@.slots[slot as int] }),
    {
        let s = Slot { hp, ..self.slots[slot] };
        self.replace_live(slot, s);
    }

    pub fn set_cooldown(&mut self, slot: usize, ticks: u32)
        requires
            old(self).wf(),
            slot < old(self)@.slots.len(),
            old(self)@.slots[slot as int].alive,
        ensures
            final(self).wf(),
            final(self)@.free == old(self)@.free,
            final(self)@.slots == old(self)@.slots.update(
                slot as int,
                Slot { cooldown: ticks, ..old(self)@.slots[slot as int] },
            ),
    {
        let s = Slot { cooldown: ticks, ..self.slots[slot] };
        self.replace_live(slot, s);
    }

    /// Set the carried cargo. `None` clears both the kind and the amount.
    pub fn set_carry(&mut self, slot: usize, cargo: Option<(ResourceKind, u32)>)
        requires
            old(self).wf(),
            slot < old(self)@.slots.len(),
            old(self)@.slots[slot as int].alive,
        ensures
            final(self).wf(),
            final(self)@.free == old(self)@.free,
            final(self)@.slots == old(self)@.slots.update(slot as int, carrying(old(self)@.slots[slot as int], cargo)),
    {
        let s = match cargo {
            None => Slot { carry_kind: CARRY_NONE, carry_amount: 0, ..self.slots[slot] },
            Some((kind, amount)) => Slot { carry_kind: kind.discriminant(), carry_amount: amount, ..self.slots[slot] },
        };
        self.replace_live(slot, s);
    }
}

/// Ascending indices of the live slots.
pub open spec fn live_slots(slots: Seq<Slot>) -> Seq<usize>
    decreases slots.len(),
{
    if slots.len() == 0 {
        Seq::empty()
    } else {
        live_slots(slots.drop_last()) + if slots.last().alive {
            seq![(slots.len() - 1) as usize]
        } else {
            Seq::<usize>::empty()
        }
    }
}

/// Feed one slot's state-hash bytes into `h`.
fn slot_hash_into(h: &mut Sha256State, s: &Slot)
    ensures
        sha256_fed(*final(h)) == sha256_fed(*old(h)) + slot_hash_bytes(*s),
{
    let ghost start = sha256_fed(*h);
    h.update([s.kind.tag(), s.owner].as_slice());
    h.update(u32_le(s.pos_x).as_slice());
    h.update(u32_le(s.pos_y).as_slice());
    h.update([s.dir, s.frame].as_slice());
    h.update(u32_le(s.progress).as_slice());
    h.update(u32_le(s.progress_target).as_slice());
    h.update(u32_le(s.amount).as_slice());
    h.update([s.carry_kind].as_slice());
    h.update(u32_le(s.carry_amount).as_slice());
    h.update(u32_le(s.hp).as_slice());
    h.update(u32_le(s.cooldown).as_slice());
    proof {
        assert(sha256_fed(*h) =~= start + slot_hash_bytes(*s));
    }
}

impl Default for EntityStore {
    fn default() -> (s: Self)
        ensures
            s.wf(),
            s@.slots == Seq::<Slot>::empty(),
            s@.free == Seq::<u32>::empty(),
    {
        EntityStore::new()
    }
}

/// The cargo a slot's carry columns decode to.
pub open spec fn spec_carry(s: Slot) -> Option<(ResourceKind, u32)> {
    if s.carry_kind == CARRY_NONE {
        None
    } else if s.carry_kind == 0 {
        Some((ResourceKind::Crystal, s.carry_amount))
    } else {
        Some((ResourceKind::Gas, s.carry_amount))
    }
}

/// A slot after its cargo is set to `cargo`.
pub open spec fn carrying(s: Slot, cargo: Option<(ResourceKind, u32)>) -> Slot {
    match cargo {
        None => Slot { carry_kind: CARRY_NONE, carry_amount: 0, ..s },
        Some((kind, amount)) => Slot { carry_kind: resource_discriminant(kind), carry_amount: amount, ..s },
    }
}

/// A free list with no duplicates, holding only indices below the slot
/// count and missing the live slot `live`, is shorter than the slot list.
proof fn lemma_free_shorter_than_slots(v: StoreView, live: int)
    requires
        store_ok(v),
        0 <= live < v.slots.len(),
        v.slots[live].alive,
    ensures
        v.free.len() < v.slots.len(),
{
    let fs = v.free.to_set();
    let others = Set::new(|x: u32| x < v.slots.len() && x != live as u32);
    assert(fs.subset_of(others)) by {
        assert forall|x: u32| fs.contains(x) implies others.contains(x) by {
            let k = choose|k: int| 0 <= k < v.free.len() && v.free[k] == x;
            assert(v.free[k] < v.slots.len());
        }
    }
    let n = v.slots.len() as u32;
    let below = Set::new(|x: u32| 0 <= x < n);
    vstd::set_lib::FiniteRange::range_properties(0u32, n);
    assert(below =~= <u32 as vstd::set_lib::FiniteRange>::range_set(0u32, n));
    v.free.unique_seq_to_set();
    assert(others =~= below.remove(live as u32));
    vstd::set_lib::lemma_len_subset(fs, others);
}

/// A despawned handle stays stale: once its entity is despawned the id no
/// longer resolves, not even after the slot is reused by the next spawn,
/// which is issued a different id.
pub proof fn lemma_despawned_id_stays_stale(v: StoreView, id: EntityId, kind: EntityKind, owner: u8, pos: [u32; 2])
    requires
        store_ok(v),
        spec_contains(v, id),
    ensures
        !spec_contains(despawned(v, id), id),
        !spec_contains(spawned(despawned(v, id), kind, owner, pos).0, id),
        spawned(despawned(v, id), kind, owner, pos).1 != Some(id),
{
    let v1 = despawned(v, id);
    assert(v1.free.last() == id.index);
}

/// The free list is last-in first-out: the slot freed last is the one the
/// next spawn takes, under the next generation.
pub proof fn lemma_despawned_slot_is_reused_first(
    v: StoreView,
    id: EntityId,
    kind: EntityKind,
    owner: u8,
    pos: [u32; 2],
)
    requires
        store_ok(v),
        spec_contains(v, id),
    ensures
        spawned(despawned(v, id), kind, owner, pos).1 == Some(
            EntityId { index: id.index, generation: next_generation(id.generation) },
        ),
{
    let v1 = despawned(v, id);
    assert(v1.free.last() == id.index);
}

/// Spawning issues a live id and keeps every id that was live live; a
/// spawn fails exactly when all [`MAX_ENTITIES`] slots hold live entities,
/// and otherwise adds one to the live count.
pub proof fn lemma_spawn_keeps_ids(v: StoreView, kind: EntityKind, owner: u8, pos: [u32; 2], other: EntityId)
    requires
        store_ok(v),
    ensures
        spawned(v, kind, owner, pos).1 is None <==> spec_live_count(v) == MAX_ENTITIES,
        spawned(v, kind, owner, pos).1 matches Some(id) ==> spec_contains(spawned(v, kind, owner, pos).0, id)
            && spec_live_count(spawned(v, kind, owner, pos).0) == spec_live_count(v) + 1,
        spec_contains(v, other) ==> spec_contains(spawned(v, kind, owner, pos).0, other),
{
    if v.free.len() > 0 {
        let i = v.free.last();
        assert(v.free[v.free.len() - 1] == i);
        assert(!v.slots[i as int].alive);
    }
}

/// Despawning a live id takes one from the live count and leaves every
/// other live id live.
pub proof fn lemma_despawn_keeps_others(v: StoreView, id: EntityId, other: EntityId)
    requires
        store_ok(v),
        spec_contains(v, id),
        spec_contains(v, other),
        other != id,
    ensures
        spec_contains(despawned(v, id), other),
        spec_live_count(despawned(v, id)) == spec_live_count(v) - 1,
{
}

/// Setting a unit's cargo and reading it back gives the same cargo.
pub proof fn lemma_carry_round_trip(s: Slot, cargo: Option<(ResourceKind, u32)>)
    ensures
        spec_carry(carrying(s, cargo)) == cargo,
        valid_carry(carrying(s, cargo).carry_kind),
{
}

} // verus!
