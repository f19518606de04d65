//! The per-kind weapon table of instant-hit combat.

use vstd::prelude::*;

use super::entity::{BuildingKind, UnitKind};

verus! {

/// An instant-hit weapon: no projectile entity, the damage lands on the tick
/// the shot fires.
#[derive(Clone, Copy, Debug, PartialEq, Eq, Structural)]
pub struct Weapon {
    /// Raw damage per shot, before the defender's armor: the world applies
    /// `max(1, damage - armor)`.
    pub damage: u32,
    /// Ticks between shots: the cooldown resets to this on every shot, so the
    /// firing period is exactly this many ticks.
    pub cooldown_ticks: u32,
    /// Reach in whole cells, measured to the target's surface.
    pub range_cells: u32,
}

/// The weapon a unit kind carries: a Soldier 6 damage every 15 ticks at 24
/// cells, a Ghoul 5 every 30 ticks at 8 cells, a Worker none.
pub open spec fn spec_weapon(kind: UnitKind) -> Option<Weapon> {
    match kind {
        UnitKind::Worker => None,
        UnitKind::Soldier => Some(Weapon { damage: 6, cooldown_ticks: 15, range_cells: 24 }),
        UnitKind::Ghoul => Some(Weapon { damage: 5, cooldown_ticks: 30, range_cells: 8 }),
    }
}

/// The weapon of a building kind: only the Turret is armed, 10 damage every
/// 20 ticks at 36 cells.
pub open spec fn spec_building_weapon(kind: BuildingKind) -> Option<Weapon> {
    match kind {
        BuildingKind::Turret => Some(Weapon { damage: 10, cooldown_ticks: 20, range_cells: 36 }),
        _ => None,
    }
}

/// The weapon a unit kind carries. `None` never fires.
pub fn weapon(kind: UnitKind) -> (r: Option<Weapon>)
    ensures
        r == spec_weapon(kind),
{
    match kind {
        UnitKind::Worker => None,
        UnitKind::Soldier => Some(Weapon { damage: 6, cooldown_ticks: 15, range_cells: 24 }),
        UnitKind::Ghoul => Some(Weapon { damage: 5, cooldown_ticks: 30, range_cells: 8 }),
    }
}

/// Weapon of a building kind. A `None` building never fires, and an armed
/// building fires only once finished.
pub fn building_weapon(kind: BuildingKind) -> (r: Option<Weapon>)
    ensures
        r == spec_building_weapon(kind),
{
    match kind {
        BuildingKind::Turret => Some(Weapon { damage: 10, cooldown_ticks: 20, range_cells: 36 }),
        BuildingKind::Hq | BuildingKind::Depot | BuildingKind::Barracks => None,
    }
}

} // verus!
