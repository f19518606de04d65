//! Names of the props sheet's cells, the per-frame packing options, and
//! the death flashes the app keeps on screen.

use vstd::prelude::*;

use super::entity::{UnitKind, MAX_ENTITIES};
use super::world::DeathEvent;

verus! {

/// The unit sprite sheets a frame binds, one texture slot each.
#[derive(Clone, Copy, Debug, PartialEq, Eq, Structural)]
pub enum UnitSheet {
    /// The worker sheet.
    Worker,
    /// The soldier sheet.
    Soldier,
}

/// The sheet a unit kind draws from: its own, except the Ghoul, which has
/// no sheet of its own yet and borrows the soldier's.
pub open spec fn spec_unit_slot(kind: UnitKind) -> UnitSheet {
    match kind {
        UnitKind::Worker => UnitSheet::Worker,
        UnitKind::Soldier => UnitSheet::Soldier,
        UnitKind::Ghoul => UnitSheet::Soldier,
    }
}

/// The texture slot (sheet) a unit kind draws from.
pub fn unit_slot(kind: UnitKind) -> (r: UnitSheet)
    ensures
        r == spec_unit_slot(kind),
{
    match kind {
        UnitKind::Worker => UnitSheet::Worker,
        UnitKind::Soldier => UnitSheet::Soldier,
        UnitKind::Ghoul => UnitSheet::Soldier,
    }
}

/// Named cells of the props sheet, in sheet order.
#[derive(Clone, Copy, Debug, PartialEq, Eq, Structural)]
pub enum Prop {
    SelectionRing,
    PlacementOk,
    PlacementBad,
    RallyFlag,
    CrystalIcon,
    GasIcon,
    SupplyIcon,
    PanelFill,
    GearIcon,
    MinimapFrame,
    IconBuildHq,
    IconBuildDepot,
    IconBuildBarracks,
    IconTrainWorker,
    IconTrainSoldier,
    IconSetRally,
    IconAttack,
    IconStop,
    IconBuildTurret,
    MoveMarker,
}

/// The sheet cell of each prop, row-major, four per row.
pub open spec fn spec_prop_index(p: Prop) -> u8 {
    match p {
        Prop::SelectionRing => 0,
        Prop::PlacementOk => 1,
        Prop::PlacementBad => 2,
        Prop::RallyFlag => 3,
        Prop::CrystalIcon => 4,
        Prop::GasIcon => 5,
        Prop::SupplyIcon => 6,
        Prop::PanelFill => 7,
        Prop::GearIcon => 8,
        Prop::MinimapFrame => 9,
        Prop::IconBuildHq => 10,
        Prop::IconBuildDepot => 11,
        Prop::IconBuildBarracks => 12,
        Prop::IconTrainWorker => 13,
        Prop::IconTrainSoldier => 14,
        Prop::IconSetRally => 15,
        Prop::IconAttack => 16,
        Prop::IconStop => 17,
        Prop::IconBuildTurret => 18,
        Prop::MoveMarker => 19,
    }
}

impl Prop {
    /// The prop's cell on the sheet: row `index / 4`, column `index % 4`.
    pub fn index(self) -> (r: u8)
        ensures
            r == spec_prop_index(self),
    {
        match self {
            Prop::SelectionRing => 0,
            Prop::PlacementOk => 1,
            Prop::PlacementBad => 2,
            Prop::RallyFlag => 3,
            Prop::CrystalIcon => 4,
            Prop::GasIcon => 5,
            Prop::SupplyIcon => 6,
            Prop::PanelFill => 7,
            Prop::GearIcon => 8,
            Prop::MinimapFrame => 9,
            Prop::IconBuildHq => 10,
            Prop::IconBuildDepot => 11,
            Prop::IconBuildBarracks => 12,
            Prop::IconTrainWorker => 13,
            Prop::IconTrainSoldier => 14,
            Prop::IconSetRally => 15,
            Prop::IconAttack => 16,
            Prop::IconStop => 17,
            Prop::IconBuildTurret => 18,
            Prop::MoveMarker => 19,
        }
    }
}

/// Distinct props name distinct sheet cells.
pub proof fn lemma_prop_cells_distinct(a: Prop, b: Prop)
    requires
        a != b,
    ensures
        spec_prop_index(a) != spec_prop_index(b),
{
}

/// Per-frame packing options forwarded by the app.
#[derive(Clone, Copy, Debug, Default, PartialEq, Eq, Structural)]
pub struct FramePackOptions {
    /// Render the full-map isometric grid lattice in the overlay layer.
    pub show_grid: bool,
}

/// Death-flash lifetime, in rendered frames.
pub const DEATH_FLASH_FRAMES: u8 = 12;

/// The flashes after absorbing `events`: each starts a full-length flash,
/// appended in order, while fewer than [`MAX_ENTITIES`] are live; beyond
/// that an event is dropped.
pub open spec fn absorbed(active: Seq<(DeathEvent, u8)>, events: Seq<DeathEvent>) -> Seq<(DeathEvent, u8)>
    decreases events.len(),
{
    if events.len() == 0 {
        active
    } else {
        let prev = absorbed(active, events.drop_last());
        if prev.len() < MAX_ENTITIES {
            prev.push((events.last(), DEATH_FLASH_FRAMES))
        } else {
            prev
        }
    }
}

/// The flashes after one rendered frame: each loses a frame, and those that
/// reach zero are dropped, the rest keeping their order.
pub open spec fn aged(active: Seq<(DeathEvent, u8)>) -> Seq<(DeathEvent, u8)>
    decreases active.len(),
{
    if active.len() == 0 {
        Seq::empty()
    } else {
        let prev = aged(active.drop_last());
        let (e, left) = active.last();
        if left > 1 {
            prev.push((e, (left - 1) as u8))
        } else {
            prev
        }
    }
}

/// The flashes after `k` rendered frames.
pub open spec fn aged_times(active: Seq<(DeathEvent, u8)>, k: nat) -> Seq<(DeathEvent, u8)>
    decreases k,
{
    if k == 0 {
        active
    } else {
        aged(aged_times(active, (k - 1) as nat))
    }
}

/// App-owned render feedback: the death flashes currently on screen, each
/// with its remaining frames.
pub struct DeathFlashes {
    active: Vec<(DeathEvent, u8)>,
}

impl View for DeathFlashes {
    type V = Seq<(DeathEvent, u8)>;

    closed spec fn view(&self) -> Seq<(DeathEvent, u8)> {
        self.active@
    }
}

impl DeathFlashes {
    /// At most [`MAX_ENTITIES`] flashes, each with frames left.
    pub open spec fn wf(&self) -> bool {
        &&& self@.len() <= MAX_ENTITIES
        &&& forall|k: int| 0 <= k < self@.len() ==> 1 <= (#[trigger] self@[k]).1 <= DEATH_FLASH_FRAMES
    }

    /// No flash on screen.
    pub fn new() -> (f: Self)
        ensures
            f.wf(),
            f@ == Seq::<(DeathEvent, u8)>::empty(),
    {
        DeathFlashes { active: Vec::with_capacity(MAX_ENTITIES) }
    }

    /// Start a [`DEATH_FLASH_FRAMES`]-frame flash for each of this tick's
    /// deaths; with [`MAX_ENTITIES`] flashes already live, a further event
    /// is dropped rather than grown into.
    pub fn absorb(&mut self, events: &[DeathEvent])
        requires
            old(self).wf(),
        ensures
            final(self).wf(),
            final(self)@ == absorbed(old(self)@, events@),
    {
        let ghost start = self@;
        let mut i: usize = 0;
        while i < events.len()
            invariant
                i <= events@.len(),
                self.wf(),
                self@ == absorbed(start, events@.subrange(0, i as int)),
            decreases events@.len() - i,
        {
            proof {
                let pre = events@.subrange(0, i as int + 1);
                assert(pre.drop_last() =~= events@.subrange(0, i as int));
                assert(pre.last() == events@[i as int]);
            }
            if self.active.len() < MAX_ENTITIES {
                self.active.push((events[i], DEATH_FLASH_FRAMES));
            }
            i = i + 1;
        }
        proof {
            assert(events@.subrange(0, i as int) =~= events@);
        }
    }

    /// Age every flash by one rendered frame, dropping the expired in place.
    pub fn age(&mut self)
        requires
            old(self).wf(),
        ensures
            final(self).wf(),
            final(self)@ == aged(old(self)@),
    {
        let n = self.active.len();
        let ghost start = self@;
        let mut kept: usize = 0;
        let mut i: usize = 0;
        while i < n
            invariant
                kept <= i <= n,
                n == start.len(),
                self.active@.len() == n,
                n <= MAX_ENTITIES,
                forall|k: int| 0 <= k < n ==> 1 <= (#[trigger] start[k]).1 <= DEATH_FLASH_FRAMES,
                forall|k: int| i <= k < n ==> self.active@[k] == #[trigger] start[k],
                self.active@.subrange(0, kept as int) == aged(start.subrange(0, i as int)),
            decreases n - i,
        {
            let (event, left) = self.active[i];
            proof {
                let pre = start.subrange(0, i as int + 1);
                assert(pre.drop_last() =~= start.subrange(0, i as int));
                assert(pre.last() == start[i as int]);
            }
            let ghost before = self.active@;
            if left > 1 {
                self.active.set(kept, (event, left - 1));
                proof {
                    assert(self.active@.subrange(0, kept as int + 1) =~= before.subrange(0, kept as int).push(
                        (event, (left - 1) as u8),
                    ));
                }
                kept = kept + 1;
            }
            i = i + 1;
        }
        self.active.truncate(kept);
        proof {
            assert(start.subrange(0, n as int) =~= start);
            assert(self.active@ =~= aged(start));
            lemma_aged_in_range(start);
        }
    }

    /// Live flash count.
    pub fn active_count(&self) -> (r: usize)
        ensures
            r == self@.len(),
    {
        self.active.len()
    }

    /// The live flashes, oldest first, each with its remaining frames.
    pub fn active(&self) -> (r: &[(DeathEvent, u8)])
        ensures
            r@ == self@,
    {
        self.active.as_slice()
    }
}

impl Default for DeathFlashes {
    fn default() -> (f: Self)
        ensures
            f.wf(),
            f@ == Seq::<(DeathEvent, u8)>::empty(),
    {
        DeathFlashes::new()
    }
}

/// Aging never lengthens the flash list, and every flash it keeps has a
/// frame left and one frame fewer than before.
proof fn lemma_aged_in_range(active: Seq<(DeathEvent, u8)>)
    requires
        forall|k: int| 0 <= k < active.len() ==> 1 <= (#[trigger] active[k]).1 <= DEATH_FLASH_FRAMES,
    ensures
        aged(active).len() <= active.len(),
        forall|k: int| 0 <= k < aged(active).len() ==> 1 <= (#[trigger] aged(active)[k]).1 < DEATH_FLASH_FRAMES,
    decreases active.len(),
{
    if active.len() > 0 {
        let pre = active.drop_last();
        assert forall|k: int| 0 <= k < pre.len() implies 1 <= (#[trigger] pre[k]).1 <= DEATH_FLASH_FRAMES by {
            assert(pre[k] == active[k]);
        }
        lemma_aged_in_range(pre);
        let prev = aged(pre);
        assert forall|k: int| 0 <= k < aged(active).len() implies 1 <= (#[trigger] aged(active)[k]).1
            < DEATH_FLASH_FRAMES by {
            if k < prev.len() {
                assert(aged(active)[k] == prev[k]);
            }
        }
    }
}

/// A death flash stays on screen for exactly [`DEATH_FLASH_FRAMES`]
/// rendered frames: after `k` agings it is still shown while `k` is below
/// the lifetime, with `DEATH_FLASH_FRAMES - k` frames left, and gone after.
pub proof fn lemma_flash_lifetime(event: DeathEvent, k: nat)
    ensures
        aged_times(seq![(event, DEATH_FLASH_FRAMES)], k) == if k < DEATH_FLASH_FRAMES {
            seq![(event, (DEATH_FLASH_FRAMES - k) as u8)]
        } else {
            Seq::<(DeathEvent, u8)>::empty()
        },
    decreases k,
{
    if k > 0 {
        lemma_flash_lifetime(event, (k - 1) as nat);
        let prev = aged_times(seq![(event, DEATH_FLASH_FRAMES)], (k - 1) as nat);
        if k - 1 < DEATH_FLASH_FRAMES {
            let one = seq![(event, (DEATH_FLASH_FRAMES - (k - 1)) as u8)];
            assert(one.drop_last() =~= Seq::<(DeathEvent, u8)>::empty());
            assert(aged(one.drop_last()) =~= Seq::<(DeathEvent, u8)>::empty());
            if k < DEATH_FLASH_FRAMES {
                assert(aged(one) =~= seq![(event, (DEATH_FLASH_FRAMES - k) as u8)]);
            } else {
                assert(aged(one) =~= Seq::<(DeathEvent, u8)>::empty());
            }
        } else {
            assert(aged(Seq::<(DeathEvent, u8)>::empty()) =~= Seq::<(DeathEvent, u8)>::empty());
        }
    }
}

} // verus!
