//! The control HUD's decisions: control visual states, command identities,
//! modal hits, and allocation-free number formatting.

use vstd::prelude::*;

use crate::text::{dec, digit_char, lemma_dec_nonempty};

use super::entity::{BuildingKind, EntityKind, ResourceKind, UnitKind};
use super::pack::Prop;

verus! {

/// Keyboard and edge pan speed bounds of the settings sliders.
pub const PAN_MIN: u32 = 6;
pub const PAN_MAX: u32 = 96;
pub const PAN_STEP: u32 = 6;

/// Volume bounds of the audio sliders.
pub const VOLUME_MIN: u32 = 0;
pub const VOLUME_MAX: u32 = 100;
pub const VOLUME_STEP: u32 = 5;

/// Multi-selection icon grid: columns, rows, and the icons it shows.
pub const MULTI_ICON_COLS: usize = 8;
pub const MULTI_ICON_ROWS: usize = 3;
pub const MULTI_ICON_CAP: usize = MULTI_ICON_COLS * MULTI_ICON_ROWS;

/// Columns of the 3x3 command grid.
pub const COMMAND_GRID_COLS: usize = 3;

/// Discrete visual state of one interactive control.
///
/// Precedence when resolving: Disabled, Pressed, Hover, Selected, Idle.
#[derive(Clone, Copy, Debug, PartialEq, Eq, Structural)]
pub enum ControlVisualState {
    Idle,
    Hover,
    Pressed,
    Selected,
    Disabled,
}

/// Stable identity of one interactive control for the pointer state machine.
#[derive(Clone, Copy, Debug, PartialEq, Eq, Hash, Structural)]
pub enum ControlId {
    Menu,
    /// Selection-card icon slot.
    SelectionIcon(u8),
    CommandSlot(u8),
    PauseSettings,
    PauseClose,
    WindowMode(u8),
    Confine,
    Focus,
    Grid,
    KeyboardPanSlider,
    EdgePanSlider,
    MasterSlider,
    MusicSlider,
    VoiceSlider,
    SfxSlider,
    KeyboardPanField,
    EdgePanField,
    MasterField,
    MusicField,
    VoiceField,
    SfxField,
    MasterMute,
    MusicMute,
    VoiceMute,
    SfxMute,
    SettingsBack,
    ScrollbarTrack,
    ScrollbarThumb,
}

/// Pointer hover/press snapshot fed into the interactive packers.
#[derive(Clone, Copy, Debug, PartialEq, Eq, Structural)]
pub struct InteractionSnapshot {
    pub hovered: Option<ControlId>,
    pub pressed: Option<ControlId>,
}

impl InteractionSnapshot {
    /// Nothing hovered, nothing pressed.
    pub fn none() -> (r: Self)
        ensures
            r.hovered is None,
            r.pressed is None,
    {
        InteractionSnapshot { hovered: None, pressed: None }
    }
}

/// The visual state a control takes, by the precedence Disabled, Pressed,
/// Hover, Selected, Idle.
pub open spec fn spec_control_visual_state(id: ControlId, interaction: InteractionSnapshot, selected: bool, disabled: bool) -> ControlVisualState {
    if disabled {
        ControlVisualState::Disabled
    } else if interaction.pressed == Some(id) {
        ControlVisualState::Pressed
    } else if interaction.hovered == Some(id) {
        ControlVisualState::Hover
    } else if selected {
        ControlVisualState::Selected
    } else {
        ControlVisualState::Idle
    }
}

/// Resolve one control's visual state from the interaction and its
/// selected/disabled flags.
pub fn control_visual_state(id: ControlId, interaction: &InteractionSnapshot, selected: bool, disabled: bool) -> (r: ControlVisualState)
    ensures
        r == spec_control_visual_state(id, *interaction, selected, disabled),
{
    if disabled {
        return ControlVisualState::Disabled;
    }
    if interaction.pressed == Some(id) {
        return ControlVisualState::Pressed;
    }
    if interaction.hovered == Some(id) {
        return ControlVisualState::Hover;
    }
    if selected {
        return ControlVisualState::Selected;
    }
    ControlVisualState::Idle
}

/// Bytes of the number buffer: the longest decimal a `u32` needs, plus room
/// for a `/` pair of short numbers.
pub const NUM_BUF: usize = 12;

/// The ASCII byte of decimal digit `d`.
pub open spec fn digit_byte(d: nat) -> u8 {
    (48 + d) as u8
}

/// The characters of ASCII bytes.
pub open spec fn ascii_chars(bytes: Seq<u8>) -> Seq<char> {
    bytes.map_values(|b: u8| b as char)
}

proof fn lemma_digit_byte_char(d: nat)
    requires
        d < 10,
    ensures
        digit_byte(d) as char == digit_char(d),
        digit_byte(d) < 128,
{
    assert('0' as u32 == 48 && '1' as u32 == 49 && '2' as u32 == 50 && '3' as u32 == 51 && '4' as u32 == 52);
    assert('5' as u32 == 53 && '6' as u32 == 54 && '7' as u32 == 55 && '8' as u32 == 56 && '9' as u32 == 57);
}

/// `10^k`.
pub open spec fn pow10(k: nat) -> nat
    decreases k,
{
    if k == 0 {
        1
    } else {
        10 * pow10((k - 1) as nat)
    }
}

/// A number below `10^k` has at most `k` decimal digits.
proof fn lemma_dec_len(n: nat, k: nat)
    requires
        n < pow10(k),
        k >= 1,
    ensures
        dec(n).len() <= k,
    decreases k,
{
    if n >= 10 {
        if k == 1 {
            assert(pow10(1) == 10 * pow10(0));
        } else {
            assert(pow10(k) == 10 * pow10((k - 1) as nat));
            assert(n / 10 < pow10((k - 1) as nat)) by (nonlinear_arith)
                requires
                    n < 10 * pow10((k - 1) as nat),
            ;
            lemma_dec_len(n / 10, (k - 1) as nat);
        }
    }
}

/// A `u32` has at most ten decimal digits.
pub proof fn lemma_dec_u32_len(v: u32)
    ensures
        1 <= dec(v as nat).len() <= 10,
{
    lemma_dec_nonempty(v as nat);
    reveal_with_fuel(pow10, 11);
    assert(pow10(10) == 10_000_000_000);
    lemma_dec_len(v as nat, 10);
}

/// `std::str::from_utf8`, on bytes its documentation guarantees valid: every
/// byte ASCII, so the text is one character per byte with the byte's value.
#[verifier::external_body]
fn ascii_str(bytes: &[u8]) -> (s: &str)
    requires
        forall|i: int| 0 <= i < bytes@.len() ==> bytes@[i] < 128,
    ensures
        s@ == ascii_chars(bytes@),
{
    std::str::from_utf8(bytes).expect("ascii digits")
}

/// The decimal rendering of `n` as ASCII bytes, most significant first.
pub open spec fn dec_ascii(n: nat) -> Seq<u8>
    decreases n,
{
    if n < 10 {
        seq![digit_byte(n)]
    } else {
        dec_ascii(n / 10) + seq![digit_byte(n % 10)]
    }
}

/// The ASCII rendering reads as the decimal rendering.
pub proof fn lemma_dec_ascii(n: nat)
    ensures
        ascii_chars(dec_ascii(n)) == dec(n),
        dec_ascii(n).len() == dec(n).len(),
        forall|k: int| 0 <= k < dec_ascii(n).len() ==> #[trigger] dec_ascii(n)[k] < 128,
    decreases n,
{
    if n < 10 {
        lemma_digit_byte_char(n);
        assert(ascii_chars(dec_ascii(n)) =~= dec(n));
    } else {
        lemma_dec_ascii(n / 10);
        lemma_digit_byte_char(n % 10);
        assert(ascii_chars(dec_ascii(n)) =~= ascii_chars(dec_ascii(n / 10)) + seq![digit_char(n % 10)]);
        assert forall|k: int| 0 <= k < dec_ascii(n).len() implies #[trigger] dec_ascii(n)[k] < 128 by {
            if k < dec_ascii(n / 10).len() {
                assert(dec_ascii(n)[k] == dec_ascii(n / 10)[k]);
            }
        }
    }
}

/// Write the decimal digits of `v` into `buf` right to left, ending just
/// before `end`; the index of the first digit.
fn write_digits(buf: &mut [u8; NUM_BUF], end: usize, v: u32) -> (start: usize)
    requires
        end <= NUM_BUF,
        dec(v as nat).len() <= end,
    ensures
        start == end - dec(v as nat).len(),
        final(buf)@ == old(buf)@.subrange(0, start as int) + dec_ascii(v as nat) + old(buf)@.subrange(end as int, NUM_BUF as int),
{
    let ghost b0 = buf@;
    let ghost vv = v as nat;
    proof {
        lemma_dec_ascii(vv);
    }
    let mut i = end;
    let mut n = v;
    i = i - 1;
    buf[i] = 48 + (n % 10) as u8;
    n = n / 10;
    proof {
        if n > 0 {
            lemma_dec_ascii(n as nat);
        }
        assert(buf@.subrange(i as int, end as int) =~= seq![digit_byte(vv % 10)]);
    }
    while n > 0
        invariant
            end <= NUM_BUF,
            i <= end,
            dec(vv).len() == dec_ascii(vv).len(),
            dec(vv).len() <= end,
            buf@.len() == NUM_BUF,
            n > 0 ==> dec_ascii(vv) == dec_ascii(n as nat) + buf@.subrange(i as int, end as int),
            n > 0 ==> dec_ascii(n as nat).len() >= 1,
            n == 0 ==> dec_ascii(vv) == buf@.subrange(i as int, end as int),
            forall|k: int| 0 <= k < i ==> buf@[k] == b0[k],
            forall|k: int| end <= k < NUM_BUF ==> buf@[k] == b0[k],
        decreases n,
    {
        let ghost nn = n as nat;
        let ghost before = buf@;
        i = i - 1;
        buf[i] = 48 + (n % 10) as u8;
        n = n / 10;
        proof {
            assert(buf@.subrange(i as int, end as int) =~= seq![digit_byte(nn % 10)] + before.subrange(i + 1, end as int));
            if n > 0 {
                lemma_dec_ascii(n as nat);
                assert(dec_ascii(vv) =~= dec_ascii(n as nat) + buf@.subrange(i as int, end as int));
            } else {
                assert(dec_ascii(vv) =~= buf@.subrange(i as int, end as int));
            }
        }
    }
    proof {
        assert(buf@ =~= b0.subrange(0, i as int) + dec_ascii(vv) + b0.subrange(end as int, NUM_BUF as int));
    }
    i
}

/// Format `v` into the tail of `buf` and return the digits as text.
pub fn fmt_u32(buf: &mut [u8; NUM_BUF], v: u32) -> (r: &str)
    ensures
        r@ == dec(v as nat),
        final(buf)@ == old(buf)@.subrange(0, NUM_BUF - dec(v as nat).len()) + dec_ascii(v as nat),
{
    proof {
        lemma_dec_u32_len(v);
        lemma_dec_ascii(v as nat);
    }
    let ghost b0 = buf@;
    let start = write_digits(buf, NUM_BUF, v);
    proof {
        assert(b0.subrange(NUM_BUF as int, NUM_BUF as int) =~= Seq::<u8>::empty());
        assert(buf@ =~= b0.subrange(0, NUM_BUF - dec(v as nat).len()) + dec_ascii(v as nat));
        assert(buf@.subrange(start as int, NUM_BUF as int) =~= dec_ascii(v as nat));
    }
    let tail = vstd::slice::slice_subrange(buf.as_slice(), start, NUM_BUF);
    ascii_str(tail)
}

/// Format `a/b` into the tail of `buf`; both numbers must fit together.
pub fn fmt_ratio(buf: &mut [u8; NUM_BUF], a: u32, b: u32) -> (r: &str)
    requires
        dec(a as nat).len() + 1 + dec(b as nat).len() <= NUM_BUF,
    ensures
        r@ == dec(a as nat) + seq!['/'] + dec(b as nat),
        final(buf)@ == old(buf)@.subrange(0, NUM_BUF - (dec(a as nat).len() + 1 + dec(b as nat).len())) + dec_ascii(a as nat)
            + seq![47u8] + dec_ascii(b as nat),
{
    proof {
        lemma_dec_ascii(a as nat);
        lemma_dec_ascii(b as nat);
        lemma_dec_nonempty(b as nat);
    }
    let ghost b0 = buf@;
    let j = write_digits(buf, NUM_BUF, b);
    let ghost b1 = buf@;
    let slash = j - 1;
    buf[slash] = 47;
    let ghost b2 = buf@;
    let i = write_digits(buf, slash, a);
    let ghost w = dec_ascii(a as nat) + seq![47u8] + dec_ascii(b as nat);
    proof {
        assert(buf@ =~= b0.subrange(0, i as int) + w);
        assert(buf@.subrange(i as int, NUM_BUF as int) =~= w);
        assert('/' as u32 == 47);
        assert(ascii_chars(w) =~= ascii_chars(dec_ascii(a as nat)) + seq!['/'] + ascii_chars(dec_ascii(b as nat)));
        assert forall|k: int| 0 <= k < w.len() implies w[k] < 128 by {
            if k < dec_ascii(a as nat).len() {
                assert(w[k] == dec_ascii(a as nat)[k]);
            } else if k > dec_ascii(a as nat).len() {
                assert(w[k] == dec_ascii(b as nat)[k - dec_ascii(a as nat).len() - 1]);
            }
        }
    }
    let tail = vstd::slice::slice_subrange(buf.as_slice(), i, NUM_BUF);
    ascii_str(tail)
}

/// The one-word name of an entity kind.
pub open spec fn spec_kind_label(kind: EntityKind) -> Seq<char> {
    match kind {
        EntityKind::Unit(UnitKind::Worker) => "WORKER"@,
        EntityKind::Unit(UnitKind::Soldier) => "SOLDIER"@,
        EntityKind::Unit(UnitKind::Ghoul) => "GHOUL"@,
        EntityKind::Building(BuildingKind::Hq) => "HQ"@,
        EntityKind::Building(BuildingKind::Depot) => "DEPOT"@,
        EntityKind::Building(BuildingKind::Barracks) => "BARRACKS"@,
        EntityKind::Building(BuildingKind::Turret) => "TURRET"@,
        EntityKind::Node(ResourceKind::Crystal) => "CRYSTAL"@,
        EntityKind::Node(ResourceKind::Gas) => "GAS"@,
    }
}

/// A one-word name for an entity kind, for the selection card.
pub fn kind_label(kind: EntityKind) -> (r: &'static str)
    ensures
        r@ == spec_kind_label(kind),
{
    match kind {
        EntityKind::Unit(UnitKind::Worker) => "WORKER",
        EntityKind::Unit(UnitKind::Soldier) => "SOLDIER",
        EntityKind::Unit(UnitKind::Ghoul) => "GHOUL",
        EntityKind::Building(BuildingKind::Hq) => "HQ",
        EntityKind::Building(BuildingKind::Depot) => "DEPOT",
        EntityKind::Building(BuildingKind::Barracks) => "BARRACKS",
        EntityKind::Building(BuildingKind::Turret) => "TURRET",
        EntityKind::Node(ResourceKind::Crystal) => "CRYSTAL",
        EntityKind::Node(ResourceKind::Gas) => "GAS",
    }
}

/// One command a context card can offer.
#[derive(Clone, Copy, Debug, PartialEq, Eq, Structural)]
pub enum CommandId {
    BuildHq,
    BuildDepot,
    BuildBarracks,
    TrainWorker,
    TrainSoldier,
    SetRally,
}

/// The icon each command draws with.
pub open spec fn spec_command_icon(cmd: CommandId) -> Prop {
    match cmd {
        CommandId::BuildHq => Prop::IconBuildHq,
        CommandId::BuildDepot => Prop::IconBuildDepot,
        CommandId::BuildBarracks => Prop::IconBuildBarracks,
        CommandId::TrainWorker => Prop::IconTrainWorker,
        CommandId::TrainSoldier => Prop::IconTrainSoldier,
        CommandId::SetRally => Prop::IconSetRally,
    }
}

/// The command icon for one [`CommandId`].
pub fn command_icon(cmd: CommandId) -> (r: Prop)
    ensures
        r == spec_command_icon(cmd),
{
    match cmd {
        CommandId::BuildHq => Prop::IconBuildHq,
        CommandId::BuildDepot => Prop::IconBuildDepot,
        CommandId::BuildBarracks => Prop::IconBuildBarracks,
        CommandId::TrainWorker => Prop::IconTrainWorker,
        CommandId::TrainSoldier => Prop::IconTrainSoldier,
        CommandId::SetRally => Prop::IconSetRally,
    }
}

/// One cell of the 3x3 command grid.
#[derive(Clone, Copy, Debug, PartialEq, Eq, Structural)]
pub struct CommandSlot {
    pub command: Option<CommandId>,
    pub enabled: bool,
}

/// What a selection holds, as far as the command card cares: live workers,
/// buildings, whether anything disqualifies a card (another unit kind, a
/// node, an unfinished building), and the last finished building's kind.
pub open spec fn tally(selected: Seq<(EntityKind, bool)>) -> (nat, nat, bool, Option<BuildingKind>)
    decreases selected.len(),
{
    if selected.len() == 0 {
        (0, 0, false, None)
    } else {
        let (w, b, d, f) = tally(selected.drop_last());
        let (kind, finished) = selected.last();
        match kind {
            EntityKind::Unit(UnitKind::Worker) => (w + 1, b, d, f),
            EntityKind::Building(k) => if finished {
                (w, b + 1, d, Some(k))
            } else {
                (w, b + 1, true, f)
            },
            _ => (w, b, true, f),
        }
    }
}

/// An empty, disabled command-grid cell.
pub open spec fn empty_slot() -> CommandSlot {
    CommandSlot { command: None, enabled: false }
}

/// An enabled cell offering `c`.
pub open spec fn offer(c: CommandId) -> CommandSlot {
    CommandSlot { command: Some(c), enabled: true }
}

/// The nine row-major command-grid cells for a selection: workers alone
/// offer the three builds; exactly one finished HQ or Barracks alone offers
/// its unit in the first cell and the rally point in the last; anything else
/// offers nothing.
pub open spec fn spec_command_slots(selected: Seq<(EntityKind, bool)>) -> Seq<CommandSlot> {
    let (w, b, d, f) = tally(selected);
    let none = Seq::new(9, |i: int| empty_slot());
    if w > 0 && b == 0 && !d {
        none.update(0, offer(CommandId::BuildHq)).update(1, offer(CommandId::BuildDepot)).update(2, offer(CommandId::BuildBarracks))
    } else if w == 0 && b == 1 && !d && f == Some(BuildingKind::Hq) {
        none.update(0, offer(CommandId::TrainWorker)).update(8, offer(CommandId::SetRally))
    } else if w == 0 && b == 1 && !d && f == Some(BuildingKind::Barracks) {
        none.update(0, offer(CommandId::TrainSoldier)).update(8, offer(CommandId::SetRally))
    } else {
        none
    }
}

/// The nine command-grid cells for the live selected entities, each given
/// by its kind and whether it is finished (meaningful for buildings).
pub fn command_slots(selected: &[(EntityKind, bool)]) -> (r: [CommandSlot; 9])
    requires
        selected@.len() < u32::MAX,
    ensures
        r@ == spec_command_slots(selected@),
{
    let mut worker_count: u32 = 0;
    let mut building_count: u32 = 0;
    let mut disqualified = false;
    let mut finished_building: Option<BuildingKind> = None;
    let mut k: usize = 0;
    while k < selected.len()
        invariant
            k <= selected@.len(),
            selected@.len() < u32::MAX,
            worker_count + building_count <= k,
            tally(selected@.subrange(0, k as int)) == (worker_count as nat, building_count as nat, disqualified, finished_building),
        decreases selected@.len() - k,
    {
        let (kind, finished) = selected[k];
        proof {
            let pre1 = selected@.subrange(0, k as int + 1);
            assert(pre1.drop_last() =~= selected@.subrange(0, k as int));
            assert(pre1.last() == (kind, finished));
        }
        match kind {
            EntityKind::Unit(UnitKind::Worker) => {
                worker_count = worker_count + 1;
            },
            EntityKind::Building(b) => {
                building_count = building_count + 1;
                if finished {
                    finished_building = Some(b);
                } else {
                    disqualified = true;
                }
            },
            _ => {
                disqualified = true;
            },
        }
        k = k + 1;
    }
    proof {
        assert(selected@.subrange(0, k as int) =~= selected@);
    }
    let empty = CommandSlot { command: None, enabled: false };
    let mut out = [empty, empty, empty, empty, empty, empty, empty, empty, empty];
    proof {
        assert(out@ =~= Seq::new(9, |i: int| empty_slot()));
    }
    if worker_count > 0 && building_count == 0 && !disqualified {
        out[0] = CommandSlot { command: Some(CommandId::BuildHq), enabled: true };
        out[1] = CommandSlot { command: Some(CommandId::BuildDepot), enabled: true };
        out[2] = CommandSlot { command: Some(CommandId::BuildBarracks), enabled: true };
    } else if worker_count == 0 && building_count == 1 && !disqualified {
        let produce = match finished_building {
            Some(BuildingKind::Hq) => Some(CommandId::TrainWorker),
            Some(BuildingKind::Barracks) => Some(CommandId::TrainSoldier),
            _ => None,
        };
        if let Some(cmd) = produce {
            out[0] = CommandSlot { command: Some(cmd), enabled: true };
            out[8] = CommandSlot { command: Some(CommandId::SetRally), enabled: true };
        }
    }
    proof {
        assert(out@ =~= spec_command_slots(selected@));
    }
    out
}

/// Which nested modal page is open.
#[derive(Clone, Copy, Debug, PartialEq, Eq, Structural)]
pub enum ModalPage {
    PauseMenu,
    Settings,
}

/// What a pointer point inside an open modal landed on. `Consumed` covers
/// every other point: an open modal owns every pointer point.
#[derive(Clone, Copy, Debug, PartialEq, Eq, Structural)]
pub enum ModalHit {
    OpenSettings,
    CloseMenu,
    Back,
    WindowMode(u8),
    KeyboardPan(u32),
    EdgePan(u32),
    Confine,
    Focus,
    Master(u32),
    Music(u32),
    Voice(u32),
    Sfx(u32),
    Consumed,
}

/// The discrete control a modal hit names, when it names one.
pub open spec fn spec_control_id_from_modal_hit(hit: ModalHit) -> Option<ControlId> {
    match hit {
        ModalHit::OpenSettings => Some(ControlId::PauseSettings),
        ModalHit::CloseMenu => Some(ControlId::PauseClose),
        ModalHit::Back => Some(ControlId::SettingsBack),
        ModalHit::WindowMode(i) => Some(ControlId::WindowMode(i)),
        ModalHit::KeyboardPan(_) => Some(ControlId::KeyboardPanSlider),
        ModalHit::EdgePan(_) => Some(ControlId::EdgePanSlider),
        ModalHit::Confine => Some(ControlId::Confine),
        ModalHit::Focus => Some(ControlId::Focus),
        ModalHit::Master(_) => Some(ControlId::MasterSlider),
        ModalHit::Music(_) => Some(ControlId::MusicSlider),
        ModalHit::Voice(_) => Some(ControlId::VoiceSlider),
        ModalHit::Sfx(_) => Some(ControlId::SfxSlider),
        ModalHit::Consumed => None,
    }
}

/// Stable [`ControlId`] for a modal hit, when the hit names a discrete
/// control.
pub fn control_id_from_modal_hit(hit: ModalHit) -> (r: Option<ControlId>)
    ensures
        r == spec_control_id_from_modal_hit(hit),
{
    match hit {
        ModalHit::OpenSettings => Some(ControlId::PauseSettings),
        ModalHit::CloseMenu => Some(ControlId::PauseClose),
        ModalHit::Back => Some(ControlId::SettingsBack),
        ModalHit::WindowMode(i) => Some(ControlId::WindowMode(i)),
        ModalHit::KeyboardPan(_) => Some(ControlId::KeyboardPanSlider),
        ModalHit::EdgePan(_) => Some(ControlId::EdgePanSlider),
        ModalHit::Confine => Some(ControlId::Confine),
        ModalHit::Focus => Some(ControlId::Focus),
        ModalHit::Master(_) => Some(ControlId::MasterSlider),
        ModalHit::Music(_) => Some(ControlId::MusicSlider),
        ModalHit::Voice(_) => Some(ControlId::VoiceSlider),
        ModalHit::Sfx(_) => Some(ControlId::SfxSlider),
        ModalHit::Consumed => None,
    }
}

/// The raw settings values the modal renders, as plain fields.
#[derive(Clone, Copy, Debug, PartialEq, Eq, Structural)]
pub struct ModalSnapshot {
    pub window_mode_index: u8,
    pub keyboard_pan: u32,
    pub edge_pan: u32,
    pub confine_pointer: bool,
    pub pause_on_focus_loss: bool,
    pub master: u32,
    pub music: u32,
    pub voice: u32,
    pub sfx: u32,
}

} // verus!
