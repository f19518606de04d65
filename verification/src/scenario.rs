//! Versioned scenario contract: hash-verify, validate geometry.

use vstd::prelude::*;
use vstd::set_lib::{lemma_int_range, lemma_len_subset, set_int_range};
use vstd::arithmetic::div_mod::lemma_mod_multiples_basic;

use crate::digest::{hex_lower, sha256_digest, sha256_hex};
use crate::text::{dec, push_dec, str_eq, str_starts_with};

verus! {

/// Absolute supply ceiling — the 500-population design pillar.
pub const MAX_SUPPLY_CAP: u32 = 500;

/// Edge of one visible build square, in cells.
pub const BUILD_SQUARE_CELLS: u32 = 8;
/// Footprint edge of the HQ, in cells — 3 x 3 squares.
pub const HQ_FOOTPRINT_CELLS: u32 = 24;
/// Footprint edge of the Depot, in cells — 1 x 1 square.
pub const DEPOT_FOOTPRINT_CELLS: u32 = 8;
/// Footprint edge of the Barracks, in cells — 2 x 2 squares.
pub const BARRACKS_FOOTPRINT_CELLS: u32 = 16;
/// Footprint edge of the Turret, in cells — 1 x 1 square.
pub const TURRET_FOOTPRINT_CELLS: u32 = 8;

/// Locked phase-0 scenario version id.
pub const TECHNICAL_PROTOTYPE_V1: &'static str = "technical_prototype_v1";
/// Version-id prefix reserved for small test fixtures.
pub const FIXTURE_VERSION_PREFIX: &'static str = "fixture_";
/// Version id for the collision demo family.
pub const COLLISION_SCENE_V1: &'static str = "collision_scene_v1";
/// The phase-1 RTS prototype scene family: a horde-free base-building map.
pub const RTS_PROTOTYPE_V1: &'static str = "rts_prototype_v1";

/// The absolute simultaneous-entity ceiling of this engine.
pub const MAX_LIVE_AGENTS: u32 = 5_000;
/// Fixture grids must stay small enough that a full system test is cheap.
pub const FIXTURE_MAX_CELLS: u32 = 65_536;
/// Fixture agent counts must stay in the tens/hundreds.
pub const FIXTURE_MAX_AGENTS: u32 = 4_096;

/// Q8 fixed-point scale for collision data: 256 units = one cell.
pub const COLLISION_Q8: u32 = 256;
/// Largest body radius a scenario may declare: 8 cells.
pub const MAX_COLLISION_RADIUS_Q8: u32 = 2_048;
/// Largest separation weight a scenario may declare: 10.0.
pub const MAX_SEPARATION_STRENGTH_Q8: u32 = 2_560;
/// Largest number of ticks the separation pass may be spread over.
pub const MAX_SEPARATION_PHASES: u32 = 16;
/// Largest number of distinct push-priority classes.
pub const MAX_MASS_CLASSES: u32 = 8;
/// Largest worker-thread count for the separation pass.
pub const MAX_SEPARATION_THREADS: u32 = 16;

pub const V1_WIDTH: u32 = 480;
pub const V1_HEIGHT: u32 = 270;
pub const V1_CELL_PX: u32 = 4;
pub const V1_SPRITE_PX: u32 = 48;
pub const V1_HARD_AGENTS: u32 = 5_000;
pub const V1_STRETCH_AGENTS: u32 = 5_000;
pub const V1_ATLASES: u32 = 4;
pub const V1_DIRS: u32 = 8;
pub const V1_FRAMES: u32 = 4;
/// Exactly half the sprite: two touching bodies are one sprite width apart.
pub const V1_COLLISION_RADIUS_Q8: u32 = 1_536;
pub const V1_SEPARATION_STRENGTH_Q8: u32 = 256;
pub const V1_SEPARATION_PHASES: u32 = 1;
pub const V1_MASS_CLASSES: u32 = 1;
pub const V1_SEPARATION_THREADS: u32 = 1;
pub const V1_DEST_X: u32 = 240;
pub const V1_DEST_Y: u32 = 135;

/// Locked non-dimension geometry of the RTS family.
pub const RTS_CELL_PX: u32 = 4;
pub const RTS_SPRITE_PX: u32 = 48;
/// Largest width or height an RTS-family map may declare, in cells.
pub const RTS_MAX_MAP_EDGE: u32 = 512;
/// Largest cell count an RTS-family map may declare.
pub const RTS_MAX_MAP_CELLS: u32 = 262_144;

/// Largest starting stock a scene may grant, per resource.
pub const MAX_START_RESOURCE: u32 = 2_000;
/// Most resource nodes a scene may declare, per kind.
pub const MAX_RESOURCE_NODES: usize = 64;
/// Most enemies a scene may script in total: pre-placed plus every wave.
pub const MAX_ENEMIES: u32 = 1_200;

/// Grid cell coordinate (cell space, not pixels).
#[derive(Debug, Clone, Copy, PartialEq, Eq, Structural)]
pub struct Cell {
    pub x: u32,
    pub y: u32,
}

/// One timed enemy wave.
#[derive(Debug, Clone, Copy, PartialEq, Eq, Structural)]
pub struct WaveSpec {
    /// Tick the wave fires on; the first tick after construction is tick 1.
    pub at_tick: u32,
    /// Ghouls in the wave. At least 1.
    pub count: u32,
    /// Index into [`EnemySpec::spawn_points`].
    pub spawn_point: u8,
}

/// Scripted enemy content of an RTS scene.
#[derive(Debug, Clone, PartialEq, Eq)]
pub struct EnemySpec {
    /// Ghoul positions seeded at world construction.
    pub pre_placed: Vec<Cell>,
    /// Wave origins, indexed by [`WaveSpec::spawn_point`].
    pub spawn_points: Vec<Cell>,
    /// Timed waves, sorted non-decreasing by `at_tick`.
    pub waves: Vec<WaveSpec>,
}

/// The RTS block of a scenario. Present exactly on [`RTS_PROTOTYPE_V1`].
#[derive(Debug, Clone, PartialEq, Eq)]
pub struct RtsSpec {
    pub start_crystal: u32,
    pub start_gas: u32,
    pub start_supply_cap: u32,
    /// Minimum corner of the starting HQ's footprint.
    pub hq_cell: Cell,
    pub crystal_nodes: Vec<Cell>,
    pub gas_nodes: Vec<Cell>,
    pub enemies: Option<EnemySpec>,
}

/// Unvalidated scenario description — what a scene file holds.
#[derive(Debug, Clone, PartialEq, Eq)]
pub struct ScenarioSpec {
    pub version: String,
    pub width: u32,
    pub height: u32,
    pub cell_size_px: u32,
    pub sprite_size_px: u32,
    pub hard_agent_count: u32,
    pub stretch_agent_count: u32,
    pub seed: u64,
    pub destination: Cell,
    pub spawn_cells: Vec<Cell>,
    pub atlas_count: u32,
    pub direction_count: u32,
    pub frame_count: u32,
    /// Body radius, in 1/256 cell.
    pub collision_radius_q8: u32,
    /// Separation weight, in 1/256.
    pub separation_strength_q8: u32,
    pub separation_phases: u32,
    pub mass_class_count: u32,
    pub separation_threads: u32,
    pub obstacle_cells: Vec<u32>,
    pub rts: Option<RtsSpec>,
}

/// Immutable validated scenario.
#[derive(Debug, PartialEq, Eq)]
pub struct Scenario {
    version: String,
    width: u32,
    height: u32,
    cell_size_px: u32,
    sprite_size_px: u32,
    hard_agent_count: u32,
    stretch_agent_count: u32,
    seed: u64,
    destination: Cell,
    spawn_cells: Vec<Cell>,
    atlas_count: u32,
    direction_count: u32,
    frame_count: u32,
    collision_radius_q8: u32,
    separation_strength_q8: u32,
    separation_phases: u32,
    mass_class_count: u32,
    separation_threads: u32,
    /// Sorted unique obstacle cell indices (`x + y * width`).
    obstacle_cells: Vec<u32>,
    rts: Option<RtsSpec>,
}

/// Scenario load / validation failures.
#[derive(Debug, Clone, PartialEq, Eq)]
pub enum ScenarioError {
    Io(String),
    HashMismatch { expected: String, actual: String },
    Parse(String),
    UnsupportedVersion(String),
    InvalidDimension(String),
    InvalidObstacleRatio { obstacles: u32, cells: u32 },
    InvalidObstacleIndex(u32),
    DuplicateObstacle(u32),
    DestinationBlocked,
    InvalidSpawn { x: u32, y: u32 },
    UnreachableSpawn { x: u32, y: u32 },
    EmptySpawns,
    InvalidSeed,
    InvalidCollision(String),
    InvalidRts(String),
}

/// What a [`ScenarioError`] says, with its messages as character sequences.
pub enum ScenarioFault {
    Io(Seq<char>),
    HashMismatch { expected: Seq<char>, actual: Seq<char> },
    Parse(Seq<char>),
    UnsupportedVersion(Seq<char>),
    InvalidDimension(Seq<char>),
    InvalidObstacleRatio { obstacles: u32, cells: u32 },
    InvalidObstacleIndex(u32),
    DuplicateObstacle(u32),
    DestinationBlocked,
    InvalidSpawn { x: u32, y: u32 },
    UnreachableSpawn { x: u32, y: u32 },
    EmptySpawns,
    InvalidSeed,
    InvalidCollision(Seq<char>),
    InvalidRts(Seq<char>),
}

impl View for ScenarioError {
    type V = ScenarioFault;

    open spec fn view(&self) -> ScenarioFault {
        match self {
            ScenarioError::Io(m) => ScenarioFault::Io(m@),
            ScenarioError::HashMismatch { expected, actual } => ScenarioFault::HashMismatch {
                expected: expected@,
                actual: actual@,
            },
            ScenarioError::Parse(m) => ScenarioFault::Parse(m@),
            ScenarioError::UnsupportedVersion(m) => ScenarioFault::UnsupportedVersion(m@),
            ScenarioError::InvalidDimension(m) => ScenarioFault::InvalidDimension(m@),
            ScenarioError::InvalidObstacleRatio { obstacles, cells } => ScenarioFault::InvalidObstacleRatio {
                obstacles: *obstacles,
                cells: *cells,
            },
            ScenarioError::InvalidObstacleIndex(i) => ScenarioFault::InvalidObstacleIndex(*i),
            ScenarioError::DuplicateObstacle(i) => ScenarioFault::DuplicateObstacle(*i),
            ScenarioError::DestinationBlocked => ScenarioFault::DestinationBlocked,
            ScenarioError::InvalidSpawn { x, y } => ScenarioFault::InvalidSpawn { x: *x, y: *y },
            ScenarioError::UnreachableSpawn { x, y } => ScenarioFault::UnreachableSpawn { x: *x, y: *y },
            ScenarioError::EmptySpawns => ScenarioFault::EmptySpawns,
            ScenarioError::InvalidSeed => ScenarioFault::InvalidSeed,
            ScenarioError::InvalidCollision(m) => ScenarioFault::InvalidCollision(m@),
            ScenarioError::InvalidRts(m) => ScenarioFault::InvalidRts(m@),
        }
    }
}

/// The fault a check reports, or `None` when it passes.
pub open spec fn outcome(r: Result<(), ScenarioError>) -> Option<ScenarioFault> {
    match r {
        Ok(()) => None,
        Err(e) => Some(e@),
    }
}

/// The first of two checks that fails.
pub open spec fn first(a: Option<ScenarioFault>, b: Option<ScenarioFault>) -> Option<ScenarioFault> {
    if a is Some { a } else { b }
}

// ---------------------------------------------------------------------------
// Validation messages
// ---------------------------------------------------------------------------

/// `"{name}: got {got}, want {want}"`.
pub open spec fn got_want(name: Seq<char>, got: nat, want: nat) -> Seq<char> {
    name + ": got "@ + dec(got) + ", want "@ + dec(want)
}

/// `"{name}: got {got}, max {max}"`.
pub open spec fn got_max(name: Seq<char>, got: nat, max: nat) -> Seq<char> {
    name + ": got "@ + dec(got) + ", max "@ + dec(max)
}

/// `"{a}{x}{b}{y}"`.
pub open spec fn text2(a: Seq<char>, x: nat, b: Seq<char>, y: nat) -> Seq<char> {
    a + dec(x) + b + dec(y)
}

fn build_got_want(name: &str, got: u128, want: u128) -> (r: String)
    ensures
        r@ == got_want(name@, got as nat, want as nat),
{
    let mut s = String::from_str(name);
    s.append(": got ");
    push_dec(&mut s, got);
    s.append(", want ");
    push_dec(&mut s, want);
    s
}

fn build_got_max(name: &str, got: u128, max: u128) -> (r: String)
    ensures
        r@ == got_max(name@, got as nat, max as nat),
{
    let mut s = String::from_str(name);
    s.append(": got ");
    push_dec(&mut s, got);
    s.append(", max ");
    push_dec(&mut s, max);
    s
}

fn build_text2(a: &str, x: u128, b: &str, y: u128) -> (r: String)
    ensures
        r@ == text2(a@, x as nat, b@, y as nat),
{
    let mut s = String::from_str(a);
    push_dec(&mut s, x);
    s.append(b);
    push_dec(&mut s, y);
    s
}

fn build_concat(a: &str, b: &str) -> (r: String)
    ensures
        r@ == a@ + b@,
{
    let mut s = String::from_str(a);
    s.append(b);
    s
}

// ---------------------------------------------------------------------------
// Family, dimension, count and collision rules
// ---------------------------------------------------------------------------

/// `s` begins with `p`.
pub open spec fn starts_with(s: Seq<char>, p: Seq<char>) -> bool {
    p.len() <= s.len() && s.subrange(0, p.len() as int) == p
}

pub open spec fn is_fixture(doc: ScenarioSpec) -> bool {
    starts_with(doc.version@, FIXTURE_VERSION_PREFIX@)
}

pub open spec fn is_collision_scene(doc: ScenarioSpec) -> bool {
    doc.version@ == COLLISION_SCENE_V1@
}

pub open spec fn is_technical(doc: ScenarioSpec) -> bool {
    doc.version@ == TECHNICAL_PROTOTYPE_V1@
}

pub open spec fn is_rts(doc: ScenarioSpec) -> bool {
    doc.version@ == RTS_PROTOTYPE_V1@
}

/// A locked field that differs from its required value.
pub open spec fn field_fault(name: Seq<char>, got: u32, want: u32) -> Option<ScenarioFault> {
    if got != want {
        Some(ScenarioFault::InvalidDimension(got_want(name, got as nat, want as nat)))
    } else {
        None
    }
}

fn check_field(name: &str, got: u32, want: u32) -> (r: Result<(), ScenarioError>)
    ensures
        outcome(r) == field_fault(name@, got, want),
{
    if got != want {
        return Err(ScenarioError::InvalidDimension(build_got_want(name, got as u128, want as u128)));
    }
    Ok(())
}

/// One population field over [`MAX_LIVE_AGENTS`].
pub open spec fn population_fault(name: Seq<char>, got: u32) -> Option<ScenarioFault> {
    if got > MAX_LIVE_AGENTS {
        Some(ScenarioFault::InvalidDimension(
            text2(name + " "@, got as nat, " exceeds MAX_LIVE_AGENTS "@, MAX_LIVE_AGENTS as nat),
        ))
    } else {
        None
    }
}

fn check_population_field(name: &str, got: u32) -> (r: Result<(), ScenarioError>)
    ensures
        outcome(r) == population_fault(name@, got),
{
    if got > MAX_LIVE_AGENTS {
        let head = build_concat(name, " ");
        return Err(ScenarioError::InvalidDimension(
            build_text2(head.as_str(), got as u128, " exceeds MAX_LIVE_AGENTS ", MAX_LIVE_AGENTS as u128),
        ));
    }
    Ok(())
}

/// The live-agent ceiling, checked for every recognised family.
pub open spec fn spec_check_population(doc: ScenarioSpec) -> Option<ScenarioFault> {
    first(
        population_fault("hard_agent_count"@, doc.hard_agent_count),
        population_fault("stretch_agent_count"@, doc.stretch_agent_count),
    )
}

/// The one site that enforces [`MAX_LIVE_AGENTS`].
fn check_population(doc: &ScenarioSpec) -> (r: Result<(), ScenarioError>)
    ensures
        outcome(r) == spec_check_population(*doc),
{
    check_population_field("hard_agent_count", doc.hard_agent_count)?;
    check_population_field("stretch_agent_count", doc.stretch_agent_count)
}

/// A field that must be nonzero.
pub open spec fn positive_fault(name: Seq<char>, got: u32) -> Option<ScenarioFault> {
    if got == 0 {
        Some(ScenarioFault::InvalidDimension(name + " must be > 0"@))
    } else {
        None
    }
}

fn check_positive(name: &str, got: u32) -> (r: Result<(), ScenarioError>)
    ensures
        outcome(r) == positive_fault(name@, got),
{
    if got == 0 {
        return Err(ScenarioError::InvalidDimension(build_concat(name, " must be > 0")));
    }
    Ok(())
}

/// `"stretch_agent_count {stretch} below hard_agent_count {hard}"`.
pub open spec fn stretch_below_fault(doc: ScenarioSpec) -> Option<ScenarioFault> {
    if doc.stretch_agent_count < doc.hard_agent_count {
        Some(ScenarioFault::InvalidDimension(text2(
            "stretch_agent_count "@,
            doc.stretch_agent_count as nat,
            " below hard_agent_count "@,
            doc.hard_agent_count as nat,
        )))
    } else {
        None
    }
}

fn check_stretch_not_below(doc: &ScenarioSpec) -> (r: Result<(), ScenarioError>)
    ensures
        outcome(r) == stretch_below_fault(*doc),
{
    if doc.stretch_agent_count < doc.hard_agent_count {
        return Err(ScenarioError::InvalidDimension(build_text2(
            "stretch_agent_count ",
            doc.stretch_agent_count as u128,
            " below hard_agent_count ",
            doc.hard_agent_count as u128,
        )));
    }
    Ok(())
}

/// Structural bounds of the `fixture_*` family.
pub open spec fn spec_fixture_dims(doc: ScenarioSpec, cells: u32) -> Option<ScenarioFault> {
    let tail = if cells > FIXTURE_MAX_CELLS {
        Some(ScenarioFault::InvalidDimension(text2(
            "fixture grid "@, cells as nat, " cells exceeds cap "@, FIXTURE_MAX_CELLS as nat)))
    } else if doc.hard_agent_count > FIXTURE_MAX_AGENTS {
        Some(ScenarioFault::InvalidDimension(text2(
            "fixture hard_agent_count "@, doc.hard_agent_count as nat, " exceeds cap "@,
            FIXTURE_MAX_AGENTS as nat)))
    } else if stretch_below_fault(doc) is Some {
        stretch_below_fault(doc)
    } else if doc.stretch_agent_count > FIXTURE_MAX_AGENTS {
        Some(ScenarioFault::InvalidDimension(text2(
            "fixture stretch_agent_count "@, doc.stretch_agent_count as nat, " exceeds cap "@,
            FIXTURE_MAX_AGENTS as nat)))
    } else {
        None
    };
    let tail = first(positive_fault("hard_agent_count"@, doc.hard_agent_count), tail);
    let tail = first(positive_fault("sprite_size_px"@, doc.sprite_size_px), tail);
    let tail = first(positive_fault("cell_size_px"@, doc.cell_size_px), tail);
    let tail = first(positive_fault("height"@, doc.height), tail);
    let tail = first(positive_fault("width"@, doc.width), tail);
    tail
}

fn validate_fixture_dims(doc: &ScenarioSpec, cells: u32) -> (r: Result<(), ScenarioError>)
    ensures
        outcome(r) == spec_fixture_dims(*doc, cells),
{
    check_positive("width", doc.width)?;
    check_positive("height", doc.height)?;
    check_positive("cell_size_px", doc.cell_size_px)?;
    check_positive("sprite_size_px", doc.sprite_size_px)?;
    check_positive("hard_agent_count", doc.hard_agent_count)?;
    if cells > FIXTURE_MAX_CELLS {
        return Err(ScenarioError::InvalidDimension(build_text2(
            "fixture grid ", cells as u128, " cells exceeds cap ", FIXTURE_MAX_CELLS as u128)));
    }
    if doc.hard_agent_count > FIXTURE_MAX_AGENTS {
        return Err(ScenarioError::InvalidDimension(build_text2(
            "fixture hard_agent_count ", doc.hard_agent_count as u128, " exceeds cap ",
            FIXTURE_MAX_AGENTS as u128)));
    }
    check_stretch_not_below(doc)?;
    if doc.stretch_agent_count > FIXTURE_MAX_AGENTS {
        return Err(ScenarioError::InvalidDimension(build_text2(
            "fixture stretch_agent_count ", doc.stretch_agent_count as u128, " exceeds cap ",
            FIXTURE_MAX_AGENTS as u128)));
    }
    Ok(())
}

pub open spec fn collision_scene_radius_msg() -> Seq<char> {
    "a collision scene must declare a nonzero collision_radius_q8"@
}

pub open spec fn collision_scene_strength_msg() -> Seq<char> {
    "a collision scene declaring a body must also declare a nonzero separation_strength_q8; a body with no weight leaves the separation pass switched off"@
}

/// Locked grid geometry of the collision demo family; free population and
/// body within caps.
pub open spec fn spec_collision_scene_dims(doc: ScenarioSpec) -> Option<ScenarioFault> {
    let tail = if doc.hard_agent_count == 0 {
        Some(ScenarioFault::InvalidDimension("hard_agent_count must be > 0"@))
    } else if stretch_below_fault(doc) is Some {
        stretch_below_fault(doc)
    } else if doc.collision_radius_q8 == 0 {
        Some(ScenarioFault::InvalidCollision(collision_scene_radius_msg()))
    } else if doc.separation_strength_q8 == 0 {
        Some(ScenarioFault::InvalidCollision(collision_scene_strength_msg()))
    } else {
        None
    };
    let tail = first(field_fault("destination.y"@, doc.destination.y, V1_DEST_Y), tail);
    let tail = first(field_fault("destination.x"@, doc.destination.x, V1_DEST_X), tail);
    let tail = first(field_fault("sprite_size_px"@, doc.sprite_size_px, V1_SPRITE_PX), tail);
    let tail = first(field_fault("cell_size_px"@, doc.cell_size_px, V1_CELL_PX), tail);
    let tail = first(field_fault("height"@, doc.height, V1_HEIGHT), tail);
    let tail = first(field_fault("width"@, doc.width, V1_WIDTH), tail);
    tail
}

fn validate_collision_scene_dims(doc: &ScenarioSpec) -> (r: Result<(), ScenarioError>)
    ensures
        outcome(r) == spec_collision_scene_dims(*doc),
{
    check_field("width", doc.width, V1_WIDTH)?;
    check_field("height", doc.height, V1_HEIGHT)?;
    check_field("cell_size_px", doc.cell_size_px, V1_CELL_PX)?;
    check_field("sprite_size_px", doc.sprite_size_px, V1_SPRITE_PX)?;
    check_field("destination.x", doc.destination.x, V1_DEST_X)?;
    check_field("destination.y", doc.destination.y, V1_DEST_Y)?;
    if doc.hard_agent_count == 0 {
        return Err(ScenarioError::InvalidDimension(String::from_str("hard_agent_count must be > 0")));
    }
    check_stretch_not_below(doc)?;
    if doc.collision_radius_q8 == 0 {
        return Err(ScenarioError::InvalidCollision(String::from_str(
            "a collision scene must declare a nonzero collision_radius_q8")));
    }
    if doc.separation_strength_q8 == 0 {
        return Err(ScenarioError::InvalidCollision(String::from_str(
            "a collision scene declaring a body must also declare a nonzero separation_strength_q8; a body with no weight leaves the separation pass switched off")));
    }
    Ok(())
}

/// A map edge outside `1..=RTS_MAX_MAP_EDGE`.
pub open spec fn rts_edge_fault(name: Seq<char>, got: u32) -> Option<ScenarioFault> {
    if got == 0 || got > RTS_MAX_MAP_EDGE {
        Some(ScenarioFault::InvalidDimension(
            name + ": got "@ + dec(got as nat) + ", want 1..="@ + dec(RTS_MAX_MAP_EDGE as nat),
        ))
    } else {
        None
    }
}

fn check_rts_edge(name: &str, got: u32) -> (r: Result<(), ScenarioError>)
    ensures
        outcome(r) == rts_edge_fault(name@, got),
{
    if got == 0 || got > RTS_MAX_MAP_EDGE {
        let mut s = String::from_str(name);
        s.append(": got ");
        push_dec(&mut s, got as u128);
        s.append(", want 1..=");
        push_dec(&mut s, RTS_MAX_MAP_EDGE as u128);
        return Err(ScenarioError::InvalidDimension(s));
    }
    Ok(())
}

/// Geometry bound for the RTS family: a bounded map, the shared atlas
/// contract, and exactly no horde.
pub open spec fn spec_rts_scene_dims(doc: ScenarioSpec) -> Option<ScenarioFault> {
    first(rts_edge_fault("width"@, doc.width),
    first(rts_edge_fault("height"@, doc.height),
    if doc.width * doc.height > RTS_MAX_MAP_CELLS {
        Some(ScenarioFault::InvalidDimension(
            "width "@ + dec(doc.width as nat) + " * height "@ + dec(doc.height as nat) + " = "@
                + dec((doc.width * doc.height) as nat) + " cells exceeds cap "@
                + dec(RTS_MAX_MAP_CELLS as nat),
        ))
    } else {
        first(field_fault("cell_size_px"@, doc.cell_size_px, RTS_CELL_PX),
        first(field_fault("sprite_size_px"@, doc.sprite_size_px, RTS_SPRITE_PX),
        first(field_fault("hard_agent_count"@, doc.hard_agent_count, 0),
        field_fault("stretch_agent_count"@, doc.stretch_agent_count, 0))))
    }))
}

fn validate_rts_scene_dims(doc: &ScenarioSpec) -> (r: Result<(), ScenarioError>)
    ensures
        outcome(r) == spec_rts_scene_dims(*doc),
{
    check_rts_edge("width", doc.width)?;
    check_rts_edge("height", doc.height)?;
    assert(doc.width <= RTS_MAX_MAP_EDGE && doc.height <= RTS_MAX_MAP_EDGE);
    assert(doc.width * doc.height <= 512 * 512) by (nonlinear_arith)
        requires
            doc.width <= 512,
            doc.height <= 512,
    ;
    let cells = doc.width * doc.height;
    if cells > RTS_MAX_MAP_CELLS {
        let mut s = String::from_str("width ");
        push_dec(&mut s, doc.width as u128);
        s.append(" * height ");
        push_dec(&mut s, doc.height as u128);
        s.append(" = ");
        push_dec(&mut s, cells as u128);
        s.append(" cells exceeds cap ");
        push_dec(&mut s, RTS_MAX_MAP_CELLS as u128);
        return Err(ScenarioError::InvalidDimension(s));
    }
    check_field("cell_size_px", doc.cell_size_px, RTS_CELL_PX)?;
    check_field("sprite_size_px", doc.sprite_size_px, RTS_SPRITE_PX)?;
    check_field("hard_agent_count", doc.hard_agent_count, 0)?;
    check_field("stretch_agent_count", doc.stretch_agent_count, 0)
}

/// The frozen phase-0 geometry and tuning of [`TECHNICAL_PROTOTYPE_V1`].
pub open spec fn spec_technical_dims(doc: ScenarioSpec) -> Option<ScenarioFault> {
    let tail = field_fault("separation_threads"@, doc.separation_threads, V1_SEPARATION_THREADS);
    let tail = first(field_fault("mass_class_count"@, doc.mass_class_count, V1_MASS_CLASSES), tail);
    let tail = first(field_fault("separation_phases"@, doc.separation_phases, V1_SEPARATION_PHASES), tail);
    let tail = first(field_fault("separation_strength_q8"@, doc.separation_strength_q8, V1_SEPARATION_STRENGTH_Q8), tail);
    let tail = first(field_fault("collision_radius_q8"@, doc.collision_radius_q8, V1_COLLISION_RADIUS_Q8), tail);
    let tail = first(field_fault("destination.y"@, doc.destination.y, V1_DEST_Y), tail);
    let tail = first(field_fault("destination.x"@, doc.destination.x, V1_DEST_X), tail);
    let tail = first(field_fault("sprite_size_px"@, doc.sprite_size_px, V1_SPRITE_PX), tail);
    let tail = first(field_fault("cell_size_px"@, doc.cell_size_px, V1_CELL_PX), tail);
    let tail = first(field_fault("height"@, doc.height, V1_HEIGHT), tail);
    let tail = first(field_fault("width"@, doc.width, V1_WIDTH), tail);
    tail
}

fn validate_technical_dims(doc: &ScenarioSpec) -> (r: Result<(), ScenarioError>)
    ensures
        outcome(r) == spec_technical_dims(*doc),
{
    check_field("width", doc.width, V1_WIDTH)?;
    check_field("height", doc.height, V1_HEIGHT)?;
    check_field("cell_size_px", doc.cell_size_px, V1_CELL_PX)?;
    check_field("sprite_size_px", doc.sprite_size_px, V1_SPRITE_PX)?;
    check_field("destination.x", doc.destination.x, V1_DEST_X)?;
    check_field("destination.y", doc.destination.y, V1_DEST_Y)?;
    check_field("collision_radius_q8", doc.collision_radius_q8, V1_COLLISION_RADIUS_Q8)?;
    check_field("separation_strength_q8", doc.separation_strength_q8, V1_SEPARATION_STRENGTH_Q8)?;
    check_field("separation_phases", doc.separation_phases, V1_SEPARATION_PHASES)?;
    check_field("mass_class_count", doc.mass_class_count, V1_MASS_CLASSES)?;
    check_field("separation_threads", doc.separation_threads, V1_SEPARATION_THREADS)
}

/// The version must name a known family; then the live-agent ceiling; then
/// the family's own geometry rules.
pub open spec fn spec_version_and_dims(doc: ScenarioSpec, cells: u32) -> Option<ScenarioFault> {
    if !is_fixture(doc) && !is_collision_scene(doc) && !is_technical(doc) && !is_rts(doc) {
        Some(ScenarioFault::UnsupportedVersion(doc.version@))
    } else {
        first(
            spec_check_population(doc),
            if is_fixture(doc) {
                spec_fixture_dims(doc, cells)
            } else if is_collision_scene(doc) {
                spec_collision_scene_dims(doc)
            } else if is_rts(doc) {
                spec_rts_scene_dims(doc)
            } else {
                spec_technical_dims(doc)
            },
        )
    }
}

fn validate_version_and_dims(doc: &ScenarioSpec, cells: u32) -> (r: Result<(), ScenarioError>)
    ensures
        outcome(r) == spec_version_and_dims(*doc, cells),
{
    let v = doc.version.as_str();
    let fixture = str_starts_with(v, FIXTURE_VERSION_PREFIX);
    let collision = str_eq(v, COLLISION_SCENE_V1);
    let technical = str_eq(v, TECHNICAL_PROTOTYPE_V1);
    let rts = str_eq(v, RTS_PROTOTYPE_V1);
    if !fixture && !collision && !technical && !rts {
        return Err(ScenarioError::UnsupportedVersion(doc.version.clone()));
    }
    check_population(doc)?;
    if fixture {
        return validate_fixture_dims(doc, cells);
    }
    if collision {
        return validate_collision_scene_dims(doc);
    }
    if rts {
        return validate_rts_scene_dims(doc);
    }
    validate_technical_dims(doc)
}

/// Sprite-sheet geometry binds every family; the phase-0 population binds
/// only the families that do not pick their own.
pub open spec fn spec_counts(doc: ScenarioSpec) -> Option<ScenarioFault> {
    let tail = if is_fixture(doc) || is_collision_scene(doc) || is_rts(doc) {
        None
    } else {
        first(field_fault("hard_agent_count"@, doc.hard_agent_count, V1_HARD_AGENTS),
        field_fault("stretch_agent_count"@, doc.stretch_agent_count, V1_STRETCH_AGENTS))
    };
    let tail = first(field_fault("frame_count"@, doc.frame_count, V1_FRAMES), tail);
    let tail = first(field_fault("direction_count"@, doc.direction_count, V1_DIRS), tail);
    let tail = first(field_fault("atlas_count"@, doc.atlas_count, V1_ATLASES), tail);
    tail
}

fn validate_counts(doc: &ScenarioSpec) -> (r: Result<(), ScenarioError>)
    ensures
        outcome(r) == spec_counts(*doc),
{
    check_field("atlas_count", doc.atlas_count, V1_ATLASES)?;
    check_field("direction_count", doc.direction_count, V1_DIRS)?;
    check_field("frame_count", doc.frame_count, V1_FRAMES)?;
    let v = doc.version.as_str();
    let free_workload = str_starts_with(v, FIXTURE_VERSION_PREFIX) || str_eq(v, COLLISION_SCENE_V1)
        || str_eq(v, RTS_PROTOTYPE_V1);
    if !free_workload {
        check_field("hard_agent_count", doc.hard_agent_count, V1_HARD_AGENTS)?;
        check_field("stretch_agent_count", doc.stretch_agent_count, V1_STRETCH_AGENTS)?;
    }
    Ok(())
}

/// A separation knob outside `1..=max`.
pub open spec fn knob_fault(name: Seq<char>, got: u32, max: u32) -> Option<ScenarioFault> {
    if got == 0 {
        Some(ScenarioFault::InvalidCollision(name + " must be >= 1; 1 is the identity tuning"@))
    } else if got > max {
        Some(ScenarioFault::InvalidCollision(got_max(name, got as nat, max as nat)))
    } else {
        None
    }
}

fn check_knob(name: &str, got: u32, max: u32) -> (r: Result<(), ScenarioError>)
    ensures
        outcome(r) == knob_fault(name@, got, max),
{
    if got == 0 {
        return Err(ScenarioError::InvalidCollision(build_concat(name, " must be >= 1; 1 is the identity tuning")));
    }
    if got > max {
        return Err(ScenarioError::InvalidCollision(build_got_max(name, got as u128, max as u128)));
    }
    Ok(())
}

pub open spec fn weight_without_body_msg() -> Seq<char> {
    "separation_strength_q8 is set but collision_radius_q8 is 0; a weight without a body pushes nothing"@
}

pub open spec fn bodyless_knobs_msg() -> Seq<char> {
    "a bodyless scenario must leave separation_phases, mass_class_count and separation_threads at 1; there is no separation pass to tune"@
}

/// Body radius and separation weight are bounded, and tuning a pass that
/// never runs is refused.
pub open spec fn spec_collision(doc: ScenarioSpec) -> Option<ScenarioFault> {
    if doc.collision_radius_q8 > MAX_COLLISION_RADIUS_Q8 {
        Some(ScenarioFault::InvalidCollision(got_max(
            "collision_radius_q8"@, doc.collision_radius_q8 as nat, MAX_COLLISION_RADIUS_Q8 as nat)))
    } else if doc.separation_strength_q8 > MAX_SEPARATION_STRENGTH_Q8 {
        Some(ScenarioFault::InvalidCollision(got_max(
            "separation_strength_q8"@, doc.separation_strength_q8 as nat,
            MAX_SEPARATION_STRENGTH_Q8 as nat)))
    } else if doc.collision_radius_q8 == 0 && doc.separation_strength_q8 != 0 {
        Some(ScenarioFault::InvalidCollision(weight_without_body_msg()))
    } else {
        first(knob_fault("separation_phases"@, doc.separation_phases, MAX_SEPARATION_PHASES),
        first(knob_fault("mass_class_count"@, doc.mass_class_count, MAX_MASS_CLASSES),
        first(knob_fault("separation_threads"@, doc.separation_threads, MAX_SEPARATION_THREADS),
        if doc.collision_radius_q8 == 0 && (doc.separation_phases != 1 || doc.mass_class_count != 1
            || doc.separation_threads != 1) {
            Some(ScenarioFault::InvalidCollision(bodyless_knobs_msg()))
        } else {
            None
        })))
    }
}

fn validate_collision(doc: &ScenarioSpec) -> (r: Result<(), ScenarioError>)
    ensures
        outcome(r) == spec_collision(*doc),
{
    if doc.collision_radius_q8 > MAX_COLLISION_RADIUS_Q8 {
        return Err(ScenarioError::InvalidCollision(build_got_max(
            "collision_radius_q8", doc.collision_radius_q8 as u128, MAX_COLLISION_RADIUS_Q8 as u128)));
    }
    if doc.separation_strength_q8 > MAX_SEPARATION_STRENGTH_Q8 {
        return Err(ScenarioError::InvalidCollision(build_got_max(
            "separation_strength_q8", doc.separation_strength_q8 as u128,
            MAX_SEPARATION_STRENGTH_Q8 as u128)));
    }
    if doc.collision_radius_q8 == 0 && doc.separation_strength_q8 != 0 {
        return Err(ScenarioError::InvalidCollision(String::from_str(
            "separation_strength_q8 is set but collision_radius_q8 is 0; a weight without a body pushes nothing")));
    }
    check_knob("separation_phases", doc.separation_phases, MAX_SEPARATION_PHASES)?;
    check_knob("mass_class_count", doc.mass_class_count, MAX_MASS_CLASSES)?;
    check_knob("separation_threads", doc.separation_threads, MAX_SEPARATION_THREADS)?;
    if doc.collision_radius_q8 == 0 && (doc.separation_phases != 1 || doc.mass_class_count != 1
        || doc.separation_threads != 1) {
        return Err(ScenarioError::InvalidCollision(String::from_str(
            "a bodyless scenario must leave separation_phases, mass_class_count and separation_threads at 1; there is no separation pass to tune")));
    }
    Ok(())
}

// ---------------------------------------------------------------------------
// Obstacles and cell indices
// ---------------------------------------------------------------------------

/// How many times `v` occurs in `s`.
pub open spec fn occ(s: Seq<u32>, v: u32) -> nat
    decreases s.len(),
{
    if s.len() == 0 {
        0
    } else {
        occ(s.drop_last(), v) + if s.last() == v { 1nat } else { 0nat }
    }
}

/// `n`, clamped at 2.
pub open spec fn min2(n: nat) -> nat {
    if n >= 2 { 2 } else { n }
}

/// The smallest in-range index at or above `v` that occurs more than once.
pub open spec fn first_dup_from(raw: Seq<u32>, cells: nat, v: nat) -> Option<u32>
    decreases cells - v,
{
    if v >= cells {
        None
    } else if occ(raw, v as u32) >= 2 {
        Some(v as u32)
    } else {
        first_dup_from(raw, cells, v + 1)
    }
}

/// The smallest out-of-range index in `raw`.
pub open spec fn oob_min(raw: Seq<u32>, cells: u32) -> Option<u32>
    decreases raw.len(),
{
    if raw.len() == 0 {
        None
    } else {
        let rest = oob_min(raw.drop_last(), cells);
        let x = raw.last();
        if x < cells {
            rest
        } else {
            match rest {
                None => Some(x),
                Some(m) => Some(if x < m { x } else { m }),
            }
        }
    }
}

/// The indices below `k` that `raw` contains, ascending, each once.
pub open spec fn present_below(raw: Seq<u32>, k: nat) -> Seq<u32>
    decreases k,
{
    if k == 0 {
        Seq::empty()
    } else {
        present_below(raw, (k - 1) as nat) + if raw.contains((k - 1) as u32) {
            seq![(k - 1) as u32]
        } else {
            Seq::empty()
        }
    }
}

/// Obstacle indices, sorted and deduplicated, or the first fault a sorted
/// scan meets: a repeated in-range index, else an out-of-range one.
pub open spec fn spec_normalize(raw: Seq<u32>, cells: u32) -> Result<Seq<u32>, ScenarioFault> {
    match first_dup_from(raw, cells as nat, 0) {
        Some(d) => Err(ScenarioFault::DuplicateObstacle(d)),
        None => match oob_min(raw, cells) {
            Some(u) => Err(ScenarioFault::InvalidObstacleIndex(u)),
            None => Ok(present_below(raw, cells as nat)),
        },
    }
}

proof fn lemma_occ_contains(s: Seq<u32>, v: u32)
    ensures
        (occ(s, v) > 0) <==> s.contains(v),
    decreases s.len(),
{
    if s.len() > 0 {
        lemma_occ_contains(s.drop_last(), v);
        if s.drop_last().contains(v) {
            let k = choose|k: int| 0 <= k < s.drop_last().len() && s.drop_last()[k] == v;
            assert(s[k] == v);
        }
        if s.contains(v) && s.last() != v {
            let k = choose|k: int| 0 <= k < s.len() && s[k] == v;
            assert(s.drop_last()[k] == v);
        }
    }
}

proof fn lemma_oob_min_none(raw: Seq<u32>, cells: u32)
    ensures
        (oob_min(raw, cells) is None) <==> (forall|k: int| 0 <= k < raw.len() ==> raw[k] < cells),
    decreases raw.len(),
{
    if raw.len() > 0 {
        lemma_oob_min_none(raw.drop_last(), cells);
        if oob_min(raw, cells) is None {
            assert forall|k: int| 0 <= k < raw.len() implies raw[k] < cells by {
                if k < raw.len() - 1 {
                    assert(raw.drop_last()[k] == raw[k]);
                }
            }
        }
    }
}

/// Everything `present_below` lists is below `k`, listed once, ascending.
pub proof fn lemma_present_below(raw: Seq<u32>, k: nat)
    requires
        k <= u32::MAX + 1,
    ensures
        present_below(raw, k).len() <= k,
        forall|i: int, j: int|
            #![trigger present_below(raw, k)[i], present_below(raw, k)[j]]
            0 <= i < j < present_below(raw, k).len() ==> present_below(raw, k)[i] < present_below(raw, k)[j],
        forall|v: u32|
            #![trigger present_below(raw, k).contains(v)]
            present_below(raw, k).contains(v) <==> (v < k && raw.contains(v)),
    decreases k,
{
    if k > 0 {
        let p = present_below(raw, (k - 1) as nat);
        lemma_present_below(raw, (k - 1) as nat);
        let q = present_below(raw, k);
        let last = (k - 1) as u32;
        assert(last as int == k - 1);
        if raw.contains(last) {
            assert(q == p.push(last));
        } else {
            assert(q =~= p);
        }
        assert forall|v: u32| q.contains(v) implies (v < k && raw.contains(v)) by {
            let i = choose|i: int| 0 <= i < q.len() && q[i] == v;
            if i < p.len() {
                assert(p[i] == v);
                assert(p.contains(v));
            } else {
                assert(raw.contains(last));
                assert(v == last);
            }
        }
        assert forall|v: u32| (v < k && raw.contains(v)) implies q.contains(v) by {
            if v < k - 1 {
                assert(p.contains(v));
                let i = choose|i: int| 0 <= i < p.len() && p[i] == v;
                assert(q[i] == v);
            } else {
                assert(v == last);
                assert(q[q.len() - 1] == v);
            }
        }
        assert forall|i: int, j: int| 0 <= i < j < q.len() implies q[i] < q[j] by {
            if j >= p.len() {
                assert(raw.contains(last));
                assert(q[j] == last);
                assert(q[i] == p[i]);
                assert(p.contains(q[i]));
            } else {
                assert(q[i] == p[i] && q[j] == p[j]);
            }
        }
    }
}

/// Sort and deduplicate-check obstacle indices. Returns the same answer a
/// sort followed by an ascending scan gives.
fn normalize_obstacles(raw: &Vec<u32>, cells: u32) -> (r: Result<Vec<u32>, ScenarioError>)
    requires
        cells <= RTS_MAX_MAP_CELLS,
    ensures
        match r {
            Ok(v) => spec_normalize(raw@, cells) == Ok::<Seq<u32>, ScenarioFault>(v@),
            Err(e) => spec_normalize(raw@, cells) == Err::<Seq<u32>, ScenarioFault>(e@),
        },
{
    let n = cells as usize;
    let mut counts: Vec<u8> = Vec::new();
    let mut k: usize = 0;
    while k < n
        invariant
            k <= n,
            counts.len() == k,
            forall|j: int| 0 <= j < k ==> counts[j] == 0,
        decreases n - k,
    {
        counts.push(0);
        k = k + 1;
    }
    let mut min_oob: Option<u32> = None;
    let mut i: usize = 0;
    while i < raw.len()
        invariant
            n == cells,
            i <= raw.len(),
            counts.len() == n,
            forall|v: int| 0 <= v < n ==> counts[v] as nat == min2(occ(raw@.take(i as int), v as u32)),
            min_oob == oob_min(raw@.take(i as int), cells),
        decreases raw.len() - i,
    {
        let x = raw[i];
        proof {
            assert(raw@.take(i + 1).drop_last() =~= raw@.take(i as int));
            assert(raw@.take(i + 1).last() == x);
        }
        if x >= cells {
            min_oob = match min_oob {
                None => Some(x),
                Some(m) => Some(if x < m { x } else { m }),
            };
        } else {
            let c = counts[x as usize];
            if c < 2 {
                counts.set(x as usize, c + 1);
            }
        }
        i = i + 1;
    }
    proof {
        assert(raw@.take(raw.len() as int) =~= raw@);
    }
    let mut v: usize = 0;
    while v < n
        invariant
            n == cells,
            v <= n,
            counts.len() == n,
            forall|u: int| 0 <= u < n ==> counts[u] as nat == min2(occ(raw@, u as u32)),
            forall|u: int| 0 <= u < v ==> counts[u] != 2,
            first_dup_from(raw@, cells as nat, 0) == first_dup_from(raw@, cells as nat, v as nat),
        decreases n - v,
    {
        if counts[v] == 2 {
            return Err(ScenarioError::DuplicateObstacle(v as u32));
        }
        v = v + 1;
    }
    if let Some(u) = min_oob {
        return Err(ScenarioError::InvalidObstacleIndex(u));
    }
    let mut out: Vec<u32> = Vec::new();
    let mut v: usize = 0;
    while v < n
        invariant
            n == cells,
            v <= n,
            counts.len() == n,
            forall|u: int| 0 <= u < n ==> counts[u] as nat == min2(occ(raw@, u as u32)),
            forall|u: int| 0 <= u < n ==> counts[u] < 2,
            out@ == present_below(raw@, v as nat),
        decreases n - v,
    {
        proof {
            lemma_occ_contains(raw@, v as u32);
        }
        if counts[v] == 1 {
            out.push(v as u32);
        }
        v = v + 1;
    }
    Ok(out)
}

/// The flat index of `cell`, or `None` when it is off the grid.
pub open spec fn spec_cell_index(cell: Cell, width: u32, height: u32) -> Option<int> {
    if cell.x < width && cell.y < height {
        Some(cell.x + cell.y * width)
    } else {
        None
    }
}

proof fn lemma_cell_index_bound(x: int, y: int, w: int, h: int)
    requires
        0 <= x < w,
        0 <= y < h,
    ensures
        0 <= x + y * w < w * h,
{
    assert(y * w + w <= h * w) by (nonlinear_arith)
        requires
            0 <= y < h,
            w > 0,
    ;
    assert(y * w >= 0) by (nonlinear_arith)
        requires
            y >= 0,
            w > 0,
    ;
    assert(h * w == w * h) by (nonlinear_arith);
}

fn cell_index(cell: Cell, width: u32, height: u32) -> (r: Option<usize>)
    requires
        width as int * height as int <= u32::MAX,
    ensures
        match r {
            Some(i) => spec_cell_index(cell, width, height) == Some(i as int)
                && (i as int) < width as int * height as int,
            None => spec_cell_index(cell, width, height) is None,
        },
{
    if cell.x >= width || cell.y >= height {
        return None;
    }
    proof {
        lemma_cell_index_bound(cell.x as int, cell.y as int, width as int, height as int);
    }
    Some((cell.x + cell.y * width) as usize)
}

/// One flag per cell: whether the obstacle list names it.
fn obstacle_set(obstacles: &Vec<u32>, cells: usize) -> (blocked: Vec<bool>)
    requires
        cells <= u32::MAX,
        forall|k: int| 0 <= k < obstacles.len() ==> (obstacles[k] as int) < cells,
    ensures
        blocked.len() == cells,
        forall|i: int| 0 <= i < cells ==> blocked[i] == obstacles@.contains(i as u32),
{
    let mut blocked: Vec<bool> = Vec::new();
    let mut k: usize = 0;
    while k < cells
        invariant
            k <= cells,
            blocked.len() == k,
            forall|j: int| 0 <= j < k ==> !blocked[j],
        decreases cells - k,
    {
        blocked.push(false);
        k = k + 1;
    }
    let mut j: usize = 0;
    while j < obstacles.len()
        invariant
            j <= obstacles.len(),
            blocked.len() == cells,
            cells <= u32::MAX,
            forall|k: int| 0 <= k < obstacles.len() ==> (obstacles[k] as int) < cells,
            forall|i: int| 0 <= i < cells ==> blocked[i] == obstacles@.take(j as int).contains(i as u32),
        decreases obstacles.len() - j,
    {
        let o = obstacles[j];
        proof {
            assert forall|i: int| #![trigger obstacles@.take(j + 1).contains(i as u32)] 0 <= i < cells implies
                (obstacles@.take(j + 1).contains(i as u32) <==> (obstacles@.take(j as int).contains(i as u32) || i == o as int)) by {
                let t = obstacles@.take(j + 1);
                assert((i as u32) as int == i);
                if t.contains(i as u32) {
                    let k = choose|k: int| 0 <= k < t.len() && t[k] == i as u32;
                    if k < j {
                        assert(obstacles@.take(j as int)[k] == i as u32);
                    }
                }
                if obstacles@.take(j as int).contains(i as u32) {
                    let k = choose|k: int| 0 <= k < j && obstacles@.take(j as int)[k] == i as u32;
                    assert(t[k] == i as u32);
                }
                if i == o as int {
                    assert(t[j as int] == o);
                }
            }
        }
        blocked.set(o as usize, true);
        j = j + 1;
    }
    proof {
        assert(obstacles@.take(obstacles.len() as int) =~= obstacles@);
    }
    blocked
}

// ---------------------------------------------------------------------------
// The RTS block
// ---------------------------------------------------------------------------

/// Rust's `Debug` rendering of a string: quoted, with special characters
/// escaped.
pub uninterp spec fn debug_quoted(s: Seq<char>) -> Seq<char>;

/// The `Debug` rendering of a string, as `format!("{:?}")` writes it.
#[verifier::external_body]
fn debug_str(s: &str) -> (r: String)
    ensures
        r@ == debug_quoted(s@),
{
    format!("{:?}", s)
}

/// `"{prefix}({x}, {y}){suffix}"`.
pub open spec fn cell_msg(prefix: Seq<char>, c: Cell, suffix: Seq<char>) -> Seq<char> {
    prefix + "("@ + dec(c.x as nat) + ", "@ + dec(c.y as nat) + ")"@ + suffix
}

fn build_cell_msg(prefix: &str, c: Cell, suffix: &str) -> (r: String)
    ensures
        r@ == cell_msg(prefix@, c, suffix@),
{
    let mut s = String::from_str(prefix);
    s.append("(");
    push_dec(&mut s, c.x as u128);
    s.append(", ");
    push_dec(&mut s, c.y as u128);
    s.append(")");
    s.append(suffix);
    s
}

/// Whether `c` lies in the HQ footprint whose minimum corner is `hq`.
pub open spec fn in_hq(hq: Cell, c: Cell) -> bool {
    c.x >= hq.x && c.x < hq.x + HQ_FOOTPRINT_CELLS && c.y >= hq.y && c.y < hq.y + HQ_FOOTPRINT_CELLS
}

/// The grid facts a cell is checked against: in bounds, free, reachable.
pub open spec fn ground_fault(doc: ScenarioSpec, blocked: Seq<bool>, reach: Seq<bool>, what: Seq<char>, c: Cell) -> Option<ScenarioFault> {
    match spec_cell_index(c, doc.width, doc.height) {
        None => Some(ScenarioFault::InvalidRts(cell_msg(what, c, " is out of bounds"@))),
        Some(i) => if blocked[i] {
            Some(ScenarioFault::InvalidRts(cell_msg(what, c, " is blocked"@)))
        } else if !reach[i] {
            Some(ScenarioFault::InvalidRts(cell_msg(what, c, " is unreachable from the destination"@)))
        } else {
            None
        },
    }
}

/// The first of `cells[k..]` whose ground is not usable.
pub open spec fn ground_faults(doc: ScenarioSpec, blocked: Seq<bool>, reach: Seq<bool>, what: Seq<char>, cells: Seq<Cell>, k: int) -> Option<ScenarioFault>
    decreases cells.len() - k,
{
    if k < 0 || k >= cells.len() {
        None
    } else {
        first(ground_fault(doc, blocked, reach, what, cells[k]), ground_faults(doc, blocked, reach, what, cells, k + 1))
    }
}

/// The first cell of `cells[k..]` that already occurs earlier in `cells`.
pub open spec fn repeat_fault(cells: Seq<Cell>, k: int) -> Option<ScenarioFault>
    decreases cells.len() - k,
{
    if k < 0 || k >= cells.len() {
        None
    } else if cells.take(k).contains(cells[k]) {
        Some(ScenarioFault::InvalidRts(cell_msg("cell "@, cells[k], " appears in both crystal_nodes and gas_nodes"@)))
    } else {
        repeat_fault(cells, k + 1)
    }
}

/// The first cell of `cells[k..]` inside the HQ footprint.
pub open spec fn in_hq_fault(hq: Cell, what: Seq<char>, cells: Seq<Cell>, k: int) -> Option<ScenarioFault>
    decreases cells.len() - k,
{
    if k < 0 || k >= cells.len() {
        None
    } else if in_hq(hq, cells[k]) {
        Some(ScenarioFault::InvalidRts(cell_msg(what, cells[k], " lies inside the HQ footprint"@)))
    } else {
        in_hq_fault(hq, what, cells, k + 1)
    }
}

/// The `t`-th footprint cell, row-major from the minimum corner.
pub open spec fn hq_cell_at(hq: Cell, t: int) -> Cell {
    Cell { x: (hq.x + t % (HQ_FOOTPRINT_CELLS as int)) as u32, y: (hq.y + t / (HQ_FOOTPRINT_CELLS as int)) as u32 }
}

/// The first blocked footprint cell at or after row-major position `t`.
pub open spec fn hq_blocked_fault(doc: ScenarioSpec, blocked: Seq<bool>, hq: Cell, t: int) -> Option<ScenarioFault>
    decreases 576 - t,
{
    if t < 0 || t >= 576 {
        None
    } else if blocked[hq_cell_at(hq, t).x + hq_cell_at(hq, t).y * doc.width] {
        Some(ScenarioFault::InvalidRts(cell_msg("hq footprint cell "@, hq_cell_at(hq, t), " is blocked"@)))
    } else {
        hq_blocked_fault(doc, blocked, hq, t + 1)
    }
}

/// Where the HQ goes: on the build-square lattice, on the map, on free ground.
pub open spec fn hq_fault(doc: ScenarioSpec, blocked: Seq<bool>, hq: Cell) -> Option<ScenarioFault> {
    if hq.x % BUILD_SQUARE_CELLS != 0 || hq.y % BUILD_SQUARE_CELLS != 0 {
        Some(ScenarioFault::InvalidRts(cell_msg("hq_cell "@, hq, ": not aligned to the 8-cell build square"@)))
    } else if hq.x + HQ_FOOTPRINT_CELLS > u32::MAX || hq.y + HQ_FOOTPRINT_CELLS > u32::MAX {
        Some(ScenarioFault::InvalidRts(cell_msg("hq_cell "@, hq, ": footprint overflows"@)))
    } else if hq.x + HQ_FOOTPRINT_CELLS > doc.width || hq.y + HQ_FOOTPRINT_CELLS > doc.height {
        Some(ScenarioFault::InvalidRts(
            cell_msg("hq_cell "@, hq, ": 24x24 footprint is out of bounds on a "@) + dec(doc.width as nat)
                + "x"@ + dec(doc.height as nat) + " grid"@,
        ))
    } else {
        hq_blocked_fault(doc, blocked, hq, 0)
    }
}

/// Where an enemy stands: usable ground, outside the HQ, off every node.
pub open spec fn enemy_fault(doc: ScenarioSpec, blocked: Seq<bool>, reach: Seq<bool>, nodes: Seq<Cell>, hq: Cell, what: Seq<char>, c: Cell) -> Option<ScenarioFault> {
    if ground_fault(doc, blocked, reach, what, c) is Some {
        ground_fault(doc, blocked, reach, what, c)
    } else if in_hq(hq, c) {
        Some(ScenarioFault::InvalidRts(cell_msg(what, c, " lies inside the HQ footprint"@)))
    } else if nodes.contains(c) {
        Some(ScenarioFault::InvalidRts(cell_msg(what, c, " sits on a resource node"@)))
    } else {
        None
    }
}

/// The first of `cells[k..]` an enemy may not stand on.
pub open spec fn enemy_faults(doc: ScenarioSpec, blocked: Seq<bool>, reach: Seq<bool>, nodes: Seq<Cell>, hq: Cell, what: Seq<char>, cells: Seq<Cell>, k: int) -> Option<ScenarioFault>
    decreases cells.len() - k,
{
    if k < 0 || k >= cells.len() {
        None
    } else {
        first(enemy_fault(doc, blocked, reach, nodes, hq, what, cells[k]), enemy_faults(doc, blocked, reach, nodes, hq, what, cells, k + 1))
    }
}

/// Total Ghouls in `waves[..k]`.
pub open spec fn wave_total(waves: Seq<WaveSpec>, k: int) -> nat
    decreases k,
{
    if k <= 0 || k > waves.len() {
        0
    } else {
        wave_total(waves, k - 1) + waves[k - 1].count as nat
    }
}

/// One wave's own rules: at least one Ghoul, a real origin, in time order.
pub open spec fn wave_fault(waves: Seq<WaveSpec>, points: nat, k: int) -> Option<ScenarioFault> {
    let w = waves[k];
    if w.count == 0 {
        Some(ScenarioFault::InvalidRts("wave "@ + dec(k as nat) + ": count must be >= 1"@))
    } else if w.spawn_point as nat >= points {
        Some(ScenarioFault::InvalidRts(
            "wave "@ + dec(k as nat) + ": spawn_point "@ + dec(w.spawn_point as nat) + " out of range ("@
                + dec(points) + " spawn points)"@,
        ))
    } else if k > 0 && w.at_tick < waves[k - 1].at_tick {
        Some(ScenarioFault::InvalidRts(
            "wave "@ + dec(k as nat) + ": at_tick "@ + dec(w.at_tick as nat) + " is not sorted non-decreasing"@,
        ))
    } else {
        None
    }
}

/// The first of `waves[k..]` that breaks a wave rule.
pub open spec fn wave_faults(waves: Seq<WaveSpec>, points: nat, k: int) -> Option<ScenarioFault>
    decreases waves.len() - k,
{
    if k < 0 || k >= waves.len() {
        None
    } else {
        first(wave_fault(waves, points, k), wave_faults(waves, points, k + 1))
    }
}

/// The scripted invasion: usable cells, valid waves, under the budget.
pub open spec fn spec_enemies(doc: ScenarioSpec, blocked: Seq<bool>, reach: Seq<bool>, nodes: Seq<Cell>, hq: Cell, e: EnemySpec) -> Option<ScenarioFault> {
    let tail = {
        let total = e.pre_placed@.len() + wave_total(e.waves@, e.waves@.len() as int);
        if total > MAX_ENEMIES {
            Some(ScenarioFault::InvalidRts(text2("enemy total "@, total, " exceeds cap "@, MAX_ENEMIES as nat)))
        } else {
            None
        }
    };
    let tail = first(wave_faults(e.waves@, e.spawn_points@.len(), 0), tail);
    let tail = first(enemy_faults(doc, blocked, reach, nodes, hq, "enemy spawn_point cell"@, e.spawn_points@, 0), tail);
    first(enemy_faults(doc, blocked, reach, nodes, hq, "enemy pre_placed cell"@, e.pre_placed@, 0), tail)
}

/// One node list: present, and no longer than [`MAX_RESOURCE_NODES`].
pub open spec fn node_list_fault(name: Seq<char>, len: nat) -> Option<ScenarioFault> {
    if len == 0 {
        Some(ScenarioFault::InvalidRts(name + " must not be empty"@))
    } else if len > MAX_RESOURCE_NODES {
        Some(ScenarioFault::InvalidRts(text2(name + ": "@, len, " exceeds cap "@, MAX_RESOURCE_NODES as nat)))
    } else {
        None
    }
}

pub open spec fn presence_msg(doc: ScenarioSpec) -> Seq<char> {
    "version "@ + debug_quoted(doc.version@) + ": rts block must be present iff version == "@
        + "\"rts_prototype_v1\""@
}

/// The RTS block is present exactly on the RTS family, and every cell it
/// names is a cell a base could actually use.
pub open spec fn spec_rts_block(doc: ScenarioSpec, blocked: Seq<bool>, reach: Seq<bool>) -> Option<ScenarioFault> {
    if is_rts(doc) != (doc.rts is Some) {
        Some(ScenarioFault::InvalidRts(presence_msg(doc)))
    } else if doc.rts is None {
        None
    } else {
        let rts = doc.rts->0;
        let nodes = rts.crystal_nodes@ + rts.gas_nodes@;
        let tail = match rts.enemies {
            Some(e) => spec_enemies(doc, blocked, reach, nodes, rts.hq_cell, e),
            None => None,
        };
        let tail = first(in_hq_fault(rts.hq_cell, "spawn "@, doc.spawn_cells@, 0), tail);
        let tail = first(in_hq_fault(rts.hq_cell, "node "@, nodes, 0), tail);
        let tail = first(hq_fault(doc, blocked, rts.hq_cell), tail);
        let tail = first(repeat_fault(nodes, 0), tail);
        let tail = first(ground_faults(doc, blocked, reach, "node "@, nodes, 0), tail);
        let tail = first(node_list_fault("gas_nodes"@, rts.gas_nodes@.len()), tail);
        let tail = first(node_list_fault("crystal_nodes"@, rts.crystal_nodes@.len()), tail);
        let tail = first(
            if rts.start_supply_cap == 0 || rts.start_supply_cap > MAX_SUPPLY_CAP {
                Some(ScenarioFault::InvalidRts(
                    "start_supply_cap: got "@ + dec(rts.start_supply_cap as nat) + ", want 1..="@
                        + dec(MAX_SUPPLY_CAP as nat),
                ))
            } else {
                None
            },
            tail,
        );
        let tail = first(
            if rts.start_gas > MAX_START_RESOURCE {
                Some(ScenarioFault::InvalidRts(got_max("start_gas"@, rts.start_gas as nat, MAX_START_RESOURCE as nat)))
            } else {
                None
            },
            tail,
        );
        first(
            if rts.start_crystal > MAX_START_RESOURCE {
                Some(ScenarioFault::InvalidRts(got_max("start_crystal"@, rts.start_crystal as nat, MAX_START_RESOURCE as nat)))
            } else {
                None
            },
            tail,
        )
    }
}

fn check_ground(doc: &ScenarioSpec, blocked: &Vec<bool>, reach: &Vec<bool>, what: &str, c: Cell) -> (r: Result<(), ScenarioError>)
    requires
        doc.width as int * doc.height as int <= u32::MAX,
        blocked.len() == doc.width as int * doc.height as int,
        reach.len() == blocked.len(),
    ensures
        outcome(r) == ground_fault(*doc, blocked@, reach@, what@, c),
{
    match cell_index(c, doc.width, doc.height) {
        None => Err(ScenarioError::InvalidRts(build_cell_msg(what, c, " is out of bounds"))),
        Some(i) => {
            if blocked[i] {
                Err(ScenarioError::InvalidRts(build_cell_msg(what, c, " is blocked")))
            } else if !reach[i] {
                Err(ScenarioError::InvalidRts(build_cell_msg(what, c, " is unreachable from the destination")))
            } else {
                Ok(())
            }
        },
    }
}

fn check_ground_all(doc: &ScenarioSpec, blocked: &Vec<bool>, reach: &Vec<bool>, what: &str, cells: &Vec<Cell>) -> (r: Result<(), ScenarioError>)
    requires
        doc.width as int * doc.height as int <= u32::MAX,
        blocked.len() == doc.width as int * doc.height as int,
        reach.len() == blocked.len(),
    ensures
        outcome(r) == ground_faults(*doc, blocked@, reach@, what@, cells@, 0),
{
    let mut k: usize = 0;
    while k < cells.len()
        invariant
            k <= cells.len(),
            doc.width as int * doc.height as int <= u32::MAX,
            blocked.len() == doc.width as int * doc.height as int,
            reach.len() == blocked.len(),
            ground_faults(*doc, blocked@, reach@, what@, cells@, 0) == ground_faults(*doc, blocked@, reach@, what@, cells@, k as int),
        decreases cells.len() - k,
    {
        check_ground(doc, blocked, reach, what, cells[k])?;
        k = k + 1;
    }
    Ok(())
}

fn check_repeats(cells: &Vec<Cell>) -> (r: Result<(), ScenarioError>)
    ensures
        outcome(r) == repeat_fault(cells@, 0),
{
    let mut k: usize = 0;
    while k < cells.len()
        invariant
            k <= cells.len(),
            repeat_fault(cells@, 0) == repeat_fault(cells@, k as int),
        decreases cells.len() - k,
    {
        let c = cells[k];
        let mut j: usize = 0;
        while j < k
            invariant
                j <= k,
                k < cells.len(),
                c == cells@[k as int],
                repeat_fault(cells@, 0) == repeat_fault(cells@, k as int),
                forall|m: int| 0 <= m < j ==> cells@[m] != c,
            decreases k - j,
        {
            if cells[j] == c {
                assert(cells@.take(k as int)[j as int] == c);
                return Err(ScenarioError::InvalidRts(build_cell_msg("cell ", c, " appears in both crystal_nodes and gas_nodes")));
            }
            j = j + 1;
        }
        proof {
            if cells@.take(k as int).contains(c) {
                let m = choose|m: int| 0 <= m < k && cells@.take(k as int)[m] == c;
                assert(cells@[m] == c);
            }
        }
        k = k + 1;
    }
    Ok(())
}

fn check_in_hq(hq: Cell, what: &str, cells: &Vec<Cell>) -> (r: Result<(), ScenarioError>)
    requires
        hq.x + HQ_FOOTPRINT_CELLS <= u32::MAX,
        hq.y + HQ_FOOTPRINT_CELLS <= u32::MAX,
    ensures
        outcome(r) == in_hq_fault(hq, what@, cells@, 0),
{
    let max_x = hq.x + HQ_FOOTPRINT_CELLS;
    let max_y = hq.y + HQ_FOOTPRINT_CELLS;
    let mut k: usize = 0;
    while k < cells.len()
        invariant
            k <= cells.len(),
            max_x == hq.x + HQ_FOOTPRINT_CELLS,
            max_y == hq.y + HQ_FOOTPRINT_CELLS,
            in_hq_fault(hq, what@, cells@, 0) == in_hq_fault(hq, what@, cells@, k as int),
        decreases cells.len() - k,
    {
        let c = cells[k];
        if c.x >= hq.x && c.x < max_x && c.y >= hq.y && c.y < max_y {
            return Err(ScenarioError::InvalidRts(build_cell_msg(what, c, " lies inside the HQ footprint")));
        }
        k = k + 1;
    }
    Ok(())
}

fn check_hq(doc: &ScenarioSpec, blocked: &Vec<bool>, hq: Cell) -> (r: Result<(), ScenarioError>)
    requires
        doc.width as int * doc.height as int <= u32::MAX,
        blocked.len() == doc.width as int * doc.height as int,
    ensures
        outcome(r) == hq_fault(*doc, blocked@, hq),
{
    if hq.x % BUILD_SQUARE_CELLS != 0 || hq.y % BUILD_SQUARE_CELLS != 0 {
        return Err(ScenarioError::InvalidRts(build_cell_msg("hq_cell ", hq, ": not aligned to the 8-cell build square")));
    }
    let (max_x, max_y) = match (hq.x.checked_add(HQ_FOOTPRINT_CELLS), hq.y.checked_add(HQ_FOOTPRINT_CELLS)) {
        (Some(mx), Some(my)) => (mx, my),
        _ => {
            return Err(ScenarioError::InvalidRts(build_cell_msg("hq_cell ", hq, ": footprint overflows")));
        },
    };
    if max_x > doc.width || max_y > doc.height {
        let mut s = build_cell_msg("hq_cell ", hq, ": 24x24 footprint is out of bounds on a ");
        push_dec(&mut s, doc.width as u128);
        s.append("x");
        push_dec(&mut s, doc.height as u128);
        s.append(" grid");
        return Err(ScenarioError::InvalidRts(s));
    }
    let mut t: u32 = 0;
    while t < 576
        invariant
            t <= 576,
            hq.x + HQ_FOOTPRINT_CELLS <= doc.width,
            hq.y + HQ_FOOTPRINT_CELLS <= doc.height,
            doc.width as int * doc.height as int <= u32::MAX,
            blocked.len() == doc.width as int * doc.height as int,
            hq_fault(*doc, blocked@, hq) == hq_blocked_fault(*doc, blocked@, hq, t as int),
        decreases 576 - t,
    {
        let x = hq.x + t % HQ_FOOTPRINT_CELLS;
        let y = hq.y + t / HQ_FOOTPRINT_CELLS;
        proof {
            assert(t / 24 < 24);
            assert(hq_cell_at(hq, t as int) == Cell { x, y });
            lemma_cell_index_bound(x as int, y as int, doc.width as int, doc.height as int);
        }
        let idx = x + y * doc.width;
        if blocked[idx as usize] {
            return Err(ScenarioError::InvalidRts(build_cell_msg("hq footprint cell ", Cell { x, y }, " is blocked")));
        }
        t = t + 1;
    }
    Ok(())
}

fn check_enemy_cells(doc: &ScenarioSpec, blocked: &Vec<bool>, reach: &Vec<bool>, nodes: &Vec<Cell>, hq: Cell, what: &str, cells: &Vec<Cell>) -> (r: Result<(), ScenarioError>)
    requires
        doc.width as int * doc.height as int <= u32::MAX,
        blocked.len() == doc.width as int * doc.height as int,
        reach.len() == blocked.len(),
        hq.x + HQ_FOOTPRINT_CELLS <= u32::MAX,
        hq.y + HQ_FOOTPRINT_CELLS <= u32::MAX,
    ensures
        outcome(r) == enemy_faults(*doc, blocked@, reach@, nodes@, hq, what@, cells@, 0),
{
    let mut k: usize = 0;
    while k < cells.len()
        invariant
            k <= cells.len(),
            doc.width as int * doc.height as int <= u32::MAX,
            blocked.len() == doc.width as int * doc.height as int,
            reach.len() == blocked.len(),
            hq.x + HQ_FOOTPRINT_CELLS <= u32::MAX,
            hq.y + HQ_FOOTPRINT_CELLS <= u32::MAX,
            enemy_faults(*doc, blocked@, reach@, nodes@, hq, what@, cells@, 0)
                == enemy_faults(*doc, blocked@, reach@, nodes@, hq, what@, cells@, k as int),
        decreases cells.len() - k,
    {
        let c = cells[k];
        check_ground(doc, blocked, reach, what, c)?;
        if c.x >= hq.x && c.x < hq.x + HQ_FOOTPRINT_CELLS && c.y >= hq.y && c.y < hq.y + HQ_FOOTPRINT_CELLS {
            return Err(ScenarioError::InvalidRts(build_cell_msg(what, c, " lies inside the HQ footprint")));
        }
        let mut j: usize = 0;
        while j < nodes.len()
            invariant
                j <= nodes.len(),
                k < cells.len(),
                c == cells@[k as int],
                ground_fault(*doc, blocked@, reach@, what@, c) is None,
                !in_hq(hq, c),
                enemy_faults(*doc, blocked@, reach@, nodes@, hq, what@, cells@, 0)
                    == enemy_faults(*doc, blocked@, reach@, nodes@, hq, what@, cells@, k as int),
                forall|m: int| 0 <= m < j ==> nodes@[m] != c,
            decreases nodes.len() - j,
        {
            if nodes[j] == c {
                assert(nodes@.contains(c));
                return Err(ScenarioError::InvalidRts(build_cell_msg(what, c, " sits on a resource node")));
            }
            j = j + 1;
        }
        k = k + 1;
    }
    Ok(())
}

fn check_waves(waves: &Vec<WaveSpec>, points: usize) -> (r: Result<(), ScenarioError>)
    ensures
        outcome(r) == wave_faults(waves@, points as nat, 0),
{
    let mut k: usize = 0;
    while k < waves.len()
        invariant
            k <= waves.len(),
            wave_faults(waves@, points as nat, 0) == wave_faults(waves@, points as nat, k as int),
        decreases waves.len() - k,
    {
        let w = waves[k];
        if w.count == 0 {
            let mut s = String::from_str("wave ");
            push_dec(&mut s, k as u128);
            s.append(": count must be >= 1");
            return Err(ScenarioError::InvalidRts(s));
        }
        if (w.spawn_point as usize) >= points {
            let mut s = String::from_str("wave ");
            push_dec(&mut s, k as u128);
            s.append(": spawn_point ");
            push_dec(&mut s, w.spawn_point as u128);
            s.append(" out of range (");
            push_dec(&mut s, points as u128);
            s.append(" spawn points)");
            return Err(ScenarioError::InvalidRts(s));
        }
        if k > 0 && w.at_tick < waves[k - 1].at_tick {
            let mut s = String::from_str("wave ");
            push_dec(&mut s, k as u128);
            s.append(": at_tick ");
            push_dec(&mut s, w.at_tick as u128);
            s.append(" is not sorted non-decreasing");
            return Err(ScenarioError::InvalidRts(s));
        }
        k = k + 1;
    }
    Ok(())
}

fn check_enemies(doc: &ScenarioSpec, blocked: &Vec<bool>, reach: &Vec<bool>, nodes: &Vec<Cell>, hq: Cell, e: &EnemySpec) -> (r: Result<(), ScenarioError>)
    requires
        doc.width as int * doc.height as int <= u32::MAX,
        blocked.len() == doc.width as int * doc.height as int,
        reach.len() == blocked.len(),
        hq.x + HQ_FOOTPRINT_CELLS <= u32::MAX,
        hq.y + HQ_FOOTPRINT_CELLS <= u32::MAX,
    ensures
        outcome(r) == spec_enemies(*doc, blocked@, reach@, nodes@, hq, *e),
{
    check_enemy_cells(doc, blocked, reach, nodes, hq, "enemy pre_placed cell", &e.pre_placed)?;
    check_enemy_cells(doc, blocked, reach, nodes, hq, "enemy spawn_point cell", &e.spawn_points)?;
    check_waves(&e.waves, e.spawn_points.len())?;
    let mut total: u128 = e.pre_placed.len() as u128;
    let mut k: usize = 0;
    while k < e.waves.len()
        invariant
            k <= e.waves.len(),
            total == e.pre_placed@.len() + wave_total(e.waves@, k as int),
            wave_total(e.waves@, k as int) <= k * u32::MAX,
        decreases e.waves.len() - k,
    {
        proof {
            assert(k < 0x1_0000_0000_0000_0000int);
            assert(k * u32::MAX + u32::MAX <= 0x1_0000_0000_0000_0000 * 0x1_0000_0000) by (nonlinear_arith)
                requires
                    k < 0x1_0000_0000_0000_0000int,
            ;
            assert(e.pre_placed.len() <= usize::MAX);
            assert(wave_total(e.waves@, k + 1) == wave_total(e.waves@, k as int) + e.waves@[k as int].count);
        }
        total = total + e.waves[k].count as u128;
        k = k + 1;
    }
    if total > MAX_ENEMIES as u128 {
        return Err(ScenarioError::InvalidRts(build_text2("enemy total ", total, " exceeds cap ", MAX_ENEMIES as u128)));
    }
    Ok(())
}

fn check_node_list(name: &str, len: usize) -> (r: Result<(), ScenarioError>)
    ensures
        outcome(r) == node_list_fault(name@, len as nat),
{
    if len == 0 {
        return Err(ScenarioError::InvalidRts(build_concat(name, " must not be empty")));
    }
    if len > MAX_RESOURCE_NODES {
        let head = build_concat(name, ": ");
        return Err(ScenarioError::InvalidRts(build_text2(head.as_str(), len as u128, " exceeds cap ", MAX_RESOURCE_NODES as u128)));
    }
    Ok(())
}

/// The RTS block is present exactly on the RTS family, and every cell it
/// names is usable ground for what stands there.
fn validate_rts_block(doc: &ScenarioSpec, blocked: &Vec<bool>, reach: &Vec<bool>) -> (r: Result<(), ScenarioError>)
    requires
        doc.width as int * doc.height as int <= u32::MAX,
        blocked.len() == doc.width as int * doc.height as int,
        reach.len() == blocked.len(),
    ensures
        outcome(r) == spec_rts_block(*doc, blocked@, reach@),
{
    let is_rts_family = str_eq(doc.version.as_str(), RTS_PROTOTYPE_V1);
    if is_rts_family != doc.rts.is_some() {
        let mut s = String::from_str("version ");
        let quoted = debug_str(doc.version.as_str());
        s.append(quoted.as_str());
        s.append(": rts block must be present iff version == ");
        s.append("\"rts_prototype_v1\"");
        return Err(ScenarioError::InvalidRts(s));
    }
    let rts = match &doc.rts {
        None => {
            return Ok(());
        },
        Some(rts) => rts,
    };
    if rts.start_crystal > MAX_START_RESOURCE {
        return Err(ScenarioError::InvalidRts(build_got_max("start_crystal", rts.start_crystal as u128, MAX_START_RESOURCE as u128)));
    }
    if rts.start_gas > MAX_START_RESOURCE {
        return Err(ScenarioError::InvalidRts(build_got_max("start_gas", rts.start_gas as u128, MAX_START_RESOURCE as u128)));
    }
    if rts.start_supply_cap == 0 || rts.start_supply_cap > MAX_SUPPLY_CAP {
        let mut s = String::from_str("start_supply_cap: got ");
        push_dec(&mut s, rts.start_supply_cap as u128);
        s.append(", want 1..=");
        push_dec(&mut s, MAX_SUPPLY_CAP as u128);
        return Err(ScenarioError::InvalidRts(s));
    }
    check_node_list("crystal_nodes", rts.crystal_nodes.len())?;
    check_node_list("gas_nodes", rts.gas_nodes.len())?;
    let mut nodes: Vec<Cell> = rts.crystal_nodes.clone();
    let mut extra: Vec<Cell> = rts.gas_nodes.clone();
    nodes.append(&mut extra);
    check_ground_all(doc, blocked, reach, "node ", &nodes)?;
    check_repeats(&nodes)?;
    check_hq(doc, blocked, rts.hq_cell)?;
    check_in_hq(rts.hq_cell, "node ", &nodes)?;
    check_in_hq(rts.hq_cell, "spawn ", &doc.spawn_cells)?;
    match &rts.enemies {
        Some(e) => check_enemies(doc, blocked, reach, &nodes, rts.hq_cell, e),
        None => Ok(()),
    }
}

// ---------------------------------------------------------------------------
// 4-connected reachability on a row-major grid
// ---------------------------------------------------------------------------

/// `b` is one of the four orthogonal neighbours of `a` on a `w`-wide grid of
/// `n` cells.
pub open spec fn nbr4(w: int, n: int, a: int, b: int) -> bool {
    &&& 0 <= a < n
    &&& {
        ||| (a % w != 0 && b == a - 1)
        ||| ((a + 1) % w != 0 && b == a + 1)
        ||| (a >= w && b == a - w)
        ||| (a + w < n && b == a + w)
    }
}

/// A walk from `p[0]` to `p.last()` over free cells, one orthogonal step at a
/// time.
pub open spec fn is_walk4(w: int, blocked: Seq<bool>, p: Seq<int>) -> bool {
    &&& p.len() >= 1
    &&& forall|k: int| 0 <= k < p.len() ==> 0 <= #[trigger] p[k] < blocked.len() && !blocked[p[k]]
    &&& forall|k: int| 0 <= k < p.len() - 1 ==> nbr4(w, blocked.len() as int, #[trigger] p[k], p[k + 1])
}

/// Cell `t` can be walked to from `origin` over free cells.
pub open spec fn reachable4(w: int, blocked: Seq<bool>, origin: int, t: int) -> bool {
    exists|p: Seq<int>| is_walk4(w, blocked, p) && p[0] == origin && #[trigger] p.last() == t
}

/// Every cell of a walk that starts inside a neighbour-closed set stays in it.
proof fn lemma_walk_stays_in_closed(w: int, blocked: Seq<bool>, seen: Seq<bool>, p: Seq<int>, k: int)
    requires
        is_walk4(w, blocked, p),
        seen.len() == blocked.len(),
        seen[p[0]],
        forall|a: int, b: int|
            #![trigger nbr4(w, seen.len() as int, a, b)]
            0 <= a < seen.len() && seen[a] && nbr4(w, seen.len() as int, a, b) && 0 <= b < seen.len()
                && !blocked[b] ==> seen[b],
        0 <= k < p.len(),
    ensures
        seen[p[k]],
    decreases k,
{
    if k > 0 {
        lemma_walk_stays_in_closed(w, blocked, seen, p, k - 1);
        assert(nbr4(w, blocked.len() as int, p[k - 1], p[k]));
    }
}

/// Extending a walk by one free neighbour is a walk.
proof fn lemma_walk_extend(w: int, blocked: Seq<bool>, p: Seq<int>, b: int)
    requires
        is_walk4(w, blocked, p),
        0 <= b < blocked.len(),
        !blocked[b],
        nbr4(w, blocked.len() as int, p.last(), b),
    ensures
        is_walk4(w, blocked, p.push(b)),
        p.push(b)[0] == p[0],
        p.push(b).last() == b,
{
    let q = p.push(b);
    assert forall|k: int| 0 <= k < q.len() - 1 implies nbr4(w, blocked.len() as int, #[trigger] q[k], q[k + 1]) by {
        if k < p.len() - 1 {
            assert(q[k] == p[k] && q[k + 1] == p[k + 1]);
        } else {
            assert(q[k] == p.last());
        }
    }
}

/// Visit one candidate neighbour `b` of the cell being expanded: mark it and
/// push it when it is free and unseen.
fn flood_visit(
    seen: &mut Vec<bool>,
    stack: &mut Vec<usize>,
    b: usize,
    blocked: &Vec<bool>,
) -> (pushed: bool)
    requires
        b < old(seen).len(),
        old(seen).len() == blocked.len(),
        old(stack).len() + 1 <= usize::MAX,
    ensures
        final(seen).len() == old(seen).len(),
        pushed == (!old(seen)[b as int] && !blocked[b as int]),
        pushed ==> final(seen)@ == old(seen)@.update(b as int, true)
            && final(stack)@ == old(stack)@.push(b),
        !pushed ==> final(seen)@ == old(seen)@ && final(stack)@ == old(stack)@,
{
    if seen[b] || blocked[b] {
        return false;
    }
    seen.set(b, true);
    stack.push(b);
    true
}

/// The `d`-th candidate neighbour of `a` (left, right, up, down), when it
/// exists on the grid.
pub open spec fn cand4(w: int, n: int, a: int, d: int) -> Option<int> {
    if d == 0 {
        if a % w != 0 { Some(a - 1) } else { None }
    } else if d == 1 {
        if (a + 1) % w != 0 { Some(a + 1) } else { None }
    } else if d == 2 {
        if a >= w { Some(a - w) } else { None }
    } else {
        if a + w < n { Some(a + w) } else { None }
    }
}

proof fn lemma_cand4_is_nbr4(w: int, n: int, a: int, d: int)
    requires
        0 <= a < n,
        w > 0,
        n % w == 0,
    ensures
        cand4(w, n, a, d) matches Some(b) ==> nbr4(w, n, a, b) && 0 <= b < n,
{
    if d == 0 && a % w != 0 && a == 0 {
        vstd::arithmetic::div_mod::lemma_small_mod(0, w as nat);
    }
    if d == 1 && (a + 1) % w != 0 && a + 1 == n {
        assert((a + 1) % w == n % w);
    }
}

proof fn lemma_nbr4_has_cand4(w: int, n: int, a: int, b: int) -> (d: int)
    requires
        nbr4(w, n, a, b),
    ensures
        0 <= d < 4,
        cand4(w, n, a, d) == Some(b),
{
    if a % w != 0 && b == a - 1 {
        0
    } else if (a + 1) % w != 0 && b == a + 1 {
        1
    } else if a >= w && b == a - w {
        2
    } else {
        3
    }
}

/// The `d`-th candidate neighbour of cell `a` on a `w`-wide grid of `n` cells.
fn neighbor_candidate(a: usize, d: usize, w: usize, n: usize) -> (r: Option<usize>)
    requires
        a < n,
        w > 0,
        d < 4,
        n % w == 0,
        n >= w,
    ensures
        r matches Some(b) ==> cand4(w as int, n as int, a as int, d as int) == Some(b as int) && b < n,
        r is None ==> cand4(w as int, n as int, a as int, d as int) is None,
{
    proof {
        lemma_cand4_is_nbr4(w as int, n as int, a as int, d as int);
    }
    if d == 0 {
        if a % w != 0 { Some(a - 1) } else { None }
    } else if d == 1 {
        if (a + 1) % w != 0 { Some(a + 1) } else { None }
    } else if d == 2 {
        if a >= w { Some(a - w) } else { None }
    } else {
        if a < n - w { Some(a + w) } else { None }
    }
}

/// 4-connected flood fill from `origin` over free cells: `seen[i]` exactly
/// when cell `i` can be walked to from `origin`.
#[verifier::rlimit(60)]
pub fn flood_reachable(origin: usize, width: u32, height: u32, blocked: &Vec<bool>) -> (seen: Vec<bool>)
    requires
        width > 0,
        width as int * height as int == blocked.len(),
        origin < blocked.len(),
        !blocked[origin as int],
    ensures
        seen.len() == blocked.len(),
        forall|i: int| 0 <= i < blocked.len() ==> (seen[i] <==> reachable4(width as int, blocked@, origin as int, i)),
{
    let n = blocked.len();
    let w = width as usize;
    let ghost wi = width as int;
    let ghost ni = n as int;
    let mut seen: Vec<bool> = Vec::new();
    let mut k: usize = 0;
    while k < n
        invariant
            k <= n,
            n == blocked.len(),
            seen.len() == k,
            forall|j: int| 0 <= j < k ==> !seen[j],
        decreases n - k,
    {
        seen.push(false);
        k = k + 1;
    }
    seen.set(origin, true);
    let mut stack: Vec<usize> = Vec::new();
    stack.push(origin);
    let ghost mut marked: Set<int> = set![origin as int];
    proof {
        lemma_mod_multiples_basic(height as int, wi);
        assert(height as int * wi == wi * height);
        assert(ni % wi == 0);
        assert(ni >= wi) by (nonlinear_arith)
            requires
                ni == wi * height,
                ni > 0,
                wi > 0,
        ;
        let p = seq![origin as int];
        assert(is_walk4(wi, blocked@, p));
        assert(p.last() == origin as int);
        assert(marked =~= Set::new(|i: int| 0 <= i < ni && seen[i]));
        assert(stack@[0] == origin);
        assert(stack@.contains(origin));
        assert forall|a: int| 0 <= a < ni && seen[a] implies a == origin as int by {}
    }
    while stack.len() > 0
        invariant
            n == blocked.len(),
            w as int == wi,
            wi == width,
            wi > 0,
            wi * height == ni,
            ni == n,
            ni % wi == 0,
            ni >= wi,
            seen.len() == n,
            origin < n,
            seen[origin as int],
            marked == Set::new(|i: int| 0 <= i < ni && seen[i]),
            marked.finite(),
            stack.len() <= marked.len(),
            marked.len() <= ni,
            forall|s: int| 0 <= s < stack.len() ==> #[trigger] stack[s] < n && seen[stack[s] as int],
            forall|s: int, t: int| 0 <= s < t < stack.len() ==> stack[s] != stack[t],
            forall|i: int| 0 <= i < n && #[trigger] seen[i] ==> reachable4(wi, blocked@, origin as int, i) && !blocked[i],
            forall|a: int, b: int|
                #![trigger nbr4(wi, ni, a, b)]
                0 <= a < ni && seen[a] && !stack@.contains(a as usize) && nbr4(wi, ni, a, b) && 0 <= b < ni
                    && !blocked[b] ==> seen[b],
        decreases 2 * (ni - marked.len()) + stack.len(),
    {
        let ghost before = stack@;
        let ghost marked_before = marked;
        let i = stack.pop().unwrap();
        proof {
            assert(before =~= stack@.push(i));
            if stack@.contains(i) {
                let s = choose|s: int| 0 <= s < stack@.len() && stack@[s] == i;
                assert(before[s] == before[before.len() - 1]);
            }
            assert(seen[i as int]);
        }
        let ghost bound = 2 * (ni - marked.len()) + stack.len();
        let mut d: usize = 0;
        while d < 4
            invariant
                n == blocked.len(),
                w as int == wi,
                wi > 0,
                wi * height == ni,
                ni == n,
                ni % wi == 0,
                ni >= wi,
                seen.len() == n,
                origin < n,
                seen[origin as int],
                i < n,
                seen[i as int],
                d <= 4,
                marked == Set::new(|c: int| 0 <= c < ni && seen[c]),
                marked.finite(),
                stack.len() + 1 <= marked.len(),
                marked.len() <= ni,
                2 * (ni - marked.len()) + stack.len() <= bound,
                bound < 2 * (ni - marked_before.len()) + before.len(),
                forall|s: int| 0 <= s < stack.len() ==> #[trigger] stack[s] < n && seen[stack[s] as int],
                forall|s: int, t: int| 0 <= s < t < stack.len() ==> stack[s] != stack[t],
                !stack@.contains(i),
                forall|c: int| 0 <= c < n && #[trigger] seen[c] ==> reachable4(wi, blocked@, origin as int, c) && !blocked[c],
                forall|a: int, b: int|
                    #![trigger nbr4(wi, ni, a, b)]
                    0 <= a < ni && a != i && seen[a] && !stack@.contains(a as usize) && nbr4(wi, ni, a, b) && 0 <= b < ni
                        && !blocked[b] ==> seen[b],
                forall|d2: int, b: int|
                    #![trigger cand4(wi, ni, i as int, d2), seen[b]]
                    0 <= d2 < d && cand4(wi, ni, i as int, d2) == Some(b) && 0 <= b < ni && !blocked[b] ==> seen[b],
            decreases 4 - d,
        {
            let ghost seen_old = seen@;
            let c = neighbor_candidate(i, d, w, n);
            if let Some(b) = c {
                let ghost seen_before = seen@;
                let ghost stack_before = stack@;
                let pushed = flood_visit(&mut seen, &mut stack, b, blocked);
                proof {
                    lemma_cand4_is_nbr4(wi, ni, i as int, d as int);
                    if pushed {
                        let q = choose|q: Seq<int>| is_walk4(wi, blocked@, q) && q[0] == origin as int && #[trigger] q.last() == i as int;
                        lemma_walk_extend(wi, blocked@, q, b as int);
                        assert(reachable4(wi, blocked@, origin as int, b as int));
                        assert(!marked.contains(b as int));
                        marked = marked.insert(b as int);
                        assert(marked =~= Set::new(|c: int| 0 <= c < ni && seen[c]));
                        lemma_int_range(0, ni);
                        assert(marked.subset_of(set_int_range(0, ni)));
                        lemma_len_subset(marked, set_int_range(0, ni));
                        assert forall|s: int| 0 <= s < stack.len() implies #[trigger] stack[s] < n && seen[stack[s] as int] by {
                            if s < stack_before.len() {
                                assert(stack[s] == stack_before[s]);
                            }
                        }
                        assert forall|s: int, t: int| 0 <= s < t < stack.len() implies stack[s] != stack[t] by {
                            if t == stack.len() - 1 {
                                assert(stack[s] == stack_before[s]);
                                assert(seen_before[stack_before[s] as int]);
                            } else {
                                assert(stack[s] == stack_before[s] && stack[t] == stack_before[t]);
                            }
                        }
                        assert(!stack@.contains(i)) by {
                            if stack@.contains(i) {
                                let s = choose|s: int| 0 <= s < stack@.len() && stack@[s] == i;
                                if s < stack_before.len() {
                                    assert(stack_before[s] == i);
                                    assert(stack_before.contains(i));
                                }
                            }
                        }
                        assert forall|a: int, bb: int|
                            #![trigger nbr4(wi, ni, a, bb)]
                            0 <= a < ni && a != i && seen[a] && !stack@.contains(a as usize) && nbr4(wi, ni, a, bb) && 0 <= bb < ni
                                && !blocked[bb] implies seen[bb] by {
                            if a != b as int {
                                assert(seen_before[a]);
                                if stack_before.contains(a as usize) {
                                    let s = choose|s: int| 0 <= s < stack_before.len() && stack_before[s] == a as usize;
                                    assert(stack[s] == a as usize);
                                }
                            } else {
                                assert(stack[stack.len() - 1] == b);
                            }
                        }
                    } else {
                        assert(seen@ == seen_before);
                    }
                    assert(seen[b as int] || blocked[b as int]);
                }
            } else {
                assert(cand4(wi, ni, i as int, d as int) is None);
            }
            proof {
                assert forall|d2: int, bb: int|
                    #![trigger cand4(wi, ni, i as int, d2), seen[bb]]
                    0 <= d2 < d + 1 && cand4(wi, ni, i as int, d2) == Some(bb) && 0 <= bb < ni && !blocked[bb] implies seen[bb] by {
                    if d2 < d {
                        assert(seen_old[bb]);
                    } else {
                        match c {
                            Some(b0) => {
                                assert(b0 as int == bb);
                            },
                            None => {},
                        }
                    }
                }
            }
            d = d + 1;
        }
        proof {
            assert forall|a: int, b: int|
                #![trigger nbr4(wi, ni, a, b)]
                0 <= a < ni && seen[a] && !stack@.contains(a as usize) && nbr4(wi, ni, a, b) && 0 <= b < ni
                    && !blocked[b] implies seen[b] by {
                if a == i as int {
                    let dd = lemma_nbr4_has_cand4(wi, ni, a, b);
                    assert(cand4(wi, ni, i as int, dd) == Some(b));
                    assert(seen[b]);
                }
            }
        }
    }
    proof {
        assert forall|t: int| 0 <= t < n implies (seen[t] <==> reachable4(wi, blocked@, origin as int, t)) by {
            if reachable4(wi, blocked@, origin as int, t) {
                let p = choose|p: Seq<int>| is_walk4(wi, blocked@, p) && p[0] == origin as int && #[trigger] p.last() == t;
                lemma_walk_stays_in_closed(wi, blocked@, seen@, p, p.len() - 1);
            }
        }
    }
    seen
}

// ---------------------------------------------------------------------------
// The whole contract
// ---------------------------------------------------------------------------

/// One flag per cell: whether the raw obstacle list names it.
pub open spec fn spec_blocked(raw: Seq<u32>, cells: nat) -> Seq<bool> {
    Seq::new(cells, |i: int| raw.contains(i as u32))
}

/// One flag per cell: whether it can be walked to from `origin`.
pub open spec fn spec_reach(width: u32, blocked: Seq<bool>, origin: int) -> Seq<bool> {
    Seq::new(blocked.len(), |i: int| reachable4(width as int, blocked, origin, i))
}

/// The first spawn of `spawn_cells[k..]` that is off the grid or blocked.
pub open spec fn spawn_fault(doc: ScenarioSpec, blocked: Seq<bool>, k: int) -> Option<ScenarioFault>
    decreases doc.spawn_cells@.len() - k,
{
    if k < 0 || k >= doc.spawn_cells@.len() {
        None
    } else {
        let c = doc.spawn_cells@[k];
        match spec_cell_index(c, doc.width, doc.height) {
            None => Some(ScenarioFault::InvalidSpawn { x: c.x, y: c.y }),
            Some(i) => if blocked[i] {
                Some(ScenarioFault::InvalidSpawn { x: c.x, y: c.y })
            } else {
                spawn_fault(doc, blocked, k + 1)
            },
        }
    }
}

/// The first spawn of `spawn_cells[k..]` that cannot be walked to.
pub open spec fn unreachable_fault(doc: ScenarioSpec, reach: Seq<bool>, k: int) -> Option<ScenarioFault>
    decreases doc.spawn_cells@.len() - k,
{
    if k < 0 || k >= doc.spawn_cells@.len() {
        None
    } else {
        let c = doc.spawn_cells@[k];
        match spec_cell_index(c, doc.width, doc.height) {
            Some(i) => if !reach[i] {
                Some(ScenarioFault::UnreachableSpawn { x: c.x, y: c.y })
            } else {
                unreachable_fault(doc, reach, k + 1)
            },
            None => unreachable_fault(doc, reach, k + 1),
        }
    }
}

/// The obstacle-count rule: exactly 20% on the technical prototype scene, and never every
/// cell anywhere.
pub open spec fn ratio_fault(doc: ScenarioSpec, count: nat, cells: u32) -> Option<ScenarioFault> {
    if is_technical(doc) {
        if count * 5 != cells {
            Some(ScenarioFault::InvalidObstacleRatio { obstacles: count as u32, cells })
        } else {
            None
        }
    } else if count >= cells {
        Some(ScenarioFault::InvalidObstacleRatio { obstacles: count as u32, cells })
    } else {
        None
    }
}

/// Everything after the obstacle list is known good: ratio, destination,
/// spawns, reachability, then the RTS block.
pub open spec fn spec_geometry(doc: ScenarioSpec, obstacles: Seq<u32>, cells: u32) -> Option<ScenarioFault> {
    let blocked = spec_blocked(doc.obstacle_cells@, cells as nat);
    if ratio_fault(doc, obstacles.len(), cells) is Some {
        ratio_fault(doc, obstacles.len(), cells)
    } else {
        match spec_cell_index(doc.destination, doc.width, doc.height) {
            None => Some(ScenarioFault::DestinationBlocked),
            Some(d) => if blocked[d] {
                Some(ScenarioFault::DestinationBlocked)
            } else {
                let reach = spec_reach(doc.width, blocked, d);
                let tail = spec_rts_block(doc, blocked, reach);
                let tail = first(unreachable_fault(doc, reach, 0), tail);
                first(spawn_fault(doc, blocked, 0), tail)
            },
        }
    }
}

/// Why `doc` is not a valid scenario — the first rule it breaks, in the
/// order the validator checks them — or `None` when it is valid.
pub open spec fn spec_scenario_fault(doc: ScenarioSpec) -> Option<ScenarioFault> {
    if doc.width * doc.height > u32::MAX {
        Some(ScenarioFault::InvalidDimension("width*height overflow"@))
    } else {
        let cells = (doc.width * doc.height) as u32;
        let tail = if doc.seed == 0 {
            Some(ScenarioFault::InvalidSeed)
        } else if doc.spawn_cells@.len() == 0 {
            Some(ScenarioFault::EmptySpawns)
        } else {
            match spec_normalize(doc.obstacle_cells@, cells) {
                Err(f) => Some(f),
                Ok(obstacles) => spec_geometry(doc, obstacles, cells),
            }
        };
        let tail = first(spec_collision(doc), tail);
        let tail = first(spec_counts(doc), tail);
        first(spec_version_and_dims(doc, cells), tail)
    }
}

proof fn lemma_spawn_fault_none(doc: ScenarioSpec, blocked: Seq<bool>, k: int, j: int)
    requires
        spawn_fault(doc, blocked, k) is None,
        0 <= k <= j < doc.spawn_cells@.len(),
    ensures
        spec_cell_index(doc.spawn_cells@[j], doc.width, doc.height) matches Some(i) && !blocked[i],
    decreases j - k,
{
    if k < j {
        lemma_spawn_fault_none(doc, blocked, k + 1, j);
    }
}

proof fn lemma_unreachable_fault_none(doc: ScenarioSpec, reach: Seq<bool>, k: int, j: int)
    requires
        unreachable_fault(doc, reach, k) is None,
        0 <= k <= j < doc.spawn_cells@.len(),
    ensures
        spec_cell_index(doc.spawn_cells@[j], doc.width, doc.height) matches Some(i) ==> reach[i],
    decreases j - k,
{
    if k < j {
        lemma_unreachable_fault_none(doc, reach, k + 1, j);
    }
}

/// Every spawn cell of a valid scenario lies on the grid, is free, and can
/// be walked to from the destination over free cells.
pub proof fn lemma_valid_spawns_reach_destination(doc: ScenarioSpec, k: int)
    requires
        spec_scenario_fault(doc) is None,
        0 <= k < doc.spawn_cells@.len(),
    ensures
        doc.spawn_cells@[k].x < doc.width,
        doc.spawn_cells@[k].y < doc.height,
        reachable4(
            doc.width as int,
            spec_blocked(doc.obstacle_cells@, (doc.width * doc.height) as nat),
            doc.destination.x + doc.destination.y * doc.width,
            doc.spawn_cells@[k].x + doc.spawn_cells@[k].y * doc.width,
        ),
{
    let cells = (doc.width * doc.height) as u32;
    let obstacles = spec_normalize(doc.obstacle_cells@, cells)->Ok_0;
    assert(spec_geometry(doc, obstacles, cells) is None);
    let blocked = spec_blocked(doc.obstacle_cells@, cells as nat);
    let d = doc.destination.x + doc.destination.y * doc.width;
    let reach = spec_reach(doc.width, blocked, d);
    assert(spawn_fault(doc, blocked, 0) is None);
    assert(unreachable_fault(doc, reach, 0) is None);
    lemma_spawn_fault_none(doc, blocked, 0, k);
    lemma_unreachable_fault_none(doc, reach, 0, k);
    let c = doc.spawn_cells@[k];
    lemma_cell_index_bound(c.x as int, c.y as int, doc.width as int, doc.height as int);
}

proof fn lemma_wave_faults_none(waves: Seq<WaveSpec>, points: nat, i: int, k: int)
    requires
        wave_faults(waves, points, i) is None,
        0 <= i <= k < waves.len(),
    ensures
        wave_fault(waves, points, k) is None,
    decreases k - i,
{
    if i < k {
        lemma_wave_faults_none(waves, points, i + 1, k);
    }
}

/// The waves of a valid scenario come in time order: every wave fires no
/// earlier than the one before it, each has at least one Ghoul, and each
/// names one of the scenario's enemy spawn points.
pub proof fn lemma_valid_waves_sorted(doc: ScenarioSpec, k: int)
    requires
        spec_scenario_fault(doc) is None,
        doc.rts is Some,
        doc.rts->0.enemies is Some,
        0 <= k < doc.rts->0.enemies->0.waves@.len(),
    ensures
        ({
            let e = doc.rts->0.enemies->0;
            &&& k > 0 ==> e.waves@[k - 1].at_tick <= e.waves@[k].at_tick
            &&& e.waves@[k].count >= 1
            &&& (e.waves@[k].spawn_point as int) < e.spawn_points@.len()
        }),
{
    let cells = (doc.width * doc.height) as u32;
    let obstacles = spec_normalize(doc.obstacle_cells@, cells)->Ok_0;
    assert(spec_geometry(doc, obstacles, cells) is None);
    let blocked = spec_blocked(doc.obstacle_cells@, cells as nat);
    let d = doc.destination.x + doc.destination.y * doc.width;
    let reach = spec_reach(doc.width, blocked, d);
    assert(spec_rts_block(doc, blocked, reach) is None);
    let rts = doc.rts->0;
    let e = rts.enemies->0;
    let nodes = rts.crystal_nodes@ + rts.gas_nodes@;
    assert(spec_enemies(doc, blocked, reach, nodes, rts.hq_cell, e) is None);
    assert(wave_faults(e.waves@, e.spawn_points@.len(), 0) is None);
    lemma_wave_faults_none(e.waves@, e.spawn_points@.len(), 0, k);
}

/// The abstract contents of a validated [`Scenario`].
pub struct ScenarioView {
    pub version: Seq<char>,
    pub width: u32,
    pub height: u32,
    pub cell_size_px: u32,
    pub sprite_size_px: u32,
    pub hard_agent_count: u32,
    pub stretch_agent_count: u32,
    pub seed: u64,
    pub destination: Cell,
    pub spawn_cells: Seq<Cell>,
    pub atlas_count: u32,
    pub direction_count: u32,
    pub frame_count: u32,
    pub collision_radius_q8: u32,
    pub separation_strength_q8: u32,
    pub separation_phases: u32,
    pub mass_class_count: u32,
    pub separation_threads: u32,
    pub obstacle_cells: Seq<u32>,
    pub rts: Option<RtsSpec>,
}

/// The scenario a valid `doc` describes: its fields, with the obstacle list
/// sorted and deduplicated.
pub open spec fn spec_scenario_of(doc: ScenarioSpec) -> ScenarioView {
    ScenarioView {
        version: doc.version@,
        width: doc.width,
        height: doc.height,
        cell_size_px: doc.cell_size_px,
        sprite_size_px: doc.sprite_size_px,
        hard_agent_count: doc.hard_agent_count,
        stretch_agent_count: doc.stretch_agent_count,
        seed: doc.seed,
        destination: doc.destination,
        spawn_cells: doc.spawn_cells@,
        atlas_count: doc.atlas_count,
        direction_count: doc.direction_count,
        frame_count: doc.frame_count,
        collision_radius_q8: doc.collision_radius_q8,
        separation_strength_q8: doc.separation_strength_q8,
        separation_phases: doc.separation_phases,
        mass_class_count: doc.mass_class_count,
        separation_threads: doc.separation_threads,
        obstacle_cells: present_below(doc.obstacle_cells@, (doc.width * doc.height) as nat),
        rts: doc.rts,
    }
}

impl View for Scenario {
    type V = ScenarioView;

    closed spec fn view(&self) -> ScenarioView {
        ScenarioView {
            version: self.version@,
            width: self.width,
            height: self.height,
            cell_size_px: self.cell_size_px,
            sprite_size_px: self.sprite_size_px,
            hard_agent_count: self.hard_agent_count,
            stretch_agent_count: self.stretch_agent_count,
            seed: self.seed,
            destination: self.destination,
            spawn_cells: self.spawn_cells@,
            atlas_count: self.atlas_count,
            direction_count: self.direction_count,
            frame_count: self.frame_count,
            collision_radius_q8: self.collision_radius_q8,
            separation_strength_q8: self.separation_strength_q8,
            separation_phases: self.separation_phases,
            mass_class_count: self.mass_class_count,
            separation_threads: self.separation_threads,
            obstacle_cells: self.obstacle_cells@,
            rts: self.rts,
        }
    }
}

fn check_spawns(doc: &ScenarioSpec, blocked: &Vec<bool>) -> (r: Result<Vec<usize>, ScenarioError>)
    requires
        doc.width as int * doc.height as int <= u32::MAX,
        blocked.len() == doc.width as int * doc.height as int,
    ensures
        match r {
            Ok(idxs) => spawn_fault(*doc, blocked@, 0) is None && idxs.len() == doc.spawn_cells.len()
                && forall|k: int| 0 <= k < idxs.len() ==> spec_cell_index(#[trigger] doc.spawn_cells@[k], doc.width, doc.height) == Some(idxs[k] as int)
                    && idxs[k] < blocked.len(),
            Err(e) => spawn_fault(*doc, blocked@, 0) == Some(e@),
        },
{
    let mut idxs: Vec<usize> = Vec::new();
    let mut k: usize = 0;
    while k < doc.spawn_cells.len()
        invariant
            k <= doc.spawn_cells.len(),
            doc.width as int * doc.height as int <= u32::MAX,
            blocked.len() == doc.width as int * doc.height as int,
            idxs.len() == k,
            forall|j: int| 0 <= j < k ==> spec_cell_index(#[trigger] doc.spawn_cells@[j], doc.width, doc.height) == Some(idxs[j] as int)
                && idxs[j] < blocked.len(),
            spawn_fault(*doc, blocked@, 0) == spawn_fault(*doc, blocked@, k as int),
        decreases doc.spawn_cells.len() - k,
    {
        let sp = doc.spawn_cells[k];
        match cell_index(sp, doc.width, doc.height) {
            None => {
                return Err(ScenarioError::InvalidSpawn { x: sp.x, y: sp.y });
            },
            Some(i) => {
                if blocked[i] {
                    return Err(ScenarioError::InvalidSpawn { x: sp.x, y: sp.y });
                }
                idxs.push(i);
            },
        }
        k = k + 1;
    }
    Ok(idxs)
}

fn check_spawns_reachable(doc: &ScenarioSpec, reach: &Vec<bool>, idxs: &Vec<usize>) -> (r: Result<(), ScenarioError>)
    requires
        idxs.len() == doc.spawn_cells.len(),
        forall|k: int| 0 <= k < idxs.len() ==> spec_cell_index(#[trigger] doc.spawn_cells@[k], doc.width, doc.height) == Some(idxs[k] as int)
            && idxs[k] < reach.len(),
    ensures
        outcome(r) == unreachable_fault(*doc, reach@, 0),
{
    let mut k: usize = 0;
    while k < idxs.len()
        invariant
            k <= idxs.len(),
            idxs.len() == doc.spawn_cells.len(),
            forall|j: int| 0 <= j < idxs.len() ==> spec_cell_index(#[trigger] doc.spawn_cells@[j], doc.width, doc.height) == Some(idxs[j] as int)
                && idxs[j] < reach.len(),
            unreachable_fault(*doc, reach@, 0) == unreachable_fault(*doc, reach@, k as int),
        decreases idxs.len() - k,
    {
        assert(spec_cell_index(doc.spawn_cells@[k as int], doc.width, doc.height) == Some(idxs[k as int] as int));
        if !reach[idxs[k]] {
            let sp = doc.spawn_cells[k];
            return Err(ScenarioError::UnreachableSpawn { x: sp.x, y: sp.y });
        }
        k = k + 1;
    }
    Ok(())
}

impl Scenario {
    /// Validate a scenario description: `Err` with the first rule it breaks,
    /// in the validator's fixed order, else the scenario it describes.
    pub fn from_spec(doc: ScenarioSpec) -> (r: Result<Self, ScenarioError>)
        ensures
            match r {
                Ok(sc) => spec_scenario_fault(doc) is None && sc@ == spec_scenario_of(doc),
                Err(e) => spec_scenario_fault(doc) == Some(e@),
            },
    {
        let cells = match doc.width.checked_mul(doc.height) {
            Some(c) => c,
            None => {
                return Err(ScenarioError::InvalidDimension(String::from_str("width*height overflow")));
            },
        };
        validate_version_and_dims(&doc, cells)?;
        validate_counts(&doc)?;
        validate_collision(&doc)?;
        if doc.seed == 0 {
            return Err(ScenarioError::InvalidSeed);
        }
        if doc.spawn_cells.len() == 0 {
            return Err(ScenarioError::EmptySpawns);
        }
        proof {
            lemma_dims_bound_cells(doc, cells);
        }
        let obstacles = normalize_obstacles(&doc.obstacle_cells, cells)?;
        proof {
            lemma_present_below(doc.obstacle_cells@, cells as nat);
            lemma_oob_min_none(doc.obstacle_cells@, cells);
        }
        let n_obs = obstacles.len();
        let technical = str_eq(doc.version.as_str(), TECHNICAL_PROTOTYPE_V1);
        if technical {
            if n_obs * 5 != cells as usize {
                return Err(ScenarioError::InvalidObstacleRatio { obstacles: n_obs as u32, cells });
            }
        } else if n_obs >= cells as usize {
            return Err(ScenarioError::InvalidObstacleRatio { obstacles: n_obs as u32, cells });
        }
        let blocked = obstacle_set(&doc.obstacle_cells, cells as usize);
        proof {
            assert(blocked@ =~= spec_blocked(doc.obstacle_cells@, cells as nat));
        }
        let dest_idx = match cell_index(doc.destination, doc.width, doc.height) {
            Some(i) => i,
            None => {
                return Err(ScenarioError::DestinationBlocked);
            },
        };
        if blocked[dest_idx] {
            return Err(ScenarioError::DestinationBlocked);
        }
        let spawn_idxs = check_spawns(&doc, &blocked)?;
        let reachable = flood_reachable(dest_idx, doc.width, doc.height, &blocked);
        proof {
            assert(reachable@ =~= spec_reach(doc.width, blocked@, dest_idx as int));
        }
        check_spawns_reachable(&doc, &reachable, &spawn_idxs)?;
        validate_rts_block(&doc, &blocked, &reachable)?;
        Ok(Scenario {
            version: doc.version,
            width: doc.width,
            height: doc.height,
            cell_size_px: doc.cell_size_px,
            sprite_size_px: doc.sprite_size_px,
            hard_agent_count: doc.hard_agent_count,
            stretch_agent_count: doc.stretch_agent_count,
            seed: doc.seed,
            destination: doc.destination,
            spawn_cells: doc.spawn_cells,
            atlas_count: doc.atlas_count,
            direction_count: doc.direction_count,
            frame_count: doc.frame_count,
            collision_radius_q8: doc.collision_radius_q8,
            separation_strength_q8: doc.separation_strength_q8,
            separation_phases: doc.separation_phases,
            mass_class_count: doc.mass_class_count,
            separation_threads: doc.separation_threads,
            obstacle_cells: obstacles,
            rts: doc.rts,
        })
    }
}

/// Every family that passes its dimension rules has at most
/// [`RTS_MAX_MAP_CELLS`] cells.
proof fn lemma_dims_bound_cells(doc: ScenarioSpec, cells: u32)
    requires
        cells == doc.width * doc.height,
        spec_version_and_dims(doc, cells) is None,
    ensures
        cells <= RTS_MAX_MAP_CELLS,
{
    assert(spec_check_population(doc) is None);
    if is_fixture(doc) {
        assert(spec_fixture_dims(doc, cells) is None);
    } else if is_collision_scene(doc) {
        assert(spec_collision_scene_dims(doc) is None);
        assert(field_fault("width"@, doc.width, V1_WIDTH) is None);
        assert(field_fault("height"@, doc.height, V1_HEIGHT) is None);
        assert(doc.width == 480 && doc.height == 270);
    } else if is_rts(doc) {
        assert(spec_rts_scene_dims(doc) is None);
        assert(rts_edge_fault("width"@, doc.width) is None);
        assert(rts_edge_fault("height"@, doc.height) is None);
    } else {
        assert(spec_technical_dims(doc) is None);
        assert(field_fault("width"@, doc.width, V1_WIDTH) is None);
        assert(field_fault("height"@, doc.height, V1_HEIGHT) is None);
        assert(doc.width == 480 && doc.height == 270);
    }
}

/// What loading checked bytes gives: a hash mismatch when the digest differs
/// from `expected`, else the parser's error, else the validation of what was
/// parsed.
pub open spec fn spec_verified_outcome(bytes: Seq<u8>, expected: Seq<char>, parsed: Result<ScenarioSpec, String>, r: Result<Scenario, ScenarioError>) -> bool {
    let actual = hex_lower(sha256_digest(bytes));
    if actual != expected {
        match r {
            Err(e) => e@ == (ScenarioFault::HashMismatch { expected: expected, actual: actual }),
            Ok(_) => false,
        }
    } else {
        match parsed {
            Err(m) => match r {
                Err(e) => e@ == ScenarioFault::Parse(m@),
                Ok(_) => false,
            },
            Ok(doc) => match r {
                Ok(sc) => spec_scenario_fault(doc) is None && sc@ == spec_scenario_of(doc),
                Err(e) => spec_scenario_fault(doc) == Some(e@),
            },
        }
    }
}

impl Scenario {
    /// Obstacles are held sorted, each once, and their count fits a `u32`.
    #[verifier::type_invariant]
    spec fn obstacles_sorted(self) -> bool {
        &&& self.obstacle_cells@.len() <= u32::MAX
        &&& forall|i: int, j: int| 0 <= i < j < self.obstacle_cells@.len() ==> self.obstacle_cells@[i] < self.obstacle_cells@[j]
    }

    /// Verify the SHA-256 of `bytes` against `expected_hex`, then take the
    /// outcome of parsing those same bytes (`parsed`) and validate it.
    pub fn from_verified_bytes(bytes: &[u8], expected_hex: &str, parsed: Result<ScenarioSpec, String>) -> (r: Result<Self, ScenarioError>)
        ensures
            spec_verified_outcome(bytes@, expected_hex@, parsed, r),
    {
        let actual = sha256_hex(bytes);
        if !str_eq(actual.as_str(), expected_hex) {
            return Err(ScenarioError::HashMismatch { expected: String::from_str(expected_hex), actual });
        }
        match parsed {
            Err(m) => Err(ScenarioError::Parse(m)),
            Ok(doc) => Self::from_spec(doc),
        }
    }

    pub fn version(&self) -> (r: &str)
        ensures
            r@ == self@.version,
    {
        self.version.as_str()
    }

    pub fn width(&self) -> (r: u32)
        ensures
            r == self@.width,
    {
        self.width
    }

    pub fn height(&self) -> (r: u32)
        ensures
            r == self@.height,
    {
        self.height
    }

    pub fn cell_size_px(&self) -> (r: u32)
        ensures
            r == self@.cell_size_px,
    {
        self.cell_size_px
    }

    pub fn sprite_size_px(&self) -> (r: u32)
        ensures
            r == self@.sprite_size_px,
    {
        self.sprite_size_px
    }

    pub fn hard_agent_count(&self) -> (r: u32)
        ensures
            r == self@.hard_agent_count,
    {
        self.hard_agent_count
    }

    pub fn stretch_agent_count(&self) -> (r: u32)
        ensures
            r == self@.stretch_agent_count,
    {
        self.stretch_agent_count
    }

    pub fn seed(&self) -> (r: u64)
        ensures
            r == self@.seed,
    {
        self.seed
    }

    pub fn destination(&self) -> (r: Cell)
        ensures
            r == self@.destination,
    {
        self.destination
    }

    pub fn spawn_cells(&self) -> (r: &[Cell])
        ensures
            r@ == self@.spawn_cells,
    {
        self.spawn_cells.as_slice()
    }

    pub fn atlas_count(&self) -> (r: u32)
        ensures
            r == self@.atlas_count,
    {
        self.atlas_count
    }

    pub fn direction_count(&self) -> (r: u32)
        ensures
            r == self@.direction_count,
    {
        self.direction_count
    }

    pub fn frame_count(&self) -> (r: u32)
        ensures
            r == self@.frame_count,
    {
        self.frame_count
    }

    /// Body radius, in 1/256 cell.
    pub fn collision_radius_q8(&self) -> (r: u32)
        ensures
            r == self@.collision_radius_q8,
    {
        self.collision_radius_q8
    }

    /// Separation weight, in 1/256.
    pub fn separation_strength_q8(&self) -> (r: u32)
        ensures
            r == self@.separation_strength_q8,
    {
        self.separation_strength_q8
    }

    pub fn separation_phases(&self) -> (r: u32)
        ensures
            r == self@.separation_phases,
    {
        self.separation_phases
    }

    pub fn mass_class_count(&self) -> (r: u32)
        ensures
            r == self@.mass_class_count,
    {
        self.mass_class_count
    }

    pub fn separation_threads(&self) -> (r: u32)
        ensures
            r == self@.separation_threads,
    {
        self.separation_threads
    }

    /// How many obstacle cells the scenario has.
    pub fn obstacle_count(&self) -> (r: u32)
        ensures
            r == self@.obstacle_cells.len(),
    {
        proof {
            use_type_invariant(self);
        }
        self.obstacle_cells.len() as u32
    }

    /// Sorted unique obstacle cell indices (`x + y * width`).
    pub fn obstacle_cells(&self) -> (r: &[u32])
        ensures
            r@ == self@.obstacle_cells,
    {
        self.obstacle_cells.as_slice()
    }

    /// Whether cell index `index` is an obstacle.
    pub fn is_obstacle_index(&self, index: u32) -> (r: bool)
        ensures
            r == self@.obstacle_cells.contains(index),
    {
        proof {
            use_type_invariant(self);
        }
        let cells = &self.obstacle_cells;
        let mut lo: usize = 0;
        let mut hi: usize = cells.len();
        while lo < hi
            invariant
                cells@ == self@.obstacle_cells,
                hi <= cells.len(),
                lo <= hi,
                forall|i: int, j: int| 0 <= i < j < cells@.len() ==> cells@[i] < cells@[j],
                forall|k: int| 0 <= k < lo ==> cells@[k] < index,
                forall|k: int| hi <= k < cells@.len() ==> cells@[k] > index,
            decreases hi - lo,
        {
            let mid = lo + (hi - lo) / 2;
            let v = cells[mid];
            if v == index {
                assert(cells@[mid as int] == index);
                assert(cells@.contains(index));
                return true;
            } else if v < index {
                lo = mid + 1;
            } else {
                hi = mid;
            }
        }
        proof {
            if cells@.contains(index) {
                let k = choose|k: int| 0 <= k < cells@.len() && cells@[k] == index;
                assert(k < lo || k >= hi);
            }
        }
        false
    }

    /// The RTS block, or `None` on every phase-0 family.
    pub fn rts(&self) -> (r: Option<&RtsSpec>)
        ensures
            match r {
                Some(x) => self@.rts == Some(*x),
                None => self@.rts is None,
            },
    {
        match &self.rts {
            Some(x) => Some(x),
            None => None,
        }
    }
}

/// What an enemy block holds, its lists as sequences.
pub open spec fn enemy_seqs(e: EnemySpec) -> (Seq<Cell>, Seq<Cell>, Seq<WaveSpec>) {
    (e.pre_placed@, e.spawn_points@, e.waves@)
}

/// What an RTS block holds, its lists as sequences.
pub open spec fn rts_seqs(r: RtsSpec) -> (u32, u32, u32, Cell, Seq<Cell>, Seq<Cell>, Option<(Seq<Cell>, Seq<Cell>, Seq<WaveSpec>)>) {
    (
        r.start_crystal,
        r.start_gas,
        r.start_supply_cap,
        r.hq_cell,
        r.crystal_nodes@,
        r.gas_nodes@,
        match r.enemies {
            Some(e) => Some(enemy_seqs(e)),
            None => None,
        },
    )
}

/// A copy of an RTS block holding the same values.
fn clone_rts(r: &RtsSpec) -> (c: RtsSpec)
    ensures
        rts_seqs(c) == rts_seqs(*r),
{
    let crystal_nodes = r.crystal_nodes.clone();
    assert(crystal_nodes@ =~= r.crystal_nodes@);
    let gas_nodes = r.gas_nodes.clone();
    assert(gas_nodes@ =~= r.gas_nodes@);
    let enemies = match &r.enemies {
        None => None,
        Some(e) => {
            let pre_placed = e.pre_placed.clone();
            assert(pre_placed@ =~= e.pre_placed@);
            let spawn_points = e.spawn_points.clone();
            assert(spawn_points@ =~= e.spawn_points@);
            let waves = e.waves.clone();
            assert(waves@ =~= e.waves@);
            Some(EnemySpec { pre_placed, spawn_points, waves })
        },
    };
    RtsSpec {
        start_crystal: r.start_crystal,
        start_gas: r.start_gas,
        start_supply_cap: r.start_supply_cap,
        hq_cell: r.hq_cell,
        crystal_nodes,
        gas_nodes,
        enemies,
    }
}

impl Clone for Scenario {
    /// A copy with the same fields.
    fn clone(&self) -> (r: Self)
        ensures
            r@.version == self@.version,
            r@.width == self@.width,
            r@.height == self@.height,
            r@.seed == self@.seed,
            r@.destination == self@.destination,
            r@.spawn_cells == self@.spawn_cells,
            r@.obstacle_cells == self@.obstacle_cells,
            r@.frame_count == self@.frame_count,
            r@.cell_size_px == self@.cell_size_px,
            r@.sprite_size_px == self@.sprite_size_px,
            r@.hard_agent_count == self@.hard_agent_count,
            r@.stretch_agent_count == self@.stretch_agent_count,
            r@.atlas_count == self@.atlas_count,
            r@.direction_count == self@.direction_count,
            r@.collision_radius_q8 == self@.collision_radius_q8,
            r@.separation_strength_q8 == self@.separation_strength_q8,
            r@.separation_phases == self@.separation_phases,
            r@.mass_class_count == self@.mass_class_count,
            r@.separation_threads == self@.separation_threads,
            match (r@.rts, self@.rts) {
                (Some(a), Some(b)) => rts_seqs(a) == rts_seqs(b),
                (None, None) => true,
                _ => false,
            },
    {
        proof {
            use_type_invariant(self);
        }
        let spawn_cells = self.spawn_cells.clone();
        assert(spawn_cells@ =~= self.spawn_cells@);
        let obstacle_cells = self.obstacle_cells.clone();
        assert(obstacle_cells@ =~= self.obstacle_cells@);
        Scenario {
            version: self.version.clone(),
            width: self.width,
            height: self.height,
            cell_size_px: self.cell_size_px,
            sprite_size_px: self.sprite_size_px,
            hard_agent_count: self.hard_agent_count,
            stretch_agent_count: self.stretch_agent_count,
            seed: self.seed,
            destination: self.destination,
            spawn_cells,
            atlas_count: self.atlas_count,
            direction_count: self.direction_count,
            frame_count: self.frame_count,
            collision_radius_q8: self.collision_radius_q8,
            separation_strength_q8: self.separation_strength_q8,
            separation_phases: self.separation_phases,
            mass_class_count: self.mass_class_count,
            separation_threads: self.separation_threads,
            obstacle_cells,
            rts: match &self.rts {
                None => None,
                Some(r) => Some(clone_rts(r)),
            },
        }
    }
}

} // verus!
