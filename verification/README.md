# mmd_engine

The deterministic game-state core of an RTS engine, written in Verus: every
function in `src/` carries a contract and is proved against it.

- `src/scenario.rs` — the versioned scenario contract: hash-verified bytes,
  the validation rules in their fixed order, and the validated `Scenario`.
- `src/rts/` — economy and supply, entity kinds and the generational entity
  store, production queues, the player's selection, orders and approach
  cells, formations, static navigation (body clearance and walkable
  regions), building placement, the weapon table, the gather-pair collision
  table, death flashes, HUD decisions, and:
  - `systems.rs` — the integer decisions of the per-tick systems: a gathering
    worker's round trip (walk, mine, load, haul, bank), a construction
    site's progress, finish, stall and cancel, a ready unit's delivery, an
    armed entity's aim, trigger and cooldown, the kill/loss tally of a shot,
    how movement ends or holds an order, the enemy wave schedule and march,
    and the supply recount;
  - `commands.rs` — production, cancellation and damage rules; the stop and
    attack-target commands and the units and target an attack reads; group
    orders (who joins, and the order each member's kind takes) and the
    context click's target and answer;
  - `lifecycle.rs` — a building's completion and an entity's death: store,
    navigation masks, supply cap, production table and orders;
  - `seed.rs` — seeding a world from its scenario: the HQ and full resource
    nodes, the workers and pre-placed enemies, the opening stock and supply;
  - `state.rs` — the replicated world state and its deterministic SHA-256
    state hash.
- `src/sim/` — the horde walk's integer core: the counting-sort spatial grid
  and the step admissibility rule.
- `src/digest.rs`, `src/text.rs` — SHA-256 framing of the state hash, and
  decimal rendering.
- `app/` — reading scenario files, RON parsing, error messages, and the
  floating-point geometry (positions, bins, body distances, HUD rectangles)
  that feeds the integer core.
- `tests/` — executable checks of the same behaviour.

Each system in `src/rts/systems.rs` takes the geometry it needs as plain
values measured by its caller: whether a worker has reached its approach
slot or its drop-off, which drop-off is nearest and the navigation field
acquired to it, whether a finished footprint could move every body out,
whether a target is in weapon range and which hostile is nearest, whether a
mover stands on its slot. A formation ranks its slots by keys the caller
gives each member: the bit patterns of the `f32` squared distances, which
order as the distances do. Entity positions are held as the bit patterns of
their cell-space coordinates.

Not in this crate: the fixed-step tick that runs these kernels entity by
entity in their fixed order. It is integer orchestration, but every step of
it interleaves a kernel with a floating-point measurement (arrival and reach
tests, weapon ranges, nearest-hostile and nearest-free-body searches, body
sweeps and push chains) or an acquisition from the navigation-field pool,
and that pool, like the renderer the frame and HUD packers draw for, is not
part of this crate. Unit movement along navigation fields and the
render-frame and HUD packers (isometric projection, quad sizes, tints) are
left out for the same reasons.
