use mmd_engine::digest::Sha256State;
use mmd_engine::rts::entity::{EntityId, UnitKind, MAX_ENTITIES};
use mmd_engine::rts::orders::entity_approach_cell;
use mmd_engine::sim::tick::step_admissible as sim_step;
use mmd_engine::rts::static_nav::{StaticNav, StaticSolid};
use mmd_engine::rts::formation::FormationGoal;
use mmd_engine::rts::orders::{FieldRef, GatherPhase, Order, OrderTable};
use mmd_engine::scenario::{Cell, Scenario, ScenarioSpec};
use sha2::{Digest, Sha256};

#[test]
fn an_order_table_starts_idle() {
    let t = OrderTable::new();
    assert_eq!(t.get(0), Order::Idle);
    assert_eq!(t.get(MAX_ENTITIES - 1), Order::Idle);
}

#[test]
fn order_tags_are_stable() {
    let goal = FormationGoal::at(Cell { x: 1, y: 2 });
    let field = FieldRef { slot: 3, epoch: 9 };
    let id = EntityId { index: 4, generation: 1 };
    assert_eq!(Order::Idle.tag(), 0);
    assert_eq!(Order::Move { goal, field }.tag(), 1);
    assert_eq!(Order::Gather { node: id, phase: GatherPhase::Mining { ticks_left: 5 } }.tag(), 2);
    assert_eq!(Order::Build { site: id, goal, field }.tag(), 3);
    assert_eq!(Order::Attack { target: id, field }.tag(), 4);
    assert_eq!(Order::AttackMove { goal, field }.tag(), 5);
    assert_eq!(Order::Follow { target: id, goal, field }.tag(), 6);
}

#[test]
fn with_field_replaces_only_the_handle() {
    let goal = FormationGoal::at(Cell { x: 1, y: 2 });
    let old = FieldRef { slot: 1, epoch: 1 };
    let new = FieldRef { slot: 2, epoch: 7 };
    assert_eq!(Order::Move { goal, field: old }.with_field(new), Order::Move { goal, field: new });
    assert_eq!(Order::Idle.with_field(new), Order::Idle);
    let mining = Order::Gather { node: EntityId { index: 1, generation: 0 }, phase: GatherPhase::Mining { ticks_left: 3 } };
    assert_eq!(mining.with_field(new), mining);
    let returning = Order::Gather {
        node: EntityId { index: 1, generation: 0 },
        phase: GatherPhase::Returning { drop_off: EntityId { index: 2, generation: 0 }, field: old },
    };
    assert_eq!(
        returning.with_field(new),
        Order::Gather {
            node: EntityId { index: 1, generation: 0 },
            phase: GatherPhase::Returning { drop_off: EntityId { index: 2, generation: 0 }, field: new },
        }
    );
}

#[test]
fn set_and_clear_touch_one_slot() {
    let mut t = OrderTable::new();
    let goal = FormationGoal::at(Cell { x: 5, y: 5 });
    let o = Order::Move { goal, field: FieldRef { slot: 0, epoch: 0 } };
    t.set(7, o);
    assert_eq!(t.get(7), o);
    assert_eq!(t.get(6), Order::Idle);
    t.clear(7);
    assert_eq!(t.get(7), Order::Idle);
}

#[test]
fn the_order_hash_frames_each_slot_at_fixed_width() {
    let mut t = OrderTable::new();
    let goal = FormationGoal { anchor: Cell { x: 1, y: 2 }, slot: Cell { x: 3, y: 4 } };
    t.set(1, Order::Move { goal, field: FieldRef { slot: 5, epoch: 6 } });
    let mut h = Sha256State::new();
    t.hash_into(&mut h, &[0, 1]);
    let got = h.finalize();

    let mut want = Sha256::new();
    // slot 0: idle, zero goal and field.
    want.update([0u8]);
    for _ in 0..4 {
        want.update(0u32.to_le_bytes());
    }
    want.update([0u8]);
    want.update(0u64.to_le_bytes());
    // slot 1: move.
    want.update([1u8]);
    for v in [1u32, 2, 3, 4] {
        want.update(v.to_le_bytes());
    }
    want.update([5u8]);
    want.update(6u64.to_le_bytes());
    let want: [u8; 32] = want.finalize().into();
    assert_eq!(got, want);
}

const W: u32 = 256;
const H: u32 = 256;

fn nav_with(obstacles: Vec<u32>, statics: &[StaticSolid]) -> StaticNav {
    let spec = ScenarioSpec {
        version: "fixture_approach".to_string(),
        width: W,
        height: H,
        cell_size_px: 4,
        sprite_size_px: 16,
        hard_agent_count: 1,
        stretch_agent_count: 1,
        seed: 1,
        destination: Cell { x: 250, y: 250 },
        spawn_cells: vec![Cell { x: 250, y: 251 }],
        atlas_count: 4,
        direction_count: 8,
        frame_count: 4,
        collision_radius_q8: 0,
        separation_strength_q8: 0,
        separation_phases: 1,
        mass_class_count: 1,
        separation_threads: 1,
        obstacle_cells: obstacles,
        rts: None,
    };
    let scenario = Scenario::from_spec(spec).expect("valid fixture");
    StaticNav::new(&scenario, statics).expect("nav")
}

#[test]
fn the_approach_cell_rings_a_finished_building() {
    // An HQ centred at [166, 166] (edge 24, so its footprint's minimum
    // corner is (154, 154)), over solids stamped on [160, 172) x [160, 172).
    let nav = nav_with(vec![], &[StaticSolid::Building { min: Cell { x: 160, y: 160 }, edge: 12 }]);
    let min = Cell { x: 154, y: 154 };

    let (a, _) = entity_approach_cell(&nav, min, 24, UnitKind::Worker);
    let (b, _) = entity_approach_cell(&nav, min, 24, UnitKind::Worker);
    assert_eq!(a, b, "the approach cell must be the same on every call");
    assert!(a.x < 160 || a.x >= 172 || a.y < 160 || a.y >= 172, "approach cell {a:?} must lie outside the footprint");
    assert!(!nav.center_blocked()[(a.x + a.y * W) as usize]);
}

#[test]
fn the_approach_cell_finds_an_off_axis_only_target() {
    // A node on cell (20, 20), and one plug per cardinal side, 7 cells out.
    let min = Cell { x: 20, y: 20 };
    let plugs: Vec<u32> = [(20u32, 13u32), (27, 20), (20, 27), (13, 20)].iter().map(|&(x, y)| x + y * W).collect();
    let nav = nav_with(plugs, &[StaticSolid::Node(min)]);

    for r in 1..=10u32 {
        for (x, y) in [(20, 20 - r), (20 + r, 20), (20, 20 + r), (20 - r, 20)] {
            assert!(
                nav.center_blocked()[(x + y * W) as usize],
                "on-axis cell ({x}, {y}) at ring {r} must be illegal for this case"
            );
        }
    }

    let (cell, d2) = entity_approach_cell(&nav, min, 1, UnitKind::Worker);
    let (again, _) = entity_approach_cell(&nav, min, 1, UnitKind::Worker);
    assert_eq!(cell, again, "the approach cell must be stable");
    assert!(cell.x != 20 && cell.y != 20, "the answer must be an off-axis cell, got {cell:?}");
    assert!(
        !nav.center_blocked()[(cell.x + cell.y * W) as usize],
        "the approach cell {cell:?} must be a legal body centre"
    );
    let d = (d2 as f64).sqrt() / 2.0;
    assert!(d < 4.5, "an off-axis cell one ring out is {d} cells from the node; the four-ray scan's own answer was 9.5");
}

#[test]
fn the_approach_cell_is_deterministic_under_a_blocked_ring() {
    // Depot, edge 8, centred at [20.0, 20.0] -> min corner (16, 16); the top
    // edge's ring-4 candidates (y = 12, x in 16..24) are blocked.
    let min = Cell { x: 16, y: 16 };
    let row: Vec<u32> = (16..24u32).map(|x| x + 12 * W).collect();
    let nav = nav_with(row, &[StaticSolid::Building { min, edge: 8 }]);
    let (cell, _) = entity_approach_cell(&nav, min, 8, UnitKind::Worker);
    assert_eq!(cell, Cell { x: 27, y: 16 });
}

#[test]
fn the_approach_cell_reports_its_footprint_distance() {
    // A lone node in an open field: the first on-axis cell three and a half
    // cells out is the first legal one, seven half cells away.
    let min = Cell { x: 50, y: 50 };
    let nav = nav_with(vec![], &[StaticSolid::Node(min)]);
    let (cell, d2) = entity_approach_cell(&nav, min, 1, UnitKind::Soldier);
    assert_eq!(cell, Cell { x: 50, y: 46 });
    assert_eq!(d2, 49);
}

#[test]
fn a_target_with_no_legal_ring_cell_falls_back_to_its_centre() {
    // Every cell of the grid is solid but the HQ's own: nothing can stand.
    let all: Vec<u32> = (0..W * H).filter(|&i| i != 250 + 250 * W && i != 250 + 251 * W).collect();
    let min = Cell { x: 100, y: 100 };
    let nav = nav_with(all, &[]);
    assert!(nav.center_blocked().iter().all(|&b| b));
    assert_eq!(entity_approach_cell(&nav, min, 12, UnitKind::Worker), (Cell { x: 106, y: 106 }, 0));
}

#[test]
fn rts_step_admissible_agrees_with_the_sim() {
    const SW: u32 = 5;
    const SH: u32 = 5;
    let core: [usize; 9] = [6, 7, 8, 11, 12, 13, 16, 17, 18];
    let step = 0.4f32;
    let mut checked = 0u32;

    for mask in 0..(1u32 << 9) {
        let mut blocked = vec![false; (SW * SH) as usize];
        for (bit, &idx) in core.iter().enumerate() {
            if mask & (1 << bit) != 0 {
                blocked[idx] = true;
            }
        }
        for cy in 1..4i32 {
            for cx in 1..4i32 {
                for (dx, dy) in [(-1, -1), (0, -1), (1, -1), (-1, 0), (1, 0), (-1, 1), (0, 1), (1, 1)] {
                    // Land just inside the neighbour cell, so the step is a
                    // real boundary crossing rather than a jump.
                    let nx = cx as f32 + 0.5 + dx as f32 * (0.5 + step);
                    let ny = cy as f32 + 0.5 + dy as f32 * (0.5 + step);
                    let (tx, ty) = (nx.floor() as i32, ny.floor() as i32);
                    let ours = mmd_engine::rts::orders::step_admissible(cx, cy, tx, ty, SW, SH, &blocked);
                    let theirs = mmd_engine::sim::tick::step_admissible(cx, cy, tx, ty, SW, SH, &blocked);
                    assert_eq!(ours, theirs, "mask {mask:#b} step ({cx},{cy})->({nx},{ny}): rts {ours}, sim {theirs}");
                    checked += 1;
                }
            }
        }
    }
    assert_eq!(checked, 512 * 9 * 8, "every case must have been exercised");
}

#[test]
fn a_diagonal_step_may_not_cut_a_corner() {
    let mut blocked = vec![false; 9];
    assert!(sim_step(1, 1, 2, 2, 3, 3, &blocked));
    blocked[2 + 1 * 3] = true; // (2, 1): one cardinal neighbour of the corner
    assert!(!sim_step(1, 1, 2, 2, 3, 3, &blocked));
    assert!(sim_step(1, 1, 1, 2, 3, 3, &blocked), "a straight step is unaffected");
    assert!(!sim_step(1, 1, 2, 1, 3, 3, &blocked), "into a blocked cell");
    assert!(!sim_step(2, 2, 3, 2, 3, 3, &blocked), "off the grid");
}
