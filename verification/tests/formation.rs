use mmd_engine::rts::entity::{EntityId, RTS_UNIT_BODY_DIAMETER_CELLS};
use mmd_engine::rts::formation::{
    candidate_slots, flat_index, lattice_cell, nearest_body_clear_cell, FormationError, FormationGoal,
    FormationScratch, FORMATION_SPACING_CELLS,
};
use mmd_engine::rts::static_nav::{StaticNav, StaticSolid};
use mmd_engine::scenario::{Cell, Scenario, ScenarioSpec};

#[test]
fn the_lattice_is_one_body_diameter_wide() {
    assert_eq!(
        FORMATION_SPACING_CELLS as f32,
        RTS_UNIT_BODY_DIAMETER_CELLS as f32,
        "two neighbouring slots must be exactly one body diameter apart"
    );
}

#[test]
fn a_ring_offset_off_the_grid_is_no_cell() {
    assert_eq!(lattice_cell(Cell { x: 2, y: 2 }, -1, 0, 64, 64), None);
    assert_eq!(lattice_cell(Cell { x: 8, y: 8 }, 1, 1, 64, 64), Some(Cell { x: 14, y: 14 }));
}

#[test]
fn a_goal_at_a_cell_is_its_own_anchor() {
    let g = FormationGoal::at(Cell { x: 3, y: 4 });
    assert_eq!(g.anchor, Cell { x: 3, y: 4 });
    assert_eq!(g.slot, Cell { x: 3, y: 4 });
}

#[test]
fn candidates_start_at_the_anchor_then_ring_one_row_major() {
    let c = candidate_slots(Cell { x: 20, y: 20 }, 64, 64);
    assert_eq!(c[0], Cell { x: 20, y: 20 });
    assert_eq!(
        &c[1..9],
        &[
            Cell { x: 14, y: 14 },
            Cell { x: 20, y: 14 },
            Cell { x: 26, y: 14 },
            Cell { x: 14, y: 20 },
            Cell { x: 26, y: 20 },
            Cell { x: 14, y: 26 },
            Cell { x: 20, y: 26 },
            Cell { x: 26, y: 26 },
        ]
    );
    assert_eq!(flat_index(Cell { x: 3, y: 2 }, 64, 64), 131);
}

fn open_fixture() -> Scenario {
    let spec = ScenarioSpec {
        version: "fixture_open".to_string(),
        width: 40,
        height: 40,
        cell_size_px: 4,
        sprite_size_px: 16,
        hard_agent_count: 1,
        stretch_agent_count: 1,
        seed: 1,
        destination: Cell { x: 20, y: 20 },
        spawn_cells: vec![Cell { x: 1, y: 1 }],
        atlas_count: 4,
        direction_count: 8,
        frame_count: 4,
        collision_radius_q8: 0,
        separation_strength_q8: 0,
        separation_phases: 1,
        mass_class_count: 1,
        separation_threads: 1,
        obstacle_cells: vec![],
        rts: None,
    };
    Scenario::from_spec(spec).expect("valid fixture")
}

#[test]
fn a_blocked_click_snaps_to_the_nearest_legal_centre() {
    let scenario = open_fixture();
    let nav = StaticNav::new(&scenario, &[]).expect("nav");
    // A body of radius 3 cells needs its centre 3 cells from every edge.
    assert_eq!(nearest_body_clear_cell(&nav, Cell { x: 0, y: 0 }), Some(Cell { x: 3, y: 3 }));
    assert_eq!(nearest_body_clear_cell(&nav, Cell { x: 20, y: 20 }), Some(Cell { x: 20, y: 20 }));
    assert_eq!(nearest_body_clear_cell(&nav, Cell { x: 39, y: 20 }), Some(Cell { x: 36, y: 20 }));
}

#[test]
fn a_plan_hands_each_member_its_own_slot() {
    let scenario = open_fixture();
    let nav = StaticNav::new(&scenario, &[StaticSolid::Node(Cell { x: 0, y: 0 })]).expect("nav");
    let mut scratch = FormationScratch::new(40 * 40);
    scratch.begin();
    scratch.push_unit(EntityId { index: 1, generation: 0 });
    scratch.push_unit(EntityId { index: 2, generation: 0 });
    let clear = vec![true; 40 * 40];
    assert_eq!(scratch.plan(&nav, &clear, Cell { x: 20, y: 20 }), Ok(()));
    assert_eq!(scratch.len(), 2);
    // The first two candidates are the anchor and (14, 14).
    assert_eq!(scratch.slot(0), Cell { x: 20, y: 20 });
    assert_eq!(scratch.slot(1), Cell { x: 14, y: 14 });
    // Member 1 stands right of the anchor, member 2 on it; each ranks the
    // slots by the bits of its squared f32 distance to their centres.
    let members = [[26.5f32, 20.5], [20.5, 20.5]];
    let slots = [scratch.slot(0), scratch.slot(1)];
    let keys: Vec<Option<Vec<u32>>> = members
        .iter()
        .map(|p| {
            Some(
                slots
                    .iter()
                    .map(|c| {
                        let dx = p[0] - (c.x as f32 + 0.5);
                        let dy = p[1] - (c.y as f32 + 0.5);
                        (dx * dx + dy * dy).to_bits()
                    })
                    .collect(),
            )
        })
        .collect();
    scratch.assign(&keys);
    // Member 1 is nearer the anchor than (14, 14), so it takes the anchor.
    assert_eq!(scratch.slot(0), Cell { x: 20, y: 20 });
    assert_eq!(scratch.slot(1), Cell { x: 14, y: 14 });
    assert_eq!(scratch.unit(1), EntityId { index: 2, generation: 0 });
}

#[test]
fn a_plan_with_no_members_or_no_room_is_refused_whole() {
    let scenario = open_fixture();
    let nav = StaticNav::new(&scenario, &[]).expect("nav");
    let mut scratch = FormationScratch::new(40 * 40);
    scratch.begin();
    let clear = vec![true; 40 * 40];
    assert_eq!(scratch.plan(&nav, &clear, Cell { x: 20, y: 20 }), Err(FormationError::NoUnits));
    scratch.push_unit(EntityId { index: 1, generation: 0 });
    let nowhere = vec![false; 40 * 40];
    assert_eq!(
        scratch.plan(&nav, &nowhere, Cell { x: 20, y: 20 }),
        Err(FormationError::NoFormationSpace)
    );
}

#[test]
fn equal_keys_go_to_the_earlier_cell_and_a_gone_member_keeps_its_place() {
    let scenario = open_fixture();
    let nav = StaticNav::new(&scenario, &[]).expect("nav");
    let mut scratch = FormationScratch::new(40 * 40);
    scratch.begin();
    for i in 0..3 {
        scratch.push_unit(EntityId { index: i, generation: 0 });
    }
    let clear = vec![true; 40 * 40];
    assert_eq!(scratch.plan(&nav, &clear, Cell { x: 20, y: 20 }), Ok(()));
    let planned = [scratch.slot(0), scratch.slot(1), scratch.slot(2)];
    // Member 0 is gone; member 1 sees every slot at the same key, so it takes
    // the one earliest in flat index order among those left; member 2 takes
    // what remains.
    let keys = vec![None, Some(vec![7u32, 7, 7]), Some(vec![0u32, 0, 0])];
    scratch.assign(&keys);
    assert_eq!(scratch.slot(0), planned[0]);
    let rest = [planned[1], planned[2]];
    let earliest = if (rest[0].y, rest[0].x) < (rest[1].y, rest[1].x) { rest[0] } else { rest[1] };
    assert_eq!(scratch.slot(1), earliest);
}
