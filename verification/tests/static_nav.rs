use mmd_engine::rts::static_nav::{StaticNav, StaticNavError, StaticSolid};
use mmd_engine::scenario::{Cell, Scenario, ScenarioSpec};

fn fixture(width: u32, height: u32, obstacles: Vec<u32>) -> Scenario {
    let spec = ScenarioSpec {
        version: "fixture_nav".to_string(),
        width,
        height,
        cell_size_px: 4,
        sprite_size_px: 16,
        hard_agent_count: 1,
        stretch_agent_count: 1,
        seed: 1,
        destination: Cell { x: 0, y: 0 },
        spawn_cells: vec![Cell { x: 0, y: 1 }],
        atlas_count: 4,
        direction_count: 8,
        frame_count: 4,
        collision_radius_q8: 0,
        separation_strength_q8: 0,
        separation_phases: 1,
        mass_class_count: 1,
        separation_threads: 1,
        obstacle_cells: obstacles,
        rts: None,
    };
    Scenario::from_spec(spec).expect("valid fixture")
}

#[test]
fn a_body_keeps_its_radius_from_the_map_edge() {
    let s = fixture(20, 20, vec![]);
    let nav = StaticNav::new(&s, &[]).expect("nav");
    let blocked = nav.center_blocked();
    // Radius 3: centres 3..=16 are legal on a 20-wide map.
    assert!(blocked[2 + 10 * 20]);
    assert!(!blocked[3 + 10 * 20]);
    assert!(!blocked[16 + 10 * 20]);
    assert!(blocked[17 + 10 * 20]);
    assert_eq!(nav.width(), 20);
    assert_eq!(nav.height(), 20);
}

#[test]
fn a_wall_splits_the_regions() {
    // A wall down column 10 of a 21x12 map, apart from the last rows.
    let wall: Vec<u32> = (0..12).map(|y| 10 + y * 21).collect();
    let s = fixture(21, 12, wall);
    let nav = StaticNav::new(&s, &[]).expect("nav");
    let a = Cell { x: 4, y: 6 };
    let b = Cell { x: 16, y: 6 };
    assert!(nav.component_at(a).is_some());
    assert!(nav.component_at(b).is_some());
    assert!(!nav.connected(a, b));
    assert!(nav.connected(a, Cell { x: 5, y: 5 }));
    assert_eq!(nav.component_at(Cell { x: 10, y: 6 }), None);
    assert_eq!(nav.component_at(Cell { x: 50, y: 6 }), None);
    assert!(!nav.connected(a, Cell { x: 50, y: 6 }));
}

#[test]
fn stamping_then_unstamping_a_clear_footprint_restores_the_masks() {
    let s = fixture(30, 30, vec![]);
    let mut nav = StaticNav::new(&s, &[]).expect("nav");
    let solids_before = nav.placement_solids().to_vec();
    nav.stamp_finished_building(Cell { x: 10, y: 10 }, 8);
    assert!(nav.placement_solids()[12 + 12 * 30]);
    assert!(!nav.placement_solids()[18 + 12 * 30]);
    nav.rebuild_center_blocked(6);
    assert!(nav.center_blocked()[14 + 14 * 30]);
    nav.unstamp_finished_building(Cell { x: 10, y: 10 }, 8);
    assert_eq!(nav.placement_solids(), &solids_before[..]);
    nav.rebuild_center_blocked(6);
    assert!(!nav.center_blocked()[14 + 14 * 30]);
}

#[test]
fn nodes_block_bodies_but_not_placement() {
    let s = fixture(30, 30, vec![]);
    let nav = StaticNav::new(&s, &[StaticSolid::Node(Cell { x: 15, y: 15 })]).expect("nav");
    assert!(!nav.placement_solids()[15 + 15 * 30]);
    assert!(nav.center_blocked()[15 + 15 * 30]);
    // Touching is legal: a centre three cells from the node's edge is clear.
    assert!(!nav.center_blocked()[19 + 15 * 30]);
    assert!(nav.center_blocked()[18 + 15 * 30]);
}

#[test]
fn nav_errors_compare() {
    assert_ne!(StaticNavError::EmptyGrid, StaticNavError::InvalidObstacleIndex(0));
}

#[test]
fn region_labels_ascend_with_each_region_s_first_cell() {
    // A wall down column 10 of a 21x12 map: the western region's first legal
    // centre comes first in index order, so it is region 0.
    let wall: Vec<u32> = (0..12).map(|y| 10 + y * 21).collect();
    let s = fixture(21, 12, wall);
    let nav = StaticNav::new(&s, &[]).expect("nav");
    assert_eq!(nav.component_at(Cell { x: 4, y: 6 }), Some(0));
    assert_eq!(nav.component_at(Cell { x: 16, y: 6 }), Some(1));
    assert_eq!(nav.component_at(Cell { x: 3, y: 3 }), Some(0));
}
