use mmd_engine::digest::sha256_hex;
use mmd_engine::scenario::{
    Cell, RtsSpec, Scenario, ScenarioError, ScenarioSpec, V1_HEIGHT, V1_WIDTH,
};

#[test]
fn ratio_math_20_percent() {
    assert_eq!(V1_WIDTH * V1_HEIGHT / 5, 25_920);
}

fn fixture(width: u32, height: u32, obstacles: Vec<u32>, spawns: Vec<Cell>, dest: Cell) -> ScenarioSpec {
    ScenarioSpec {
        version: "fixture_small".to_string(),
        width,
        height,
        cell_size_px: 4,
        sprite_size_px: 16,
        hard_agent_count: 2,
        stretch_agent_count: 2,
        seed: 7,
        destination: dest,
        spawn_cells: spawns,
        atlas_count: 4,
        direction_count: 8,
        frame_count: 4,
        collision_radius_q8: 0,
        separation_strength_q8: 0,
        separation_phases: 1,
        mass_class_count: 1,
        separation_threads: 1,
        obstacle_cells: obstacles,
        rts: None,
    }
}

#[test]
fn a_valid_fixture_keeps_its_fields_and_sorts_obstacles() {
    let spec = fixture(8, 8, vec![12, 3, 9], vec![Cell { x: 0, y: 0 }], Cell { x: 7, y: 7 });
    let s = Scenario::from_spec(spec);
    match s {
        Ok(s) => {
            assert_eq!(s.width(), 8);
            assert_eq!(s.height(), 8);
            assert_eq!(s.seed(), 7);
            assert_eq!(s.version(), "fixture_small");
            assert_eq!(s.destination(), Cell { x: 7, y: 7 });
            assert_eq!(s.spawn_cells(), &[Cell { x: 0, y: 0 }]);
            assert_eq!(s.obstacle_cells(), &[3, 9, 12]);
            assert_eq!(s.obstacle_count(), 3);
            assert!(s.is_obstacle_index(9));
            assert!(!s.is_obstacle_index(10));
            assert!(s.rts().is_none());
        }
        Err(e) => panic!("unexpected {e:?}"),
    }
}

#[test]
fn a_repeated_obstacle_is_refused() {
    let spec = fixture(8, 8, vec![12, 3, 12, 9], vec![Cell { x: 0, y: 0 }], Cell { x: 7, y: 7 });
    assert_eq!(Scenario::from_spec(spec), Err(ScenarioError::DuplicateObstacle(12)));
}

#[test]
fn an_unknown_version_is_refused() {
    let mut spec = fixture(8, 8, vec![], vec![Cell { x: 0, y: 0 }], Cell { x: 7, y: 7 });
    spec.version = "nonsense".to_string();
    assert!(matches!(Scenario::from_spec(spec), Err(ScenarioError::UnsupportedVersion(_))));
}

#[test]
fn a_blocked_destination_is_refused() {
    let spec = fixture(8, 8, vec![63], vec![Cell { x: 0, y: 0 }], Cell { x: 7, y: 7 });
    assert_eq!(Scenario::from_spec(spec), Err(ScenarioError::DestinationBlocked));
}

#[test]
fn a_walled_off_spawn_is_unreachable() {
    // Column x = 4 fully blocked on an 8x8 grid: the left half cannot reach
    // the right half.
    let wall: Vec<u32> = (0..8).map(|y| 4 + y * 8).collect();
    let spec = fixture(8, 8, wall, vec![Cell { x: 0, y: 0 }], Cell { x: 7, y: 7 });
    assert_eq!(Scenario::from_spec(spec), Err(ScenarioError::UnreachableSpawn { x: 0, y: 0 }));
}

#[test]
fn a_spawn_off_the_grid_is_invalid() {
    let spec = fixture(8, 8, vec![], vec![Cell { x: 8, y: 0 }], Cell { x: 7, y: 7 });
    assert_eq!(Scenario::from_spec(spec), Err(ScenarioError::InvalidSpawn { x: 8, y: 0 }));
}

#[test]
fn no_spawns_is_refused() {
    let spec = fixture(8, 8, vec![], vec![], Cell { x: 7, y: 7 });
    assert_eq!(Scenario::from_spec(spec), Err(ScenarioError::EmptySpawns));
}

#[test]
fn an_obstacle_off_the_grid_is_refused() {
    let spec = fixture(8, 8, vec![64], vec![Cell { x: 0, y: 0 }], Cell { x: 7, y: 7 });
    assert_eq!(Scenario::from_spec(spec), Err(ScenarioError::InvalidObstacleIndex(64)));
}

#[test]
fn a_bad_hash_is_refused_before_parsing() {
    let bytes = b"abc";
    let r = Scenario::from_verified_bytes(bytes, "00", Err("never looked at".to_string()));
    assert_eq!(
        r,
        Err(ScenarioError::HashMismatch {
            expected: "00".to_string(),
            actual: "ba7816bf8f01cfea414140de5dae2223b00361a396177a9cb410ff61f20015ad".to_string(),
        })
    );
}

#[test]
fn a_good_hash_passes_the_parse_result_through() {
    let bytes = b"abc";
    let hex = sha256_hex(bytes);
    assert_eq!(hex, "ba7816bf8f01cfea414140de5dae2223b00361a396177a9cb410ff61f20015ad");
    let r = Scenario::from_verified_bytes(bytes, &hex, Err("bad ron".to_string()));
    assert_eq!(r, Err(ScenarioError::Parse("bad ron".to_string())));
    let spec = fixture(8, 8, vec![], vec![Cell { x: 0, y: 0 }], Cell { x: 7, y: 7 });
    let r = Scenario::from_verified_bytes(bytes, &hex, Ok(spec));
    assert!(r.is_ok());
}

#[test]
fn an_rts_block_off_the_rts_family_is_refused_with_the_version_quoted() {
    let mut spec = fixture(8, 8, vec![], vec![Cell { x: 0, y: 0 }], Cell { x: 7, y: 7 });
    spec.rts = Some(RtsSpec {
        start_crystal: 0,
        start_gas: 0,
        start_supply_cap: 10,
        hq_cell: Cell { x: 0, y: 0 },
        crystal_nodes: vec![],
        gas_nodes: vec![],
        enemies: None,
    });
    assert_eq!(
        Scenario::from_spec(spec),
        Err(ScenarioError::InvalidRts(
            "version \"fixture_small\": rts block must be present iff version == \"rts_prototype_v1\"".to_string()
        ))
    );
}

#[test]
fn a_cloned_scenario_is_the_same_scenario() {
    let spec = fixture(8, 8, vec![12, 3, 9], vec![Cell { x: 0, y: 0 }], Cell { x: 7, y: 7 });
    let s = Scenario::from_spec(spec).expect("valid fixture");
    let c = s.clone();
    assert_eq!(c, s);
    assert_eq!(c.obstacle_cells(), &[3, 9, 12]);
}
