use mmd_engine::sim::spatial::SpatialGrid;

#[test]
fn a_new_grid_is_empty_everywhere() {
    let g = SpatialGrid::new(3, 2, 10);
    assert_eq!((g.cols(), g.rows(), g.capacity()), (3, 2, 10));
    assert_eq!(g.len(), 0);
    assert!(g.is_empty());
    for by in 0..2 {
        for bx in 0..3 {
            assert_eq!(g.bin_count(bx, by), 0);
            assert!(g.agents_in_bin(bx, by).is_empty());
        }
    }
}

#[test]
fn buckets_come_out_in_ascending_agent_index() {
    let mut g = SpatialGrid::new(3, 2, 8);
    let bins = [(2, 1), (0, 0), (2, 1), (1, 0), (0, 0), (2, 1)];
    g.rebuild(&bins);
    assert_eq!(g.len(), 6);
    assert_eq!(g.agents_in_bin(0, 0), &[1, 4]);
    assert_eq!(g.agents_in_bin(1, 0), &[3]);
    assert_eq!(g.agents_in_bin(2, 0), &[] as &[u32]);
    assert_eq!(g.agents_in_bin(2, 1), &[0, 2, 5]);
    assert_eq!(g.bin_count(2, 1), 3);
    assert_eq!(g.bin_count(0, 0), 2);
    assert_eq!(g.bin_count(1, 1), 0);
}

#[test]
fn bins_off_the_grid_are_empty() {
    let mut g = SpatialGrid::new(3, 2, 4);
    g.rebuild(&[(0, 0), (2, 1)]);
    assert_eq!(g.bin_count(3, 0), 0);
    assert_eq!(g.bin_count(0, 2), 0);
    assert!(g.agents_in_bin(3, 1).is_empty());
    assert!(g.agents_in_bin(0, 7).is_empty());
}

#[test]
fn a_row_window_is_the_bin_by_bin_walk() {
    let mut g = SpatialGrid::new(4, 2, 8);
    let bins = [(3, 0), (1, 0), (0, 1), (1, 0), (2, 0), (0, 0), (3, 1)];
    g.rebuild(&bins);
    let mut walk: Vec<u32> = Vec::new();
    for bx in 1..=3 {
        walk.extend_from_slice(g.agents_in_bin(bx, 0));
    }
    assert_eq!(g.agents_in_bin_row(1, 3, 0), walk.as_slice());
    assert_eq!(g.agents_in_bin_row(1, 3, 0), &[1, 3, 4, 0]);
    assert_eq!(g.agents_in_bin_row(0, 99, 0), &[5, 1, 3, 4, 0], "the right edge is clamped");
    assert_eq!(g.agents_in_bin_row(0, 3, 1), &[2, 6]);
    assert!(g.agents_in_bin_row(4, 5, 0).is_empty(), "a window starting past the last column");
    assert!(g.agents_in_bin_row(0, 3, 2).is_empty(), "a row off the grid");
    assert!(g.agents_in_bin_row(2, 1, 0).is_empty(), "an inverted window");
}

#[test]
fn a_rebuild_forgets_the_previous_population() {
    let mut g = SpatialGrid::new(2, 2, 4);
    g.rebuild(&[(0, 0), (0, 0), (1, 1)]);
    assert_eq!(g.bin_count(0, 0), 2);
    g.rebuild(&[(1, 0)]);
    assert_eq!(g.len(), 1);
    assert_eq!(g.bin_count(0, 0), 0);
    assert_eq!(g.bin_count(1, 1), 0);
    assert_eq!(g.agents_in_bin(1, 0), &[0]);
    assert!(g.agents_in_bin(0, 0).is_empty());
    g.rebuild(&[]);
    assert!(g.is_empty());
    assert!(g.agents_in_bin_row(0, 1, 0).is_empty());
}
