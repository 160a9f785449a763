use markov_junior::field::{delta_pointwise, neighbors, Field};
use markov_junior::grid::MjGrid;
use markov_junior::rule::MjRule;

#[test]
fn test_field_bfs_simple() {
    let mut grid = MjGrid::with_values(5, 5, 1, "BW");
    grid.state[2 + 2 * 5] = 1;
    let field = Field::new(1, 2);
    let mut potential = vec![-1i32; 25];
    let success = field.compute(&mut potential, &grid);
    assert!(success, "Should successfully compute field");
    assert_eq!(potential[2 + 2 * 5], 0, "Center (target) should be 0");
    assert_eq!(potential[1 + 2 * 5], 1, "Left of center should be 1");
    assert_eq!(potential[3 + 2 * 5], 1, "Right of center should be 1");
    assert_eq!(potential[2 + 1 * 5], 1, "Below center should be 1");
    assert_eq!(potential[2 + 3 * 5], 1, "Above center should be 1");
    assert_eq!(potential[0 + 0 * 5], 4, "Bottom-left corner should be 4");
    assert_eq!(potential[4 + 4 * 5], 4, "Top-right corner should be 4");
}

#[test]
fn test_field_bfs_with_obstacles() {
    let mut grid = MjGrid::with_values(5, 5, 1, "BWX");
    grid.state[4 + 2 * 5] = 1;
    for y in 0..5 {
        if y != 2 {
            grid.state[2 + y * 5] = 2;
        }
    }
    let field = Field::new(1, 2);
    let mut potential = vec![-1i32; 25];
    let success = field.compute(&mut potential, &grid);
    assert!(success, "Should successfully compute field");
    assert_eq!(potential[4 + 2 * 5], 0, "Target should be 0");
    assert_eq!(potential[0 + 2 * 5], 4, "Cell at gap level should be 4 steps");
    assert_eq!(potential[2 + 0 * 5], -1, "Wall cells should be unreachable");
    assert_eq!(potential[2 + 1 * 5], -1, "Wall cells should be unreachable");
}

#[test]
fn test_field_no_targets_returns_false() {
    let grid = MjGrid::with_values(5, 5, 1, "BW");
    let field = Field::new(1, 2);
    let mut potential = vec![-1i32; 25];
    let success = field.compute(&mut potential, &grid);
    assert!(!success, "Should return false when no targets");
}

#[test]
fn test_delta_pointwise_simple() {
    let grid = MjGrid::with_values(5, 5, 1, "BW");
    let rule = MjRule::parse("B", "W", &grid).unwrap();
    let mut potentials = vec![vec![0i32; 25]; 2];
    for y in 0..5i32 {
        for x in 0..5i32 {
            let dist = (x - 2).abs() + (y - 2).abs();
            potentials[0][(x + y * 5) as usize] = dist;
        }
    }
    potentials[1] = vec![-1; 25];
    potentials[1][2 + 2 * 5] = 0;
    let delta = delta_pointwise(&grid.state, &rule, 0, 0, 0, None, &potentials, 5, 5);
    assert!(delta.is_none(), "Should return None for unreachable target");
    let delta = delta_pointwise(&grid.state, &rule, 2, 2, 0, None, &potentials, 5, 5);
    assert_eq!(delta, Some(0), "Delta at center should be 0");
}

#[test]
fn test_delta_pointwise_prefers_lower() {
    let grid = MjGrid::with_values(5, 1, 1, "BW");
    let rule = MjRule::parse("B", "W", &grid).unwrap();
    let mut potentials = vec![vec![0i32; 5]; 2];
    for x in 0..5 {
        potentials[0][x] = (4 - x as i32).abs();
        potentials[1][x] = (4 - x as i32).abs();
    }
    let delta = delta_pointwise(&grid.state, &rule, 0, 0, 0, None, &potentials, 5, 1);
    assert_eq!(delta, Some(0), "Same potentials should give delta 0");
}

#[test]
fn test_neighbors() {
    let n = neighbors(2, 2, 0, 5, 5, 1);
    assert_eq!(n.len(), 4, "2D grid center should have 4 neighbors");
    let corner = neighbors(0, 0, 0, 5, 5, 1);
    assert_eq!(corner.len(), 2, "2D corner should have 2 neighbors");
    let n3d = neighbors(1, 1, 1, 3, 3, 3);
    assert_eq!(n3d.len(), 6, "3D center should have 6 neighbors");
}

#[test]
fn field_delta_is_new_minus_old_potential() {
    let grid = MjGrid::with_values(3, 1, 1, "BW");
    let rule = MjRule::parse("B", "W", &grid).unwrap();
    let potentials = vec![vec![5i32, 6, 7], vec![1i32, 2, 3]];
    let delta = delta_pointwise(&grid.state, &rule, 1, 0, 0, None, &potentials, 3, 1);
    assert_eq!(delta, Some(2 - 6));
}
