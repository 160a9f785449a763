use markov_junior::polar_grid::{PolarMjGrid, PolarModel, PolarPattern, PolarRule, PolarSymmetry};
use std::f32::consts::PI;

/// The cell count per ring that gives cells of about `target_arc` on the inner ring
/// (at least 6).
fn divisions(r_min: u32, target_arc: f32) -> u16 {
    let circumference = 2.0 * PI * r_min as f32;
    (circumference / target_arc).floor().max(6.0) as u16
}

fn polar(r_min: u32, r_depth: u16, target_arc: f32) -> PolarMjGrid {
    PolarMjGrid::with_theta_divisions(r_min, r_depth, divisions(r_min, target_arc))
}

#[test]
fn test_grid_creation() {
    let grid = polar(256, 256, 1.0);
    assert_eq!(grid.r_min, 256);
    assert_eq!(grid.r_depth, 256);
    assert_eq!(grid.rings.len(), 256);
    for r in 0..=255u8 {
        let theta_divs = grid.theta_divisions(r);
        for theta in 0..theta_divs {
            assert_eq!(grid.get(r, theta), 0);
        }
    }
}

#[test]
fn test_cell_read_write() {
    let mut grid = polar(256, 256, 1.0);
    grid.set(0, 0, 42);
    grid.set(128, 500, 99);
    grid.set(255, 1000, 7);
    assert_eq!(grid.get(0, 0), 42);
    assert_eq!(grid.get(128, 500), 99);
    assert_eq!(grid.get(255, 1000), 7);
    assert_eq!(grid.get(0, 1), 0);
    assert_eq!(grid.get(128, 501), 0);
}

#[test]
fn test_theta_wrapping() {
    let mut grid = polar(256, 256, 1.0);
    let theta_divs = grid.theta_divisions(100);
    grid.set(100, 0, 42);
    assert_eq!(grid.get(100, theta_divs), 42);
    assert_eq!(grid.get(100, theta_divs * 2), 42);
    assert_eq!(grid.get(100, theta_divs + 5), grid.get(100, 5));
}

#[test]
fn test_memory_layout() {
    let grid = polar(256, 256, 1.0);
    let inner_size = grid.rings[0].len();
    let outer_size = grid.rings[255].len();
    assert_eq!(inner_size, outer_size, "All rings should have same size (fixed theta divisions)");
    for r in 0..256 {
        assert_eq!(grid.rings[r].len(), grid.theta_divisions as usize, "Ring {} should have {} elements", r, grid.theta_divisions);
    }
}

#[test]
fn test_angular_neighbors() {
    let grid = polar(256, 256, 1.0);
    for r in [0u8, 50, 100, 200, 255] {
        let divs = grid.theta_divisions(r);
        for theta in [0u16, divs / 2, divs - 1] {
            let neighbors = grid.neighbors(r, theta);
            assert_eq!(neighbors.theta_minus, (r, (theta + divs - 1) % divs));
            assert_eq!(neighbors.theta_plus, (r, (theta + 1) % divs));
        }
    }
}

#[test]
fn test_angular_neighbor_wrapping() {
    let grid = polar(256, 256, 1.0);
    let r = 100u8;
    let divs = grid.theta_divisions(r);
    let neighbors = grid.neighbors(r, 0);
    assert_eq!(neighbors.theta_minus.1, divs - 1);
    let neighbors = grid.neighbors(r, divs - 1);
    assert_eq!(neighbors.theta_plus.1, 0);
}

#[test]
fn test_radial_neighbors_bounded() {
    let grid = polar(256, 256, 1.0);
    for r in 1..255u8 {
        let divs = grid.theta_divisions(r);
        for theta in 0..divs {
            let neighbors = grid.neighbors(r, theta);
            assert!(neighbors.r_minus.is_some(), "r_minus should be Some for r={}", r);
            assert!(neighbors.r_plus.is_some(), "r_plus should be Some for r={}", r);
            let (r_m, theta_m) = neighbors.r_minus.unwrap();
            let (r_p, theta_p) = neighbors.r_plus.unwrap();
            assert_eq!(theta_m, theta, "r_minus theta should match");
            assert_eq!(theta_p, theta, "r_plus theta should match");
            assert_eq!(r_m, r - 1, "r_minus should be r-1");
            assert_eq!(r_p, r + 1, "r_plus should be r+1");
        }
    }
}

#[test]
fn test_boundary_neighbors() {
    let grid = polar(256, 256, 1.0);
    let neighbors = grid.neighbors(0, 0);
    assert!(neighbors.r_minus.is_none());
    assert!(neighbors.r_plus.is_some());
    let neighbors = grid.neighbors(255, 0);
    assert!(neighbors.r_minus.is_some());
    assert!(neighbors.r_plus.is_none());
}

#[test]
fn test_neighbor_symmetry() {
    let grid = polar(256, 256, 1.0);
    for r in 1..255u8 {
        let theta = grid.theta_divisions(r) / 2;
        let neighbors = grid.neighbors(r, theta);
        if let Some((nr, nt)) = neighbors.r_plus {
            let reverse_neighbors = grid.neighbors(nr, nt);
            assert_eq!(reverse_neighbors.r_minus, Some((r, theta)));
        }
    }
}

#[test]
fn test_symmetry_group_closure() {
    let symmetries = [PolarSymmetry::Identity, PolarSymmetry::ThetaFlip, PolarSymmetry::RFlip, PolarSymmetry::BothFlip];
    for &s1 in &symmetries {
        for &s2 in &symmetries {
            let (dr, dt) = s1.transform(1, 1);
            let composed = s2.transform(dr, dt);
            let found = symmetries.iter().any(|&s| s.transform(1, 1) == composed);
            assert!(found, "Composition of {:?} and {:?} not in group", s1, s2);
        }
    }
}

#[test]
fn test_pattern_symmetry_variants() {
    let pattern = PolarPattern { center: 1, theta_minus: Some(2), theta_plus: Some(3), r_minus: Some(4), r_plus: Some(5) };
    let variants: Vec<_> = PolarSymmetry::all().iter().map(|s| pattern.transform(*s)).collect();
    for i in 0..4 {
        for j in (i + 1)..4 {
            assert_ne!(variants[i], variants[j], "Variants {} and {} are identical", i, j);
        }
    }
}

#[test]
fn test_symmetric_pattern_fewer_variants() {
    let pattern = PolarPattern { center: 1, theta_minus: Some(2), theta_plus: Some(2), r_minus: Some(3), r_plus: Some(4) };
    let mut variants: Vec<PolarPattern> = Vec::new();
    for s in PolarSymmetry::all().iter() {
        let t = pattern.transform(*s);
        if !variants.contains(&t) {
            variants.push(t);
        }
    }
    assert_eq!(variants.len(), 2, "Expected 2 unique variants for theta-symmetric pattern, got {}", variants.len());
}

#[test]
fn test_simple_rule_matching() {
    let mut grid = polar(256, 256, 1.0);
    let r = 100u8;
    let theta = 500u16;
    let neighbors = grid.neighbors(r, theta);
    if let Some((nr, nt)) = neighbors.r_plus {
        grid.set(nr, nt, 1);
    }
    let pattern = PolarPattern { center: 0, theta_minus: None, theta_plus: None, r_minus: None, r_plus: Some(1) };
    assert!(pattern.matches(&grid, r, theta));
    assert!(!pattern.matches(&grid, r.saturating_sub(10), theta));
}

#[test]
fn test_rule_application() {
    let mut grid = polar(256, 256, 1.0);
    let rule = PolarRule { input: PolarPattern::center_only(0), output: 1 };
    let r = 100u8;
    let theta = 500u16;
    assert_eq!(grid.get(r, theta), 0);
    rule.apply(&mut grid, r, theta);
    assert_eq!(grid.get(r, theta), 1);
}

#[test]
fn test_conditional_rule() {
    let mut grid = polar(256, 256, 1.0);
    let rule = PolarRule { input: PolarPattern { center: 0, r_plus: Some(1), ..Default::default() }, output: 2 };
    let r = 100u8;
    let theta = 500u16;
    let neighbors = grid.neighbors(r, theta);
    assert!(!rule.matches(&grid, r, theta));
    if let Some((nr, nt)) = neighbors.r_plus {
        grid.set(nr, nt, 1);
    }
    assert!(rule.matches(&grid, r, theta));
    rule.apply(&mut grid, r, theta);
    assert_eq!(grid.get(r, theta), 2);
}

#[test]
fn test_rule_with_symmetries() {
    let mut grid = polar(256, 256, 1.0);
    let base_rule = PolarRule { input: PolarPattern { center: 0, theta_plus: Some(1), ..Default::default() }, output: 2 };
    let rules = base_rule.with_all_symmetries();
    assert_eq!(rules.len(), 2);
    let r = 100u8;
    let theta = 500u16;
    let neighbors = grid.neighbors(r, theta);
    grid.set(neighbors.theta_minus.0, neighbors.theta_minus.1, 1);
    assert!(!base_rule.matches(&grid, r, theta));
    let any_matches = rules.iter().any(|rule| rule.matches(&grid, r, theta));
    assert!(any_matches, "No symmetry variant matched");
}

#[test]
fn test_multiple_rules_priority() {
    let mut grid = polar(256, 256, 1.0);
    let rule1 = PolarRule { input: PolarPattern::center_only(0), output: 1 };
    let rule2 = PolarRule { input: PolarPattern::center_only(0), output: 2 };
    let rules = vec![rule1, rule2];
    let r = 100u8;
    let theta = 500u16;
    for rule in &rules {
        if rule.matches(&grid, r, theta) {
            rule.apply(&mut grid, r, theta);
            break;
        }
    }
    assert_eq!(grid.get(r, theta), 1);
}

fn grow(grid: &mut PolarMjGrid, rule: &PolarRule, rings: u8, steps: usize) {
    for _ in 0..steps {
        let mut to_set = vec![];
        for r in 0..rings {
            let divs = grid.theta_divisions(r);
            for theta in 0..divs {
                if rule.matches(grid, r, theta) {
                    to_set.push((r, theta));
                }
            }
        }
        for (r, theta) in to_set {
            grid.set(r, theta, 1);
        }
    }
}

#[test]
fn test_ring_growth() {
    let mut grid = polar(256, 64, 1.0);
    let inner_divs = grid.theta_divisions(0);
    for theta in 0..inner_divs {
        grid.set(0, theta, 1);
    }
    let rule = PolarRule { input: PolarPattern { center: 0, r_minus: Some(1), ..Default::default() }, output: 1 };
    grow(&mut grid, &rule, 64, 63);
    for r in 0..64u8 {
        let divs = grid.theta_divisions(r);
        for theta in 0..divs {
            assert_eq!(grid.get(r, theta), 1, "Cell ({}, {}) not filled", r, theta);
        }
    }
}

#[test]
fn test_wave_pattern() {
    let mut grid = polar(256, 64, 1.0);
    for r in 0..64u8 {
        let value = (r % 2) as u8;
        let divs = grid.theta_divisions(r);
        for theta in 0..divs {
            grid.set(r, theta, value);
        }
    }
    for r in 0..64u8 {
        let expected = (r % 2) as u8;
        let divs = grid.theta_divisions(r);
        for theta in 0..divs {
            assert_eq!(grid.get(r, theta), expected);
        }
    }
}

#[test]
fn test_deterministic_output() {
    fn run_model_with_seed(seed: u64) -> u64 {
        let mut grid = polar(256, 32, 1.0);
        let start_theta = (seed % 100) as u16;
        grid.set(0, start_theta, 1);
        let rule = PolarRule { input: PolarPattern { center: 0, r_minus: Some(1), ..Default::default() }, output: 1 };
        grow(&mut grid, &rule, 32, 10);
        grid.checksum()
    }
    let result1 = run_model_with_seed(42);
    let result2 = run_model_with_seed(42);
    assert_eq!(result1, result2);
    let result3 = run_model_with_seed(43);
    assert_ne!(result1, result3);
}

#[test]
fn test_total_voxels() {
    let grid = polar(256, 256, 1.0);
    let total = grid.total_voxels();
    let expected = 256 * grid.theta_divisions as usize;
    assert_eq!(total, expected);
}

#[test]
fn test_count_nonzero() {
    let mut grid = polar(256, 64, 1.0);
    assert_eq!(grid.count_nonzero(), 0);
    grid.set(0, 0, 1);
    grid.set(10, 100, 2);
    grid.set(63, 500, 3);
    assert_eq!(grid.count_nonzero(), 3);
    grid.clear();
    assert_eq!(grid.count_nonzero(), 0);
}

#[test]
fn polar_model_grows_one_cell_per_step_until_full() {
    let mut m = PolarModel::new("ring", "BW", 16, 3, 8);
    m.add_rule(PolarRule { input: PolarPattern { center: 0, r_minus: Some(1), ..Default::default() }, output: 1 }, false);
    m.set_seed(7);
    m.reset();
    m.seed_inner_ring(1);
    assert_eq!(m.grid.count_nonzero(), 8);
    let n = m.run(100);
    assert_eq!(n, 16);
    assert_eq!(m.step, 16);
    assert_eq!(m.grid.count_nonzero(), 24);
    assert!(!m.step());
}

#[test]
fn polar_model_step_picks_by_its_generator() {
    let mut m = PolarModel::new("one", "BW", 16, 1, 6);
    m.add_rule(PolarRule { input: PolarPattern::center_only(0), output: 1 }, false);
    m.set_seed(0);
    assert!(m.step());
    let x = 1u64;
    let idx = (x % 6) as u16;
    assert_eq!(m.rng_state, 1);
    assert_eq!(m.grid.get(0, idx), 1);
    assert_eq!(m.grid.count_nonzero(), 1);
}

#[test]
fn polar_model_expands_symmetries_when_asked() {
    let mut m = PolarModel::new("sym", "BW", 16, 2, 6);
    m.add_rule(PolarRule { input: PolarPattern { center: 0, theta_plus: Some(1), ..Default::default() }, output: 1 }, true);
    assert_eq!(m.rules.len(), 2);
    m.fill_ring(1, 1);
    assert!((0..6u16).all(|t| m.grid.get(1, t) == 1));
}

#[test]
fn polar_rules_are_read_from_text() {
    let mut m = PolarModel::new("text", "BW", 16, 2, 6);
    assert!(m.add_rule_str("0;*,*,*,1 -> 1", false).is_ok());
    assert_eq!(m.rules.len(), 1);
    let r = m.rules[0];
    assert_eq!(r.input, PolarPattern { center: 0, theta_minus: None, theta_plus: None, r_minus: None, r_plus: Some(1) });
    assert_eq!(r.output, 1);
    assert!(m.add_rule_str("B;W,-,*,* -> W", true).is_ok());
    assert_eq!(m.rules.len(), 3);
    assert_eq!(m.rules[1].input.theta_minus, Some(1));
    assert_eq!(m.rules[2].input.theta_plus, Some(1));
    assert_eq!(
        m.add_rule_str("0 1", false).unwrap_err(),
        "Invalid rule format: expected 'input -> output', got '0 1'"
    );
    assert_eq!(
        m.add_rule_str("0 -> 1", false).unwrap_err(),
        "Invalid input format: expected 'center;neighbors', got '0'"
    );
    assert_eq!(
        m.add_rule_str("0;*,* -> 1", false).unwrap_err(),
        "Invalid neighbors: expected 4 (theta-,theta+,r-,r+), got 2"
    );
    assert_eq!(m.add_rule_str("0;*,*,*,* -> Q", false).unwrap_err(), "Unknown character 'Q' (values='BW')");
    assert_eq!(m.add_rule_str("0;*,*,*,* -> 300", false).unwrap_err(), "Cannot parse value '300'");
    assert_eq!(m.rules.len(), 3);
}

#[test]
fn polar_colors_follow_the_values() {
    let m = PolarModel::new("c", "BWRZ", 16, 1, 6);
    let c = m.colors();
    assert_eq!(c, vec![[0, 0, 0, 0], [255, 241, 232, 255], [255, 0, 77, 255], [41, 173, 255, 255]]);
}

#[test]
fn polar_cells_are_listed_ring_by_ring() {
    let mut grid = PolarMjGrid::with_theta_divisions(16, 2, 3);
    grid.set(0, 1, 5);
    grid.set(1, 2, 7);
    let all = grid.iter();
    assert_eq!(all, vec![(0, 0, 0), (0, 1, 5), (0, 2, 0), (1, 0, 0), (1, 1, 0), (1, 2, 7)]);
    assert_eq!(grid.iter_nonzero(), vec![(0, 1, 5), (1, 2, 7)]);
}
