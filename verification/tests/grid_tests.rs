use markov_junior::grid::{GridError, MjGrid};
use markov_junior::rule::MjRule;

#[test]
fn test_grid_with_values() {
    let grid = MjGrid::with_values(5, 5, 1, "BW");
    assert_eq!(grid.c, 2);
    assert_eq!(grid.value_for_char('B'), Some(0));
    assert_eq!(grid.value_for_char('W'), Some(1));
    assert_eq!(grid.wave_for_char('B'), Some(1));
    assert_eq!(grid.wave_for_char('W'), Some(2));
    assert_eq!(grid.wave_for_char('*'), Some(3));
}

#[test]
fn test_grid_duplicate_character_error() {
    let result = MjGrid::try_with_values(5, 5, 1, "BWB");
    assert!(matches!(result, Err(GridError::DuplicateCharacter('B'))));
}

#[test]
fn test_grid_wave_bw() {
    let grid = MjGrid::with_values(5, 5, 1, "BW");
    assert_eq!(grid.wave("B"), 1);
    assert_eq!(grid.wave("W"), 2);
    assert_eq!(grid.wave("BW"), 3);
    assert_eq!(grid.wave("WB"), 3);
}

#[test]
fn test_grid_wave_multiple() {
    let grid = MjGrid::with_values(5, 5, 1, "BRGW");
    assert_eq!(grid.wave("B"), 0b0001);
    assert_eq!(grid.wave("R"), 0b0010);
    assert_eq!(grid.wave("G"), 0b0100);
    assert_eq!(grid.wave("W"), 0b1000);
    assert_eq!(grid.wave("BR"), 0b0011);
    assert_eq!(grid.wave("BRGW"), 0b1111);
}

#[test]
fn test_grid_set_get() {
    let mut grid = MjGrid::new(5, 5, 1);
    assert!(grid.set(2, 2, 0, 1));
    assert_eq!(grid.get(2, 2, 0), Some(1));
    assert_eq!(grid.get(0, 0, 0), Some(0));
    assert_eq!(grid.get(10, 0, 0), None);
}

#[test]
fn test_grid_index() {
    let grid = MjGrid::new(3, 3, 2);
    assert_eq!(grid.index(0, 0, 0), Some(0));
    assert_eq!(grid.index(1, 0, 0), Some(1));
    assert_eq!(grid.index(0, 1, 0), Some(3));
    assert_eq!(grid.index(0, 0, 1), Some(9));
    assert_eq!(grid.index(3, 0, 0), None);
}

#[test]
fn test_grid_coord_conversion() {
    let grid = MjGrid::new(3, 4, 2);
    assert_eq!(grid.coord_to_index(0, 0, 0), Some(0));
    assert_eq!(grid.coord_to_index(2, 0, 0), Some(2));
    assert_eq!(grid.coord_to_index(0, 1, 0), Some(3));
    assert_eq!(grid.coord_to_index(0, 0, 1), Some(12));
    assert_eq!(grid.coord_to_index(2, 3, 1), Some(2 + 3 * 3 + 1 * 12));
    assert_eq!(grid.coord_to_index(-1, 0, 0), None);
    assert_eq!(grid.coord_to_index(0, -1, 0), None);
    assert_eq!(grid.coord_to_index(3, 0, 0), None);
    assert_eq!(grid.coord_to_index(0, 4, 0), None);
    assert_eq!(grid.coord_to_index(0, 0, 2), None);
    assert_eq!(grid.index_to_coord(0), (0, 0, 0));
    assert_eq!(grid.index_to_coord(2), (2, 0, 0));
    assert_eq!(grid.index_to_coord(3), (0, 1, 0));
    assert_eq!(grid.index_to_coord(12), (0, 0, 1));
    assert_eq!(grid.index_to_coord(23), (2, 3, 1));
    for idx in 0..24 {
        let (x, y, z) = grid.index_to_coord(idx);
        assert_eq!(grid.coord_to_index(x, y, z), Some(idx));
    }
}

#[test]
fn test_grid_count_nonzero() {
    let mut grid = MjGrid::new(5, 5, 1);
    assert_eq!(grid.count_nonzero(), 0);
    grid.set(2, 2, 0, 1);
    grid.set(1, 2, 0, 1);
    grid.set(3, 2, 0, 1);
    assert_eq!(grid.count_nonzero(), 3);
}

#[test]
fn test_grid_iter_nonzero() {
    let mut grid = MjGrid::new(3, 3, 1);
    grid.set(1, 1, 0, 5);
    grid.set(2, 0, 0, 3);
    let nonzero: Vec<(usize, usize, usize, u8)> = grid.iter_nonzero();
    assert_eq!(nonzero.len(), 2);
    assert!(nonzero.contains(&(1, 1, 0, 5)));
    assert!(nonzero.contains(&(2, 0, 0, 3)));
}

#[test]
fn test_grid_matches_rule() {
    let grid = MjGrid::with_values(5, 5, 1, "BW");
    let rule = MjRule::parse("B", "W", &grid).unwrap();
    assert!(grid.matches(&rule, 0, 0, 0));
    assert!(grid.matches(&rule, 4, 4, 0));
    assert!(!grid.matches(&rule, 5, 0, 0));
    assert!(!grid.matches(&rule, -1, 0, 0));
}

#[test]
fn test_grid_matches_rule_pattern() {
    let mut grid = MjGrid::with_values(5, 5, 1, "BW");
    grid.set(0, 0, 0, 0);
    grid.set(1, 0, 0, 1);
    grid.set(2, 0, 0, 0);
    let rule = MjRule::parse("BW", "WW", &grid).unwrap();
    assert!(grid.matches(&rule, 0, 0, 0));
    assert!(!grid.matches(&rule, 1, 0, 0));
    let rule_wild = MjRule::parse("*W", "WW", &grid).unwrap();
    assert!(grid.matches(&rule_wild, 0, 0, 0));
}

#[test]
fn test_grid_apply_rule() {
    let mut grid = MjGrid::with_values(5, 5, 1, "BW");
    let rule = MjRule::parse("B", "W", &grid).unwrap();
    assert_eq!(grid.get(0, 0, 0), Some(0));
    grid.apply(&rule, 0, 0, 0);
    assert_eq!(grid.get(0, 0, 0), Some(1));
}

#[test]
fn test_grid_clear() {
    let mut grid = MjGrid::with_values(3, 3, 1, "BW");
    grid.set(1, 1, 0, 1);
    grid.set(2, 2, 0, 1);
    assert_eq!(grid.count_nonzero(), 2);
    grid.clear();
    assert_eq!(grid.count_nonzero(), 0);
}

#[test]
fn grid_error_message_names_the_character() {
    let e = GridError::DuplicateCharacter('Q');
    assert_eq!(e.message(), "duplicate character 'Q' in values string");
}
