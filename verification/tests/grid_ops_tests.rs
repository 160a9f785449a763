use markov_junior::grid::MjGrid;
use markov_junior::grid_ops::MjGridOps;

#[test]
fn test_trait_is_object_safe() {
    fn _takes_dyn_grid(_grid: &dyn MjGridOps) {}
    fn _takes_dyn_grid_mut(_grid: &mut dyn MjGridOps) {}
}

#[test]
fn test_mjgrid_len_and_is_empty() {
    let grid = MjGrid::with_values(4, 4, 1, "BW");
    assert_eq!(grid.len(), 16);
    assert!(!grid.is_empty());
    let grid_3d = MjGrid::with_values(2, 3, 4, "BW");
    assert_eq!(grid_3d.len(), 24);
}

#[test]
fn test_mjgrid_is_2d() {
    let grid_2d = MjGrid::with_values(4, 4, 1, "BW");
    assert!(grid_2d.is_2d());
    let grid_3d = MjGrid::with_values(4, 4, 2, "BW");
    assert!(!grid_3d.is_2d());
}

#[test]
fn test_mjgrid_state_access() {
    let mut grid = MjGrid::with_values(3, 3, 1, "BW");
    assert_eq!(grid.get_state(0), 0);
    assert_eq!(grid.get_state(4), 0);
    grid.set_state(4, 1);
    assert_eq!(grid.get_state(4), 1);
    assert_eq!(MjGridOps::state(&grid).len(), 9);
    assert_eq!(MjGridOps::state(&grid)[4], 1);
}

#[test]
fn test_mjgrid_state_mut() {
    let mut grid = MjGrid::with_values(2, 2, 1, "BW");
    grid.state_mut()[0] = 1;
    grid.state_mut()[3] = 1;
    assert_eq!(grid.get_state(0), 1);
    assert_eq!(grid.get_state(1), 0);
    assert_eq!(grid.get_state(2), 0);
    assert_eq!(grid.get_state(3), 1);
}

#[test]
fn test_mjgrid_value_system() {
    let grid = MjGrid::with_values(3, 3, 1, "BRGW");
    assert_eq!(grid.num_values(), 4);
    assert_eq!(grid.value_for_char('B'), Some(0));
    assert_eq!(grid.value_for_char('R'), Some(1));
    assert_eq!(grid.value_for_char('G'), Some(2));
    assert_eq!(grid.value_for_char('W'), Some(3));
    assert_eq!(grid.value_for_char('X'), None);
    assert_eq!(grid.char_for_value(0), Some('B'));
    assert_eq!(grid.char_for_value(1), Some('R'));
    assert_eq!(grid.char_for_value(2), Some('G'));
    assert_eq!(grid.char_for_value(3), Some('W'));
    assert_eq!(grid.char_for_value(4), None);
}

#[test]
fn test_mjgrid_wave_system() {
    let grid = MjGrid::with_values(3, 3, 1, "BW");
    assert_eq!(grid.wave_for_char('B'), Some(0b01));
    assert_eq!(grid.wave_for_char('W'), Some(0b10));
    assert_eq!(grid.wave_for_char('*'), Some(0b11));
    assert_eq!(grid.wave("B"), 0b01);
    assert_eq!(grid.wave("W"), 0b10);
    assert_eq!(grid.wave("BW"), 0b11);
    assert_eq!(grid.wave("WB"), 0b11);
}

#[test]
fn test_mjgrid_mask_operations() {
    let mut grid = MjGrid::with_values(3, 3, 1, "BW");
    assert!(!grid.get_mask(0));
    assert!(!grid.get_mask(4));
    grid.set_mask(0, true);
    grid.set_mask(4, true);
    assert!(grid.get_mask(0));
    assert!(grid.get_mask(4));
    assert!(!grid.get_mask(1));
    grid.clear_mask();
    assert!(!grid.get_mask(0));
    assert!(!grid.get_mask(4));
}

#[test]
fn test_mjgrid_dimensions() {
    let grid_2d = MjGrid::with_values(5, 7, 1, "BW");
    assert_eq!(grid_2d.dimensions(), (5, 7, 1));
    let grid_3d = MjGrid::with_values(3, 4, 5, "BW");
    assert_eq!(grid_3d.dimensions(), (3, 4, 5));
}

#[test]
fn test_mjgrid_via_trait_object() {
    let mut grid = MjGrid::with_values(3, 3, 1, "BW");
    fn check_grid(grid: &dyn MjGridOps) {
        assert_eq!(grid.len(), 9);
        assert!(grid.is_2d());
        assert_eq!(grid.dimensions(), (3, 3, 1));
        assert_eq!(grid.num_values(), 2);
    }
    fn mutate_grid(grid: &mut dyn MjGridOps) {
        grid.set_state(4, 1);
        grid.set_mask(4, true);
    }
    check_grid(&grid);
    mutate_grid(&mut grid);
    assert_eq!(grid.get_state(4), 1);
    assert!(grid.get_mask(4));
}

#[test]
fn test_mjgrid_trait_consistency_with_direct_access() {
    let mut grid = MjGrid::with_values(4, 4, 1, "BRGW");
    grid.set(1, 1, 0, 2);
    grid.set(2, 2, 0, 3);
    let idx_11 = 1 + 1 * 4;
    let idx_22 = 2 + 2 * 4;
    assert_eq!(grid.get_state(idx_11), 2);
    assert_eq!(grid.get_state(idx_22), 3);
    assert_eq!(grid.dimensions(), (grid.mx, grid.my, grid.mz));
    assert_eq!(grid.len(), grid.state.len());
}
