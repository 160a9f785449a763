use markov_junior::grid::MjGrid;
use markov_junior::grid_view::{MjGridView, VoxelGrid2D};

#[test]
fn test_mj_grid_view_basic() {
    let mut grid = MjGrid::with_values(4, 4, 1, "BW");
    grid.set(0, 0, 0, 0);
    grid.set(1, 0, 0, 1);
    grid.set(2, 0, 0, 0);
    grid.set(3, 0, 0, 1);
    let mapping = vec![('B', 10u32), ('W', 20u32)];
    let view = MjGridView::new(&grid, &mapping);
    assert_eq!(view.width(), 4);
    assert_eq!(view.height(), 4);
    assert_eq!(view.get(0, 0), 10);
    assert_eq!(view.get(1, 0), 20);
    assert_eq!(view.get(2, 0), 10);
    assert_eq!(view.get(3, 0), 20);
}

#[test]
fn test_mj_grid_view_default_mapping() {
    let grid = MjGrid::with_values(2, 2, 1, "BW");
    let view = MjGridView::with_default_mapping(&grid);
    assert_eq!(view.get(0, 0), 1);
}

#[test]
fn test_mj_grid_view_out_of_bounds() {
    let grid = MjGrid::with_values(4, 4, 1, "BW");
    let view = MjGridView::with_default_mapping(&grid);
    assert_eq!(view.get(10, 10), 0);
    assert_eq!(view.get(4, 0), 0);
    assert_eq!(view.get(0, 4), 0);
}

#[test]
fn test_mj_grid_view_partial_mapping() {
    let mut grid = MjGrid::with_values(2, 2, 1, "BWR");
    grid.set(0, 0, 0, 0);
    grid.set(1, 0, 0, 1);
    grid.set(0, 1, 0, 2);
    let mapping = vec![('B', 100u32), ('W', 200u32)];
    let view = MjGridView::new(&grid, &mapping);
    assert_eq!(view.get(0, 0), 100);
    assert_eq!(view.get(1, 0), 200);
    assert_eq!(view.get(0, 1), 3);
}

#[test]
fn test_mj_grid_view_trait_object() {
    let grid = MjGrid::with_values(4, 4, 1, "BW");
    let view = MjGridView::with_default_mapping(&grid);
    let grid_trait: &dyn VoxelGrid2D = &view;
    assert_eq!(grid_trait.width(), 4);
    assert_eq!(grid_trait.height(), 4);
}

#[test]
fn grid_view_last_mapping_wins() {
    let grid = MjGrid::with_values(1, 1, 1, "BW");
    let mapping = vec![('B', 5u32), ('B', 6u32)];
    let view = MjGridView::new(&grid, &mapping);
    assert_eq!(view.get(0, 0), 6);
    assert_eq!(view.grid().mx, 1);
}
