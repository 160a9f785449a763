use markov_junior::all_node::AllNode;
use markov_junior::context::ExecutionContext;
use markov_junior::grid::MjGrid;
use markov_junior::interpreter::Interpreter;
use markov_junior::node::{MarkovNode, Node, NodeBox, SequenceNode};
use markov_junior::one_node::OneNode;
use markov_junior::parallel_node::ParallelNode;
use markov_junior::path_node::{directions, PathNode};
use markov_junior::rng::DotNetRandom;
use markov_junior::rule::MjRule;

/// A node that succeeds once per cell holding `from` and then stops: a one-node
/// rewriting `from` to `W`, one cell per step.
fn countdown(grid: &MjGrid, from: &str) -> NodeBox {
    let rule = MjRule::parse(from, "W", grid).unwrap();
    NodeBox::One(OneNode::new(vec![rule], grid.state.len()))
}

#[test]
fn node_test_sequence_node_runs_in_order() {
    let mut grid = MjGrid::with_values(5, 1, 1, "BWR");
    grid.state = vec![0, 0, 2, 2, 2];
    let mut seq = SequenceNode::new(vec![countdown(&grid, "B"), countdown(&grid, "R")]);
    let mut ctx = ExecutionContext::new(grid, DotNetRandom::from_seed(42));
    assert!(seq.go(&mut ctx));
    assert!(seq.go(&mut ctx));
    assert!(seq.go(&mut ctx));
    assert!(seq.go(&mut ctx));
    assert!(seq.go(&mut ctx));
    assert!(!seq.go(&mut ctx));
}

#[test]
fn test_markov_node_restarts_from_zero() {
    let grid = MjGrid::with_values(3, 1, 1, "BW");
    let mut markov = MarkovNode::new(vec![countdown(&grid, "B")]);
    let mut ctx = ExecutionContext::new(grid, DotNetRandom::from_seed(42));
    assert!(markov.go(&mut ctx));
    assert!(markov.go(&mut ctx));
    assert!(markov.go(&mut ctx));
    assert!(!markov.go(&mut ctx));
}

#[test]
fn test_execution_context_change_tracking() {
    let grid = MjGrid::with_values(5, 5, 1, "BW");
    let mut ctx = ExecutionContext::new(grid, DotNetRandom::from_seed(42));
    ctx.record_change(0);
    ctx.record_change(1);
    ctx.next_turn();
    ctx.record_change(2);
    ctx.next_turn();
    assert_eq!(ctx.changes_from_turn(0), vec![0, 1]);
    assert_eq!(ctx.changes_from_turn(1), vec![2]);
    assert_eq!(ctx.counter, 2);
}

#[test]
fn test_parallel_node_reads_original_state() {
    let mut grid = MjGrid::with_values(3, 1, 1, "BW");
    grid.state[0] = 0;
    grid.state[1] = 1;
    grid.state[2] = 0;
    let rule = MjRule::parse("BW", "WB", &grid).unwrap();
    let mut node = ParallelNode::new(vec![rule], grid.state.len());
    let mut ctx = ExecutionContext::new(grid, DotNetRandom::from_seed(42));
    assert!(node.go(&mut ctx));
    assert_eq!(ctx.grid.state[0], 1, "Position 0 should be W");
    assert_eq!(ctx.grid.state[1], 0, "Position 1 should be B");
    assert_eq!(ctx.grid.state[2], 0, "Position 2 should be B (unchanged)");
}

#[test]
fn test_parallel_node_returns_false_when_no_matches() {
    let mut grid = MjGrid::with_values(5, 1, 1, "BW");
    grid.state.fill(1);
    let rule = MjRule::parse("B", "W", &grid).unwrap();
    let mut node = ParallelNode::new(vec![rule], grid.state.len());
    let mut ctx = ExecutionContext::new(grid, DotNetRandom::from_seed(42));
    assert!(!node.go(&mut ctx));
}

#[test]
fn test_all_node_returns_false_when_no_matches() {
    let mut grid = MjGrid::with_values(5, 1, 1, "BW");
    grid.state.fill(1);
    let rule = MjRule::parse("B", "W", &grid).unwrap();
    let mut node = AllNode::new(vec![rule], grid.state.len());
    let mut ctx = ExecutionContext::new(grid, DotNetRandom::from_seed(42));
    assert!(!node.go(&mut ctx));
}

#[test]
fn all_node_fills_every_free_cell_in_one_step() {
    let grid = MjGrid::with_values(5, 1, 1, "BW");
    let rule = MjRule::parse("B", "W", &grid).unwrap();
    let mut node = AllNode::new(vec![rule], grid.state.len());
    let mut ctx = ExecutionContext::new(grid, DotNetRandom::from_seed(42));
    assert!(node.go(&mut ctx));
    assert!(ctx.grid.state.iter().all(|&v| v == 1));
    assert_eq!(ctx.changes.len(), 5);
}

#[test]
fn test_path_node_no_path() {
    let mut grid = MjGrid::with_values(5, 5, 1, "BSFW");
    grid.state[0] = 1;
    grid.state[4 + 4 * 5] = 2;
    for y in 0..5 {
        grid.state[2 + y * 5] = 3;
    }
    let mut node = PathNode::new(0b0010, 0b0100, 0b0001, 0);
    let mut ctx = ExecutionContext::new(grid, DotNetRandom::from_seed(42));
    assert!(!node.go(&mut ctx), "Should fail when path is blocked");
}

#[test]
fn path_node_draws_between_start_and_finish() {
    let mut grid = MjGrid::with_values(5, 1, 1, "BSFP");
    grid.state[0] = 1;
    grid.state[4] = 2;
    let mut node = PathNode::new(0b0010, 0b0100, 0b0001, 3);
    let mut ctx = ExecutionContext::new(grid, DotNetRandom::from_seed(42));
    assert!(node.go(&mut ctx));
    assert_eq!(ctx.grid.state, vec![1, 3, 3, 3, 2]);
}

#[test]
fn test_directions_2d() {
    let dirs = directions(2, 2, 0, 5, 5, 1, false, false);
    assert_eq!(dirs.len(), 4, "Should have 4 cardinal directions");
    let dirs_edge = directions(2, 2, 0, 5, 5, 1, true, false);
    assert_eq!(dirs_edge.len(), 8, "Should have 8 directions with edges");
    let corner = directions(0, 0, 0, 5, 5, 1, false, false);
    assert_eq!(corner.len(), 2, "Corner should have 2 directions");
}

#[test]
fn test_directions_3d() {
    let dirs = directions(1, 1, 1, 3, 3, 3, false, false);
    assert_eq!(dirs.len(), 6, "3D center should have 6 cardinal directions");
    let dirs_edge = directions(1, 1, 1, 3, 3, 3, true, false);
    assert_eq!(dirs_edge.len(), 18, "3D with edges should have 18 directions");
    let dirs_vert = directions(1, 1, 1, 3, 3, 3, true, true);
    assert_eq!(dirs_vert.len(), 26, "3D with vertices should have 26 directions");
}

fn b_to_w_model(n: usize) -> (NodeBox, MjGrid) {
    let grid = MjGrid::with_values(n, 1, 1, "BW");
    let rule = MjRule::parse("B", "W", &grid).unwrap();
    let one = OneNode::new(vec![rule], grid.state.len());
    (NodeBox::Markov(MarkovNode::new(vec![NodeBox::One(one)])), grid)
}

#[test]
fn test_interpreter_step_returns_false_when_done() {
    let (root, grid) = b_to_w_model(3);
    let mut interp = Interpreter::new(root, grid);
    interp.reset(42);
    assert!(interp.step());
    assert!(interp.step());
    assert!(interp.step());
    assert!(!interp.step());
    assert!(!interp.step());
    assert!(interp.grid().state.iter().all(|&v| v == 1));
}

#[test]
fn test_interpreter_run_with_max_steps() {
    let (root, grid) = b_to_w_model(10);
    let mut interp = Interpreter::new(root, grid);
    let steps = interp.run(42, 5);
    assert_eq!(steps, 5);
    let w_count = interp.grid().state.iter().filter(|&&v| v == 1).count();
    assert_eq!(w_count, 5);
    assert_eq!(interp.last_step_change_count(), 1);
    assert_eq!(interp.last_step_changes().len(), 1);
}

#[test]
fn test_interpreter_origin_sets_center() {
    let grid = MjGrid::with_values(5, 5, 1, "BW");
    // A branch without children never makes progress.
    let idle = NodeBox::Markov(MarkovNode::new(vec![]));
    let mut interp = Interpreter::with_origin(idle, grid);
    interp.reset(42);
    let center_idx = 5 / 2 + (5 / 2) * 5;
    assert_eq!(interp.grid().state[center_idx], 1);
    assert_eq!(interp.grid().state.iter().filter(|&&v| v == 1).count(), 1);
}

#[test]
fn test_interpreter_reset_clears_state() {
    let (root, grid) = b_to_w_model(5);
    let mut interp = Interpreter::new(root, grid);
    interp.run(42, 3);
    assert_eq!(interp.counter(), 3);
    assert!(interp.grid().state.iter().any(|&v| v == 1));
    interp.reset(999);
    assert_eq!(interp.counter(), 0);
    assert!(interp.grid().state.iter().all(|&v| v == 0));
    assert!(interp.is_running());
}

#[test]
fn test_basic_model_matches_reference() {
    let grid = MjGrid::with_values(5, 5, 1, "BW");
    let rule = MjRule::parse("B", "W", &grid).unwrap();
    let one = OneNode::new(vec![rule], grid.state.len());
    let root = NodeBox::Markov(MarkovNode::new(vec![NodeBox::One(one)]));
    let mut interp = Interpreter::new(root, grid);
    let steps = interp.run(12345, 0);
    assert_eq!(steps, 25);
    assert!(interp.grid().state.iter().all(|&v| v == 1));
}

#[test]
fn node_trait_is_usable_on_the_tree() {
    let (mut root, grid) = b_to_w_model(2);
    let mut ctx = ExecutionContext::new(grid, DotNetRandom::from_seed(1));
    assert!(Node::is_branch(&root));
    assert!(Node::go(&mut root, &mut ctx));
    Node::reset(&mut root);
}

#[test]
fn path_node_paints_only_between_start_and_finish() {
    let mut grid = MjGrid::with_values(4, 1, 1, "BSFP");
    grid.state = vec![1, 0, 0, 2];
    let mut node = PathNode::new(0b0010, 0b0100, 0b0001, 3);
    let mut ctx = ExecutionContext::new(grid, DotNetRandom::from_seed(42));
    assert!(node.go(&mut ctx));
    assert_eq!(ctx.grid.state, vec![1, 3, 3, 2]);
    let mut logged = ctx.changes.clone();
    logged.sort();
    assert_eq!(logged, vec![1, 2]);
}

#[test]
fn path_node_reaches_a_start_next_to_a_finish() {
    let mut grid = MjGrid::with_values(3, 1, 1, "BSF");
    grid.state = vec![0, 1, 2];
    let mut node = PathNode::new(0b010, 0b100, 0b001, 0);
    let mut ctx = ExecutionContext::new(grid, DotNetRandom::from_seed(7));
    assert!(node.go(&mut ctx));
    assert_eq!(ctx.grid.state, vec![0, 1, 2]);
}

#[test]
fn path_node_fails_without_a_finish() {
    let mut grid = MjGrid::with_values(3, 1, 1, "BSF");
    grid.state = vec![1, 0, 0];
    let mut node = PathNode::new(0b010, 0b100, 0b001, 0);
    let mut ctx = ExecutionContext::new(grid, DotNetRandom::from_seed(7));
    assert!(!node.go(&mut ctx));
    assert_eq!(ctx.grid.state, vec![1, 0, 0]);
    assert!(ctx.changes.is_empty());
}
