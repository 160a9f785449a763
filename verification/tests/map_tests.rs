use markov_junior::context::ExecutionContext;
use markov_junior::grid::MjGrid;
use markov_junior::map_node::{torus_match, MapNode, ScaleFactor};
use markov_junior::node::NodeBox;
use markov_junior::one_node::OneNode;
use markov_junior::rng::DotNetRandom;
use markov_junior::rule::MjRule;

#[test]
fn test_scale_factor_parse_integer() {
    let sf = ScaleFactor::parse("2").unwrap();
    assert_eq!(sf.numerator, 2);
    assert_eq!(sf.denominator, 1);
    assert_eq!(sf.apply(10), 20);
}

#[test]
fn test_scale_factor_parse_fraction() {
    let sf = ScaleFactor::parse("1/2").unwrap();
    assert_eq!(sf.numerator, 1);
    assert_eq!(sf.denominator, 2);
    assert_eq!(sf.apply(10), 5);
}

#[test]
fn test_scale_factor_apply() {
    let sf = ScaleFactor::new(3, 2);
    assert_eq!(sf.apply(10), 15);
}

#[test]
fn scale_factor_rejects_malformed_text() {
    assert!(ScaleFactor::parse("").is_none());
    assert!(ScaleFactor::parse("1/2/3").is_none());
    assert!(ScaleFactor::parse("x").is_none());
    let sf = ScaleFactor::parse("-3").unwrap();
    assert_eq!(sf.numerator, -3);
}

#[test]
fn test_map_node_simple_2x_scale() {
    let src_grid = MjGrid::with_values(2, 2, 1, "BW");
    let newgrid = MjGrid::with_values(4, 4, 1, "BW");
    let rule = MjRule::parse("B", "B", &src_grid).unwrap();
    let scale = ScaleFactor::from_int(2);
    let mut node = MapNode::new(newgrid, vec![rule], scale, scale, ScaleFactor::from_int(1));
    let mut grid = src_grid.clone();
    grid.set(0, 0, 0, 0);
    let mut ctx = ExecutionContext::new(grid, DotNetRandom::from_seed(12345));
    let result = node.go(&mut ctx);
    assert!(result, "MapNode should return true on first go");
    assert_eq!(ctx.grid.mx, 4);
    assert_eq!(ctx.grid.my, 4);
}

#[test]
fn test_map_node_matches() {
    let grid = MjGrid::with_values(4, 4, 1, "BW");
    let rule = MjRule::parse("BW", "WB", &grid).unwrap();
    let mut state = vec![0u8; 16];
    state[0] = 0;
    state[1] = 1;
    assert!(torus_match(&rule, 0, 0, 0, &state, 4, 4, 1));
    state[2] = 0;
    assert!(!torus_match(&rule, 1, 0, 0, &state, 4, 4, 1));
}

#[test]
fn map_node_writes_scaled_outputs_then_runs_children() {
    let mut src = MjGrid::with_values(2, 1, 1, "BWR");
    src.set(1, 0, 0, 1);
    let target = MjGrid::with_values(4, 1, 1, "BWR");
    let rule = MjRule::parse("W", "R", &src).unwrap();
    let child_rule = MjRule::parse("B", "W", &target).unwrap();
    let child = OneNode::new(vec![child_rule], 4);
    let mut node = MapNode::new(target, vec![rule], ScaleFactor::from_int(2), ScaleFactor::from_int(1), ScaleFactor::from_int(1))
        .with_children(vec![NodeBox::One(child)]);
    let mut ctx = ExecutionContext::new(src, DotNetRandom::from_seed(7));
    assert!(node.go(&mut ctx));
    assert_eq!(ctx.grid.state, vec![0, 0, 2, 0]);
    assert_eq!(node.n, 0);
    assert!(node.go(&mut ctx));
    assert_eq!(ctx.grid.state.iter().filter(|&&v| v == 1).count(), 1);
}

#[test]
fn scale_factor_takes_the_dimension_as_a_32_bit_integer() {
    let sf = ScaleFactor::new(2, 1);
    let dim: u64 = (1u64 << 32) + 3;
    assert_eq!(sf.apply(dim as usize), 6);
}
