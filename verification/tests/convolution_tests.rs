use markov_junior::context::ExecutionContext;
use markov_junior::convolution_node::{ConvolutionNode, ConvolutionRule};
use markov_junior::grid::MjGrid;
use markov_junior::loader::{load_model_str, LoadError};
use markov_junior::node::NodeBox;
use markov_junior::rng::DotNetRandom;
use markov_junior::rule::Probability;

fn ctx_for(grid: MjGrid, seed: i32) -> ExecutionContext {
    ExecutionContext::new(grid, DotNetRandom::from_seed(seed))
}

#[test]
fn test_convolution_rule_parse_sum_intervals() {
    let sums = ConvolutionRule::parse_sum_intervals("3");
    assert!(sums[3]);
    assert!(!sums[2]);
    assert!(!sums[4]);

    let sums = ConvolutionRule::parse_sum_intervals("5..8");
    assert!(!sums[4]);
    assert!(sums[5]);
    assert!(sums[6]);
    assert!(sums[7]);
    assert!(sums[8]);
    assert!(!sums[9]);

    let sums = ConvolutionRule::parse_sum_intervals("2,5..7");
    assert!(sums[2]);
    assert!(!sums[3]);
    assert!(!sums[4]);
    assert!(sums[5]);
    assert!(sums[6]);
    assert!(sums[7]);
    assert!(!sums[8]);
}

#[test]
fn sum_intervals_ignore_malformed_parts_and_trim() {
    let sums = ConvolutionRule::parse_sum_intervals(" 1 , x, 3..,  20..40, 9..8, +4");
    let set: Vec<usize> = (0..28).filter(|&i| sums[i]).collect();
    assert_eq!(set, vec![1, 4, 20, 21, 22, 23, 24, 25, 26, 27]);
    assert_eq!(sums.len(), 28);
}

#[test]
fn test_convolution_simple_rule() {
    let mut grid = MjGrid::with_values(3, 3, 1, "DA");
    grid.state[4] = 1;
    let rule = ConvolutionRule::new(1, 0);
    let mut node = ConvolutionNode::with_2d_kernel(vec![rule], "Moore", false, grid.state.len(), grid.c as usize).unwrap();
    let mut ctx = ctx_for(grid, 12345);
    let changed = node.go(&mut ctx);
    assert!(changed);
    assert_eq!(ctx.grid.state[4], 0);
}

#[test]
fn test_convolution_sum_constraint() {
    let mut grid = MjGrid::with_values(3, 3, 1, "DA");
    grid.state[4] = 1;
    let sums = ConvolutionRule::parse_sum_intervals("0");
    let rule = ConvolutionRule::with_sums(1, 0, vec![1], sums);
    let mut node = ConvolutionNode::with_2d_kernel(vec![rule], "Moore", false, grid.state.len(), grid.c as usize).unwrap();
    let mut ctx = ctx_for(grid, 12345);
    let changed = node.go(&mut ctx);
    assert!(changed);
    assert_eq!(ctx.grid.state[4], 0);
}

#[test]
fn test_convolution_sum_constraint_not_met() {
    let mut grid = MjGrid::with_values(3, 3, 1, "DA");
    grid.state[4] = 1;
    grid.state[1] = 1;
    let sums = ConvolutionRule::parse_sum_intervals("0");
    let rule = ConvolutionRule::with_sums(1, 0, vec![1], sums);
    let mut node = ConvolutionNode::with_2d_kernel(vec![rule], "Moore", false, grid.state.len(), grid.c as usize).unwrap();
    let mut ctx = ctx_for(grid, 12345);
    let _changed = node.go(&mut ctx);
    assert_eq!(ctx.grid.state[4], 1);
}

#[test]
fn test_convolution_moore_neighbor_count() {
    let mut grid = MjGrid::with_values(3, 3, 1, "DA");
    for i in 0..9 {
        grid.state[i] = 1;
    }
    let sums = ConvolutionRule::parse_sum_intervals("8");
    let rule = ConvolutionRule::with_sums(1, 0, vec![1], sums);
    let mut node = ConvolutionNode::with_2d_kernel(vec![rule], "Moore", false, grid.state.len(), grid.c as usize).unwrap();
    let mut ctx = ctx_for(grid, 12345);
    let changed = node.go(&mut ctx);
    assert!(changed);
    assert_eq!(ctx.grid.state[4], 0);
    assert_eq!(ctx.grid.state[0], 1);
    assert_eq!(ctx.grid.state[1], 1);
}

#[test]
fn test_convolution_von_neumann_kernel() {
    let mut grid = MjGrid::with_values(3, 3, 1, "DA");
    for i in 0..9 {
        grid.state[i] = 1;
    }
    let sums = ConvolutionRule::parse_sum_intervals("4");
    let rule = ConvolutionRule::with_sums(1, 0, vec![1], sums);
    let mut node =
        ConvolutionNode::with_2d_kernel(vec![rule], "VonNeumann", false, grid.state.len(), grid.c as usize).unwrap();
    let mut ctx = ctx_for(grid, 12345);
    let changed = node.go(&mut ctx);
    assert!(changed);
    assert_eq!(ctx.grid.state[4], 0);
    assert_eq!(ctx.grid.state[0], 1);
    assert_eq!(ctx.grid.state[1], 1);
}

#[test]
fn test_convolution_periodic() {
    let mut grid = MjGrid::with_values(3, 3, 1, "DA");
    grid.state[0] = 1;
    let sums = ConvolutionRule::parse_sum_intervals("0");
    let rule = ConvolutionRule::with_sums(1, 0, vec![1], sums);
    let mut node = ConvolutionNode::with_2d_kernel(vec![rule], "Moore", true, grid.state.len(), grid.c as usize).unwrap();
    let mut ctx = ctx_for(grid, 12345);
    let changed = node.go(&mut ctx);
    assert!(changed);
    assert_eq!(ctx.grid.state[0], 0);
}

#[test]
fn test_convolution_step_limit() {
    let mut grid = MjGrid::with_values(3, 3, 1, "DA");
    grid.state[4] = 1;
    let rule = ConvolutionRule::new(1, 0);
    let mut node = ConvolutionNode::with_2d_kernel(vec![rule], "Moore", false, grid.state.len(), grid.c as usize)
        .unwrap()
        .with_steps(1);
    let mut ctx = ctx_for(grid, 12345);
    assert!(node.go(&mut ctx));
    ctx.grid.state[4] = 1;
    assert!(!node.go(&mut ctx));
}

#[test]
fn test_convolution_game_of_life_rules() {
    let grid = MjGrid::with_values(5, 5, 1, "DA");
    let death_sums = {
        let mut s = vec![true; 28];
        s[2] = false;
        s[3] = false;
        s
    };
    let death_rule = ConvolutionRule::with_sums(1, 0, vec![1], death_sums);
    let birth_sums = ConvolutionRule::parse_sum_intervals("3");
    let birth_rule = ConvolutionRule::with_sums(0, 1, vec![1], birth_sums);
    let _node = ConvolutionNode::with_2d_kernel(
        vec![death_rule, birth_rule],
        "Moore",
        false,
        grid.state.len(),
        grid.c as usize,
    )
    .unwrap();
}

#[test]
fn test_convolution_reset() {
    let grid = MjGrid::with_values(3, 3, 1, "DA");
    let rule = ConvolutionRule::new(1, 0);
    let mut node = ConvolutionNode::with_2d_kernel(vec![rule], "Moore", false, grid.state.len(), grid.c as usize)
        .unwrap()
        .with_steps(2);
    let mut ctx = ctx_for(grid, 12345);
    ctx.grid.state[4] = 1;
    node.go(&mut ctx);
    ctx.grid.state[4] = 1;
    node.go(&mut ctx);
    assert_eq!(node.counter, 2);
    node.reset();
    assert_eq!(node.counter, 0);
    ctx.grid.state[4] = 1;
    assert!(node.go(&mut ctx));
}

#[test]
fn test_convolution_3d_von_neumann() {
    let mut grid = MjGrid::with_values(3, 3, 3, "DA");
    for i in 0..27 {
        grid.state[i] = 1;
    }
    let sums = ConvolutionRule::parse_sum_intervals("6");
    let rule = ConvolutionRule::with_sums(1, 0, vec![1], sums);
    let mut node =
        ConvolutionNode::with_3d_kernel(vec![rule], "VonNeumann", false, grid.state.len(), grid.c as usize).unwrap();
    let mut ctx = ctx_for(grid, 12345);
    let changed = node.go(&mut ctx);
    assert!(changed);
    assert_eq!(ctx.grid.state[13], 0);
}

#[test]
fn test_convolution_neighbor_count_verification() {
    let mut grid = MjGrid::with_values(3, 3, 1, "DA");
    grid.state[1] = 1;
    grid.state[3] = 1;
    grid.state[5] = 1;
    grid.state[7] = 1;
    grid.state[4] = 0;
    let sums = ConvolutionRule::parse_sum_intervals("4");
    let rule = ConvolutionRule::with_sums(0, 1, vec![1], sums);
    let mut node = ConvolutionNode::with_2d_kernel(vec![rule], "Moore", false, grid.state.len(), grid.c as usize).unwrap();
    let mut ctx = ctx_for(grid, 12345);
    let changed = node.go(&mut ctx);
    assert!(changed, "Rule should fire for cell with exactly 4 A neighbors");
    assert_eq!(ctx.grid.state[4], 1, "Center should change from D to A");
    assert_eq!(ctx.grid.state[0], 0, "Corner should remain D (2 neighbors)");
    assert_eq!(ctx.grid.state[2], 0, "Corner should remain D (2 neighbors)");
    assert_eq!(ctx.grid.state[6], 0, "Corner should remain D (2 neighbors)");
    assert_eq!(ctx.grid.state[8], 0, "Corner should remain D (2 neighbors)");
}

#[test]
fn test_convolution_multiple_rules_order() {
    let mut grid = MjGrid::with_values(3, 3, 1, "DAX");
    grid.state[4] = 0;
    let rule1 = ConvolutionRule::new(0, 1);
    let rule2 = ConvolutionRule::new(0, 2);
    let mut node =
        ConvolutionNode::with_2d_kernel(vec![rule1, rule2], "Moore", false, grid.state.len(), grid.c as usize).unwrap();
    let mut ctx = ctx_for(grid, 12345);
    node.go(&mut ctx);
    assert_eq!(ctx.grid.state[4], 1, "First matching rule should win: expected A (1), got {}", ctx.grid.state[4]);
}

#[test]
fn test_convolution_cave_like_rules() {
    let mut grid = MjGrid::with_values(8, 8, 1, "DA");
    let mut rng = DotNetRandom::from_seed(42);
    for i in 0..grid.state.len() {
        grid.state[i] = if rng.next_int_max(2) == 0 { 0 } else { 1 };
    }
    let rule1 = ConvolutionRule::with_sums(1, 0, vec![0], ConvolutionRule::parse_sum_intervals("5..8"));
    let rule2 = ConvolutionRule::with_sums(0, 1, vec![1], ConvolutionRule::parse_sum_intervals("6..8"));
    let mut node =
        ConvolutionNode::with_2d_kernel(vec![rule1, rule2], "Moore", false, grid.state.len(), grid.c as usize)
            .unwrap()
            .with_steps(10);
    let mut ctx = ExecutionContext::new(grid, rng);
    let mut total_changes = 0;
    while node.go(&mut ctx) {
        total_changes += 1;
    }
    assert!(total_changes > 0, "Cave rules should cause changes over 10 steps");
    let d_count = ctx.grid.state.iter().filter(|&&v| v == 0).count();
    let a_count = ctx.grid.state.iter().filter(|&&v| v == 1).count();
    assert!(d_count > 0, "Should have some D cells remaining");
    assert!(a_count > 0, "Should have some A cells remaining");
}

#[test]
fn test_convolution_sumfield_correctness() {
    let mut grid = MjGrid::with_values(3, 3, 1, "DA");
    for i in 0..9 {
        grid.state[i] = 1;
    }
    grid.state[4] = 0;
    let rule = ConvolutionRule::new(0, 1);
    let mut node = ConvolutionNode::with_2d_kernel(vec![rule], "Moore", false, grid.state.len(), grid.c as usize).unwrap();
    let ctx = ctx_for(grid, 12345);
    node.compute_sumfield(&ctx);
    let center_sums = &node.sumfield[4];
    assert_eq!(center_sums[1], 8, "Center should have 8 A neighbors, got {}", center_sums[1]);
    assert_eq!(center_sums[0], 0, "Center should have 0 D neighbors, got {}", center_sums[0]);
    let corner_sums = &node.sumfield[0];
    assert_eq!(corner_sums[1], 2, "Top-left corner should have 2 A neighbors (excluding out-of-bounds), got {}", corner_sums[1]);
    let edge_sums = &node.sumfield[1];
    assert_eq!(edge_sums[1], 4, "Top edge should have 4 A neighbors, got {} (D neighbors: {})", edge_sums[1], edge_sums[0]);
}

#[test]
fn rules_with_zero_probability_never_fire_and_draw() {
    let mut grid = MjGrid::with_values(2, 1, 1, "DA");
    grid.state[0] = 1;
    let rule = ConvolutionRule::new(1, 0).with_probability(Probability { num: 0, den: 1 });
    let mut node = ConvolutionNode::with_2d_kernel(vec![rule], "Moore", false, 2, 2).unwrap();
    let mut ctx = ctx_for(grid, 5);
    assert!(!node.go(&mut ctx));
    assert_eq!(ctx.grid.state[0], 1);
    assert_eq!(node.counter, 1);
}

#[test]
fn unknown_kernel_names_give_no_node() {
    assert!(ConvolutionNode::with_2d_kernel(vec![], "NoCorners", false, 4, 2).is_none());
    assert!(ConvolutionNode::with_3d_kernel(vec![], "Moore", false, 4, 2).is_none());
    let n = ConvolutionNode::new(vec![], vec![0; 9], true, 3, 2, true);
    assert_eq!(n.sumfield, vec![vec![0, 0]; 3]);
}

#[test]
fn test_load_convolution_inline() {
    let xml = r#"
        <convolution values="DA" neighborhood="Moore">
            <rule in="A" out="D" sum="5..8" values="D"/>
            <rule in="D" out="A" sum="6..8" values="A"/>
        </convolution>
        "#;
    let result = load_model_str(xml, 10, 10, 1);
    assert!(result.is_ok(), "Failed to load inline convolution: {:?}", result.as_ref().err());
}

#[test]
fn test_load_convolution_von_neumann() {
    let xml = r#"
        <convolution values="DA" neighborhood="VonNeumann" periodic="True">
            <rule in="A" out="D" sum="3..4" values="A"/>
        </convolution>
        "#;
    let result = load_model_str(xml, 10, 10, 1);
    assert!(result.is_ok(), "Failed to load convolution with VonNeumann: {:?}", result.as_ref().err());
}

#[test]
fn test_load_convolution_simple_rule() {
    let xml = r#"
        <convolution values="DA" neighborhood="Moore" steps="10">
            <rule in="A" out="D"/>
        </convolution>
        "#;
    let result = load_model_str(xml, 10, 10, 1);
    assert!(result.is_ok(), "Failed to load convolution with simple rule: {:?}", result.as_ref().err());
    let m = result.ok().unwrap();
    match m.root {
        NodeBox::Markov(k) => match &k.nodes[0] {
            NodeBox::Convolution(c) => {
                assert_eq!(c.steps, 10);
                assert_eq!(c.rules.len(), 1);
                assert!(c.is_2d);
            }
            _ => panic!("expected a convolution node"),
        },
        _ => panic!("expected a Markov root"),
    }
}

#[test]
fn test_load_convolution_missing_neighborhood() {
    let xml = r#"
        <convolution values="DA">
            <rule in="A" out="D"/>
        </convolution>
        "#;
    let result = load_model_str(xml, 10, 10, 1);
    assert!(result.is_err(), "Should fail without neighborhood");
    let err: LoadError = result.err().unwrap();
    assert!(err.message().contains("neighborhood"), "Error should mention neighborhood: {}", err.message());
}

#[test]
fn test_load_convolution_invalid_kernel() {
    let xml = r#"
        <convolution values="DA" neighborhood="InvalidKernel">
            <rule in="A" out="D"/>
        </convolution>
        "#;
    let result = load_model_str(xml, 10, 10, 1);
    assert!(result.is_err(), "Should fail with invalid kernel");
    let err = result.err().unwrap();
    assert!(err.message().contains("unknown"), "Error should mention unknown kernel: {}", err.message());
}
