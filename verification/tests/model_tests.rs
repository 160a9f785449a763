use markov_junior::model::Model;

#[test]
fn model_test_model_step_by_step() {
    let xml = r#"<one values="BW" in="B" out="W"/>"#;
    let mut model = Model::load_str(xml, 5, 5, 1).expect("Failed to load inline XML");

    model.reset(42);

    let mut steps = 0;
    while model.step() {
        steps += 1;
        assert!(steps <= 25, "Should not take more than 25 steps");
    }

    assert_eq!(steps, 25, "5x5 grid should take 25 steps");
    assert!(model.grid().state.iter().all(|&v| v == 1), "All cells should be W");
}

#[test]
fn test_model_with_max_steps() {
    let xml = r#"<one values="BW" in="B" out="W"/>"#;
    let mut model = Model::load_str(xml, 10, 10, 1).expect("Failed to load inline XML");

    let steps = model.run(42, 50);
    assert_eq!(steps, 50, "Should stop at 50 steps");

    let w_count = model.grid().state.iter().filter(|&&v| v == 1).count();
    assert_eq!(w_count, 50, "Should have 50 W cells");
}

#[test]
fn model_runs_to_completion_counting_progress_steps() {
    let xml = r#"<one values="BW" in="B" out="W"/>"#;
    let mut model = Model::load("Basic", xml, &[]).ok().unwrap();
    assert_eq!(model.name, "Basic");
    let steps = model.run(12345, 0);
    assert_eq!(steps, 256);
    assert!(!model.is_running());
    assert_eq!(model.counter(), 256);
    assert!(model.grid().state.iter().all(|&v| v == 1));
}

#[test]
fn model_reports_last_step_changes_as_coordinates() {
    let xml = r#"<one values="BW" in="B" out="W"/>"#;
    let mut model = Model::load_str(xml, 3, 2, 1).ok().unwrap();
    assert_eq!(model.name, "inline");
    assert_eq!(model.last_step_change_count(), 0);
    model.reset(7);
    assert!(model.step());
    assert_eq!(model.last_step_change_count(), 1);
    let changes = model.last_step_changes();
    assert_eq!(changes.len(), 1);
    let (x, y, z) = changes[0];
    assert_eq!(model.grid().get(x as usize, y as usize, z as usize), Some(1));
    model.set_animated(true);
    assert!(model.is_animated());
}

#[test]
fn origin_models_start_from_the_center() {
    let xml = r#"<one values="BW" origin="True" in="WB" out="WW"/>"#;
    let mut model = Model::load_str(xml, 5, 5, 1).ok().unwrap();
    model.reset(3);
    assert_eq!(model.grid().state[12], 1);
    assert_eq!(model.grid().count_nonzero(), 1);
    let steps = model.run(3, 0);
    assert_eq!(steps, 24);
    assert!(model.grid().state.iter().all(|&v| v == 1));
}

use markov_junior::model::{BuildError, BuilderNode, ModelBuilder};
use markov_junior::node::NodeBox;

#[test]
fn builder_makes_a_growth_model() {
    let mut b = ModelBuilder::new("BW", 10, 10, 1, true).ok().unwrap();
    assert_eq!(b.node_type, BuilderNode::Markov);
    b.one("WB".to_string(), "WW".to_string());
    assert_eq!(b.node_type, BuilderNode::One);
    let mut m = b.build().ok().unwrap();
    assert_eq!(m.name, "lua_model");
    // Without symmetries the pattern grows rightwards only, from the center to the edge.
    let steps = m.run(42, 0);
    assert_eq!(steps, 4);
    assert_eq!(m.grid().count_nonzero(), 5);
}

#[test]
fn builder_refuses_missing_and_bad_rules() {
    let b = ModelBuilder::new("BW", 4, 4, 1, false).ok().unwrap();
    assert!(matches!(b.build(), Err(BuildError::NoRules)));
    let mut b = ModelBuilder::new("BW", 4, 4, 1, false).ok().unwrap();
    b.all("B".to_string(), "W".to_string());
    b.all("Q".to_string(), "W".to_string());
    assert_eq!(b.node_type, BuilderNode::All);
    match b.build() {
        Err(BuildError::InvalidRule { input, output, .. }) => {
            assert_eq!(input, "Q");
            assert_eq!(output, "W");
        }
        _ => panic!("expected an invalid rule"),
    }
    assert!(matches!(ModelBuilder::new("BWB", 4, 4, 1, false), Err(BuildError::InvalidValues(_))));
}

#[test]
fn builder_sequence_runs_rules_in_turn() {
    let mut b = ModelBuilder::new("BWR", 3, 1, 1, false).ok().unwrap();
    b.one("B".to_string(), "W".to_string());
    b.one("W".to_string(), "R".to_string());
    b.node_type = BuilderNode::Sequence;
    let mut m = b.build().ok().unwrap();
    match &m.interpreter.root {
        NodeBox::Sequence(s) => assert_eq!(s.nodes.len(), 2),
        _ => panic!("expected a sequence"),
    }
    // Three rewrites per rule, and one turn for each finished child handing over.
    let steps = m.run(1, 0);
    assert_eq!(steps, 8);
    assert!(m.grid().state.iter().all(|&v| v == 2));
}
