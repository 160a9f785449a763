use markov_junior::grid::MjGrid;
use markov_junior::observation::Observation;
use markov_junior::rule::MjRule;

#[test]
fn test_observation_new() {
    let grid = MjGrid::with_values(5, 5, 1, "BWR");
    let obs = Observation::new('B', "WR", &grid).unwrap();
    assert_eq!(obs.from, 0);
    assert_eq!(obs.to, 0b110);
}

#[test]
fn test_observation_new_unknown_char() {
    let grid = MjGrid::with_values(5, 5, 1, "BWR");
    let obs = Observation::new('X', "WR", &grid);
    assert!(obs.is_none());
}

#[test]
fn test_compute_future_set_present() {
    let grid = MjGrid::with_values(3, 3, 1, "BWR");
    let obs_b = Observation::new('B', "W", &grid).unwrap();
    let observations: Vec<Option<Observation>> = vec![Some(obs_b), None, None];
    let mut state = vec![0u8; 9];
    let mut future = vec![0i32; 9];
    let result = Observation::compute_future_set_present(&mut future, &mut state, &observations);
    assert!(result);
    for f in &future {
        assert_eq!(*f, 2);
    }
    for s in &state {
        assert_eq!(*s, 0);
    }
}

#[test]
fn test_is_goal_reached() {
    let future = vec![0b010i32, 0b011i32];
    let present_ok = vec![1u8, 0u8];
    assert!(Observation::is_goal_reached(&present_ok, &future));
    let present_bad = vec![0u8, 0u8];
    assert!(!Observation::is_goal_reached(&present_bad, &future));
}

#[test]
fn test_forward_pointwise() {
    let mut potentials = vec![vec![-1i32; 4]; 2];
    potentials[0][0] = 1;
    potentials[0][1] = 1;
    potentials[1][2] = 2;
    potentials[1][3] = 2;
    let future = vec![0b01i32, 0b01i32, 0b10i32, 0b10i32];
    let estimate = Observation::forward_pointwise(&potentials, &future);
    assert_eq!(estimate, 1 + 1 + 2 + 2);
}

#[test]
fn test_forward_pointwise_unreachable() {
    let potentials = vec![vec![-1i32; 4]; 2];
    let future = vec![0b01i32, 0b10i32, 0b10i32, 0b10i32];
    let estimate = Observation::forward_pointwise(&potentials, &future);
    assert_eq!(estimate, -1);
}

#[test]
fn test_backward_pointwise() {
    let mut potentials = vec![vec![0i32; 4]; 2];
    potentials[0][0] = 3;
    potentials[0][1] = 2;
    potentials[1][2] = 1;
    potentials[1][3] = 0;
    let present = vec![0u8, 0u8, 1u8, 1u8];
    let estimate = Observation::backward_pointwise(&potentials, &present);
    assert_eq!(estimate, 3 + 2 + 1 + 0);
}

#[test]
fn test_backward_pointwise_unreachable() {
    let mut potentials = vec![vec![0i32; 4]; 2];
    potentials[0][0] = -1;
    let present = vec![0u8, 0u8, 1u8, 1u8];
    let estimate = Observation::backward_pointwise(&potentials, &present);
    assert_eq!(estimate, -1);
}

#[test]
fn test_compute_backward_potentials_simple() {
    let grid = MjGrid::with_values(3, 1, 1, "BW");
    let rule = MjRule::parse("B", "W", &grid).unwrap();
    let rules = vec![rule];
    let future = vec![2i32, 2i32, 2i32];
    let mut potentials = vec![vec![0i32; 3]; 2];
    Observation::compute_backward_potentials(&mut potentials, &future, 3, 1, 1, &rules);
    assert_eq!(potentials[1][0], 0);
    assert_eq!(potentials[1][1], 0);
    assert_eq!(potentials[1][2], 0);
    assert_eq!(potentials[0][0], 1);
    assert_eq!(potentials[0][1], 1);
    assert_eq!(potentials[0][2], 1);
}

#[test]
fn test_compute_forward_potentials_simple() {
    let grid = MjGrid::with_values(3, 1, 1, "BW");
    let rule = MjRule::parse("B", "W", &grid).unwrap();
    let rules = vec![rule];
    let state = vec![0u8, 0u8, 0u8];
    let mut potentials = vec![vec![0i32; 3]; 2];
    Observation::compute_forward_potentials(&mut potentials, &state, 3, 1, 1, &rules);
    assert_eq!(potentials[0][0], 0);
    assert_eq!(potentials[0][1], 0);
    assert_eq!(potentials[0][2], 0);
    assert_eq!(potentials[1][0], 1);
    assert_eq!(potentials[1][1], 1);
    assert_eq!(potentials[1][2], 1);
}
