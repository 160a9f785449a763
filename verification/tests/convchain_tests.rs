use markov_junior::convchain_node::{
    extract_pattern, pattern_to_index, reflect_pattern, rotate_pattern, square_symmetries_bool,
};
use markov_junior::symmetry::{bool_slice_to_subgroup, SquareSubgroup};

#[test]
fn test_pattern_to_index() {
    assert_eq!(pattern_to_index(&[false, false, false, false]), 0);
    assert_eq!(pattern_to_index(&[true, false, false, false]), 1);
    assert_eq!(pattern_to_index(&[false, true, false, false]), 2);
    assert_eq!(pattern_to_index(&[true, true, true, true]), 15);
}

#[test]
fn test_extract_pattern() {
    let sample = vec![true, false, true, false, true, false, true, false, true];
    let pattern = extract_pattern(&sample, 3, 3, 0, 0, 2);
    assert_eq!(pattern, vec![true, false, false, true]);
    let pattern = extract_pattern(&sample, 3, 3, 1, 1, 2);
    assert_eq!(pattern, vec![true, false, false, true]);
}

#[test]
fn test_rotate_pattern() {
    let pattern = vec![true, false, false, false];
    let rotated = rotate_pattern(&pattern, 2);
    assert_eq!(rotated, vec![false, false, true, false]);
}

#[test]
fn test_reflect_pattern() {
    let pattern = vec![true, false, false, false];
    let reflected = reflect_pattern(&pattern, 2);
    assert_eq!(reflected, vec![false, true, false, false]);
}

#[test]
fn test_square_symmetries_bool_generates_unique() {
    let pattern = vec![true, false, false, false];
    let symmetries = square_symmetries_bool(&pattern, 2, Some(SquareSubgroup::All));
    assert!(symmetries.len() >= 1);
    assert!(symmetries.len() <= 8);
}

#[test]
fn square_symmetries_follow_the_mask() {
    let pattern = vec![true, false, false, false];
    let rot = square_symmetries_bool(&pattern, 2, Some(SquareSubgroup::Rotate));
    assert_eq!(rot.len(), 4);
    assert_eq!(rot[0], pattern);
    assert_eq!(rot[1], vec![false, false, true, false]);
    assert_eq!(square_symmetries_bool(&pattern, 2, None).len(), 8);
    let flags = [true, true, false, false, false, false, false, false];
    assert_eq!(bool_slice_to_subgroup(&flags), SquareSubgroup::ReflectX);
    assert_eq!(bool_slice_to_subgroup(&[true]), SquareSubgroup::All);
    assert_eq!(SquareSubgroup::Trivial.mask(), [true, false, false, false, false, false, false, false]);
}
