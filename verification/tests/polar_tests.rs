use markov_junior::polar_grid::PolarSymmetry::{BothFlip, Identity, RFlip, ThetaFlip};
use markov_junior::polar_grid::{PolarPattern, PolarRule, PolarSymmetry};

#[test]
fn test_identity_symmetry() {
    assert_eq!(Identity.transform(1, 2), (1, 2));
    assert_eq!(Identity.transform(-1, -2), (-1, -2));
    assert_eq!(Identity.transform(0, 0), (0, 0));
}

#[test]
fn test_theta_flip_symmetry() {
    assert_eq!(ThetaFlip.transform(1, 2), (1, -2));
    assert_eq!(ThetaFlip.transform(-1, 3), (-1, -3));
    assert_eq!(ThetaFlip.transform(0, 0), (0, 0));
    let (dr, dt) = ThetaFlip.transform(1, 2);
    assert_eq!(ThetaFlip.transform(dr, dt), (1, 2));
}

#[test]
fn test_r_flip_symmetry() {
    assert_eq!(RFlip.transform(1, 2), (-1, 2));
    assert_eq!(RFlip.transform(-1, 3), (1, 3));
    let (dr, dt) = RFlip.transform(1, 2);
    assert_eq!(RFlip.transform(dr, dt), (1, 2));
}

#[test]
fn test_both_flip_symmetry() {
    assert_eq!(BothFlip.transform(1, 2), (-1, -2));
    assert_eq!(BothFlip.transform(-1, -3), (1, 3));
    for dr in [-1i8, 0, 1] {
        for dt in [-2i8, 0, 2] {
            let both = BothFlip.transform(dr, dt);
            let (tdr, tdt) = ThetaFlip.transform(dr, dt);
            let composed = RFlip.transform(tdr, tdt);
            assert_eq!(both, composed);
        }
    }
}

#[test]
fn polar_symmetries_form_a_klein_group() {
    let all = PolarSymmetry::all();
    assert_eq!(all, [Identity, ThetaFlip, RFlip, BothFlip]);
    for a in all {
        assert_eq!(a.compose(a), Identity);
        assert_eq!(a.inverse(), a);
        for b in all {
            assert_eq!(a.compose(b), b.compose(a));
        }
    }
    assert_eq!(ThetaFlip.compose(RFlip), BothFlip);
    assert_eq!(BothFlip.compose(RFlip), ThetaFlip);
}

#[test]
fn polar_pattern_variants_drop_repeats() {
    let p = PolarPattern::center_only(3);
    assert_eq!(p.all_variants().len(), 1);
    let q = PolarPattern { center: 1, theta_minus: Some(2), theta_plus: None, r_minus: Some(4), r_plus: None };
    let v = q.all_variants();
    assert_eq!(v.len(), 4);
    assert_eq!(v[1].theta_plus, Some(2));
    assert_eq!(v[2].r_plus, Some(4));
    let rule = PolarRule { input: q, output: 9 };
    let rs = rule.with_all_symmetries();
    assert_eq!(rs.len(), 4);
    assert!(rs.iter().all(|r| r.output == 9));
    assert_eq!(q.transform(PolarSymmetry::BothFlip).transform(PolarSymmetry::BothFlip), q);
}
