//! Rotations and reflections of rules, and the rule families they generate under the
//! symmetries of the square (eight) and of the cube (forty-eight).
use vstd::prelude::*;
use crate::vecs::copy_vec;
use crate::geom::{idx3, lemma_idx3_bound, lemma_idx3_inverse};
use crate::grid::lemma_plane_div_bound;
use crate::rule::MjRule;

verus! {

/// The three transforms: a quarter turn about z, a quarter turn about y, a mirror in x.
#[derive(Debug, Clone, Copy, PartialEq, Eq, Structural)]
pub enum Transform {
    ZRotate,
    YRotate,
    Reflect,
}

/// Dimensions of a pattern `mx` by `my` by `mz` after a transform.
pub open spec fn moved_dims(t: Transform, mx: int, my: int, mz: int) -> (int, int, int) {
    match t {
        Transform::ZRotate => (my, mx, mz),
        Transform::YRotate => (mz, my, mx),
        Transform::Reflect => (mx, my, mz),
    }
}

/// The source cell, in a pattern `mx` by `my` by `mz`, of cell `k` of its transform.
pub open spec fn source_cell(t: Transform, k: int, mx: int, my: int, mz: int) -> int {
    let d = moved_dims(t, mx, my, mz);
    let x = k % d.0;
    let y = (k / d.0) % d.1;
    let z = k / (d.0 * d.1);
    match t {
        Transform::ZRotate => idx3(mx - 1 - y, x, z, mx, my),
        Transform::YRotate => idx3(mx - 1 - z, y, x, mx, my),
        Transform::Reflect => idx3(mx - 1 - x, y, z, mx, my),
    }
}

/// A pattern rearranged by a transform.
pub open spec fn moved<T>(t: Transform, s: Seq<T>, mx: int, my: int, mz: int) -> Seq<T> {
    Seq::new(s.len(), |k: int| s[source_cell(t, k, mx, my, mz)])
}

/// The source cell of a transformed cell lies in the pattern.
proof fn lemma_source_cell(t: Transform, k: int, mx: int, my: int, mz: int)
    requires
        mx >= 1,
        my >= 1,
        mz >= 1,
        0 <= k < mx * my * mz,
    ensures
        0 <= source_cell(t, k, mx, my, mz) < mx * my * mz,
        ({
            let d = moved_dims(t, mx, my, mz);
            d.0 * d.1 * d.2 == mx * my * mz && d.0 >= 1 && d.1 >= 1 && d.2 >= 1
        }),
{
    let d = moved_dims(t, mx, my, mz);
    assert(d.0 * d.1 * d.2 == mx * my * mz) by (nonlinear_arith)
        requires
            (d.0 == my && d.1 == mx && d.2 == mz) || (d.0 == mz && d.1 == my && d.2 == mx) || (d.0 == mx && d.1 == my
                && d.2 == mz),
    ;
    lemma_idx3_inverse(k, d.0, d.1);
    lemma_plane_div_bound(k, d.0, d.1, d.2);
    let x = k % d.0;
    let y = (k / d.0) % d.1;
    let z = k / (d.0 * d.1);
    match t {
        Transform::ZRotate => {
            lemma_idx3_bound(mx - 1 - y, x, z, mx, my, mz);
        },
        Transform::YRotate => {
            lemma_idx3_bound(mx - 1 - z, y, x, mx, my, mz);
        },
        Transform::Reflect => {
            lemma_idx3_bound(mx - 1 - x, y, z, mx, my, mz);
        },
    }
}

/// Rearrange a pattern `mx` by `my` by `mz` by a transform.
fn move_cells<T: Copy>(t: Transform, s: &Vec<T>, mx: usize, my: usize, mz: usize) -> (r: Vec<T>)
    requires
        1 <= mx <= i32::MAX,
        1 <= my <= i32::MAX,
        1 <= mz <= i32::MAX,
        s@.len() == mx * my * mz,
    ensures
        r@ == moved(t, s@, mx as int, my as int, mz as int),
{
    let (dx, dy, dz): (usize, usize, usize) = match t {
        Transform::ZRotate => (my, mx, mz),
        Transform::YRotate => (mz, my, mx),
        Transform::Reflect => (mx, my, mz),
    };
    let n = s.len();
    proof {
        if n > 0 {
            lemma_source_cell(t, 0, mx as int, my as int, mz as int);
        }
        assert(dx * dy <= n || n == 0) by (nonlinear_arith)
            requires
                (dx == my && dy == mx) || (dx == mz && dy == my) || (dx == mx && dy == my),
                n == mx * my * mz,
                mx >= 1,
                my >= 1,
                mz >= 1,
        ;
        assert(dx * dy <= n) by (nonlinear_arith)
            requires
                (dx == my && dy == mx) || (dx == mz && dy == my) || (dx == mx && dy == my),
                n == mx * my * mz,
                mx >= 1,
                my >= 1,
                mz >= 1,
        ;
    }
    let plane = dx * dy;
    let mut r: Vec<T> = Vec::new();
    let mut k: usize = 0;
    while k < n
        invariant
            1 <= mx <= i32::MAX,
            1 <= my <= i32::MAX,
            1 <= mz <= i32::MAX,
            n == s@.len(),
            n == mx * my * mz,
            dx == moved_dims(t, mx as int, my as int, mz as int).0,
            dy == moved_dims(t, mx as int, my as int, mz as int).1,
            dz == moved_dims(t, mx as int, my as int, mz as int).2,
            plane == dx * dy,
            k <= n,
            r@ == moved(t, s@, mx as int, my as int, mz as int).take(k as int),
        decreases n - k,
    {
        proof {
            lemma_source_cell(t, k as int, mx as int, my as int, mz as int);
            lemma_idx3_inverse(k as int, dx as int, dy as int);
            lemma_plane_div_bound(k as int, dx as int, dy as int, dz as int);
        }
        let x = k % dx;
        let y = (k / dx) % dy;
        let z = k / plane;
        let (sx, sy, sz) = match t {
            Transform::ZRotate => (mx - 1 - y, x, z),
            Transform::YRotate => (mx - 1 - z, y, x),
            Transform::Reflect => (mx - 1 - x, y, z),
        };
        proof {
            lemma_idx3_bound(sx as int, sy as int, sz as int, mx as int, my as int, mz as int);
        }
        let src = sx + sy * mx + sz * (mx * my);
        r.push(s[src]);
        k = k + 1;
        assert(r@ =~= moved(t, s@, mx as int, my as int, mz as int).take(k as int));
    }
    assert(moved(t, s@, mx as int, my as int, mz as int).take(n as int) =~= moved(t, s@, mx as int, my as int, mz as int));
    r
}

/// The patterns and dimensions of a rule: input, input dimensions, output, output
/// dimensions.
pub type RuleShape = (Seq<u32>, (int, int, int), Seq<u8>, (int, int, int));

/// The patterns and dimensions of a rule.
pub open spec fn shape_of(r: &MjRule) -> RuleShape {
    (r.input@, (r.imx as int, r.imy as int, r.imz as int), r.output@, (r.omx as int, r.omy as int, r.omz as int))
}

/// A rule's patterns after a transform.
pub open spec fn moved_shape(t: Transform, s: RuleShape) -> RuleShape {
    (
        moved(t, s.0, s.1.0, s.1.1, s.1.2),
        moved_dims(t, s.1.0, s.1.1, s.1.2),
        moved(t, s.2, s.3.0, s.3.1, s.3.2),
        moved_dims(t, s.3.0, s.3.1, s.3.2),
    )
}

/// What the transforms keep of a rule: consistency, value count, probability.
pub open spec fn rule_ok(r: &MjRule) -> bool {
    &&& r.wf()
    &&& r.ishifts@.len() < 32
    &&& r.p.valid()
}

/// A rule transformed; its tables rebuilt for the same number of values.
pub fn transformed(rule: &MjRule, t: Transform) -> (r: MjRule)
    requires
        rule_ok(rule),
    ensures
        rule_ok(&r),
        shape_of(&r) == moved_shape(t, shape_of(rule)),
        r.ishifts@.len() == rule.ishifts@.len(),
        r.p == rule.p,
        rule.same_size() ==> r.same_size(),
        forall|v: int| rule.outputs_below(v) ==> r.outputs_below(v),
{
    let input = move_cells(t, &rule.input, rule.imx, rule.imy, rule.imz);
    let output = move_cells(t, &rule.output, rule.omx, rule.omy, rule.omz);
    let (nix, niy, niz) = match t {
        Transform::ZRotate => (rule.imy, rule.imx, rule.imz),
        Transform::YRotate => (rule.imz, rule.imy, rule.imx),
        Transform::Reflect => (rule.imx, rule.imy, rule.imz),
    };
    let (nox, noy, noz) = match t {
        Transform::ZRotate => (rule.omy, rule.omx, rule.omz),
        Transform::YRotate => (rule.omz, rule.omy, rule.omx),
        Transform::Reflect => (rule.omx, rule.omy, rule.omz),
    };
    proof {
        assert(nix * niy * niz == rule.imx * rule.imy * rule.imz) by (nonlinear_arith)
            requires
                (nix == rule.imy && niy == rule.imx && niz == rule.imz) || (nix == rule.imz && niy == rule.imy
                    && niz == rule.imx) || (nix == rule.imx && niy == rule.imy && niz == rule.imz),
        ;
        assert(nox * noy * noz == rule.omx * rule.omy * rule.omz) by (nonlinear_arith)
            requires
                (nox == rule.omy && noy == rule.omx && noz == rule.omz) || (nox == rule.omz && noy == rule.omy
                    && noz == rule.omx) || (nox == rule.omx && noy == rule.omy && noz == rule.omz),
        ;
        assert forall|v: int| rule.outputs_below(v) implies moved(
            t,
            rule.output@,
            rule.omx as int,
            rule.omy as int,
            rule.omz as int,
        ).len() == rule.output@.len() && forall|i: int|
            0 <= i < output@.len() ==> output@[i] == 0xff || output@[i] < v by {
            assert forall|i: int| 0 <= i < output@.len() implies output@[i] == 0xff || output@[i] < v by {
                lemma_source_cell(t, i, rule.omx as int, rule.omy as int, rule.omz as int);
            }
        }
    }
    let c = rule.ishifts.len() as u8;
    let r = MjRule::from_patterns(input, nix, niy, niz, output, nox, noy, noz, c, rule.p);
    r
}

/// Whether two rules have the same patterns and dimensions.
pub fn same_rule(a: &MjRule, b: &MjRule) -> (r: bool)
    ensures
        r == (shape_of(a) == shape_of(b)),
{
    if a.imx != b.imx || a.imy != b.imy || a.imz != b.imz || a.omx != b.omx || a.omy != b.omy || a.omz != b.omz {
        return false;
    }
    if a.input.len() != b.input.len() || a.output.len() != b.output.len() {
        return false;
    }
    let mut i: usize = 0;
    while i < a.input.len()
        invariant
            a.input@.len() == b.input@.len(),
            i <= a.input@.len(),
            forall|k: int| 0 <= k < i ==> a.input@[k] == b.input@[k],
        decreases a.input@.len() - i,
    {
        if a.input[i] != b.input[i] {
            return false;
        }
        i = i + 1;
    }
    let mut j: usize = 0;
    while j < a.output.len()
        invariant
            a.output@.len() == b.output@.len(),
            j <= a.output@.len(),
            forall|k: int| 0 <= k < j ==> a.output@[k] == b.output@[k],
        decreases a.output@.len() - j,
    {
        if a.output[j] != b.output[j] {
            return false;
        }
        j = j + 1;
    }
    assert(a.input@ =~= b.input@);
    assert(a.output@ =~= b.output@);
    true
}

/// How each of the symmetries of the cube is reached: from which earlier image, by which
/// transform (the first image is the rule itself). The first eight are the symmetries of
/// the square in the xy plane; even positions are rotations, odd ones mirror images.
pub open spec fn cube_step(i: int) -> (int, Transform) {
    if i % 2 == 1 {
        (i - 1, Transform::Reflect)
    } else if i < 8 {
        (i - 2, Transform::ZRotate)
    } else if i < 32 {
        (i - 8, Transform::YRotate)
    } else if i < 40 {
        (i - 24, Transform::ZRotate)
    } else {
        (i - 16, Transform::ZRotate)
    }
}

/// The `i`-th image of a rule shape among the symmetries of the cube.
pub open spec fn cube_image(s: RuleShape, i: int) -> RuleShape
    decreases i,
{
    if i <= 0 {
        s
    } else {
        let (j, t) = cube_step(i);
        if 0 <= j < i {
            moved_shape(t, cube_image(s, j))
        } else {
            s
        }
    }
}

/// Whether `s` is among `shapes`.
pub open spec fn has_shape(shapes: Seq<RuleShape>, s: RuleShape) -> bool {
    exists|k: int| 0 <= k < shapes.len() && shapes[k] == s
}

/// The images at positions below `k` that `mask` keeps, without repeats, in order.
pub open spec fn kept_images(s: RuleShape, mask: Seq<bool>, k: int) -> Seq<RuleShape>
    decreases k,
{
    if k <= 0 {
        Seq::empty()
    } else {
        let prev = kept_images(s, mask, k - 1);
        let img = cube_image(s, k - 1);
        if k - 1 < mask.len() && mask[k - 1] && !has_shape(prev, img) {
            prev.push(img)
        } else {
            prev
        }
    }
}

/// The shapes of a list of rules.
pub open spec fn shapes_of(rules: Seq<MjRule>) -> Seq<RuleShape> {
    Seq::new(rules.len(), |i: int| shape_of(&rules[i]))
}

/// The distinct images of `rule` under the first `count` symmetries of the cube (eight:
/// the square in the xy plane; forty-eight: the cube) that `mask` keeps, in symmetry order.
pub fn rule_symmetries(rule: &MjRule, mask: &[bool], count: usize) -> (r: Vec<MjRule>)
    requires
        rule_ok(rule),
        count <= 48,
    ensures
        shapes_of(r@) == kept_images(shape_of(rule), mask@, count as int),
        forall|i: int| 0 <= i < r@.len() ==> rule_ok(&#[trigger] r@[i]) && r@[i].p == rule.p && r@[i].ishifts@.len()
            == rule.ishifts@.len(),
        rule.same_size() ==> forall|i: int| 0 <= i < r@.len() ==> (#[trigger] r@[i]).same_size(),
        forall|v: int|
            rule.outputs_below(v) ==> forall|i: int| 0 <= i < r@.len() ==> (#[trigger] r@[i]).outputs_below(v),
{
    let mut images: Vec<MjRule> = Vec::new();
    let mut result: Vec<MjRule> = Vec::new();
    let mut i: usize = 0;
    while i < count
        invariant
            rule_ok(rule),
            count <= 48,
            i <= count,
            images@.len() == i,
            forall|k: int| 0 <= k < i ==> shape_of(&#[trigger] images@[k]) == cube_image(shape_of(rule), k),
            forall|k: int| 0 <= k < i ==> rule_ok(&#[trigger] images@[k]) && images@[k].p == rule.p
                && images@[k].ishifts@.len() == rule.ishifts@.len(),
            rule.same_size() ==> forall|k: int| 0 <= k < i ==> (#[trigger] images@[k]).same_size(),
            forall|v: int|
                rule.outputs_below(v) ==> forall|k: int| 0 <= k < i ==> (#[trigger] images@[k]).outputs_below(v),
            shapes_of(result@) == kept_images(shape_of(rule), mask@, i as int),
            forall|k: int| 0 <= k < result@.len() ==> rule_ok(&#[trigger] result@[k]) && result@[k].p == rule.p
                && result@[k].ishifts@.len() == rule.ishifts@.len(),
            rule.same_size() ==> forall|k: int| 0 <= k < result@.len() ==> (#[trigger] result@[k]).same_size(),
            forall|v: int|
                rule.outputs_below(v) ==> forall|k: int| 0 <= k < result@.len() ==> (#[trigger] result@[k]).outputs_below(v),
        decreases count - i,
    {
        let img = if i == 0 {
            transformed_copy(rule)
        } else {
            let (j, t): (usize, Transform) = if i % 2 == 1 {
                (i - 1, Transform::Reflect)
            } else if i < 8 {
                (i - 2, Transform::ZRotate)
            } else if i < 32 {
                (i - 8, Transform::YRotate)
            } else if i < 40 {
                (i - 24, Transform::ZRotate)
            } else {
                (i - 16, Transform::ZRotate)
            };
            proof {
                assert(cube_step(i as int) == (j as int, t));
                assert(cube_image(shape_of(rule), i as int) == moved_shape(t, cube_image(shape_of(rule), j as int)));
            }
            transformed(&images[j], t)
        };
        assert(shape_of(&img) == cube_image(shape_of(rule), i as int));
        let keep = i < mask.len() && mask[i];
        let mut seen = false;
        let mut q: usize = 0;
        while q < result.len()
            invariant
                q <= result@.len(),
                seen <==> exists|w: int| 0 <= w < q && shape_of(&result@[w]) == shape_of(&img),
            decreases result@.len() - q,
        {
            if same_rule(&result[q], &img) {
                seen = true;
            }
            q = q + 1;
        }
        proof {
            let shapes = shapes_of(result@);
            assert(seen <==> has_shape(shapes, shape_of(&img))) by {
                if seen {
                    let w = choose|w: int| 0 <= w < result@.len() && shape_of(&result@[w]) == shape_of(&img);
                    assert(shapes[w] == shape_of(&img));
                }
                if has_shape(shapes, shape_of(&img)) {
                    let w = choose|w: int| 0 <= w < shapes.len() && shapes[w] == shape_of(&img);
                    assert(shape_of(&result@[w]) == shape_of(&img));
                }
            }
        }
        if keep && !seen {
            let c = transformed_copy(&img);
            let ghost before = result@;
            result.push(c);
            proof {
                assert(shapes_of(result@) =~= shapes_of(before).push(shape_of(&img)));
            }
        }
        images.push(img);
        i = i + 1;
    }
    result
}

/// A copy of a rule, with its tables rebuilt.
fn transformed_copy(rule: &MjRule) -> (r: MjRule)
    requires
        rule_ok(rule),
    ensures
        rule_ok(&r),
        shape_of(&r) == shape_of(rule),
        r.ishifts@.len() == rule.ishifts@.len(),
        r.p == rule.p,
        rule.same_size() ==> r.same_size(),
        forall|v: int| rule.outputs_below(v) ==> r.outputs_below(v),
{
    let input = copy_vec(&rule.input);
    let output = copy_vec(&rule.output);
    let c = rule.ishifts.len() as u8;
    MjRule::from_patterns(input, rule.imx, rule.imy, rule.imz, output, rule.omx, rule.omy, rule.omz, c, rule.p)
}


} // verus!
