//! Square binary patterns as used by convolutional chain synthesis: reading an `n` by
//! `n` pattern out of a sample, its index, and its rotations and reflections.
use vstd::prelude::*;
use vstd::arithmetic::power2::{pow2, lemma_pow2_pos, lemma_pow2_adds, lemma_pow2_strictly_increases};
use crate::symmetry::{spec_mask, SquareSubgroup};

verus! {

/// The number whose binary digits, lowest first, are the pattern's cells.
pub open spec fn pattern_value(p: Seq<bool>) -> nat
    decreases p.len(),
{
    if p.len() == 0 {
        0
    } else {
        pattern_value(p.drop_last()) + if p.last() {
            pow2((p.len() - 1) as nat)
        } else {
            0
        }
    }
}

/// The pattern's value is below 2 to the pattern's length.
proof fn lemma_pattern_value_bound(p: Seq<bool>)
    ensures
        pattern_value(p) < pow2(p.len() as nat),
    decreases p.len(),
{
    if p.len() > 0 {
        lemma_pattern_value_bound(p.drop_last());
        lemma_pow2_adds((p.len() - 1) as nat, 1);
        vstd::arithmetic::power2::lemma2_to64();
    } else {
        vstd::arithmetic::power2::lemma2_to64();
    }
}

/// The index of a pattern: its cells read as binary digits, lowest first.
pub fn pattern_to_index(pattern: &[bool]) -> (r: usize)
    requires
        pow2(pattern@.len() as nat) <= usize::MAX,
    ensures
        r == pattern_value(pattern@),
{
    let mut result: usize = 0;
    let mut power: usize = 1;
    let mut i: usize = 0;
    proof {
        vstd::arithmetic::power2::lemma2_to64();
    }
    while i < pattern.len()
        invariant
            i <= pattern@.len(),
            pow2(pattern@.len() as nat) <= usize::MAX,
            result == pattern_value(pattern@.take(i as int)),
            power == pow2(i as nat),
        decreases pattern@.len() - i,
    {
        proof {
            assert(pattern@.take(i + 1).drop_last() =~= pattern@.take(i as int));
            lemma_pattern_value_bound(pattern@.take(i as int));
            lemma_pow2_adds(i as nat, 1);
            vstd::arithmetic::power2::lemma2_to64();
            if i + 1 < pattern@.len() {
                lemma_pow2_strictly_increases((i + 1) as nat, pattern@.len() as nat);
            }
            assert(pow2((i + 1) as nat) <= pow2(pattern@.len() as nat)) by {
                if i + 1 < pattern@.len() {
                    lemma_pow2_strictly_increases((i + 1) as nat, pattern@.len() as nat);
                }
            }
        }
        if pattern[i] {
            result = result + power;
        }
        power = power * 2;
        i = i + 1;
    }
    assert(pattern@.take(pattern@.len() as int) =~= pattern@);
    result
}

/// Cell `k` of the `n` by `n` pattern read at (x, y) from a sample `smx` wide and `smy`
/// high, wrapping around the sample's edges.
pub open spec fn sample_cell(sample: Seq<bool>, smx: int, smy: int, x: int, y: int, n: int, k: int) -> bool {
    sample[(x + k % n) % smx + ((y + k / n) % smy) * smx]
}

/// The `n` by `n` pattern of `sample` (`smx` by `smy`) whose corner is at (x, y), wrapping
/// around the sample's edges.
pub fn extract_pattern(sample: &[bool], smx: usize, smy: usize, x: usize, y: usize, n: usize) -> (r: Vec<bool>)
    requires
        smx > 0,
        smy > 0,
        sample@.len() >= smx * smy,
        n * n <= usize::MAX,
        x + n <= usize::MAX,
        y + n <= usize::MAX,
    ensures
        r@.len() == n * n,
        forall|k: int| 0 <= k < n * n ==> r@[k] == sample_cell(sample@, smx as int, smy as int, x as int, y as int, n as int, k),
{
    let mut pattern: Vec<bool> = Vec::new();
    let slen = sample.len();
    let total = n * n;
    let mut k: usize = 0;
    while k < total
        invariant
            smx > 0,
            smy > 0,
            sample@.len() >= smx * smy,
            slen == sample@.len(),
            total == n * n,
            x + n <= usize::MAX,
            y + n <= usize::MAX,
            k <= total,
            pattern@.len() == k,
            forall|q: int| 0 <= q < k ==> pattern@[q] == sample_cell(sample@, smx as int, smy as int, x as int, y as int, n as int, q),
        decreases total - k,
    {
        proof {
            assert(n > 0) by (nonlinear_arith)
                requires
                    k < n * n,
            ;
            assert(k / n < n) by (nonlinear_arith)
                requires
                    k < n * n,
                    n > 0,
            ;
        }
        let dx = k % n;
        let dy = k / n;
        let px = (x + dx) % smx;
        let py = (y + dy) % smy;
        proof {
            assert(px + py * smx < smx * smy && py * smx <= smx * smy) by (nonlinear_arith)
                requires
                    px < smx,
                    py < smy,
            ;
        }
        pattern.push(sample[px + py * smx]);
        k = k + 1;
    }
    pattern
}

/// The pattern turned a quarter: cell `k` (at x = k % n, y = k / n) takes the cell at
/// (n - 1 - y, x).
pub open spec fn rotated(p: Seq<bool>, n: int) -> Seq<bool> {
    Seq::new((n * n) as nat, |k: int| p[(n - 1 - k / n) + (k % n) * n])
}

/// The pattern mirrored: cell `k` (at x = k % n, y = k / n) takes the cell at
/// (n - 1 - x, y).
pub open spec fn reflected(p: Seq<bool>, n: int) -> Seq<bool> {
    Seq::new((n * n) as nat, |k: int| p[(n - 1 - k % n) + (k / n) * n])
}

/// The `n` by `n` pattern turned a quarter.
pub fn rotate_pattern(p: &[bool], n: usize) -> (r: Vec<bool>)
    requires
        p@.len() >= n * n,
        n * n <= usize::MAX,
    ensures
        r@ == rotated(p@, n as int),
{
    let total = n * n;
    let mut r: Vec<bool> = Vec::new();
    let mut k: usize = 0;
    while k < total
        invariant
            total == n * n,
            p@.len() >= n * n,
            k <= total,
            r@.len() == k,
            forall|q: int| 0 <= q < k ==> r@[q] == p@[(n - 1 - q / (n as int)) + (q % (n as int)) * n],
        decreases total - k,
    {
        proof {
            assert(n > 0) by (nonlinear_arith)
                requires
                    k < n * n,
            ;
            assert(k / n < n) by (nonlinear_arith)
                requires
                    k < n * n,
                    n > 0,
            ;
            assert((n - 1 - k / n) + (k % n) * n < n * n) by (nonlinear_arith)
                requires
                    k / n < n,
                    k % n < n,
                    n > 0,
            ;
        }
        let x = k % n;
        let y = k / n;
        r.push(p[(n - 1 - y) + x * n]);
        k = k + 1;
    }
    assert(r@ =~= rotated(p@, n as int));
    r
}

/// The `n` by `n` pattern mirrored.
pub fn reflect_pattern(p: &[bool], n: usize) -> (r: Vec<bool>)
    requires
        p@.len() >= n * n,
        n * n <= usize::MAX,
    ensures
        r@ == reflected(p@, n as int),
{
    let total = n * n;
    let mut r: Vec<bool> = Vec::new();
    let mut k: usize = 0;
    while k < total
        invariant
            total == n * n,
            p@.len() >= n * n,
            k <= total,
            r@.len() == k,
            forall|q: int| 0 <= q < k ==> r@[q] == p@[(n - 1 - q % (n as int)) + (q / (n as int)) * n],
        decreases total - k,
    {
        proof {
            assert(n > 0) by (nonlinear_arith)
                requires
                    k < n * n,
            ;
            assert(k / n < n) by (nonlinear_arith)
                requires
                    k < n * n,
                    n > 0,
            ;
            assert((n - 1 - k % n) + (k / n) * n < n * n) by (nonlinear_arith)
                requires
                    k / n < n,
                    k % n < n,
                    n > 0,
            ;
        }
        let x = k % n;
        let y = k / n;
        r.push(p[(n - 1 - x) + y * n]);
        k = k + 1;
    }
    assert(r@ =~= reflected(p@, n as int));
    r
}

/// The eight symmetric images of a pattern: identity, reflection, then each quarter turn
/// followed by its reflection.
pub open spec fn square_images(p: Seq<bool>, n: int) -> Seq<Seq<bool>> {
    let a1 = rotated(p, n);
    let a2 = rotated(a1, n);
    let a3 = rotated(a2, n);
    seq![p, reflected(p, n), a1, reflected(a1, n), a2, reflected(a2, n), a3, reflected(a3, n)]
}

/// The images of `p` kept by `mask`, in order.
pub open spec fn kept_images(images: Seq<Seq<bool>>, mask: Seq<bool>, k: int) -> Seq<Seq<bool>>
    decreases k,
{
    if k <= 0 {
        Seq::empty()
    } else if mask[k - 1] {
        kept_images(images, mask, k - 1).push(images[k - 1])
    } else {
        kept_images(images, mask, k - 1)
    }
}

/// The contents of a list of patterns.
pub open spec fn patterns_view(v: Seq<Vec<bool>>) -> Seq<Seq<bool>> {
    Seq::new(v.len(), |i: int| v[i]@)
}

/// Copy of a pattern.
fn copy_pattern(p: &[bool]) -> (r: Vec<bool>)
    ensures
        r@ == p@,
{
    let mut r: Vec<bool> = Vec::new();
    let mut i: usize = 0;
    while i < p.len()
        invariant
            i <= p@.len(),
            r@ == p@.take(i as int),
        decreases p@.len() - i,
    {
        r.push(p[i]);
        i = i + 1;
        assert(r@ =~= p@.take(i as int));
    }
    assert(p@.take(p@.len() as int) =~= p@);
    r
}

/// The images of an `n` by `n` pattern under the symmetries that `subgroup` keeps (all
/// eight when none is given), in symmetry order, without removing repeats.
pub fn square_symmetries_bool(pattern: &[bool], n: usize, subgroup: Option<SquareSubgroup>) -> (r: Vec<Vec<bool>>)
    requires
        pattern@.len() == n * n,
        n * n <= usize::MAX,
    ensures
        patterns_view(r@) == kept_images(
            square_images(pattern@, n as int),
            match subgroup {
                Some(g) => spec_mask(g),
                None => spec_mask(SquareSubgroup::All),
            },
            8,
        ),
{
    let t0 = copy_pattern(pattern);
    let t1 = reflect_pattern(&t0, n);
    let t2 = rotate_pattern(&t0, n);
    let t3 = reflect_pattern(&t2, n);
    let t4 = rotate_pattern(&t2, n);
    let t5 = reflect_pattern(&t4, n);
    let t6 = rotate_pattern(&t4, n);
    let t7 = reflect_pattern(&t6, n);
    let things = vec![t0, t1, t2, t3, t4, t5, t6, t7];
    let mask = match subgroup {
        Some(g) => g.mask(),
        None => SquareSubgroup::All.mask(),
    };
    let ghost images = square_images(pattern@, n as int);
    let ghost m = mask@;
    proof {
        assert(patterns_view(things@) =~= images);
    }
    let mut result: Vec<Vec<bool>> = Vec::new();
    let mut i: usize = 0;
    while i < 8
        invariant
            i <= 8,
            things@.len() == 8,
            mask@ == m,
            m.len() == 8,
            patterns_view(things@) == images,
            patterns_view(result@) == kept_images(images, m, i as int),
        decreases 8 - i,
    {
        if mask[i] {
            let c = copy_pattern(things[i].as_slice());
            let ghost before = result@;
            result.push(c);
            proof {
                assert(patterns_view(result@) =~= patterns_view(before).push(images[i as int]));
            }
        }
        i = i + 1;
    }
    result
}

} // verus!
