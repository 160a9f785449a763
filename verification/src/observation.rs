//! Observations: constraints on the future state of the grid, and the potentials that
//! measure how far each (value, cell) pair is from the present or from the goal.
use vstd::prelude::*;
use crate::geom::{idx3, lemma_idx3_bound, lemma_idx3_inverse};
use crate::grid::{lemma_plane_div_bound, spec_wave, MjGrid};
use crate::rule::{coord_of, MjRule};
use crate::field::{lemma_reached_bound, lemma_reached_update, reached_count};

verus! {

/// Cells holding value `from` should end up holding a value of wave `to`.
#[derive(Debug, Clone, Copy)]
pub struct Observation {
    /// Source value index.
    pub from: u8,
    /// Wave of the allowed target values.
    pub to: u32,
}

/// The future wave of a cell holding `v`, given the observations.
pub open spec fn future_of(obs: Seq<Option<Observation>>, v: u8) -> i32 {
    if (v as int) < obs.len() && obs[v as int] is Some {
        obs[v as int]->0.to as i32
    } else {
        1i32 << v
    }
}

/// The value a cell holding `v` is reset to when observations are applied.
pub open spec fn present_of(obs: Seq<Option<Observation>>, v: u8) -> u8 {
    if (v as int) < obs.len() && obs[v as int] is Some {
        obs[v as int]->0.from
    } else {
        v
    }
}

/// Every observed value occurs somewhere in the state.
pub open spec fn observed_present(obs: Seq<Option<Observation>>, state: Seq<u8>) -> bool {
    forall|k: int|
        0 <= k < obs.len() && #[trigger] obs[k] is Some ==> exists|i: int|
            0 <= i < state.len() && #[trigger] state[i] == k
}

/// Every cell's present value is allowed by its future wave.
pub open spec fn goal_reached(present: Seq<u8>, future: Seq<i32>) -> bool {
    forall|i: int| 0 <= i < present.len() ==> (1i32 << #[trigger] present[i]) & future[i] != 0
}

/// The potential rows, each holding one entry per cell.
pub open spec fn rows_len(p: Seq<Vec<i32>>, n: int) -> bool {
    forall|c: int| 0 <= c < p.len() ==> (#[trigger] p[c])@.len() == n
}

/// `f` shifted right by one bit `c` times (arithmetic shift).
pub open spec fn shr_n(f: i32, c: int) -> i32
    decreases c,
{
    if c <= 0 {
        f
    } else {
        shr_n(f, c - 1) >> 1u32
    }
}

/// Smallest reachable potential at cell `i` among the first `k` values allowed by wave `f`
/// (1000 when there is none).
pub open spec fn min_allowed(p: Seq<Vec<i32>>, f: i32, i: int, k: int) -> i32
    decreases k,
{
    if k <= 0 {
        1000i32
    } else {
        let m = min_allowed(p, f, i, k - 1);
        let v = p[k - 1]@[i];
        if shr_n(f, k - 1) & 1 == 1 && v >= 0 && v < m {
            v
        } else {
            m
        }
    }
}

/// Every potential row has at least `n` entries.
pub open spec fn rows_cover(p: Seq<Vec<i32>>, n: int) -> bool {
    forall|c: int| 0 <= c < p.len() ==> (#[trigger] p[c])@.len() >= n
}

/// Sum over the first `k` cells of the smallest reachable allowed potential.
pub open spec fn forward_sum(p: Seq<Vec<i32>>, future: Seq<i32>, k: int) -> int
    decreases k,
{
    if k <= 0 {
        0
    } else {
        forward_sum(p, future, k - 1) + min_allowed(p, future[k - 1], k - 1, p.len() as int)
    }
}

/// Sum over the first `k` cells of the potential of the present value.
pub open spec fn backward_sum(p: Seq<Vec<i32>>, present: Seq<u8>, k: int) -> int
    decreases k,
{
    if k <= 0 {
        0
    } else {
        backward_sum(p, present, k - 1) + p[present[k - 1] as int]@[k - 1]
    }
}

/// The pattern that is matched when propagating potentials: the single-value input
/// forward, the output backward.
pub open spec fn match_pattern(rule: &MjRule, backwards: bool) -> Seq<u8> {
    if backwards {
        rule.output@
    } else {
        rule.binput@
    }
}

/// The pattern that is written when propagating potentials.
pub open spec fn write_pattern(rule: &MjRule, backwards: bool) -> Seq<u8> {
    if backwards {
        rule.binput@
    } else {
        rule.output@
    }
}

/// Grid index of pattern cell `di` of a rule block placed at (x, y, z).
pub open spec fn block_cell(mx: int, my: int, rule: &MjRule, x: int, y: int, z: int, di: int) -> int {
    let d = coord_of(di, rule.imx as int, rule.imy as int);
    idx3(x + d.0, y + d.1, z + d.2, mx, my)
}

/// Every non-wildcard cell of the matched pattern at (x, y, z) has a potential in [0, t].
pub open spec fn potentials_match(
    rule: &MjRule,
    x: int,
    y: int,
    z: int,
    p: Seq<Vec<i32>>,
    t: int,
    mx: int,
    my: int,
    backwards: bool,
) -> bool {
    let a = match_pattern(rule, backwards);
    forall|di: int|
        0 <= di < a.len() && #[trigger] a[di] != 0xff ==> {
            let q = p[a[di] as int]@[block_cell(mx, my, rule, x, y, z, di)];
            q != -1 && q <= t
        }
}

/// The rule block at (x, y, z) lies inside a grid of width `mx`, height `my` and `n` cells.
pub open spec fn block_fits(rule: &MjRule, x: int, y: int, z: int, mx: int, my: int, n: int) -> bool {
    &&& mx > 0 && my > 0
    &&& 0 <= x && x + rule.imx <= mx
    &&& 0 <= y && y + rule.imy <= my
    &&& 0 <= z && (z + rule.imz) * (mx * my) <= n
}

/// Every non-wildcard value of the rule's patterns indexes a potential row.
pub open spec fn rule_values_below(rule: &MjRule, c: int) -> bool {
    &&& forall|i: int| 0 <= i < rule.binput@.len() ==> #[trigger] rule.binput@[i] == 0xff || rule.binput@[i] < c
    &&& forall|i: int| 0 <= i < rule.output@.len() ==> #[trigger] rule.output@[i] == 0xff || rule.output@[i] < c
}

/// The potentials after writing the first `k` cells of the written pattern at (x, y, z)
/// with potential `t + 1` into every unreached (value, cell) pair.
pub open spec fn apply_potentials_upto(
    rule: &MjRule,
    x: int,
    y: int,
    z: int,
    p: Seq<Seq<i32>>,
    t: int,
    mx: int,
    my: int,
    backwards: bool,
    k: int,
) -> Seq<Seq<i32>> {
    let a = write_pattern(rule, backwards);
    Seq::new(
        p.len(),
        |c: int|
            Seq::new(
                p[c].len(),
                |i: int|
                    if p[c][i] == -1 && exists|di: int|
                        0 <= di < k && a[di] != 0xff && a[di] as int == c && #[trigger] block_cell(
                            mx,
                            my,
                            rule,
                            x,
                            y,
                            z,
                            di,
                        ) == i {
                        (t + 1) as i32
                    } else {
                        p[c][i]
                    },
            ),
    )
}

/// The potentials after writing the whole pattern at (x, y, z).
pub open spec fn spec_apply_potentials(
    rule: &MjRule,
    x: int,
    y: int,
    z: int,
    p: Seq<Seq<i32>>,
    t: int,
    mx: int,
    my: int,
    backwards: bool,
) -> Seq<Seq<i32>> {
    apply_potentials_upto(rule, x, y, z, p, t, mx, my, backwards, write_pattern(rule, backwards).len() as int)
}

/// Number of reached (value, cell) pairs in the first `c` rows.
pub open spec fn total_reached(rows: Seq<Seq<i32>>, c: int) -> int
    decreases c,
{
    if c <= 0 {
        0
    } else {
        total_reached(rows, c - 1) + reached_count(rows[c - 1], rows[c - 1].len() as int)
    }
}

/// The views of the potential rows.
pub open spec fn rows_view(p: Seq<Vec<i32>>) -> Seq<Seq<i32>> {
    Seq::new(p.len(), |c: int| p[c]@)
}

impl Observation {
    /// The observation `from -> to`; `None` when `from` is not a value of the grid.
    pub fn new(from: char, to: &str, grid: &MjGrid) -> (r: Option<Observation>)
        requires
            grid.wf(),
        ensures
            r == (match grid.spec_value_for_char(from) {
                Some(v) => Some(Observation { from: v, to: spec_wave(grid.characters@, to@) }),
                None => None,
            }),
    {
        let from_value = grid.value_for_char(from);
        match from_value {
            Some(v) => {
                let to_wave = grid.wave(to);
                Some(Observation { from: v, to: to_wave })
            },
            None => None,
        }
    }

    /// Set each cell's future wave from the observations and reset observed cells to the
    /// observation's source value. Returns false when an observed value is absent.
    #[verifier::loop_isolation(false)]
    pub fn compute_future_set_present(
        future: &mut [i32],
        state: &mut [u8],
        observations: &[Option<Observation>],
    ) -> (r: bool)
        requires
            old(future)@.len() >= old(state)@.len(),
            forall|i: int| 0 <= i < old(state)@.len() ==> #[trigger] old(state)@[i] < 32,
        ensures
            final(future)@.len() == old(future)@.len(),
            forall|i: int| old(state)@.len() <= i < old(future)@.len() ==> #[trigger] final(future)@[i] == old(future)@[i],
            final(state)@.len() == old(state)@.len(),
            forall|i: int|
                0 <= i < old(state)@.len() ==> #[trigger] final(future)@[i] == future_of(
                    observations@,
                    old(state)@[i],
                ),
            forall|i: int|
                0 <= i < old(state)@.len() ==> #[trigger] final(state)@[i] == present_of(
                    observations@,
                    old(state)@[i],
                ),
            r == observed_present(observations@, old(state)@),
    {
        let ghost st0 = state@;
        let ghost obs = observations@;
        let olen = observations.len();
        let mut mask: Vec<bool> = Vec::new();
        let mut k: usize = 0;
        while k < olen
            invariant
                olen == obs.len(),
                obs == observations@,
                k <= olen,
                mask@.len() == k,
                forall|j: int| 0 <= j < k ==> #[trigger] mask@[j] == (obs[j] is None),
            decreases olen - k,
        {
            mask.push(observations[k].is_none());
            k = k + 1;
        }
        let n = state.len();
        let ghost fu0 = future@;
        let mut i: usize = 0;
        while i < n
            invariant
                olen == obs.len(),
                obs == observations@,
                n == st0.len(),
                state@.len() == n,
                future@.len() == fu0.len(),
                fu0.len() >= n,
                fu0 == old(future)@,
                forall|j: int| n <= j < fu0.len() ==> #[trigger] future@[j] == fu0[j],
                i <= n,
                mask@.len() == olen,
                forall|j: int| 0 <= j < n ==> #[trigger] st0[j] < 32,
                forall|j: int| 0 <= j < i ==> #[trigger] future@[j] == future_of(obs, st0[j]),
                forall|j: int| 0 <= j < i ==> #[trigger] state@[j] == present_of(obs, st0[j]),
                forall|j: int| i <= j < n ==> #[trigger] state@[j] == st0[j],
                forall|j: int|
                    0 <= j < olen ==> (#[trigger] mask@[j] <==> (obs[j] is None || exists|m: int|
                        0 <= m < i && #[trigger] st0[m] == j)),
            decreases n - i,
        {
            let value = state[i];
            if (value as usize) >= olen {
                future[i] = 1i32 << value;
            } else {
                mask.set(value as usize, true);
                match &observations[value as usize] {
                    Some(o) => {
                        future[i] = o.to as i32;
                        state[i] = o.from;
                    },
                    None => {
                        future[i] = 1i32 << value;
                    },
                }
            }
            proof {
                assert forall|j: int|
                    0 <= j < olen implies (#[trigger] mask@[j] <==> (obs[j] is None || exists|m: int|
                        0 <= m < i + 1 && #[trigger] st0[m] == j)) by {
                    if exists|m: int| 0 <= m < i + 1 && #[trigger] st0[m] == j {
                        let m = choose|m: int| 0 <= m < i + 1 && #[trigger] st0[m] == j;
                        if m < i {
                            assert(exists|m2: int| 0 <= m2 < i && #[trigger] st0[m2] == j);
                        }
                    }
                    if exists|m: int| 0 <= m < i && #[trigger] st0[m] == j {
                        let m = choose|m: int| 0 <= m < i && #[trigger] st0[m] == j;
                        assert(0 <= m < i + 1 && st0[m] == j);
                    }
                    if j == st0[i as int] {
                        assert(0 <= i < i + 1 && st0[i as int] == j);
                    }
                }
            }
            i = i + 1;
        }
        let mut k2: usize = 0;
        while k2 < olen
            invariant
                olen == obs.len(),
                obs == observations@,
                mask@.len() == olen,
                k2 <= olen,
                forall|j: int|
                    0 <= j < olen ==> (#[trigger] mask@[j] <==> (obs[j] is None || exists|m: int|
                        0 <= m < n && #[trigger] st0[m] == j)),
                forall|j: int| 0 <= j < k2 ==> #[trigger] mask@[j],
                n == st0.len(),
            decreases olen - k2,
        {
            if !mask[k2] {
                proof {
                    assert(obs[k2 as int] is Some);
                    assert(!(exists|m: int| 0 <= m < n && #[trigger] st0[m] == k2));
                }
                return false;
            }
            k2 = k2 + 1;
        }
        proof {
            assert forall|k: int|
                0 <= k < obs.len() && #[trigger] obs[k] is Some implies exists|i: int|
                    0 <= i < st0.len() && #[trigger] st0[i] == k by {
                assert(mask@[k]);
            }
        }
        true
    }

    /// Whether every present value is allowed by its cell's future wave.
    pub fn is_goal_reached(present: &[u8], future: &[i32]) -> (r: bool)
        requires
            present@.len() <= future@.len(),
            forall|i: int| 0 <= i < present@.len() ==> #[trigger] present@[i] < 32,
        ensures
            r == goal_reached(present@, future@),
    {
        let mut i: usize = 0;
        while i < present.len()
            invariant
                i <= present@.len(),
                present@.len() <= future@.len(),
                forall|j: int| 0 <= j < present@.len() ==> #[trigger] present@[j] < 32,
                forall|j: int| 0 <= j < i ==> (1i32 << #[trigger] present@[j]) & future@[j] != 0,
            decreases present@.len() - i,
        {
            let value_wave = 1i32 << present[i];
            if value_wave & future[i] == 0 {
                return false;
            }
            i = i + 1;
        }
        true
    }

    /// Sum over cells of the smallest reachable potential among the values the future
    /// allows there; -1 when some cell has no reachable allowed value.
    pub fn forward_pointwise(potentials: &[Vec<i32>], future: &[i32]) -> (r: i32)
        requires
            rows_cover(potentials@, future@.len() as int),
            forall|k: int|
                0 <= k <= future@.len() && (forall|j: int|
                    0 <= j < k ==> #[trigger] min_allowed(potentials@, future@[j], j, potentials@.len() as int) != 1000)
                    ==> #[trigger] forward_sum(potentials@, future@, k) <= i32::MAX,
        ensures
            r == (if exists|i: int|
                0 <= i < future@.len() && #[trigger] min_allowed(potentials@, future@[i], i, potentials@.len() as int)
                    == 1000 {
                -1i32
            } else {
                forward_sum(potentials@, future@, future@.len() as int) as i32
            }),
    {
        let ghost p = potentials@;
        let n = future.len();
        let pc = potentials.len();
        let mut sum: i32 = 0;
        let mut i: usize = 0;
        while i < n
            invariant
                p == potentials@,
                n == future@.len(),
                pc == p.len(),
                rows_cover(p, n as int),
                forall|k: int|
                    0 <= k <= n && (forall|j: int|
                        0 <= j < k ==> #[trigger] min_allowed(p, future@[j], j, pc as int) != 1000)
                        ==> #[trigger] forward_sum(p, future@, k) <= i32::MAX,
                i <= n,
                forall|j: int| 0 <= j < i ==> #[trigger] min_allowed(p, future@[j], j, pc as int) != 1000,
                sum == forward_sum(p, future@, i as int),
                0 <= sum,
            decreases n - i,
        {
            let mut f = future[i];
            let mut min: i32 = 1000;
            let mut found = false;
            let mut c: usize = 0;
            while c < pc
                invariant
                    p == potentials@,
                    pc == p.len(),
                    rows_cover(p, n as int),
                    i < n,
                    n == future@.len(),
                    c <= pc,
                    f == shr_n(future@[i as int], c as int),
                    min == min_allowed(p, future@[i as int], i as int, c as int),
                    0 <= min <= 1000,
                    found == (min != 1000),
                decreases pc - c,
            {
                let potential = potentials[c][i];
                if f & 1 == 1 && potential >= 0 && potential < min {
                    min = potential;
                    found = true;
                }
                f = f >> 1u32;
                c = c + 1;
            }
            if !found {
                assert(min_allowed(p, future@[i as int], i as int, pc as int) == 1000);
                return -1;
            }
            proof {
                assert forall|j: int| 0 <= j < i + 1 implies #[trigger] min_allowed(p, future@[j], j, pc as int) != 1000 by {
                }
                assert(forward_sum(p, future@, i + 1) <= i32::MAX);
            }
            sum = sum + min;
            i = i + 1;
        }
        sum
    }

    /// Sum over cells of the potential of the present value; -1 when a present value has
    /// no row or a negative potential.
    pub fn backward_pointwise(potentials: &[Vec<i32>], present: &[u8]) -> (r: i32)
        requires
            rows_cover(potentials@, present@.len() as int),
            forall|k: int|
                0 <= k <= present@.len() && (forall|j: int|
                    0 <= j < k ==> (#[trigger] present@[j] as int) < potentials@.len() && potentials@[present@[j] as int]@[j]
                        >= 0) ==> #[trigger] backward_sum(potentials@, present@, k) <= i32::MAX,
        ensures
            r == (if exists|i: int|
                0 <= i < present@.len() && ((#[trigger] present@[i] as int) >= potentials@.len()
                    || potentials@[present@[i] as int]@[i] < 0) {
                -1i32
            } else {
                backward_sum(potentials@, present@, present@.len() as int) as i32
            }),
    {
        let ghost p = potentials@;
        let n = present.len();
        let mut sum: i32 = 0;
        let mut i: usize = 0;
        while i < n
            invariant
                p == potentials@,
                n == present@.len(),
                rows_cover(p, n as int),
                forall|k: int|
                    0 <= k <= present@.len() && (forall|j: int|
                        0 <= j < k ==> (#[trigger] present@[j] as int) < p.len() && p[present@[j] as int]@[j] >= 0)
                        ==> #[trigger] backward_sum(p, present@, k) <= i32::MAX,
                i <= n,
                forall|j: int| 0 <= j < i ==> (#[trigger] present@[j] as int) < p.len() && p[present@[j] as int]@[j] >= 0,
                sum == backward_sum(p, present@, i as int),
                0 <= sum,
            decreases n - i,
        {
            let value = present[i] as usize;
            if value >= potentials.len() {
                return -1;
            }
            let potential = potentials[value][i];
            if potential < 0 {
                return -1;
            }
            proof {
                assert forall|j: int| 0 <= j < i + 1 implies (#[trigger] present@[j] as int) < p.len() && p[present@[j] as int]@[j] >= 0 by {
                }
                assert(backward_sum(p, present@, i + 1) <= i32::MAX);
            }
            sum = sum + potential;
            i = i + 1;
        }
        sum
    }

    /// Whether every non-wildcard cell of the matched pattern at (x, y, z) has a potential
    /// in [0, t] (the input forward, the output backward).
    pub fn forward_matches(
        rule: &MjRule,
        x: usize,
        y: usize,
        z: usize,
        potentials: &[Vec<i32>],
        t: i32,
        mx: usize,
        my: usize,
        backwards: bool,
    ) -> (r: bool)
        requires
            rule.wf(),
            rule.same_size(),
            rule_values_below(rule, potentials@.len() as int),
            block_fits(rule, x as int, y as int, z as int, mx as int, my as int, potentials@[0]@.len() as int),
            potentials@.len() > 0,
            rows_len(potentials@, potentials@[0]@.len() as int),
        ensures
            r == potentials_match(rule, x as int, y as int, z as int, potentials@, t as int, mx as int, my as int, backwards),
    {
        let ghost p = potentials@;
        let ghost n = p[0]@.len() as int;
        let ghost mz = z + rule.imz;
        proof {
            lemma_idx3_bound(0, 0, 0, rule.imx as int, rule.imy as int, rule.imz as int);
            lemma_idx3_bound(x as int, y as int, z as int, mx as int, my as int, mz);
            assert(mx * my * mz == mz * (mx * my)) by (nonlinear_arith);
            assert(mz <= mz * (mx * my)) by (nonlinear_arith)
                requires
                    mx * my >= 1,
                    mz >= 0,
            ;
        }
        let a: &Vec<u8> = if backwards {
            &rule.output
        } else {
            &rule.binput
        };
        let alen = a.len();
        let ilen = rule.input.len();
        let rlen = potentials[0].len();
        let plane = rule.imx * rule.imy;
        let gplane = mx * my;
        let mut di: usize = 0;
        while di < alen
            invariant
                rule.wf(),
                rule.same_size(),
                rule_values_below(rule, p.len() as int),
                p == potentials@,
                p.len() > 0,
                n == p[0]@.len(),
                rlen == n,
                ilen == rule.input@.len(),
                rows_len(p, n),
                a@ == match_pattern(rule, backwards),
                alen == a@.len(),
                alen == rule.imx * rule.imy * rule.imz,
                mz == z + rule.imz,
                mx > 0 && my > 0,
                x + rule.imx <= mx,
                y + rule.imy <= my,
                mz * (mx * my) <= n,
                mx * my * mz <= n,
                mz <= n,
                plane == rule.imx * rule.imy,
                gplane == mx * my,
                di <= alen,
                forall|k: int|
                    0 <= k < di && #[trigger] a@[k] != 0xff ==> {
                        let q = p[a@[k] as int]@[block_cell(mx as int, my as int, rule, x as int, y as int, z as int, k)];
                        q != -1 && q <= t
                    },
            decreases alen - di,
        {
            proof {
                lemma_idx3_inverse(di as int, rule.imx as int, rule.imy as int);
                lemma_plane_div_bound(di as int, rule.imx as int, rule.imy as int, rule.imz as int);
                let d = coord_of(di as int, rule.imx as int, rule.imy as int);
                lemma_idx3_bound(x + d.0, y + d.1, z + d.2, mx as int, my as int, mz);
            }
            let value = a[di];
            if value != 0xff {
                let dx = di % rule.imx;
                let dy = (di / rule.imx) % rule.imy;
                let dz = di / plane;
                proof {
                    let d = coord_of(di as int, rule.imx as int, rule.imy as int);
                    assert(dx == d.0 && dy == d.1 && dz == d.2);
                }
                let idx = (x + dx) + (y + dy) * mx + (z + dz) * gplane;
                assert(idx == block_cell(mx as int, my as int, rule, x as int, y as int, z as int, di as int));
                let current = potentials[value as usize][idx];
                if current > t || current == -1 {
                    return false;
                }
            }
            di = di + 1;
        }
        true
    }
}

proof fn lemma_total_update(rows: Seq<Seq<i32>>, c0: int, i: int, v: i32, c: int)
    requires
        0 <= c <= rows.len(),
        0 <= c0 < rows.len(),
        0 <= i < rows[c0].len(),
        rows[c0][i] < 0,
        v >= 0,
    ensures
        total_reached(rows.update(c0, rows[c0].update(i, v)), c) == total_reached(rows, c) + if c0 < c {
            1int
        } else {
            0int
        },
    decreases c,
{
    let rows2 = rows.update(c0, rows[c0].update(i, v));
    if c > 0 {
        lemma_total_update(rows, c0, i, v, c - 1);
        if c - 1 == c0 {
            lemma_reached_update(rows[c0], rows[c0].len() as int, i, v);
        } else {
            assert(rows2[c - 1] == rows[c - 1]);
        }
    }
}

proof fn lemma_total_bound(rows: Seq<Seq<i32>>, c: int, n: int)
    requires
        0 <= c <= rows.len(),
        n >= 0,
        forall|k: int| 0 <= k < rows.len() ==> (#[trigger] rows[k]).len() == n,
    ensures
        0 <= total_reached(rows, c) <= c * n,
    decreases c,
{
    if c > 0 {
        lemma_total_bound(rows, c - 1, n);
        lemma_reached_bound(rows[c - 1], n, 0);
        assert((c - 1) * n + n == c * n) by (nonlinear_arith);
    }
}

/// Every queue entry names a row and an in-grid cell, reached no later than its position.
pub open spec fn pqueue_ok(q: Seq<(u8, i32, i32, i32)>, rows: Seq<Seq<i32>>, mx: int, my: int, mz: int) -> bool {
    forall|k: int| 0 <= k < q.len() ==> {
        let e = #[trigger] q[k];
        &&& (e.0 as int) < rows.len()
        &&& 0 <= e.1 < mx && 0 <= e.2 < my && 0 <= e.3 < mz
        &&& 0 <= rows[e.0 as int][idx3(e.1 as int, e.2 as int, e.3 as int, mx, my)] <= k
    }
}

/// The potential of a queued (value, cell) entry.
pub open spec fn qpot(e: (u8, i32, i32, i32), p: Seq<Vec<i32>>, mx: int, my: int) -> int {
    p[e.0 as int]@[idx3(e.1 as int, e.2 as int, e.3 as int, mx, my)] as int
}

/// Whether the entry (value `c`, cell `i`) is in the queue.
pub open spec fn entry_queued(q: Seq<(u8, i32, i32, i32)>, c: int, i: int, mx: int, my: int) -> bool {
    exists|k: int| 0 <= k < q.len() && (#[trigger] q[k]).0 as int == c && idx3(q[k].1 as int, q[k].2 as int, q[k].3 as int, mx, my) == i
}

/// Every reached entry of the first `n` cells is in the queue.
pub open spec fn reached_queued(p: Seq<Vec<i32>>, q: Seq<(u8, i32, i32, i32)>, n: int, mx: int, my: int) -> bool {
    forall|c: int, i: int| 0 <= c < p.len() && 0 <= i < n && #[trigger] p[c]@[i] >= 0 ==> entry_queued(q, c, i, mx, my)
}

/// The queue is in order of potential, and its last entry is at most one above the entry at
/// `head`.
pub open spec fn queue_sorted(q: Seq<(u8, i32, i32, i32)>, p: Seq<Vec<i32>>, mx: int, my: int, head: int) -> bool {
    &&& forall|a: int, b: int| 0 <= a <= b < q.len() ==> #[trigger] qpot(q[a], p, mx, my) <= #[trigger] qpot(q[b], p, mx, my)
    &&& 0 <= head < q.len() ==> qpot(q[q.len() - 1], p, mx, my) <= qpot(q[head], p, mx, my) + 1
}

/// The offsets of a rule's pattern cells that hold value `v`: the input's when propagating
/// forward, the output's when propagating backward.
pub open spec fn shift_table(rule: &MjRule, v: int, backwards: bool) -> Seq<(i32, i32, i32)> {
    let t = if backwards { rule.oshifts@ } else { rule.ishifts@ };
    if 0 <= v < t.len() {
        t[v]@
    } else {
        Seq::empty()
    }
}

/// The rule block at (x, y, z) lies inside an `mx` by `my` by `mz` grid.
pub open spec fn block_in(rule: &MjRule, x: int, y: int, z: int, mx: int, my: int, mz: int) -> bool {
    0 <= x && 0 <= y && 0 <= z && x + rule.imx <= mx && y + rule.imy <= my && z + rule.imz <= mz
}

/// Every non-wildcard cell of the written pattern at (x, y, z) is reached.
pub open spec fn written_reached(rule: &MjRule, x: int, y: int, z: int, p: Seq<Vec<i32>>, mx: int, my: int, backwards: bool) -> bool {
    let a = write_pattern(rule, backwards);
    forall|di: int| 0 <= di < a.len() && #[trigger] a[di] != 0xff ==> p[a[di] as int]@[block_cell(mx, my, rule, x, y, z, di)] >= 0
}

/// Every non-wildcard cell of the written pattern at (x, y, z) is reached, with a
/// potential of at most `bound`.
pub open spec fn written_le(rule: &MjRule, x: int, y: int, z: int, p: Seq<Vec<i32>>, bound: int, mx: int, my: int, backwards: bool) -> bool {
    let a = write_pattern(rule, backwards);
    forall|di: int|
        0 <= di < a.len() && #[trigger] a[di] != 0xff ==> 0 <= p[a[di] as int]@[block_cell(mx, my, rule, x, y, z, di)] <= bound
}

/// The rule placed so that its shift `s` lies on cell (x, y, z) was settled at threshold
/// `t`: outside the grid, not matching with potentials up to `t`, or with every cell it
/// writes reached with a potential of at most `t + 1`.
pub open spec fn pos_done(
    rule: &MjRule,
    p: Seq<Vec<i32>>,
    x: int,
    y: int,
    z: int,
    s: (i32, i32, i32),
    t: int,
    mx: int,
    my: int,
    mz: int,
    backwards: bool,
) -> bool {
    let sx = x - s.0;
    let sy = y - s.1;
    let sz = z - s.2;
    block_in(rule, sx, sy, sz, mx, my, mz) ==> (written_le(rule, sx, sy, sz, p, t + 1, mx, my, backwards) || !potentials_match(
        rule,
        sx,
        sy,
        sz,
        p,
        t,
        mx,
        my,
        backwards,
    ))
}

/// The first `jlim` placements of rule `r` over entry `e` are settled at the entry's potential.
pub open spec fn rule_done(
    rules: Seq<MjRule>,
    r: int,
    p: Seq<Vec<i32>>,
    e: (u8, i32, i32, i32),
    jlim: int,
    mx: int,
    my: int,
    mz: int,
    backwards: bool,
) -> bool {
    let tb = shift_table(&rules[r], e.0 as int, backwards);
    forall|j: int|
        0 <= j < jlim && j < tb.len() ==> pos_done(
            &rules[r],
            p,
            e.1 as int,
            e.2 as int,
            e.3 as int,
            #[trigger] tb[j],
            qpot(e, p, mx, my),
            mx,
            my,
            mz,
            backwards,
        )
}

/// Every placement of every rule over entry `e` is settled.
pub open spec fn entry_done(rules: Seq<MjRule>, p: Seq<Vec<i32>>, e: (u8, i32, i32, i32), mx: int, my: int, mz: int, backwards: bool) -> bool {
    forall|r: int|
        0 <= r < rules.len() ==> #[trigger] rule_done(
            rules,
            r,
            p,
            e,
            shift_table(&rules[r], e.0 as int, backwards).len() as int,
            mx,
            my,
            mz,
            backwards,
        )
}

/// Every applied placement has its written cells reached.
pub open spec fn mask_written(rules: Seq<MjRule>, mask: Seq<Vec<bool>>, p: Seq<Vec<i32>>, mx: int, my: int, mz: int, backwards: bool) -> bool {
    forall|r: int, x: int, y: int, z: int|
        0 <= r < rules.len() && block_in(&rules[r], x, y, z, mx, my, mz) && #[trigger] mask[r]@[idx3(x, y, z, mx, my)]
            ==> written_reached(&rules[r], x, y, z, p, mx, my, backwards)
}

/// The potentials are closed under the rules: for every reached entry (value `c` at cell
/// (x, y, z), potential `t`) and every placement of a rule that puts a pattern cell holding
/// `c` on that cell, when the rule's matched pattern there is reached with potentials at
/// most `t`, the cells it writes are reached, with potentials of at most `t + 1`.
pub open spec fn potentials_closed(rules: Seq<MjRule>, p: Seq<Vec<i32>>, mx: int, my: int, mz: int, backwards: bool) -> bool {
    forall|c: int, x: int, y: int, z: int, r: int, j: int|
        #![trigger p[c]@[idx3(x, y, z, mx, my)], shift_table(&rules[r], c, backwards)[j]]
        0 <= c < p.len() && 0 <= x < mx && 0 <= y < my && 0 <= z < mz && 0 <= r < rules.len() && p[c]@[idx3(
            x,
            y,
            z,
            mx,
            my,
        )] >= 0 && 0 <= j < shift_table(&rules[r], c, backwards).len() ==> {
            let s = shift_table(&rules[r], c, backwards)[j];
            let sx = x - s.0;
            let sy = y - s.1;
            let sz = z - s.2;
            block_in(&rules[r], sx, sy, sz, mx, my, mz) && potentials_match(
                &rules[r],
                sx,
                sy,
                sz,
                p,
                p[c]@[idx3(x, y, z, mx, my)] as int,
                mx,
                my,
                backwards,
            ) ==> written_le(&rules[r], sx, sy, sz, p, p[c]@[idx3(x, y, z, mx, my)] + 1, mx, my, backwards)
        }
}

/// Closed potentials propagate through every rule: where a rule, placed so that one of its
/// cells lies on a reached entry of potential `t`, fits the grid and sees only reached
/// entries of potential at most `t` under its input, every entry it writes is reached
/// (never left at -1) with a potential of at most `t + 1`.
pub proof fn lemma_potentials_propagate(
    rules: Seq<MjRule>,
    p: Seq<Vec<i32>>,
    mx: int,
    my: int,
    mz: int,
    backwards: bool,
    c: int,
    x: int,
    y: int,
    z: int,
    r: int,
    j: int,
    di: int,
)
    requires
        potentials_closed(rules, p, mx, my, mz, backwards),
        0 <= c < p.len(),
        0 <= x < mx,
        0 <= y < my,
        0 <= z < mz,
        0 <= r < rules.len(),
        p[c]@[idx3(x, y, z, mx, my)] >= 0,
        0 <= j < shift_table(&rules[r], c, backwards).len(),
        block_in(
            &rules[r],
            x - shift_table(&rules[r], c, backwards)[j].0,
            y - shift_table(&rules[r], c, backwards)[j].1,
            z - shift_table(&rules[r], c, backwards)[j].2,
            mx,
            my,
            mz,
        ),
        potentials_match(
            &rules[r],
            x - shift_table(&rules[r], c, backwards)[j].0,
            y - shift_table(&rules[r], c, backwards)[j].1,
            z - shift_table(&rules[r], c, backwards)[j].2,
            p,
            p[c]@[idx3(x, y, z, mx, my)] as int,
            mx,
            my,
            backwards,
        ),
        0 <= di < write_pattern(&rules[r], backwards).len(),
        write_pattern(&rules[r], backwards)[di] != 0xff,
    ensures
        ({
            let s = shift_table(&rules[r], c, backwards)[j];
            let v = write_pattern(&rules[r], backwards)[di] as int;
            let q = p[v]@[block_cell(mx, my, &rules[r], x - s.0, y - s.1, z - s.2, di)];
            q != -1 && 0 <= q <= p[c]@[idx3(x, y, z, mx, my)] + 1
        }),
{
    let t = p[c]@[idx3(x, y, z, mx, my)];
    let s = shift_table(&rules[r], c, backwards)[j];
    assert(written_le(&rules[r], x - s.0, y - s.1, z - s.2, p, t + 1, mx, my, backwards));
}

/// Rows that changed only by giving unreached entries potentials above `t`.
pub open spec fn raised_above(before: Seq<Vec<i32>>, after: Seq<Vec<i32>>, t: int) -> bool {
    &&& after.len() == before.len()
    &&& forall|c: int| 0 <= c < before.len() ==> (#[trigger] after[c])@.len() == before[c]@.len()
    &&& forall|c: int, i: int|
        0 <= c < before.len() && 0 <= i < before[c]@.len() ==> #[trigger] after[c]@[i] == before[c]@[i] || (before[c]@[i]
            == -1 && after[c]@[i] > t)
}

/// A match that fails at threshold `t` still fails after entries are raised above `t`.
proof fn lemma_match_stable(rule: &MjRule, x: int, y: int, z: int, before: Seq<Vec<i32>>, after: Seq<Vec<i32>>, t: int, mx: int, my: int, backwards: bool)
    requires
        raised_above(before, after, t),
        potentials_match(rule, x, y, z, after, t, mx, my, backwards),
        forall|di: int|
            0 <= di < match_pattern(rule, backwards).len() && #[trigger] match_pattern(rule, backwards)[di] != 0xff ==> (match_pattern(
                rule,
                backwards,
            )[di] as int) < before.len() && 0 <= block_cell(mx, my, rule, x, y, z, di) < before[match_pattern(rule, backwards)[di] as int]@.len(),
    ensures
        potentials_match(rule, x, y, z, before, t, mx, my, backwards),
{
    let a = match_pattern(rule, backwards);
    assert forall|di: int| 0 <= di < a.len() && #[trigger] a[di] != 0xff implies {
        let q = before[a[di] as int]@[block_cell(mx, my, rule, x, y, z, di)];
        q != -1 && q <= t
    } by {
        let c = a[di] as int;
        let i = block_cell(mx, my, rule, x, y, z, di);
        assert(after[c]@[i] == before[c]@[i] || (before[c]@[i] == -1 && after[c]@[i] > t));
    }
}

/// Every cell of a rule block inside the grid has an index inside the grid.
proof fn lemma_block_cell_in(rule: &MjRule, x: int, y: int, z: int, mx: int, my: int, mz: int, di: int)
    requires
        rule.wf(),
        block_in(rule, x, y, z, mx, my, mz),
        0 <= di < rule.imx * rule.imy * rule.imz,
    ensures
        0 <= block_cell(mx, my, rule, x, y, z, di) < mx * my * mz,
{
    lemma_idx3_inverse(di, rule.imx as int, rule.imy as int);
    lemma_plane_div_bound(di, rule.imx as int, rule.imy as int, rule.imz as int);
    let d = coord_of(di, rule.imx as int, rule.imy as int);
    lemma_idx3_bound(x + d.0, y + d.1, z + d.2, mx, my, mz);
}

/// A placement settled before entries were raised above its threshold, and before more
/// placements were applied, stays settled.
proof fn lemma_done_stable(
    rules: Seq<MjRule>,
    r: int,
    pb: Seq<Vec<i32>>,
    pa: Seq<Vec<i32>>,
    e: (u8, i32, i32, i32),
    jlim: int,
    mx: int,
    my: int,
    mz: int,
    backwards: bool,
)
    requires
        0 <= r < rules.len(),
        propagation_rule(&rules[r], pb.len() as int),
        rows_len(pb, mx * my * mz),
        mx > 0 && my > 0 && mz > 0,
        (e.0 as int) < pb.len(),
        0 <= e.1 < mx && 0 <= e.2 < my && 0 <= e.3 < mz,
        qpot(e, pb, mx, my) >= 0,
        raised_above(pb, pa, qpot(e, pb, mx, my)),
        rule_done(rules, r, pb, e, jlim, mx, my, mz, backwards),
    ensures
        rule_done(rules, r, pa, e, jlim, mx, my, mz, backwards),
        qpot(e, pa, mx, my) == qpot(e, pb, mx, my),
{
    lemma_idx3_bound(e.1 as int, e.2 as int, e.3 as int, mx, my, mz);
    let t = qpot(e, pb, mx, my);
    let ci = idx3(e.1 as int, e.2 as int, e.3 as int, mx, my);
    assert(pa[e.0 as int]@[ci] == pb[e.0 as int]@[ci]);
    let rule = &rules[r];
    let tb = shift_table(rule, e.0 as int, backwards);
    assert forall|j: int| 0 <= j < jlim && j < tb.len() implies pos_done(
        rule,
        pa,
        e.1 as int,
        e.2 as int,
        e.3 as int,
        #[trigger] tb[j],
        qpot(e, pa, mx, my),
        mx,
        my,
        mz,
        backwards,
    ) by {
        assert(pos_done(rule, pb, e.1 as int, e.2 as int, e.3 as int, tb[j], t, mx, my, mz, backwards));
        let s = tb[j];
        let sx = e.1 - s.0;
        let sy = e.2 - s.1;
        let sz = e.3 - s.2;
        if block_in(rule, sx, sy, sz, mx, my, mz) {
            lemma_idx3_bound(sx, sy, sz, mx, my, mz);
            if written_le(rule, sx, sy, sz, pb, t + 1, mx, my, backwards) {
                lemma_written_le_stable(rule, sx, sy, sz, pb, pa, t, t + 1, mx, my, mz, backwards);
            } else {
                if potentials_match(rule, sx, sy, sz, pa, t, mx, my, backwards) {
                    assert forall|di: int|
                        0 <= di < match_pattern(rule, backwards).len() && #[trigger] match_pattern(rule, backwards)[di] != 0xff
                            implies (match_pattern(rule, backwards)[di] as int) < pb.len() && 0 <= block_cell(mx, my, rule, sx, sy, sz, di)
                            < pb[match_pattern(rule, backwards)[di] as int]@.len() by {
                        lemma_block_cell_in(rule, sx, sy, sz, mx, my, mz, di);
                    }
                    lemma_match_stable(rule, sx, sy, sz, pb, pa, t, mx, my, backwards);
                }
            }
        }
    }
}

/// Written cells stay reached, with the same potentials, when entries are only raised.
proof fn lemma_written_le_stable(
    rule: &MjRule,
    x: int,
    y: int,
    z: int,
    pb: Seq<Vec<i32>>,
    pa: Seq<Vec<i32>>,
    t: int,
    bound: int,
    mx: int,
    my: int,
    mz: int,
    backwards: bool,
)
    requires
        rule.wf(),
        rule.same_size(),
        rule_values_below(rule, pb.len() as int),
        block_in(rule, x, y, z, mx, my, mz),
        rows_len(pb, mx * my * mz),
        raised_above(pb, pa, t),
        written_le(rule, x, y, z, pb, bound, mx, my, backwards),
    ensures
        written_le(rule, x, y, z, pa, bound, mx, my, backwards),
{
    let a = write_pattern(rule, backwards);
    assert forall|di: int| 0 <= di < a.len() && #[trigger] a[di] != 0xff implies 0 <= pa[a[di] as int]@[block_cell(
        mx,
        my,
        rule,
        x,
        y,
        z,
        di,
    )] <= bound by {
        lemma_block_cell_in(rule, x, y, z, mx, my, mz, di);
        let c = a[di] as int;
        let i = block_cell(mx, my, rule, x, y, z, di);
        assert(pa[c]@[i] == pb[c]@[i] || (pb[c]@[i] == -1 && pa[c]@[i] > t));
    }
}

/// While the entry at `head` is processed, every reached entry has a potential of at most
/// one more than it.
proof fn lemma_reached_le(p: Seq<Vec<i32>>, q: Seq<(u8, i32, i32, i32)>, head: int, mx: int, my: int, mz: int)
    requires
        mx > 0 && my > 0 && mz > 0,
        rows_len(p, mx * my * mz),
        reached_queued(p, q, mx * my * mz, mx, my),
        queue_sorted(q, p, mx, my, head),
        0 <= head < q.len(),
    ensures
        forall|c: int, i: int|
            0 <= c < p.len() && 0 <= i < mx * my * mz && #[trigger] p[c]@[i] >= 0 ==> p[c]@[i] <= qpot(q[head], p, mx, my) + 1,
{
    assert forall|c: int, i: int| 0 <= c < p.len() && 0 <= i < mx * my * mz && #[trigger] p[c]@[i] >= 0 implies p[c]@[i]
        <= qpot(q[head], p, mx, my) + 1 by {
        let k = choose|k: int| 0 <= k < q.len() && (#[trigger] q[k]).0 as int == c && idx3(q[k].1 as int, q[k].2 as int, q[k].3 as int, mx, my) == i;
        assert(qpot(q[k], p, mx, my) <= qpot(q[q.len() - 1], p, mx, my));
    }
}

/// Cells that are reached, each with a potential of at most `bound`, are written at most
/// `bound`.
proof fn lemma_written_le_from(rule: &MjRule, x: int, y: int, z: int, p: Seq<Vec<i32>>, bound: int, mx: int, my: int, mz: int, backwards: bool)
    requires
        rule.wf(),
        rule.same_size(),
        rule_values_below(rule, p.len() as int),
        block_in(rule, x, y, z, mx, my, mz),
        written_reached(rule, x, y, z, p, mx, my, backwards),
        forall|c: int, i: int| 0 <= c < p.len() && 0 <= i < mx * my * mz && #[trigger] p[c]@[i] >= 0 ==> p[c]@[i] <= bound,
    ensures
        written_le(rule, x, y, z, p, bound, mx, my, backwards),
{
    let a = write_pattern(rule, backwards);
    assert forall|di: int| 0 <= di < a.len() && #[trigger] a[di] != 0xff implies 0 <= p[a[di] as int]@[block_cell(
        mx,
        my,
        rule,
        x,
        y,
        z,
        di,
    )] <= bound by {
        lemma_block_cell_in(rule, x, y, z, mx, my, mz, di);
    }
}

/// Applying a placement raises only unreached entries, to `t + 1`, and reaches every cell
/// it writes.
proof fn lemma_apply_effect(
    rule: &MjRule,
    x: int,
    y: int,
    z: int,
    pb: Seq<Vec<i32>>,
    pa: Seq<Vec<i32>>,
    t: int,
    mx: int,
    my: int,
    mz: int,
    backwards: bool,
)
    requires
        rule.wf(),
        rule.same_size(),
        rule_values_below(rule, pb.len() as int),
        block_in(rule, x, y, z, mx, my, mz),
        rows_len(pb, mx * my * mz),
        pa.len() == pb.len(),
        rows_view(pa) == spec_apply_potentials(rule, x, y, z, rows_view(pb), t, mx, my, backwards),
        forall|c: int, i: int| 0 <= c < pb.len() && 0 <= i < pb[c]@.len() ==> #[trigger] pb[c]@[i] >= -1,
        0 <= t < i32::MAX,
    ensures
        raised_above(pb, pa, t),
        written_reached(rule, x, y, z, pa, mx, my, backwards),
{
    assert forall|c: int| 0 <= c < pb.len() implies (#[trigger] pa[c])@.len() == pb[c]@.len() by {
        assert(rows_view(pa)[c] == pa[c]@);
    }
    assert forall|c: int, i: int| 0 <= c < pb.len() && 0 <= i < pb[c]@.len() implies #[trigger] pa[c]@[i] == pb[c]@[i] || (pb[c]@[i]
        == -1 && pa[c]@[i] > t) by {
        assert(rows_view(pa)[c] == pa[c]@);
        assert(rows_view(pb)[c] == pb[c]@);
    }
    let a = write_pattern(rule, backwards);
    assert forall|di: int| 0 <= di < a.len() && #[trigger] a[di] != 0xff implies pa[a[di] as int]@[block_cell(mx, my, rule, x, y, z, di)]
        >= 0 by {
        lemma_block_cell_in(rule, x, y, z, mx, my, mz, di);
        let c = a[di] as int;
        let i = block_cell(mx, my, rule, x, y, z, di);
        assert(rows_view(pa)[c] == pa[c]@);
        assert(rows_view(pb)[c] == pb[c]@);
        assert(0 <= di < a.len() && a[di] != 0xff && a[di] as int == c && block_cell(mx, my, rule, x, y, z, di) == i);
    }
}

/// Entries raised above `t` are raised above any smaller threshold.
proof fn lemma_raised_weaken(pb: Seq<Vec<i32>>, pa: Seq<Vec<i32>>, t: int, t2: int)
    requires
        raised_above(pb, pa, t),
        t2 <= t,
    ensures
        raised_above(pb, pa, t2),
{
}

/// Written cells stay reached when entries are only raised.
proof fn lemma_written_stable(rule: &MjRule, x: int, y: int, z: int, pb: Seq<Vec<i32>>, pa: Seq<Vec<i32>>, t: int, mx: int, my: int, mz: int, backwards: bool)
    requires
        rule.wf(),
        rule.same_size(),
        rule_values_below(rule, pb.len() as int),
        block_in(rule, x, y, z, mx, my, mz),
        rows_len(pb, mx * my * mz),
        raised_above(pb, pa, t),
        written_reached(rule, x, y, z, pb, mx, my, backwards),
    ensures
        written_reached(rule, x, y, z, pa, mx, my, backwards),
{
    let a = write_pattern(rule, backwards);
    assert forall|di: int| 0 <= di < a.len() && #[trigger] a[di] != 0xff implies pa[a[di] as int]@[block_cell(mx, my, rule, x, y, z, di)]
        >= 0 by {
        lemma_block_cell_in(rule, x, y, z, mx, my, mz, di);
        let c = a[di] as int;
        let i = block_cell(mx, my, rule, x, y, z, di);
        assert(pb[c]@[i] >= 0);
        assert(pa[c]@[i] == pb[c]@[i] || (pb[c]@[i] == -1 && pa[c]@[i] > t));
    }
}

/// Entry (value `c`, cell `i`) is written by rule `r` placed at (x, y, z), as its pattern
/// cell `di`, where the rule's matched pattern is reached with potentials below the entry's.
pub open spec fn entry_written_by(
    rules: Seq<MjRule>,
    p: Seq<Vec<i32>>,
    c: int,
    i: int,
    r: int,
    x: int,
    y: int,
    z: int,
    di: int,
    mx: int,
    my: int,
    mz: int,
    backwards: bool,
) -> bool {
    &&& 0 <= r < rules.len()
    &&& block_in(&rules[r], x, y, z, mx, my, mz)
    &&& 0 <= di < write_pattern(&rules[r], backwards).len()
    &&& write_pattern(&rules[r], backwards)[di] != 0xff
    &&& write_pattern(&rules[r], backwards)[di] as int == c
    &&& block_cell(mx, my, &rules[r], x, y, z, di) == i
    &&& potentials_match(&rules[r], x, y, z, p, p[c]@[i] - 1, mx, my, backwards)
}

/// Every entry with a positive potential `t` is written by some rule placement whose matched
/// pattern is reached with potentials of at most `t - 1`: no entry is set below its
/// distance.
pub open spec fn potentials_justified(rules: Seq<MjRule>, p: Seq<Vec<i32>>, mx: int, my: int, mz: int, backwards: bool) -> bool {
    forall|c: int, i: int|
        0 <= c < p.len() && 0 <= i < p[c]@.len() && #[trigger] p[c]@[i] > 0 ==> exists|r: int, x: int, y: int, z: int, di: int|
            entry_written_by(rules, p, c, i, r, x, y, z, di, mx, my, mz, backwards)
}

/// Whether the entry (value `c`, cell `i`) can be reached from the start entries (those of
/// potential 0 in `p0`) in at most `k` rule applications: it is a start entry, or some rule
/// placement inside the grid writes it while every cell of its matched pattern can be
/// reached in at most `k - 1`.
pub open spec fn reachable_within(
    rules: Seq<MjRule>,
    p0: Seq<Seq<i32>>,
    k: nat,
    c: int,
    i: int,
    mx: int,
    my: int,
    mz: int,
    backwards: bool,
) -> bool
    decreases k,
{
    if k == 0 {
        p0[c][i] == 0
    } else {
        reachable_within(rules, p0, (k - 1) as nat, c, i, mx, my, mz, backwards) || exists|r: int, x: int, y: int, z: int, di: int|
            {
                &&& 0 <= r < rules.len()
                &&& block_in(&rules[r], x, y, z, mx, my, mz)
                &&& 0 <= di < write_pattern(&rules[r], backwards).len()
                &&& write_pattern(&rules[r], backwards)[di] != 0xff
                &&& write_pattern(&rules[r], backwards)[di] as int == c
                &&& #[trigger] block_cell(mx, my, &rules[r], x, y, z, di) == i
                &&& forall|dj: int|
                    0 <= dj < match_pattern(&rules[r], backwards).len() && #[trigger] match_pattern(&rules[r], backwards)[dj]
                        != 0xff ==> reachable_within(
                        rules,
                        p0,
                        (k - 1) as nat,
                        match_pattern(&rules[r], backwards)[dj] as int,
                        block_cell(mx, my, &rules[r], x, y, z, dj),
                        mx,
                        my,
                        mz,
                        backwards,
                    )
            }
    }
}

/// Reaching an entry in `k` applications reaches it in any larger number too.
proof fn lemma_reachable_mono(
    rules: Seq<MjRule>,
    p0: Seq<Seq<i32>>,
    k: nat,
    m: nat,
    c: int,
    i: int,
    mx: int,
    my: int,
    mz: int,
    backwards: bool,
)
    requires
        k <= m,
        reachable_within(rules, p0, k, c, i, mx, my, mz, backwards),
    ensures
        reachable_within(rules, p0, m, c, i, mx, my, mz, backwards),
    decreases m - k,
{
    if k < m {
        assert(reachable_within(rules, p0, (k + 1) as nat, c, i, mx, my, mz, backwards));
        lemma_reachable_mono(rules, p0, (k + 1) as nat, m, c, i, mx, my, mz, backwards);
    }
}

/// Computed potentials are never below the distance: an entry of potential `t` computed
/// from the start rows `p0` (closed under the rules and written only by matched placements)
/// can be reached from the start entries in at most `t` rule applications.
pub proof fn lemma_potential_reachable(
    rules: Seq<MjRule>,
    p0: Seq<Seq<i32>>,
    p: Seq<Vec<i32>>,
    mx: int,
    my: int,
    mz: int,
    backwards: bool,
    c: int,
    i: int,
)
    requires
        forall|q: int| 0 <= q < rules.len() ==> propagation_rule(&#[trigger] rules[q], p.len() as int),
        mx > 0 && my > 0 && mz > 0,
        rows_len(p, mx * my * mz),
        rows_initial(p0),
        rows_grow(p0, rows_view(p)),
        potentials_justified(rules, p, mx, my, mz, backwards),
        0 <= c < p.len(),
        0 <= i < mx * my * mz,
        p[c]@[i] >= 0,
    ensures
        reachable_within(rules, p0, p[c]@[i] as nat, c, i, mx, my, mz, backwards),
    decreases p[c]@[i],
{
    assert(rows_view(p)[c] == p[c]@);
    let t = p[c]@[i];
    if t == 0 {
        assert(p0[c][i] >= 0);
    } else {
        let (r, x, y, z, di) = choose|r: int, x: int, y: int, z: int, di: int|
            entry_written_by(rules, p, c, i, r, x, y, z, di, mx, my, mz, backwards);
        let rule = &rules[r];
        let a = match_pattern(rule, backwards);
        assert forall|dj: int| 0 <= dj < a.len() && #[trigger] a[dj] != 0xff implies reachable_within(
            rules,
            p0,
            (t - 1) as nat,
            a[dj] as int,
            block_cell(mx, my, rule, x, y, z, dj),
            mx,
            my,
            mz,
            backwards,
        ) by {
            lemma_block_cell_in(rule, x, y, z, mx, my, mz, dj);
            let c2 = a[dj] as int;
            let i2 = block_cell(mx, my, rule, x, y, z, dj);
            assert(rows_view(p)[c2] == p[c2]@);
            assert(p[c2]@[i2] != -1 && p[c2]@[i2] <= t - 1);
            assert(p0[c2][i2] == 0 || p0[c2][i2] == -1);
            lemma_potential_reachable(rules, p0, p, mx, my, mz, backwards, c2, i2);
            lemma_reachable_mono(rules, p0, p[c2]@[i2] as nat, (t - 1) as nat, c2, i2, mx, my, mz, backwards);
        }
        assert(block_cell(mx, my, rule, x, y, z, di) == i);
        assert(reachable_within(rules, p0, t as nat, c, i, mx, my, mz, backwards));
    }
}

/// A placement that matches at threshold `t` still matches after entries are raised.
proof fn lemma_match_keep(
    rule: &MjRule,
    x: int,
    y: int,
    z: int,
    pb: Seq<Vec<i32>>,
    pa: Seq<Vec<i32>>,
    t: int,
    t2: int,
    mx: int,
    my: int,
    mz: int,
    backwards: bool,
)
    requires
        rule.wf(),
        rule.same_size(),
        rule_values_below(rule, pb.len() as int),
        block_in(rule, x, y, z, mx, my, mz),
        rows_len(pb, mx * my * mz),
        raised_above(pb, pa, t2),
        forall|c: int, i: int| 0 <= c < pb.len() && 0 <= i < pb[c]@.len() ==> #[trigger] pb[c]@[i] >= -1,
        potentials_match(rule, x, y, z, pb, t, mx, my, backwards),
    ensures
        potentials_match(rule, x, y, z, pa, t, mx, my, backwards),
{
    let a = match_pattern(rule, backwards);
    assert forall|di: int| 0 <= di < a.len() && #[trigger] a[di] != 0xff implies {
        let q = pa[a[di] as int]@[block_cell(mx, my, rule, x, y, z, di)];
        q != -1 && q <= t
    } by {
        lemma_block_cell_in(rule, x, y, z, mx, my, mz, di);
        let c = a[di] as int;
        let i = block_cell(mx, my, rule, x, y, z, di);
        assert(pa[c]@[i] == pb[c]@[i] || (pb[c]@[i] == -1 && pa[c]@[i] > t2));
    }
}

/// Applying a placement that matches at threshold `t` keeps every positive potential
/// written by a matched placement.
proof fn lemma_justified_apply(
    rules: Seq<MjRule>,
    r: int,
    pb: Seq<Vec<i32>>,
    pa: Seq<Vec<i32>>,
    sx: int,
    sy: int,
    sz: int,
    t: int,
    mx: int,
    my: int,
    mz: int,
    backwards: bool,
)
    requires
        0 <= r < rules.len(),
        forall|q: int| 0 <= q < rules.len() ==> propagation_rule(&#[trigger] rules[q], pb.len() as int),
        mx > 0 && my > 0 && mz > 0,
        rows_len(pb, mx * my * mz),
        block_in(&rules[r], sx, sy, sz, mx, my, mz),
        forall|c: int, i: int| 0 <= c < pb.len() && 0 <= i < pb[c]@.len() ==> #[trigger] pb[c]@[i] >= -1,
        pa.len() == pb.len(),
        rows_view(pa) == spec_apply_potentials(&rules[r], sx, sy, sz, rows_view(pb), t, mx, my, backwards),
        potentials_match(&rules[r], sx, sy, sz, pb, t, mx, my, backwards),
        potentials_justified(rules, pb, mx, my, mz, backwards),
        0 <= t < i32::MAX,
    ensures
        potentials_justified(rules, pa, mx, my, mz, backwards),
{
    let rule = &rules[r];
    lemma_apply_effect(rule, sx, sy, sz, pb, pa, t, mx, my, mz, backwards);
    lemma_raised_weaken(pb, pa, t, 0);
    assert forall|c: int, i: int| 0 <= c < pa.len() && 0 <= i < pa[c]@.len() && #[trigger] pa[c]@[i] > 0 implies exists|
        r2: int,
        x: int,
        y: int,
        z: int,
        di: int,
    | entry_written_by(rules, pa, c, i, r2, x, y, z, di, mx, my, mz, backwards) by {
        if pb[c]@[i] >= 0 {
            assert(pa[c]@[i] == pb[c]@[i]);
            let (r2, x, y, z, di) = choose|r2: int, x: int, y: int, z: int, di: int|
                entry_written_by(rules, pb, c, i, r2, x, y, z, di, mx, my, mz, backwards);
            lemma_match_keep(&rules[r2], x, y, z, pb, pa, pb[c]@[i] - 1, 0, mx, my, mz, backwards);
            assert(entry_written_by(rules, pa, c, i, r2, x, y, z, di, mx, my, mz, backwards));
        } else {
            assert(rows_view(pa)[c] == pa[c]@);
            assert(rows_view(pb)[c] == pb[c]@);
            let a = write_pattern(rule, backwards);
            assert(exists|di: int|
                0 <= di < a.len() && a[di] != 0xff && a[di] as int == c && #[trigger] block_cell(mx, my, rule, sx, sy, sz, di) == i);
            let di = choose|di: int|
                0 <= di < a.len() && a[di] != 0xff && a[di] as int == c && #[trigger] block_cell(mx, my, rule, sx, sy, sz, di) == i;
            assert(pa[c]@[i] == t + 1);
            lemma_match_keep(rule, sx, sy, sz, pb, pa, t, 0, mx, my, mz, backwards);
            assert(entry_written_by(rules, pa, c, i, r, sx, sy, sz, di, mx, my, mz, backwards));
        }
    }
}

/// One applied placement keeps the search's invariants: queued reached entries, queue order,
/// applied placements reached, settled entries and rules, and the values at least -1.
#[verifier::rlimit(100)]
proof fn lemma_apply_step(
    rules: Seq<MjRule>,
    r: int,
    qb: Seq<(u8, i32, i32, i32)>,
    qa: Seq<(u8, i32, i32, i32)>,
    head: int,
    mb: Seq<Vec<bool>>,
    ma: Seq<Vec<bool>>,
    pb: Seq<Vec<i32>>,
    pa: Seq<Vec<i32>>,
    sx: int,
    sy: int,
    sz: int,
    t: int,
    j: int,
    mx: int,
    my: int,
    mz: int,
    backwards: bool,
)
    requires
        0 <= r < rules.len(),
        forall|q: int| 0 <= q < rules.len() ==> propagation_rule(&#[trigger] rules[q], pb.len() as int),
        mx > 0 && my > 0 && mz > 0,
        pb.len() >= 1,
        rows_len(pb, mx * my * mz),
        pqueue_ok(qb, rows_view(pb), mx, my, mz),
        0 <= head < qb.len(),
        t == qpot(qb[head], pb, mx, my),
        0 <= t < i32::MAX,
        reached_queued(pb, qb, mx * my * mz, mx, my),
        queue_sorted(qb, pb, mx, my, head),
        mask_written(rules, mb, pb, mx, my, mz, backwards),
        forall|a: int| 0 <= a < head ==> entry_done(rules, pb, #[trigger] qb[a], mx, my, mz, backwards),
        forall|q: int|
            0 <= q < r ==> #[trigger] rule_done(
                rules,
                q,
                pb,
                qb[head],
                shift_table(&rules[q], qb[head].0 as int, backwards).len() as int,
                mx,
                my,
                mz,
                backwards,
            ),
        rule_done(rules, r, pb, qb[head], j, mx, my, mz, backwards),
        forall|c: int, i: int| 0 <= c < pb.len() && 0 <= i < pb[c]@.len() ==> #[trigger] pb[c]@[i] >= -1,
        0 <= j < shift_table(&rules[r], qb[head].0 as int, backwards).len(),
        sx == qb[head].1 - shift_table(&rules[r], qb[head].0 as int, backwards)[j].0,
        sy == qb[head].2 - shift_table(&rules[r], qb[head].0 as int, backwards)[j].1,
        sz == qb[head].3 - shift_table(&rules[r], qb[head].0 as int, backwards)[j].2,
        block_in(&rules[r], sx, sy, sz, mx, my, mz),
        mb.len() == rules.len(),
        forall|k: int| 0 <= k < mb.len() ==> (#[trigger] mb[k])@.len() == mx * my * mz,
        ma.len() == mb.len(),
        forall|k: int| 0 <= k < mb.len() && k != r ==> #[trigger] ma[k] == mb[k],
        ma[r]@ == mb[r]@.update(idx3(sx, sy, sz, mx, my), true),
        pa.len() == pb.len(),
        rows_view(pa) == spec_apply_potentials(&rules[r], sx, sy, sz, rows_view(pb), t, mx, my, backwards),
        qa.len() >= qb.len(),
        qa.subrange(0, qb.len() as int) == qb,
        forall|k: int| qb.len() <= k < qa.len() ==> qpot(#[trigger] qa[k], pa, mx, my) == t + 1,
        new_reached_queued(rows_view(pb), rows_view(pa), qa, qb.len() as int, mx, my),
    ensures
        reached_queued(pa, qa, mx * my * mz, mx, my),
        queue_sorted(qa, pa, mx, my, head),
        mask_written(rules, ma, pa, mx, my, mz, backwards),
        forall|a: int| 0 <= a < head ==> entry_done(rules, pa, #[trigger] qa[a], mx, my, mz, backwards),
        forall|q: int|
            0 <= q < r ==> #[trigger] rule_done(
                rules,
                q,
                pa,
                qa[head],
                shift_table(&rules[q], qa[head].0 as int, backwards).len() as int,
                mx,
                my,
                mz,
                backwards,
            ),
        rule_done(rules, r, pa, qa[head], j + 1, mx, my, mz, backwards),
        forall|c: int, i: int| 0 <= c < pa.len() && 0 <= i < pa[c]@.len() ==> #[trigger] pa[c]@[i] >= -1,
        qpot(qa[head], pa, mx, my) == t,
{
    let n = mx * my * mz;
    let rule = &rules[r];
    let si = idx3(sx, sy, sz, mx, my);
    lemma_idx3_bound(sx, sy, sz, mx, my, mz);
    lemma_apply_effect(rule, sx, sy, sz, pb, pa, t, mx, my, mz, backwards);
    assert forall|k: int| 0 <= k < qb.len() implies #[trigger] qa[k] == qb[k] by {
        assert(qa.subrange(0, qb.len() as int)[k] == qa[k]);
    }
    // entries of the old queue keep their potentials
    assert forall|k: int| 0 <= k < qb.len() implies qpot(#[trigger] qb[k], pa, mx, my) == qpot(qb[k], pb, mx, my) && 0 <= qpot(
        qb[k],
        pb,
        mx,
        my,
    ) by {
        let e = qb[k];
        lemma_idx3_bound(e.1 as int, e.2 as int, e.3 as int, mx, my, mz);
        assert(rows_view(pb)[e.0 as int] == pb[e.0 as int]@);
    }
    // mask grows
    assert forall|q: int, i: int| 0 <= q < mb.len() && 0 <= i < mb[q]@.len() && #[trigger] mb[q]@[i] implies ma[q]@[i] by {
        if q == r {
        }
    }
    // settled entries stay settled
    assert forall|a: int| 0 <= a < head implies entry_done(rules, pa, #[trigger] qa[a], mx, my, mz, backwards) by {
        let e = qb[a];
        assert(qpot(qb[a], pb, mx, my) <= qpot(qb[head], pb, mx, my));
        lemma_raised_weaken(pb, pa, t, qpot(e, pb, mx, my));
        assert(entry_done(rules, pb, e, mx, my, mz, backwards));
        assert forall|q: int| 0 <= q < rules.len() implies #[trigger] rule_done(
            rules,
            q,
            pa,
            e,
            shift_table(&rules[q], e.0 as int, backwards).len() as int,
            mx,
            my,
            mz,
            backwards,
        ) by {
            lemma_done_stable(rules, q, pb, pa, e, shift_table(&rules[q], e.0 as int, backwards).len() as int, mx, my, mz, backwards);
        }
    }
    let e = qb[head];
    assert forall|q: int|
        0 <= q < r implies #[trigger] rule_done(
            rules,
            q,
            pa,
            qa[head],
            shift_table(&rules[q], qa[head].0 as int, backwards).len() as int,
            mx,
            my,
            mz,
            backwards,
        ) by {
        lemma_done_stable(rules, q, pb, pa, e, shift_table(&rules[q], e.0 as int, backwards).len() as int, mx, my, mz, backwards);
    }
    lemma_done_stable(rules, r, pb, pa, e, j, mx, my, mz, backwards);
    // applied placements reach what they write
    assert forall|q: int, x: int, y: int, z: int|
        0 <= q < rules.len() && block_in(&rules[q], x, y, z, mx, my, mz) && #[trigger] ma[q]@[idx3(x, y, z, mx, my)]
            implies written_reached(&rules[q], x, y, z, pa, mx, my, backwards) by {
        lemma_idx3_bound(x, y, z, mx, my, mz);
        if q == r && idx3(x, y, z, mx, my) == si {
            crate::geom::lemma_idx3_injective(x, y, z, sx, sy, sz, mx, my);
        } else {
            assert(mb[q]@[idx3(x, y, z, mx, my)]);
            lemma_written_stable(&rules[q], x, y, z, pb, pa, t, mx, my, mz, backwards);
        }
    }
    // the queue stays in order
    assert forall|a: int, b: int| 0 <= a <= b < qa.len() implies #[trigger] qpot(qa[a], pa, mx, my) <= #[trigger] qpot(
        qa[b],
        pa,
        mx,
        my,
    ) by {
        if b < qb.len() {
        } else if a < qb.len() {
            assert(qpot(qb[a], pb, mx, my) <= qpot(qb[qb.len() - 1], pb, mx, my));
        }
    }
    // reached entries are queued
    assert forall|c: int, i: int| 0 <= c < pa.len() && 0 <= i < n && #[trigger] pa[c]@[i] >= 0 implies entry_queued(qa, c, i, mx, my) by {
        assert(rows_view(pa)[c] == pa[c]@);
        assert(rows_view(pb)[c] == pb[c]@);
        if pb[c]@[i] >= 0 {
            let k = choose|k: int| 0 <= k < qb.len() && (#[trigger] qb[k]).0 as int == c && idx3(qb[k].1 as int, qb[k].2 as int, qb[k].3 as int, mx, my) == i;
            assert(qa[k] == qb[k]);
        } else {
            assert(pb[c]@[i] == -1);
            assert(rows_view(pa)[c][i] != -1);
        }
    }
    lemma_reached_le(pa, qa, head, mx, my, mz);
    assert(qpot(qa[head], pa, mx, my) == t);
    let tb = shift_table(rule, e.0 as int, backwards);
    assert forall|jj: int| 0 <= jj < j + 1 && jj < tb.len() implies pos_done(
        rule,
        pa,
        e.1 as int,
        e.2 as int,
        e.3 as int,
        #[trigger] tb[jj],
        qpot(e, pa, mx, my),
        mx,
        my,
        mz,
        backwards,
    ) by {
        if jj == j {
            lemma_written_le_from(rule, sx, sy, sz, pa, t + 1, mx, my, mz, backwards);
        }
    }
}

/// When every queued entry is settled and every reached entry is queued, the potentials are
/// closed under the rules.
proof fn lemma_closed_at_end(
    rules: Seq<MjRule>,
    mask: Seq<Vec<bool>>,
    p: Seq<Vec<i32>>,
    q: Seq<(u8, i32, i32, i32)>,
    mx: int,
    my: int,
    mz: int,
    backwards: bool,
)
    requires
        mx > 0 && my > 0 && mz > 0,
        rows_len(p, mx * my * mz),
        pqueue_ok(q, rows_view(p), mx, my, mz),
        reached_queued(p, q, mx * my * mz, mx, my),
        forall|a: int| 0 <= a < q.len() ==> entry_done(rules, p, #[trigger] q[a], mx, my, mz, backwards),
        mask_written(rules, mask, p, mx, my, mz, backwards),
    ensures
        potentials_closed(rules, p, mx, my, mz, backwards),
{
    assert forall|c: int, x: int, y: int, z: int, r: int, j: int|
        #![trigger p[c]@[idx3(x, y, z, mx, my)], shift_table(&rules[r], c, backwards)[j]]
        0 <= c < p.len() && 0 <= x < mx && 0 <= y < my && 0 <= z < mz && 0 <= r < rules.len() && p[c]@[idx3(
            x,
            y,
            z,
            mx,
            my,
        )] >= 0 && 0 <= j < shift_table(&rules[r], c, backwards).len() implies {
            let s = shift_table(&rules[r], c, backwards)[j];
            let sx = x - s.0;
            let sy = y - s.1;
            let sz = z - s.2;
            block_in(&rules[r], sx, sy, sz, mx, my, mz) && potentials_match(
                &rules[r],
                sx,
                sy,
                sz,
                p,
                p[c]@[idx3(x, y, z, mx, my)] as int,
                mx,
                my,
                backwards,
            ) ==> written_le(&rules[r], sx, sy, sz, p, p[c]@[idx3(x, y, z, mx, my)] + 1, mx, my, backwards)
        } by {
        let i = idx3(x, y, z, mx, my);
        lemma_idx3_bound(x, y, z, mx, my, mz);
        let k = choose|k: int| 0 <= k < q.len() && (#[trigger] q[k]).0 as int == c && idx3(q[k].1 as int, q[k].2 as int, q[k].3 as int, mx, my) == i;
        let e = q[k];
        crate::geom::lemma_idx3_injective(e.1 as int, e.2 as int, e.3 as int, x, y, z, mx, my);
        assert(entry_done(rules, p, e, mx, my, mz, backwards));
        assert(rule_done(rules, r, p, e, shift_table(&rules[r], e.0 as int, backwards).len() as int, mx, my, mz, backwards));
        let s = shift_table(&rules[r], c, backwards)[j];
        assert(pos_done(&rules[r], p, x, y, z, s, qpot(e, p, mx, my), mx, my, mz, backwards));
    }
}

/// Potential rows whose entries are 0 or -1.
pub open spec fn rows_initial(rows: Seq<Seq<i32>>) -> bool {
    forall|c: int, i: int| 0 <= c < rows.len() && 0 <= i < rows[c].len() ==> (#[trigger] rows[c][i] == 0 || rows[c][i] == -1)
}

/// `after` keeps every reached entry of `before`, and each unreached entry stays -1 or
/// becomes positive.
pub open spec fn rows_grow(before: Seq<Seq<i32>>, after: Seq<Seq<i32>>) -> bool {
    &&& after.len() == before.len()
    &&& forall|c: int| 0 <= c < before.len() ==> (#[trigger] after[c]).len() == before[c].len()
    &&& forall|c: int, i: int|
        0 <= c < before.len() && 0 <= i < before[c].len() ==> {
            let b = #[trigger] before[c][i];
            let a = after[c][i];
            (b >= 0 ==> a == b) && (b < 0 ==> (a == b || a > 0))
        }
}

/// Every entry reached in `after` but not in `before` is queued in `q` from position `from`.
pub open spec fn new_reached_queued(before: Seq<Seq<i32>>, after: Seq<Seq<i32>>, q: Seq<(u8, i32, i32, i32)>, from: int, mx: int, my: int) -> bool {
    forall|c: int, i: int|
        0 <= c < before.len() && 0 <= i < before[c].len() && before[c][i] == -1 && #[trigger] after[c][i] != -1
            ==> exists|k: int| from <= k < q.len() && (#[trigger] q[k]).0 as int == c && idx3(q[k].1 as int, q[k].2 as int, q[k].3 as int, mx, my) == i
}

impl Observation {
    /// Write the rule's pattern at (x, y, z) into the potentials: every unreached
    /// (value, cell) pair of the written pattern gets `t + 1` and is queued.
    pub fn apply_forward(
        rule: &MjRule,
        x: usize,
        y: usize,
        z: usize,
        potentials: &mut [Vec<i32>],
        t: i32,
        mx: usize,
        my: usize,
        queue: &mut Vec<(u8, i32, i32, i32)>,
        backwards: bool,
    )
        requires
            rule.wf(),
            rule.same_size(),
            rule_values_below(rule, old(potentials)@.len() as int),
            old(potentials)@.len() <= 256,
            old(potentials)@.len() > 0,
            rows_len(old(potentials)@, old(potentials)@[0]@.len() as int),
            block_fits(rule, x as int, y as int, z as int, mx as int, my as int, old(potentials)@[0]@.len() as int),
            mx <= i32::MAX,
            my <= i32::MAX,
            z + rule.imz <= i32::MAX,
            0 <= t < i32::MAX,
        ensures
            rows_view(final(potentials)@) == spec_apply_potentials(
                rule,
                x as int,
                y as int,
                z as int,
                rows_view(old(potentials)@),
                t as int,
                mx as int,
                my as int,
                backwards,
            ),
            final(potentials)@.len() == old(potentials)@.len(),
            rows_len(final(potentials)@, old(potentials)@[0]@.len() as int),
            final(queue)@.len() >= old(queue)@.len(),
            final(queue)@.subrange(0, old(queue)@.len() as int) == old(queue)@,
            forall|k: int|
                old(queue)@.len() <= k < final(queue)@.len() ==> {
                    let e = #[trigger] final(queue)@[k];
                    &&& (e.0 as int) < old(potentials)@.len()
                    &&& 0 <= e.1 < mx && 0 <= e.2 < my && 0 <= e.3 < z + rule.imz
                    &&& final(potentials)@[e.0 as int]@[idx3(e.1 as int, e.2 as int, e.3 as int, mx as int, my as int)] == t + 1
                },
            total_reached(rows_view(final(potentials)@), old(potentials)@.len() as int) == total_reached(
                rows_view(old(potentials)@),
                old(potentials)@.len() as int,
            ) + final(queue)@.len() - old(queue)@.len(),
            new_reached_queued(rows_view(old(potentials)@), rows_view(final(potentials)@), final(queue)@, old(queue)@.len() as int, mx as int, my as int),
    {
        let ghost p0 = rows_view(potentials@);
        let ghost q0 = queue@;
        let ghost pc = potentials@.len() as int;
        let ghost n = potentials@[0]@.len() as int;
        let ghost mz = z + rule.imz;
        let rlen = potentials[0].len();
        let ilen = rule.input.len();
        proof {
            lemma_idx3_bound(0, 0, 0, rule.imx as int, rule.imy as int, rule.imz as int);
            lemma_idx3_bound(x as int, y as int, z as int, mx as int, my as int, mz);
            assert(mx * my * mz == mz * (mx * my)) by (nonlinear_arith);
            assert(apply_potentials_upto(rule, x as int, y as int, z as int, p0, t as int, mx as int, my as int, backwards, 0) =~= p0) by {
                assert forall|c: int| 0 <= c < p0.len() implies #[trigger] apply_potentials_upto(
                    rule,
                    x as int,
                    y as int,
                    z as int,
                    p0,
                    t as int,
                    mx as int,
                    my as int,
                    backwards,
                    0,
                )[c] =~= p0[c] by {
                }
            }
        }
        let a: &Vec<u8> = if backwards {
            &rule.binput
        } else {
            &rule.output
        };
        let alen = a.len();
        let plane = rule.imx * rule.imy;
        let gplane = mx * my;
        let mut di: usize = 0;
        while di < alen
            invariant
                rule.wf(),
                rule.same_size(),
                rule_values_below(rule, pc),
                pc == potentials@.len(),
                pc == p0.len(),
                pc <= 256,
                n == p0[0].len(),
                rlen == n,
                ilen == rule.input@.len(),
                forall|c: int| 0 <= c < pc ==> (#[trigger] p0[c]).len() == n,
                rows_len(potentials@, n),
                a@ == write_pattern(rule, backwards),
                alen == a@.len(),
                alen == rule.imx * rule.imy * rule.imz,
                mz == z + rule.imz,
                mz <= i32::MAX,
                mx > 0 && my > 0,
                mx <= i32::MAX && my <= i32::MAX,
                x + rule.imx <= mx,
                y + rule.imy <= my,
                mx * my * mz <= n,
                plane == rule.imx * rule.imy,
                gplane == mx * my,
                0 <= t < i32::MAX,
                di <= alen,
                rows_view(potentials@) == apply_potentials_upto(rule, x as int, y as int, z as int, p0, t as int, mx as int, my as int, backwards, di as int),
                queue@.len() >= q0.len(),
                queue@.subrange(0, q0.len() as int) == q0,
                forall|k: int|
                    q0.len() <= k < queue@.len() ==> {
                        let e = #[trigger] queue@[k];
                        &&& (e.0 as int) < pc
                        &&& 0 <= e.1 < mx && 0 <= e.2 < my && 0 <= e.3 < mz
                        &&& potentials@[e.0 as int]@[idx3(e.1 as int, e.2 as int, e.3 as int, mx as int, my as int)] == t + 1
                    },
                total_reached(rows_view(potentials@), pc) == total_reached(p0, pc) + queue@.len() - q0.len(),
                new_reached_queued(p0, rows_view(potentials@), queue@, q0.len() as int, mx as int, my as int),
            decreases alen - di,
        {
            proof {
                lemma_idx3_inverse(di as int, rule.imx as int, rule.imy as int);
                lemma_plane_div_bound(di as int, rule.imx as int, rule.imy as int, rule.imz as int);
                let d = coord_of(di as int, rule.imx as int, rule.imy as int);
                lemma_idx3_bound(x + d.0, y + d.1, z + d.2, mx as int, my as int, mz);
            }
            let o = a[di];
            let dx = di % rule.imx;
            let dy = (di / rule.imx) % rule.imy;
            let dz = di / plane;
            proof {
                let d = coord_of(di as int, rule.imx as int, rule.imy as int);
                assert(dx == d.0 && dy == d.1 && dz == d.2);
            }
            let idi = (x + dx) + (y + dy) * mx + (z + dz) * gplane;
            let ghost cell = block_cell(mx as int, my as int, rule, x as int, y as int, z as int, di as int);
            assert(idi == cell);
            let ghost before = rows_view(potentials@);
            let ghost qb = queue@;
            let ghost up = apply_potentials_upto(rule, x as int, y as int, z as int, p0, t as int, mx as int, my as int, backwards, di as int);
            let ghost up2 = apply_potentials_upto(rule, x as int, y as int, z as int, p0, t as int, mx as int, my as int, backwards, di + 1);
            if o != 0xff && potentials[o as usize][idi] == -1 {
                potentials[o as usize][idi] = t + 1;
                queue.push((o, (x + dx) as i32, (y + dy) as i32, (z + dz) as i32));
                proof {
                    let oc = o as int;
                    assert forall|c: int, i: int|
                        0 <= c < p0.len() && 0 <= i < p0[c].len() && p0[c][i] == -1 && #[trigger] rows_view(potentials@)[c][i] != -1
                            implies exists|k: int| q0.len() <= k < queue@.len() && (#[trigger] queue@[k]).0 as int == c && idx3(
                                queue@[k].1 as int,
                                queue@[k].2 as int,
                                queue@[k].3 as int,
                                mx as int,
                                my as int,
                            ) == i by {
                        if c == oc && i == cell {
                            let k = qb.len() as int;
                            assert(queue@[k] == (o, (x + dx) as i32, (y + dy) as i32, (z + dz) as i32));
                            assert(idx3(queue@[k].1 as int, queue@[k].2 as int, queue@[k].3 as int, mx as int, my as int) == idi);
                        } else {
                            assert(rows_view(potentials@)[c][i] == before[c][i]);
                            let k = choose|k: int| q0.len() <= k < qb.len() && (#[trigger] qb[k]).0 as int == c && idx3(
                                qb[k].1 as int,
                                qb[k].2 as int,
                                qb[k].3 as int,
                                mx as int,
                                my as int,
                            ) == i;
                            assert(queue@[k] == qb[k]);
                        }
                    }
                    assert(before[oc][cell] == -1);
                    lemma_total_update(before, oc, cell, (t + 1) as i32, pc);
                    assert(rows_view(potentials@) =~= before.update(oc, before[oc].update(cell, (t + 1) as i32)));
                    assert forall|c: int| 0 <= c < pc implies #[trigger] rows_view(potentials@)[c] =~= up2[c] by {
                        assert forall|i: int| 0 <= i < n implies #[trigger] rows_view(potentials@)[c][i] == up2[c][i] by {
                            if c == oc && i == cell {
                                assert(p0[c][i] == -1);
                                assert(0 <= di < di + 1 && a@[di as int] != 0xff && a@[di as int] as int == c
                                    && block_cell(mx as int, my as int, rule, x as int, y as int, z as int, di as int) == i);
                            } else {
                                assert(rows_view(potentials@)[c][i] == before[c][i]);
                                if p0[c][i] == -1 && exists|w: int|
                                    0 <= w < di + 1 && a@[w] != 0xff && a@[w] as int == c && #[trigger] block_cell(
                                        mx as int,
                                        my as int,
                                        rule,
                                        x as int,
                                        y as int,
                                        z as int,
                                        w,
                                    ) == i {
                                    let w = choose|w: int|
                                        0 <= w < di + 1 && a@[w] != 0xff && a@[w] as int == c && #[trigger] block_cell(
                                            mx as int,
                                            my as int,
                                            rule,
                                            x as int,
                                            y as int,
                                            z as int,
                                            w,
                                        ) == i;
                                    assert(w < di);
                                }
                            }
                        }
                    }
                    assert(rows_view(potentials@) =~= up2);
                    assert forall|k: int|
                        q0.len() <= k < queue@.len() implies {
                            let e = #[trigger] queue@[k];
                            &&& (e.0 as int) < pc
                            &&& 0 <= e.1 < mx && 0 <= e.2 < my && 0 <= e.3 < mz
                            &&& potentials@[e.0 as int]@[idx3(e.1 as int, e.2 as int, e.3 as int, mx as int, my as int)] == t + 1
                        } by {
                        if k < qb.len() {
                            assert(queue@[k] == qb[k]);
                            let e = qb[k];
                            lemma_idx3_bound(e.1 as int, e.2 as int, e.3 as int, mx as int, my as int, mz);
                            assert(before[e.0 as int][idx3(e.1 as int, e.2 as int, e.3 as int, mx as int, my as int)] == t + 1);
                        }
                    }
                    assert(queue@.subrange(0, q0.len() as int) =~= q0) by {
                        assert(qb.subrange(0, q0.len() as int) == q0);
                    }
                }
            } else {
                proof {
                    assert forall|c: int| 0 <= c < pc implies #[trigger] rows_view(potentials@)[c] =~= up2[c] by {
                        assert forall|i: int| 0 <= i < n implies #[trigger] rows_view(potentials@)[c][i] == up2[c][i] by {
                            if p0[c][i] == -1 && exists|w: int|
                                0 <= w < di + 1 && a@[w] != 0xff && a@[w] as int == c && #[trigger] block_cell(
                                    mx as int,
                                    my as int,
                                    rule,
                                    x as int,
                                    y as int,
                                    z as int,
                                    w,
                                ) == i {
                                let w = choose|w: int|
                                    0 <= w < di + 1 && a@[w] != 0xff && a@[w] as int == c && #[trigger] block_cell(
                                        mx as int,
                                        my as int,
                                        rule,
                                        x as int,
                                        y as int,
                                        z as int,
                                        w,
                                    ) == i;
                                if w == di {
                                    assert(before[c][i] != -1);
                                }
                            }
                        }
                    }
                    assert(rows_view(potentials@) =~= up2);
                }
            }
            di = di + 1;
        }
    }
}

/// The starting potentials of a forward propagation: 0 where the cell holds the value.
pub open spec fn forward_start(pc: int, state: Seq<u8>) -> Seq<Seq<i32>> {
    Seq::new(pc as nat, |c: int| Seq::new(state.len(), |i: int| if state[i] as int == c { 0i32 } else { -1i32 }))
}

/// The starting potentials of a backward propagation: 0 where the future allows the value.
pub open spec fn backward_start(pc: int, future: Seq<i32>) -> Seq<Seq<i32>> {
    Seq::new(
        pc as nat,
        |c: int| Seq::new(future.len(), |i: int| if future[i] & (1i32 << (c as i32)) != 0 { 0i32 } else { -1i32 }),
    )
}

/// A rule usable for potential propagation over `pc` values.
pub open spec fn propagation_rule(rule: &MjRule, pc: int) -> bool {
    &&& rule.wf()
    &&& rule.same_size()
    &&& rule_values_below(rule, pc)
}

proof fn lemma_grow_apply(
    r0: Seq<Seq<i32>>,
    r1: Seq<Seq<i32>>,
    rule: &MjRule,
    x: int,
    y: int,
    z: int,
    t: int,
    mx: int,
    my: int,
    backwards: bool,
)
    requires
        rows_grow(r0, r1),
        0 <= t < i32::MAX,
    ensures
        rows_grow(r0, spec_apply_potentials(rule, x, y, z, r1, t, mx, my, backwards)),
        rows_grow(r1, spec_apply_potentials(rule, x, y, z, r1, t, mx, my, backwards)),
{
    let r2 = spec_apply_potentials(rule, x, y, z, r1, t, mx, my, backwards);
    assert forall|c: int, i: int| 0 <= c < r1.len() && 0 <= i < r1[c].len() implies {
        let b = #[trigger] r1[c][i];
        let a = r2[c][i];
        (b >= 0 ==> a == b) && (b < 0 ==> (a == b || a > 0))
    } by {
    }
    assert forall|c: int, i: int| 0 <= c < r0.len() && 0 <= i < r0[c].len() implies {
        let b = #[trigger] r0[c][i];
        let a = r2[c][i];
        (b >= 0 ==> a == b) && (b < 0 ==> (a == b || a > 0))
    } by {
        assert(r1[c][i] == r1[c][i]);
    }
}

proof fn lemma_grow_refl(r: Seq<Seq<i32>>)
    ensures
        rows_grow(r, r),
{
}

impl Observation {
    /// Propagate potentials breadth-first through the rules: forward from the input
    /// pattern to the output pattern, or backward from the output to the input.
    ///
    /// Only unreached (-1) entries are written, each with a positive potential.
    pub fn compute_potentials(
        potentials: &mut [Vec<i32>],
        mx: usize,
        my: usize,
        mz: usize,
        rules: &[MjRule],
        backwards: bool,
    )
        requires
            rows_len(old(potentials)@, mx * my * mz),
            rows_initial(rows_view(old(potentials)@)),
            old(potentials)@.len() <= 256,
            old(potentials)@.len() * (mx * my * mz) <= i32::MAX,
            forall|r: int| 0 <= r < rules@.len() ==> propagation_rule(&#[trigger] rules@[r], old(potentials)@.len() as int),
        ensures
            final(potentials)@.len() == old(potentials)@.len(),
            rows_len(final(potentials)@, mx * my * mz),
            rows_grow(rows_view(old(potentials)@), rows_view(final(potentials)@)),
            potentials_closed(rules@, final(potentials)@, mx as int, my as int, mz as int, backwards),
            potentials_justified(rules@, final(potentials)@, mx as int, my as int, mz as int, backwards),
    {
        let ghost r0 = rows_view(potentials@);
        let pc = potentials.len();
        proof {
            lemma_grow_refl(r0);
        }
        if pc == 0 {
            assert(rows_view(potentials@) =~= r0);
            return;
        }
        let n = potentials[0].len();
        if n == 0 {
            assert(rows_view(potentials@) =~= r0);
            assert(mx == 0 || my == 0 || mz == 0) by (nonlinear_arith)
                requires
                    mx * my * mz == 0,
            ;
            return;
        }
        proof {
            crate::grid::lemma_nonempty_dims(mx as int, my as int, mz as int);
            lemma_idx3_bound(0, 0, 0, mx as int, my as int, mz as int);
            assert(mx <= n && my <= n && mz <= n) by (nonlinear_arith)
                requires
                    mx > 0,
                    my > 0,
                    mz > 0,
                    n == mx * my * mz,
            ;
            assert(n <= pc * n) by (nonlinear_arith)
                requires
                    pc >= 1,
                    n >= 0,
            ;
        }
        let plane = mx * my;
        let ghost pn = pc * n;
        let mut queue: Vec<(u8, i32, i32, i32)> = Vec::new();
        let mut c: usize = 0;
        while c < pc
            invariant
                pc == potentials@.len(),
                rows_view(potentials@) == r0,
                rows_len(potentials@, n as int),
                rows_initial(r0),
                n == mx * my * mz,
                plane == mx * my,
                mx > 0 && my > 0 && mz > 0,
                mx <= n && my <= n && mz <= n,
                n <= i32::MAX,
                pc <= 256,
                c <= pc,
                pqueue_ok(queue@, r0, mx as int, my as int, mz as int),
                queue@.len() == total_reached(r0, c as int),
                forall|k: int| 0 <= k < queue@.len() ==> qpot(#[trigger] queue@[k], potentials@, mx as int, my as int) == 0,
                forall|c2: int, i2: int|
                    0 <= c2 < c && 0 <= i2 < n && #[trigger] potentials@[c2]@[i2] >= 0 ==> entry_queued(
                        queue@,
                        c2,
                        i2,
                        mx as int,
                        my as int,
                    ),
            decreases pc - c,
        {
            let mut i: usize = 0;
            while i < n
                invariant
                    pc == potentials@.len(),
                    rows_view(potentials@) == r0,
                    rows_len(potentials@, n as int),
                    rows_initial(r0),
                    n == mx * my * mz,
                    plane == mx * my,
                    mx > 0 && my > 0 && mz > 0,
                    mx <= n && my <= n && mz <= n,
                    n <= i32::MAX,
                    pc <= 256,
                    c < pc,
                    i <= n,
                    pqueue_ok(queue@, r0, mx as int, my as int, mz as int),
                    queue@.len() == total_reached(r0, c as int) + reached_count(r0[c as int], i as int),
                    forall|k: int| 0 <= k < queue@.len() ==> qpot(#[trigger] queue@[k], potentials@, mx as int, my as int) == 0,
                    forall|c2: int, i2: int|
                        0 <= c2 < pc && 0 <= i2 < n && (c2 < c || (c2 == c && i2 < i)) && #[trigger] potentials@[c2]@[i2] >= 0
                            ==> entry_queued(queue@, c2, i2, mx as int, my as int),
                decreases n - i,
            {
                proof {
                    assert(r0[c as int] == potentials@[c as int]@);
                }
                if potentials[c][i] == 0 {
                    proof {
                        lemma_idx3_inverse(i as int, mx as int, my as int);
                        lemma_plane_div_bound(i as int, mx as int, my as int, mz as int);
                        crate::field::lemma_reached_bound(r0[c as int], i as int, 0);
                        lemma_total_bound(r0, c as int, n as int);
                    }
                    let x = (i % mx) as i32;
                    let y = ((i / mx) % my) as i32;
                    let z = (i / plane) as i32;
                    let ghost qb = queue@;
                    queue.push((c as u8, x, y, z));
                    proof {
                        assert(idx3(x as int, y as int, z as int, mx as int, my as int) == i as int);
                        assert(rows_view(potentials@)[c as int] == potentials@[c as int]@);
                        assert forall|k: int| 0 <= k < queue@.len() implies qpot(#[trigger] queue@[k], potentials@, mx as int, my as int) == 0 by {
                            if k < qb.len() {
                                assert(queue@[k] == qb[k]);
                            }
                        }
                        assert forall|c2: int, i2: int|
                            0 <= c2 < pc && 0 <= i2 < n && (c2 < c || (c2 == c && i2 < i + 1)) && #[trigger] potentials@[c2]@[i2] >= 0
                                implies entry_queued(queue@, c2, i2, mx as int, my as int) by {
                            if c2 == c && i2 == i {
                                assert(queue@[qb.len() as int] == (c as u8, x, y, z));
                            } else {
                                let k = choose|k: int| 0 <= k < qb.len() && (#[trigger] qb[k]).0 as int == c2 && idx3(
                                    qb[k].1 as int,
                                    qb[k].2 as int,
                                    qb[k].3 as int,
                                    mx as int,
                                    my as int,
                                ) == i2;
                                assert(queue@[k] == qb[k]);
                            }
                        }
                        assert forall|k: int| 0 <= k < queue@.len() implies {
                            let e = #[trigger] queue@[k];
                            &&& (e.0 as int) < r0.len()
                            &&& 0 <= e.1 < mx && 0 <= e.2 < my && 0 <= e.3 < mz
                            &&& 0 <= r0[e.0 as int][idx3(e.1 as int, e.2 as int, e.3 as int, mx as int, my as int)] <= k
                        } by {
                            if k < qb.len() {
                                assert(queue@[k] == qb[k]);
                            }
                        }
                    }
                } else {
                    assert(r0[c as int][i as int] == -1);
                    assert(rows_view(potentials@)[c as int] == potentials@[c as int]@);
                }
                i = i + 1;
            }
            c = c + 1;
        }
        let rlen = rules.len();
        let mut match_mask: Vec<Vec<bool>> = Vec::new();
        let mut r: usize = 0;
        while r < rlen
            invariant
                rlen == rules@.len(),
                r <= rlen,
                match_mask@.len() == r,
                forall|k: int| 0 <= k < r ==> (#[trigger] match_mask@[k])@.len() == n,
                forall|k: int, i: int| 0 <= k < r && 0 <= i < n ==> !(#[trigger] match_mask@[k]@[i]),
            decreases rlen - r,
        {
            match_mask.push(crate::vecs::filled_bool(n, false));
            r = r + 1;
        }
        proof {
            lemma_total_bound(r0, pc as int, n as int);
            assert forall|c2: int, i2: int| 0 <= c2 < pc && 0 <= i2 < potentials@[c2]@.len() implies #[trigger] potentials@[c2]@[i2] >= -1 by {
                assert(rows_view(potentials@)[c2] == potentials@[c2]@);
                assert(r0[c2][i2] == 0 || r0[c2][i2] == -1);
            }
            assert forall|c2: int, i2: int| 0 <= c2 < pc && 0 <= i2 < potentials@[c2]@.len() implies !(#[trigger] potentials@[c2]@[i2] > 0) by {
                assert(rows_view(potentials@)[c2] == potentials@[c2]@);
                assert(r0[c2][i2] == 0 || r0[c2][i2] == -1);
            }
            assert forall|k: int, x: int, y: int, z: int|
                0 <= k < rules@.len() && block_in(&rules@[k], x, y, z, mx as int, my as int, mz as int) && #[trigger] match_mask@[k]@[idx3(x, y, z, mx as int, my as int)]
                    implies written_reached(&rules@[k], x, y, z, potentials@, mx as int, my as int, backwards) by {
                lemma_idx3_bound(x, y, z, mx as int, my as int, mz as int);
            }
            assert(queue_sorted(queue@, potentials@, mx as int, my as int, 0));
        }
        let mut head: usize = 0;
        while head < queue.len()
            invariant
                pc == potentials@.len(),
                pc <= 256,
                pc >= 1,
                rows_len(potentials@, n as int),
                rows_grow(r0, rows_view(potentials@)),
                n == mx * my * mz,
                plane == mx * my,
                mx > 0 && my > 0 && mz > 0,
                mx <= n && my <= n && mz <= n,
                pn == pc * n,
                pn <= i32::MAX,
                n <= pn,
                rlen == rules@.len(),
                forall|q: int| 0 <= q < rlen ==> propagation_rule(&#[trigger] rules@[q], pc as int),
                match_mask@.len() == rlen,
                forall|k: int| 0 <= k < rlen ==> (#[trigger] match_mask@[k])@.len() == n,
                pqueue_ok(queue@, rows_view(potentials@), mx as int, my as int, mz as int),
                queue@.len() == total_reached(rows_view(potentials@), pc as int),
                head <= queue@.len(),
                reached_queued(potentials@, queue@, n as int, mx as int, my as int),
                queue_sorted(queue@, potentials@, mx as int, my as int, head as int),
                mask_written(rules@, match_mask@, potentials@, mx as int, my as int, mz as int, backwards),
                potentials_justified(rules@, potentials@, mx as int, my as int, mz as int, backwards),
                forall|a: int| 0 <= a < head ==> entry_done(rules@, potentials@, #[trigger] queue@[a], mx as int, my as int, mz as int, backwards),
                forall|c2: int, i2: int| 0 <= c2 < pc && 0 <= i2 < potentials@[c2]@.len() ==> #[trigger] potentials@[c2]@[i2] >= -1,
            decreases pn - head,
        {
            proof {
                lemma_total_bound(rows_view(potentials@), pc as int, n as int);
            }
            let (value, x, y, z) = queue[head];
            proof {
                lemma_idx3_bound(x as int, y as int, z as int, mx as int, my as int, mz as int);
            }
            let i = (x as usize) + (y as usize) * mx + (z as usize) * plane;
            let t = potentials[value as usize][i];
            proof {
                assert(i as int == idx3(x as int, y as int, z as int, mx as int, my as int));
            }
            let mut r: usize = 0;
            while r < rlen
                invariant
                    pc == potentials@.len(),
                    pc <= 256,
                    pc >= 1,
                    rows_len(potentials@, n as int),
                    rows_grow(r0, rows_view(potentials@)),
                    n == mx * my * mz,
                    plane == mx * my,
                    mx > 0 && my > 0 && mz > 0,
                    mx <= n && my <= n && mz <= n,
                    pn == pc * n,
                    pn <= i32::MAX,
                    n <= pn,
                    rlen == rules@.len(),
                    forall|q: int| 0 <= q < rlen ==> propagation_rule(&#[trigger] rules@[q], pc as int),
                    match_mask@.len() == rlen,
                    forall|k: int| 0 <= k < rlen ==> (#[trigger] match_mask@[k])@.len() == n,
                    pqueue_ok(queue@, rows_view(potentials@), mx as int, my as int, mz as int),
                    queue@.len() == total_reached(rows_view(potentials@), pc as int),
                    queue@.len() <= pn,
                    head < queue@.len(),
                    0 <= t <= head,
                    0 <= x < mx && 0 <= y < my && 0 <= z < mz,
                    r <= rlen,
                    reached_queued(potentials@, queue@, n as int, mx as int, my as int),
                    queue_sorted(queue@, potentials@, mx as int, my as int, head as int),
                    mask_written(rules@, match_mask@, potentials@, mx as int, my as int, mz as int, backwards),
                    potentials_justified(rules@, potentials@, mx as int, my as int, mz as int, backwards),
                    forall|a: int| 0 <= a < head ==> entry_done(rules@, potentials@, #[trigger] queue@[a], mx as int, my as int, mz as int, backwards),
                    forall|c2: int, i2: int| 0 <= c2 < pc && 0 <= i2 < potentials@[c2]@.len() ==> #[trigger] potentials@[c2]@[i2] >= -1,
                    queue@[head as int] == (value, x, y, z),
                    t as int == qpot(queue@[head as int], potentials@, mx as int, my as int),
                    forall|q: int|
                        0 <= q < r ==> #[trigger] rule_done(
                            rules@,
                            q,
                            potentials@,
                            queue@[head as int],
                            shift_table(&rules@[q], value as int, backwards).len() as int,
                            mx as int,
                            my as int,
                            mz as int,
                            backwards,
                        ),
                decreases rlen - r,
            {
                let rule = &rules[r];
                let shifts: &Vec<Vec<(i32, i32, i32)>> = if backwards {
                    &rule.oshifts
                } else {
                    &rule.ishifts
                };
                if (value as usize) < shifts.len() {
                    let list = &shifts[value as usize];
                    proof {
                        assert(list@ == shift_table(rule, value as int, backwards));
                    }
                    let mut j: usize = 0;
                    while j < list.len()
                        invariant
                            pc == potentials@.len(),
                            pc <= 256,
                            pc >= 1,
                            rows_len(potentials@, n as int),
                            rows_grow(r0, rows_view(potentials@)),
                            n == mx * my * mz,
                            plane == mx * my,
                            mx > 0 && my > 0 && mz > 0,
                            mx <= n && my <= n && mz <= n,
                            pn == pc * n,
                            pn <= i32::MAX,
                            n <= pn,
                            rlen == rules@.len(),
                            r < rlen,
                            *rule == rules@[r as int],
                            propagation_rule(rule, pc as int),
                            forall|q: int| 0 <= q < rlen ==> propagation_rule(&#[trigger] rules@[q], pc as int),
                            match_mask@.len() == rlen,
                            forall|k: int| 0 <= k < rlen ==> (#[trigger] match_mask@[k])@.len() == n,
                            pqueue_ok(queue@, rows_view(potentials@), mx as int, my as int, mz as int),
                            queue@.len() == total_reached(rows_view(potentials@), pc as int),
                            queue@.len() <= pn,
                            head < queue@.len(),
                            0 <= t <= head,
                            0 <= x < mx && 0 <= y < my && 0 <= z < mz,
                            shifts == (if backwards { &rule.oshifts } else { &rule.ishifts }),
                            (value as int) < shifts@.len(),
                            *list == shifts@[value as int],
                            j <= list@.len(),
                            list@ == shift_table(rule, value as int, backwards),
                    reached_queued(potentials@, queue@, n as int, mx as int, my as int),
                            queue_sorted(queue@, potentials@, mx as int, my as int, head as int),
                            mask_written(rules@, match_mask@, potentials@, mx as int, my as int, mz as int, backwards),
                            potentials_justified(rules@, potentials@, mx as int, my as int, mz as int, backwards),
                            forall|a: int| 0 <= a < head ==> entry_done(rules@, potentials@, #[trigger] queue@[a], mx as int, my as int, mz as int, backwards),
                            forall|c2: int, i2: int| 0 <= c2 < pc && 0 <= i2 < potentials@[c2]@.len() ==> #[trigger] potentials@[c2]@[i2] >= -1,
                            queue@[head as int] == (value, x, y, z),
                            t as int == qpot(queue@[head as int], potentials@, mx as int, my as int),
                            forall|q: int|
                                0 <= q < r ==> #[trigger] rule_done(
                                    rules@,
                                    q,
                                    potentials@,
                                    queue@[head as int],
                                    shift_table(&rules@[q], value as int, backwards).len() as int,
                                    mx as int,
                                    my as int,
                                    mz as int,
                                    backwards,
                                ),
                            rule_done(rules@, r as int, potentials@, queue@[head as int], j as int, mx as int, my as int, mz as int, backwards),
                        decreases list@.len() - j,
                    {
                        let (shiftx, shifty, shiftz) = list[j];
                        let sx = x - shiftx;
                        let sy = y - shifty;
                        let sz = z - shiftz;
                        if !(sx < 0 || sy < 0 || sz < 0 || (sx as usize) + rule.imx > mx
                            || (sy as usize) + rule.imy > my || (sz as usize) + rule.imz > mz) {
                            proof {
                                lemma_idx3_bound(sx as int, sy as int, sz as int, mx as int, my as int, mz as int);
                                assert((sz + rule.imz) * (mx * my) <= mz * (mx * my)) by (nonlinear_arith)
                                    requires
                                        sz + rule.imz <= mz,
                                        mx * my >= 0,
                                ;
                                assert(mz * (mx * my) == mx * my * mz) by (nonlinear_arith);
                            }
                            let si = (sx as usize) + (sy as usize) * mx + (sz as usize) * plane;
                            let ghost mb = match_mask@;
                            let ghost pb = potentials@;
                            if !match_mask[r][si] && Observation::forward_matches(
                                rule,
                                sx as usize,
                                sy as usize,
                                sz as usize,
                                potentials,
                                t,
                                mx,
                                my,
                                backwards,
                            ) {
                                match_mask[r][si] = true;
                                let ghost rb = rows_view(potentials@);
                                let ghost qb = queue@;
                                Observation::apply_forward(
                                    rule,
                                    sx as usize,
                                    sy as usize,
                                    sz as usize,
                                    potentials,
                                    t,
                                    mx,
                                    my,
                                    &mut queue,
                                    backwards,
                                );
                                proof {
                                    assert(match_mask@[r as int]@ == mb[r as int]@.update(si as int, true));
                                    assert(si as int == idx3(sx as int, sy as int, sz as int, mx as int, my as int));
                                    assert(list@[j as int] == shift_table(&rules@[r as int], queue@[head as int].0 as int, backwards)[j as int]);
                                    lemma_apply_step(
                                        rules@,
                                        r as int,
                                        qb,
                                        queue@,
                                        head as int,
                                        mb,
                                        match_mask@,
                                        pb,
                                        potentials@,
                                        sx as int,
                                        sy as int,
                                        sz as int,
                                        t as int,
                                        j as int,
                                        mx as int,
                                        my as int,
                                        mz as int,
                                        backwards,
                                    );
                                    lemma_justified_apply(
                                        rules@,
                                        r as int,
                                        pb,
                                        potentials@,
                                        sx as int,
                                        sy as int,
                                        sz as int,
                                        t as int,
                                        mx as int,
                                        my as int,
                                        mz as int,
                                        backwards,
                                    );
                                    lemma_grow_apply(r0, rb, rule, sx as int, sy as int, sz as int, t as int, mx as int, my as int, backwards);
                                    let ra = rows_view(potentials@);
                                    assert forall|k: int| 0 <= k < queue@.len() implies {
                                        let e = #[trigger] queue@[k];
                                        &&& (e.0 as int) < ra.len()
                                        &&& 0 <= e.1 < mx && 0 <= e.2 < my && 0 <= e.3 < mz
                                        &&& 0 <= ra[e.0 as int][idx3(e.1 as int, e.2 as int, e.3 as int, mx as int, my as int)] <= k
                                    } by {
                                        if k < qb.len() {
                                            assert(queue@[k] == queue@.subrange(0, qb.len() as int)[k]);
                                            let e = qb[k];
                                            lemma_idx3_bound(e.1 as int, e.2 as int, e.3 as int, mx as int, my as int, mz as int);
                                            assert(rb[e.0 as int][idx3(e.1 as int, e.2 as int, e.3 as int, mx as int, my as int)] >= 0);
                                        } else {
                                            let e = queue@[k];
                                            assert(sz + rule.imz <= mz);
                                            lemma_idx3_bound(e.1 as int, e.2 as int, e.3 as int, mx as int, my as int, mz as int);
                                        }
                                    }
                                    lemma_total_bound(ra, pc as int, n as int);
                                }
                            }
                        }
                        proof {
                            let e = queue@[head as int];
                            let tb = shift_table(rule, value as int, backwards);
                            assert forall|jj: int| 0 <= jj < j + 1 && jj < tb.len() implies pos_done(
                                rule,
                                potentials@,
                                e.1 as int,
                                e.2 as int,
                                e.3 as int,
                                #[trigger] tb[jj],
                                qpot(e, potentials@, mx as int, my as int),
                                mx as int,
                                my as int,
                                mz as int,
                                backwards,
                            ) by {
                                if jj < j {
                                    assert(rule_done(rules@, r as int, potentials@, e, j as int, mx as int, my as int, mz as int, backwards));
                                } else {
                                    let s2 = tb[jj];
                                    let px = e.1 - s2.0;
                                    let py = e.2 - s2.1;
                                    let pz = e.3 - s2.2;
                                    if block_in(rule, px, py, pz, mx as int, my as int, mz as int) && potentials_match(
                                        rule,
                                        px,
                                        py,
                                        pz,
                                        potentials@,
                                        t as int,
                                        mx as int,
                                        my as int,
                                        backwards,
                                    ) {
                                        lemma_idx3_bound(px, py, pz, mx as int, my as int, mz as int);
                                        lemma_reached_le(potentials@, queue@, head as int, mx as int, my as int, mz as int);
                                        lemma_written_le_from(rule, px, py, pz, potentials@, t + 1, mx as int, my as int, mz as int, backwards);
                                    }
                                }
                            }
                        }
                        j = j + 1;
                    }
                }
                proof {
                    assert(rule_done(
                        rules@,
                        r as int,
                        potentials@,
                        queue@[head as int],
                        shift_table(&rules@[r as int], value as int, backwards).len() as int,
                        mx as int,
                        my as int,
                        mz as int,
                        backwards,
                    ));
                }
                r = r + 1;
            }
            proof {
                assert(entry_done(rules@, potentials@, queue@[head as int], mx as int, my as int, mz as int, backwards));
            }
            head = head + 1;
        }
        proof {
            lemma_closed_at_end(rules@, match_mask@, potentials@, queue@, mx as int, my as int, mz as int, backwards);
        }
    }

    /// Potentials measured from the present state: 0 for each cell's current value, then
    /// propagated forward through the rules.
    pub fn compute_forward_potentials(
        potentials: &mut [Vec<i32>],
        state: &[u8],
        mx: usize,
        my: usize,
        mz: usize,
        rules: &[MjRule],
    )
        requires
            state@.len() == mx * my * mz,
            rows_len(old(potentials)@, state@.len() as int),
            old(potentials)@.len() <= 256,
            old(potentials)@.len() * state@.len() <= i32::MAX,
            forall|r: int| 0 <= r < rules@.len() ==> propagation_rule(&#[trigger] rules@[r], old(potentials)@.len() as int),
        ensures
            final(potentials)@.len() == old(potentials)@.len(),
            rows_len(final(potentials)@, state@.len() as int),
            rows_grow(forward_start(old(potentials)@.len() as int, state@), rows_view(final(potentials)@)),
            potentials_closed(rules@, final(potentials)@, mx as int, my as int, mz as int, false),
            potentials_justified(rules@, final(potentials)@, mx as int, my as int, mz as int, false),
    {
        let pc = potentials.len();
        let n = state.len();
        let mut c: usize = 0;
        while c < pc
            invariant
                pc == potentials@.len(),
                n == state@.len(),
                rows_len(potentials@, n as int),
                c <= pc,
                forall|d: int, i: int| 0 <= d < c && 0 <= i < n ==> #[trigger] potentials@[d]@[i] == -1,
            decreases pc - c,
        {
            let mut i: usize = 0;
            while i < n
                invariant
                    pc == potentials@.len(),
                    n == state@.len(),
                    rows_len(potentials@, n as int),
                    c < pc,
                    i <= n,
                    forall|d: int, k: int| 0 <= d < c && 0 <= k < n ==> #[trigger] potentials@[d]@[k] == -1,
                    forall|k: int| 0 <= k < i ==> #[trigger] potentials@[c as int]@[k] == -1,
                decreases n - i,
            {
                potentials[c][i] = -1;
                i = i + 1;
            }
            c = c + 1;
        }
        let mut i: usize = 0;
        while i < n
            invariant
                pc == potentials@.len(),
                n == state@.len(),
                rows_len(potentials@, n as int),
                i <= n,
                forall|d: int, k: int|
                    0 <= d < pc && 0 <= k < n ==> #[trigger] potentials@[d]@[k] == (if k < i && state@[k] as int == d {
                        0i32
                    } else {
                        -1i32
                    }),
            decreases n - i,
        {
            let value = state[i];
            if (value as usize) < pc {
                potentials[value as usize][i] = 0;
            }
            i = i + 1;
        }
        proof {
            let st = forward_start(pc as int, state@);
            assert forall|d: int| 0 <= d < pc implies #[trigger] rows_view(potentials@)[d] =~= st[d] by {
            }
            assert(rows_view(potentials@) =~= st);
        }
        Observation::compute_potentials(potentials, mx, my, mz, rules, false);
    }

    /// Potentials measured toward the goal: 0 for each value the future allows, then
    /// propagated backward through the rules.
    pub fn compute_backward_potentials(
        potentials: &mut [Vec<i32>],
        future: &[i32],
        mx: usize,
        my: usize,
        mz: usize,
        rules: &[MjRule],
    )
        requires
            future@.len() == mx * my * mz,
            rows_len(old(potentials)@, future@.len() as int),
            old(potentials)@.len() <= 32,
            old(potentials)@.len() * future@.len() <= i32::MAX,
            forall|r: int| 0 <= r < rules@.len() ==> propagation_rule(&#[trigger] rules@[r], old(potentials)@.len() as int),
        ensures
            final(potentials)@.len() == old(potentials)@.len(),
            rows_len(final(potentials)@, future@.len() as int),
            rows_grow(backward_start(old(potentials)@.len() as int, future@), rows_view(final(potentials)@)),
            potentials_closed(rules@, final(potentials)@, mx as int, my as int, mz as int, true),
            potentials_justified(rules@, final(potentials)@, mx as int, my as int, mz as int, true),
    {
        let pc = potentials.len();
        let n = future.len();
        let mut c: usize = 0;
        while c < pc
            invariant
                pc == potentials@.len(),
                pc <= 32,
                n == future@.len(),
                rows_len(potentials@, n as int),
                c <= pc,
                forall|d: int, i: int|
                    0 <= d < c && 0 <= i < n ==> #[trigger] potentials@[d]@[i] == (if future@[i] & (1i32 << (d as i32)) != 0 {
                        0i32
                    } else {
                        -1i32
                    }),
            decreases pc - c,
        {
            let mut i: usize = 0;
            while i < n
                invariant
                    pc == potentials@.len(),
                    pc <= 32,
                    n == future@.len(),
                    rows_len(potentials@, n as int),
                    c < pc,
                    i <= n,
                    forall|d: int, k: int|
                        0 <= d < c && 0 <= k < n ==> #[trigger] potentials@[d]@[k] == (if future@[k] & (1i32 << (d as i32)) != 0 {
                            0i32
                        } else {
                            -1i32
                        }),
                    forall|k: int|
                        0 <= k < i ==> #[trigger] potentials@[c as int]@[k] == (if future@[k] & (1i32 << (c as i32)) != 0 {
                            0i32
                        } else {
                            -1i32
                        }),
                decreases n - i,
            {
                let cc = c as i32;
                potentials[c][i] = if future[i] & (1i32 << cc) != 0 {
                    0
                } else {
                    -1
                };
                i = i + 1;
            }
            c = c + 1;
        }
        proof {
            let st = backward_start(pc as int, future@);
            assert forall|d: int| 0 <= d < pc implies #[trigger] rows_view(potentials@)[d] =~= st[d] by {
            }
            assert(rows_view(potentials@) =~= st);
        }
        Observation::compute_potentials(potentials, mx, my, mz, rules, true);
    }
}

} // verus!
