//! The all node: each step applies every live match that does not overlap a match
//! applied before it in the same step, in random order or, when steered, best first.
use vstd::prelude::*;
use crate::node::Node;
use crate::context::ExecutionContext;
use crate::field::delta_pointwise_wide;
use crate::geom::{idx3, lemma_idx3_bound, lemma_idx3_inverse};
use crate::grid::lemma_plane_div_bound;
use crate::matching::{applied_upto, input_fits, lemma_output_cell, output_cell_index, output_fits, spec_apply};
use crate::rng::shuffle_indices;
use crate::rule::{coord_of, MjRule};
use crate::rule_node::{
    all_below, ctx_frame, data_fits, heuristic_of, lemma_fields_arg, match_in_bounds, rules_ok, same_setup, RuleNodeData,
};

verus! {

/// Applies all non-overlapping matches per step.
pub struct AllNode {
    /// Rules, matches and steering.
    pub data: RuleNodeData,
}

/// Whether scored candidate `a` comes before `b`: lower heuristic first, then the larger
/// random draw, then the earlier match.
pub open spec fn scored_before(a: (usize, i128, i32), b: (usize, i128, i32)) -> bool {
    a.1 < b.1 || (a.1 == b.1 && (a.2 > b.2 || (a.2 == b.2 && a.0 <= b.0)))
}

/// The candidates are in `scored_before` order.
pub open spec fn scored_sorted(v: Seq<(usize, i128, i32)>) -> bool {
    forall|i: int, j: int| 0 <= i < j < v.len() ==> scored_before(#[trigger] v[i], #[trigger] v[j])
}

/// Whether scored candidate `a` comes before `b`.
pub fn comes_before(a: (usize, i128, i32), b: (usize, i128, i32)) -> (r: bool)
    ensures
        r == scored_before(a, b),
{
    a.1 < b.1 || (a.1 == b.1 && (a.2 > b.2 || (a.2 == b.2 && a.0 <= b.0)))
}

/// Sort scored candidates into `scored_before` order (insertion sort).
pub fn sort_scored(v: Vec<(usize, i128, i32)>) -> (r: Vec<(usize, i128, i32)>)
    ensures
        r@.to_multiset() == v@.to_multiset(),
        r@.len() == v@.len(),
        scored_sorted(r@),
{
    let mut r: Vec<(usize, i128, i32)> = Vec::new();
    let mut i: usize = 0;
    proof {
        assert(r@ =~= v@.subrange(0, 0));
    }
    while i < v.len()
        invariant
            i <= v@.len(),
            r@.len() == i,
            r@.to_multiset() == v@.subrange(0, i as int).to_multiset(),
            scored_sorted(r@),
        decreases v@.len() - i,
    {
        let e = v[i];
        let mut j: usize = r.len();
        while j > 0 && !comes_before(r[j - 1], e)
            invariant
                j <= r@.len(),
                scored_sorted(r@),
                forall|k: int| j <= k < r@.len() ==> !scored_before(#[trigger] r@[k], e),
            decreases j,
        {
            j = j - 1;
        }
        let ghost before = r@;
        r.insert(j, e);
        proof {
            assert(r@ == before.insert(j as int, e));
            assert forall|a: int, b: int| 0 <= a < b < r@.len() implies scored_before(#[trigger] r@[a], #[trigger] r@[b]) by {
                if b == j as int {
                    if a < j {
                        assert(scored_before(before[j - 1], e));
                        assert(scored_before(before[a], before[j - 1]) || a == j - 1);
                    }
                } else if a == j as int {
                    assert(!scored_before(before[b - 1], e));
                } else if a < j && b > j {
                    assert(r@[b] == before[b - 1]);
                } else if a > j {
                    assert(r@[a] == before[a - 1] && r@[b] == before[b - 1]);
                }
            }
            assert(v@.subrange(0, i + 1) == v@.subrange(0, i as int).push(e));
            vstd::seq_lib::to_multiset_insert(before, j as int, e);
            vstd::seq_lib::to_multiset_build(v@.subrange(0, i as int), e);
        }
        i = i + 1;
    }
    assert(v@.subrange(0, v@.len() as int) == v@);
    r
}

/// Some written output cell of the rule block at (x, y, z) is already claimed.
pub open spec fn block_claimed(mask: Seq<bool>, mx: int, my: int, rule: &MjRule, x: int, y: int, z: int) -> bool {
    exists|di: int|
        0 <= di < rule.output@.len() && rule.output@[di] != 0xff && #[trigger] mask[output_cell_index(
            mx,
            my,
            rule,
            x,
            y,
            z,
            di,
        )]
}

/// The mask after claiming the written cells among the first `k` output cells.
pub open spec fn claimed_upto(mask: Seq<bool>, mx: int, my: int, rule: &MjRule, x: int, y: int, z: int, k: int) -> Seq<bool> {
    Seq::new(
        mask.len(),
        |i: int|
            mask[i] || exists|di: int|
                0 <= di < k && rule.output@[di] != 0xff && #[trigger] output_cell_index(mx, my, rule, x, y, z, di) == i,
    )
}

/// Every cell set in `mask` but not in `before` is logged in `changes` from `start` on.
pub open spec fn claims_logged(before: Seq<bool>, mask: Seq<bool>, changes: Seq<usize>, start: int) -> bool {
    forall|i: int|
        0 <= i < mask.len() && #[trigger] mask[i] && !before[i] ==> exists|n: int|
            start <= n < changes.len() && #[trigger] changes[n] == i
}

/// Write every non-wildcard output cell of the rule at (x, y, z), claim it in the grid
/// mask and log it.
pub fn claim_and_write(rule: &MjRule, x: i32, y: i32, z: i32, ctx: &mut ExecutionContext)
    requires
        old(ctx).wf(),
        rule.wf(),
        rule.outputs_below(32),
        output_fits(rule, x as int, y as int, z as int, old(ctx).grid.mx as int, old(ctx).grid.my as int, old(ctx).grid.mz as int),
    ensures
        ctx_frame(old(ctx), final(ctx)),
        final(ctx).random == old(ctx).random,
        final(ctx).grid.state@ == spec_apply(
            old(ctx).grid.state@,
            old(ctx).grid.mx as int,
            old(ctx).grid.my as int,
            rule,
            x as int,
            y as int,
            z as int,
        ),
        final(ctx).grid.mask@ == claimed_upto(
            old(ctx).grid.mask@,
            old(ctx).grid.mx as int,
            old(ctx).grid.my as int,
            rule,
            x as int,
            y as int,
            z as int,
            rule.output@.len() as int,
        ),
        claims_logged(old(ctx).grid.mask@, final(ctx).grid.mask@, final(ctx).changes@, old(ctx).changes@.len() as int),
{
    let ghost old_state = ctx.grid.state@;
    let ghost old_mask = ctx.grid.mask@;
    let mx = ctx.grid.mx;
    let my = ctx.grid.my;
    let ghost mz = ctx.grid.mz as int;
    let n = ctx.grid.state.len();
    let olen = rule.output.len();
    let xu = x as usize;
    let yu = y as usize;
    let zu = z as usize;
    proof {
        lemma_idx3_bound(0, 0, 0, rule.omx as int, rule.omy as int, rule.omz as int);
        lemma_idx3_bound(x as int, y as int, z as int, mx as int, my as int, mz);
        assert(applied_upto(old_state, mx as int, my as int, rule, x as int, y as int, z as int, 0) =~= old_state);
        assert(claimed_upto(old_mask, mx as int, my as int, rule, x as int, y as int, z as int, 0) =~= old_mask);
        assert(ctx.changes@.subrange(0, ctx.changes@.len() as int) =~= ctx.changes@);
    }
    let plane = rule.omx * rule.omy;
    let gplane = mx * my;
    let mut di: usize = 0;
    while di < olen
        invariant
            ctx_frame(old(ctx), ctx),
            ctx.random == old(ctx).random,
            rule.wf(),
            rule.outputs_below(32),
            n == ctx.grid.state@.len(),
            olen == rule.output@.len(),
            mx == ctx.grid.mx && my == ctx.grid.my && mz == ctx.grid.mz,
            xu == x && yu == y && zu == z,
            output_fits(rule, x as int, y as int, z as int, mx as int, my as int, mz),
            plane == rule.omx * rule.omy,
            gplane == mx * my,
            di <= olen,
            ctx.grid.state@ == applied_upto(old_state, mx as int, my as int, rule, x as int, y as int, z as int, di as int),
            ctx.grid.mask@ == claimed_upto(old_mask, mx as int, my as int, rule, x as int, y as int, z as int, di as int),
            claims_logged(old_mask, ctx.grid.mask@, ctx.changes@, old(ctx).changes@.len() as int),
        decreases olen - di,
    {
        proof {
            lemma_idx3_inverse(di as int, rule.omx as int, rule.omy as int);
            lemma_plane_div_bound(di as int, rule.omx as int, rule.omy as int, rule.omz as int);
            let d = coord_of(di as int, rule.omx as int, rule.omy as int);
            lemma_idx3_bound(x + d.0, y + d.1, z + d.2, mx as int, my as int, mz);
            lemma_output_cell(mx as int, my as int, mz, rule, x as int, y as int, z as int, di as int);
        }
        let out_value = rule.output[di];
        let dx = di % rule.omx;
        let dy = (di / rule.omx) % rule.omy;
        let dz = di / plane;
        let si = (xu + dx) + (yu + dy) * mx + (zu + dz) * gplane;
        let ghost mask_before = ctx.grid.mask@;
        let ghost changes_before = ctx.changes@;
        if out_value != 0xff {
            ctx.grid.mask.set(si, true);
            ctx.grid.state.set(si, out_value);
            ctx.record_change(si);
            proof {
                assert(out_value < 32);
                assert(ctx.grid.cells_below(32));
                assert(ctx.changes@[changes_before.len() as int] == si);
                assert forall|i: int|
                    0 <= i < ctx.grid.mask@.len() && #[trigger] ctx.grid.mask@[i] && !old_mask[i] implies exists|m: int|
                        old(ctx).changes@.len() <= m < ctx.changes@.len() && #[trigger] ctx.changes@[m] == i by {
                    if i == si {
                        assert(ctx.changes@[changes_before.len() as int] == i);
                    } else {
                        assert(mask_before[i]);
                        let m = choose|m: int| old(ctx).changes@.len() <= m < changes_before.len() && #[trigger] changes_before[m] == i;
                        assert(ctx.changes@[m] == changes_before[m]);
                    }
                }
            }
        }
        di = di + 1;
        assert(ctx.grid.state@ =~= applied_upto(old_state, mx as int, my as int, rule, x as int, y as int, z as int, di as int));
        assert(ctx.grid.mask@ =~= claimed_upto(old_mask, mx as int, my as int, rule, x as int, y as int, z as int, di as int));
        assert(ctx.changes@.subrange(0, old(ctx).changes@.len() as int) =~= old(ctx).changes@);
    }
}

/// An element of a sequence whose multiset equals another's occurs in the other.
proof fn lemma_multiset_member<A>(a: Seq<A>, b: Seq<A>, k: int)
    requires
        a.to_multiset() == b.to_multiset(),
        0 <= k < a.len(),
    ensures
        b.contains(a[k]),
{
    a.to_multiset_ensures();
    b.to_multiset_ensures();
    assert(a.contains(a[k]));
    assert(a.to_multiset().count(a[k]) > 0);
    assert(b.to_multiset().count(a[k]) > 0);
}

impl AllNode {
    /// An all node over `rules` for a grid of `grid_size` cells.
    pub fn new(rules: Vec<MjRule>, grid_size: usize) -> (node: Self)
        requires
            rules_ok(rules@),
        ensures
            node.data.wf(),
            node.data.rules@ == rules@,
            node.data.potentials is None,
    {
        AllNode { data: RuleNodeData::new(rules, grid_size) }
    }

    /// The live matches that have a heuristic, best first: lower potential change first,
    /// ties broken by the larger random draw, then by list order.
    pub fn compute_heuristic_order(&self, ctx: &mut ExecutionContext) -> (r: Vec<usize>)
        requires
            data_fits(&self.data, &old(ctx).grid),
            old(ctx).wf(),
            self.data.potentials is Some,
        ensures
            final(ctx).wf(),
            final(ctx).grid == old(ctx).grid,
            final(ctx).changes == old(ctx).changes,
            final(ctx).first == old(ctx).first,
            final(ctx).counter == old(ctx).counter,
            final(ctx).gif == old(ctx).gif,
            forall|j: int| 0 <= j < r@.len() ==> #[trigger] r@[j] < self.data.match_count,
            !(forall|i: int|
                0 <= i < old(ctx).grid.state@.len() ==> (#[trigger] old(ctx).grid.state@[i] as int)
                    < self.data.potentials->0@.len()) ==> r@.len() == 0,
            forall|m: int|
                0 <= m < self.data.match_count && (forall|i: int|
                    0 <= i < old(ctx).grid.state@.len() ==> (#[trigger] old(ctx).grid.state@[i] as int)
                        < self.data.potentials->0@.len()) ==> (r@.contains(m as usize) <==> #[trigger] heuristic_of(
                    &self.data,
                    old(ctx).grid.state@,
                    old(ctx).grid.mx as int,
                    old(ctx).grid.my as int,
                    self.data.matches@[m],
                ) is Some),
            forall|i: int, j: int|
                0 <= i < j < r@.len() ==> heuristic_of(
                    &self.data,
                    old(ctx).grid.state@,
                    old(ctx).grid.mx as int,
                    old(ctx).grid.my as int,
                    self.data.matches@[#[trigger] r@[i] as int],
                )->0 <= heuristic_of(
                    &self.data,
                    old(ctx).grid.state@,
                    old(ctx).grid.mx as int,
                    old(ctx).grid.my as int,
                    self.data.matches@[#[trigger] r@[j] as int],
                )->0,
    {
        let mx = ctx.grid.mx;
        let my = ctx.grid.my;
        let mut scored: Vec<(usize, i128, i32)> = Vec::new();
        let pcount = match &self.data.potentials {
            Some(p) => p.len(),
            None => 0,
        };
        if all_below(&ctx.grid.state, pcount) {
            let mut m: usize = 0;
            while m < self.data.match_count
                invariant
                    data_fits(&self.data, &ctx.grid),
                    ctx.wf(),
                    ctx.grid == old(ctx).grid,
                    ctx.changes == old(ctx).changes,
                    ctx.first == old(ctx).first,
                    ctx.counter == old(ctx).counter,
                    ctx.gif == old(ctx).gif,
                    mx == ctx.grid.mx && my == ctx.grid.my,
                    self.data.potentials matches Some(p) && p@.len() == pcount,
                    forall|i: int| 0 <= i < ctx.grid.state@.len() ==> (#[trigger] ctx.grid.state@[i] as int) < pcount,
                    m <= self.data.match_count,
                    forall|j: int| 0 <= j < scored@.len() ==> (#[trigger] scored@[j]).0 < self.data.match_count,
                    forall|j: int|
                        0 <= j < scored@.len() ==> (#[trigger] scored@[j]).0 < m && heuristic_of(
                            &self.data,
                            old(ctx).grid.state@,
                            mx as int,
                            my as int,
                            self.data.matches@[scored@[j].0 as int],
                        ) == Some(scored@[j].1),
                    forall|m2: int|
                        0 <= m2 < m && #[trigger] heuristic_of(
                            &self.data,
                            old(ctx).grid.state@,
                            mx as int,
                            my as int,
                            self.data.matches@[m2],
                        ) is Some ==> exists|j: int| 0 <= j < scored@.len() && (#[trigger] scored@[j]).0 == m2,
                decreases self.data.match_count - m,
            {
                let (r, x, y, z) = self.data.matches[m];
                proof {
                    assert(match_in_bounds(self.data.rules@, self.data.matches@[m as int], self.data.dims));
                    crate::one_node::lemma_block_below_pub(self.data.rules@[r as int].imz as int, z as int, mx as int, my as int, ctx.grid.mz as int);
                }
                let rule = &self.data.rules[r];
                proof {
                    crate::field::lemma_rows_cover(
                        ctx.grid.state@,
                        rule,
                        x as int,
                        y as int,
                        z as int,
                        self.data.potentials->0@,
                        mx as int,
                        my as int,
                    );
                }
                let h = match (&self.data.fields, &self.data.potentials) {
                    (Some(f), Some(p)) => {
                        let fs = f.as_slice();
                        proof {
                            lemma_fields_arg(self.data.fields, fs);
                        }
                        delta_pointwise_wide(ctx.grid.state.as_slice(), rule, x, y, z, Some(fs), p.as_slice(), mx, my)
                    },
                    (None, Some(p)) => delta_pointwise_wide(ctx.grid.state.as_slice(), rule, x, y, z, None, p.as_slice(), mx, my),
                    _ => None,
                };
                proof {
                    assert(h == heuristic_of(&self.data, old(ctx).grid.state@, mx as int, my as int, self.data.matches@[m as int]));
                }
                let ghost sc0 = scored@;
                match h {
                    Some(hv) => {
                        let s = ctx.random.next_sample();
                        scored.push((m, hv, s));
                        proof {
                            assert(scored@[sc0.len() as int].0 == m);
                        }
                    },
                    None => {},
                }
                proof {
                    assert forall|j: int| 0 <= j < sc0.len() implies #[trigger] scored@[j] == sc0[j] by {}
                    assert forall|m2: int|
                        0 <= m2 < m + 1 && #[trigger] heuristic_of(
                            &self.data,
                            old(ctx).grid.state@,
                            mx as int,
                            my as int,
                            self.data.matches@[m2],
                        ) is Some implies exists|j: int| 0 <= j < scored@.len() && (#[trigger] scored@[j]).0 == m2 by {
                        if m2 < m {
                            let j = choose|j: int| 0 <= j < sc0.len() && (#[trigger] sc0[j]).0 == m2;
                            assert(scored@[j] == sc0[j]);
                        } else {
                            assert(scored@[sc0.len() as int].0 == m);
                        }
                    }
                }
                m = m + 1;
            }
        }
        let ghost ok = forall|i: int|
            0 <= i < old(ctx).grid.state@.len() ==> (#[trigger] old(ctx).grid.state@[i] as int)
                < self.data.potentials->0@.len();
        let sorted = sort_scored(scored);
        let mut r: Vec<usize> = Vec::new();
        let mut j: usize = 0;
        while j < sorted.len()
            invariant
                j <= sorted@.len(),
                r@.len() == j,
                sorted@.to_multiset() == scored@.to_multiset(),
                forall|q: int| 0 <= q < scored@.len() ==> (#[trigger] scored@[q]).0 < self.data.match_count,
                forall|q: int| 0 <= q < j ==> #[trigger] r@[q] < self.data.match_count,
                forall|q: int| 0 <= q < j ==> #[trigger] r@[q] == sorted@[q].0,
            decreases sorted@.len() - j,
        {
            proof {
                lemma_multiset_member(sorted@, scored@, j as int);
                let q = choose|q: int| 0 <= q < scored@.len() && scored@[q] == sorted@[j as int];
                assert(scored@[q].0 < self.data.match_count);
            }
            r.push(sorted[j].0);
            j = j + 1;
        }
        proof {
            assert forall|q: int| 0 <= q < sorted@.len() implies heuristic_of(
                &self.data,
                old(ctx).grid.state@,
                mx as int,
                my as int,
                self.data.matches@[(#[trigger] sorted@[q]).0 as int],
            ) == Some(sorted@[q].1) by {
                lemma_multiset_member(sorted@, scored@, q);
            }
            if ok {
                assert forall|m2: int| 0 <= m2 < self.data.match_count implies (r@.contains(m2 as usize)
                    <==> #[trigger] heuristic_of(
                    &self.data,
                    old(ctx).grid.state@,
                    mx as int,
                    my as int,
                    self.data.matches@[m2],
                ) is Some) by {
                    if heuristic_of(&self.data, old(ctx).grid.state@, mx as int, my as int, self.data.matches@[m2])
                        is Some {
                        let q = choose|q: int| 0 <= q < scored@.len() && (#[trigger] scored@[q]).0 == m2;
                        lemma_multiset_member(scored@, sorted@, q);
                        let q2 = choose|q2: int| 0 <= q2 < sorted@.len() && sorted@[q2] == scored@[q];
                        assert(r@[q2] == m2);
                    }
                    if r@.contains(m2 as usize) {
                        let q = choose|q: int| 0 <= q < r@.len() && r@[q] == m2 as usize;
                        assert(sorted@[q].0 == m2);
                    }
                }
            }
            assert forall|i: int, k2: int| 0 <= i < k2 < r@.len() implies heuristic_of(
                &self.data,
                old(ctx).grid.state@,
                mx as int,
                my as int,
                self.data.matches@[#[trigger] r@[i] as int],
            )->0 <= heuristic_of(
                &self.data,
                old(ctx).grid.state@,
                mx as int,
                my as int,
                self.data.matches@[#[trigger] r@[k2] as int],
            )->0 by {
                assert(scored_before(sorted@[i], sorted@[k2]));
                assert(r@[i] == sorted@[i].0 && r@[k2] == sorted@[k2].0);
            }
        }
        r
    }

    /// Apply the match of rule `r` at (x, y, z) unless one of its written cells is
    /// already claimed this step.
    #[verifier::loop_isolation(false)]
    pub fn fit(&mut self, r: usize, x: i32, y: i32, z: i32, ctx: &mut ExecutionContext)
        requires
            data_fits(&old(self).data, &old(ctx).grid),
            old(ctx).wf(),
            r < old(self).data.rules@.len(),
            output_fits(&old(self).data.rules@[r as int], x as int, y as int, z as int, old(ctx).grid.mx as int, old(ctx).grid.my as int, old(ctx).grid.mz as int),
        ensures
            ctx_frame(old(ctx), final(ctx)),
            final(ctx).random == old(ctx).random,
            data_fits(&final(self).data, &final(ctx).grid),
            final(self).data.rules == old(self).data.rules,
            final(self).data.matches == old(self).data.matches,
            final(self).data.match_count == old(self).data.match_count,
            final(self).data.match_mask == old(self).data.match_mask,
            final(self).data.potentials == old(self).data.potentials,
            final(self).data.fields == old(self).data.fields,
            final(self).data.observations == old(self).data.observations,
            final(self).data.future == old(self).data.future,
            final(self).data.counter == old(self).data.counter,
            final(self).data.steps == old(self).data.steps,
            final(self).data.dims == old(self).data.dims,
            final(self).data.last_matched_turn == old(self).data.last_matched_turn,
            final(self).data.future_computed == old(self).data.future_computed,
            ({
                let rule = &old(self).data.rules@[r as int];
                let mx = old(ctx).grid.mx as int;
                let my = old(ctx).grid.my as int;
                if block_claimed(old(ctx).grid.mask@, mx, my, rule, x as int, y as int, z as int) {
                    &&& final(ctx).grid == old(ctx).grid
                    &&& final(ctx).changes == old(ctx).changes
                    &&& final(self).data.last == old(self).data.last
                } else {
                    &&& final(ctx).grid.state@ == spec_apply(old(ctx).grid.state@, mx, my, rule, x as int, y as int, z as int)
                    &&& final(ctx).grid.mask@ == claimed_upto(old(ctx).grid.mask@, mx, my, rule, x as int, y as int, z as int, rule.output@.len() as int)
                    &&& claims_logged(old(ctx).grid.mask@, final(ctx).grid.mask@, final(ctx).changes@, old(ctx).changes@.len() as int)
                    &&& final(self).data.last@ == old(self).data.last@.update(r as int, true)
                }
            }),
    {
        let rule = &self.data.rules[r];
        let mx = ctx.grid.mx;
        let my = ctx.grid.my;
        let ghost mz = ctx.grid.mz as int;
        let olen = rule.output.len();
        proof {
            assert(rule.wf());
            lemma_idx3_bound(0, 0, 0, rule.omx as int, rule.omy as int, rule.omz as int);
            lemma_idx3_bound(x as int, y as int, z as int, mx as int, my as int, mz);
        }
        let plane = rule.omx * rule.omy;
        let gplane = mx * my;
        let xu = x as usize;
        let yu = y as usize;
        let zu = z as usize;
        let mut di: usize = 0;
        while di < olen
            invariant
                rule.wf(),
                olen == rule.output@.len(),
                mx == ctx.grid.mx && my == ctx.grid.my && mz == ctx.grid.mz,
                ctx.wf(),
                xu == x && yu == y && zu == z,
                output_fits(rule, x as int, y as int, z as int, mx as int, my as int, mz),
                plane == rule.omx * rule.omy,
                gplane == mx * my,
                di <= olen,
                forall|k: int|
                    0 <= k < di && rule.output@[k] != 0xff ==> !#[trigger] ctx.grid.mask@[output_cell_index(
                        mx as int,
                        my as int,
                        rule,
                        x as int,
                        y as int,
                        z as int,
                        k,
                    )],
            decreases olen - di,
        {
            proof {
                lemma_idx3_inverse(di as int, rule.omx as int, rule.omy as int);
                lemma_plane_div_bound(di as int, rule.omx as int, rule.omy as int, rule.omz as int);
                let d = coord_of(di as int, rule.omx as int, rule.omy as int);
                lemma_idx3_bound(x + d.0, y + d.1, z + d.2, mx as int, my as int, mz);
                lemma_output_cell(mx as int, my as int, mz, rule, x as int, y as int, z as int, di as int);
            }
            let value = rule.output[di];
            if value != 0xff {
                let dx = di % rule.omx;
                let dy = (di / rule.omx) % rule.omy;
                let dz = di / plane;
                let si = (xu + dx) + (yu + dy) * mx + (zu + dz) * gplane;
                if ctx.grid.mask[si] {
                    assert(ctx.changes@.subrange(0, ctx.changes@.len() as int) =~= ctx.changes@);
                    return;
                }
            }
            di = di + 1;
        }
        self.data.last.set(r, true);
        claim_and_write(&self.data.rules[r], x, y, z, ctx);
    }
}

proof fn lemma_claims_chain(
    m0: Seq<bool>,
    m1: Seq<bool>,
    m2: Seq<bool>,
    c1: Seq<usize>,
    c2: Seq<usize>,
    start: int,
)
    requires
        claims_logged(m0, m1, c1, start),
        m1.len() == m0.len(),
        m2.len() == m0.len(),
        claims_logged(m1, m2, c2, c1.len() as int) || (m2 == m1 && c2 == c1),
        c2.len() >= c1.len(),
        c2.subrange(0, c1.len() as int) == c1,
        forall|i: int| 0 <= i < m1.len() && m1[i] ==> m2[i],
        0 <= start <= c1.len(),
    ensures
        claims_logged(m0, m2, c2, start),
{
    assert forall|i: int| 0 <= i < m2.len() && #[trigger] m2[i] && !m0[i] implies exists|n: int|
        start <= n < c2.len() && #[trigger] c2[n] == i by {
        if m1[i] {
            let n = choose|n: int| start <= n < c1.len() && #[trigger] c1[n] == i;
            assert(c2[n] == c2.subrange(0, c1.len() as int)[n]);
        } else if m2 == m1 && c2 == c1 {
        } else {
            let n = choose|n: int| c1.len() <= n < c2.len() && #[trigger] c2[n] == i;
        }
    }
}

impl AllNode {
    /// One step: list the matches, order them (best first when steered, else shuffled)
    /// and apply each one whose written cells are still unclaimed; then release the
    /// claims. Returns whether any cell was written.
    #[verifier::loop_isolation(false)]
    pub fn go(&mut self, ctx: &mut ExecutionContext) -> (r: bool)
        requires
            old(self).data.wf(),
            old(ctx).wf(),
        ensures
            data_fits(&final(self).data, &final(ctx).grid),
            same_setup(&old(self).data, &final(self).data),
            final(ctx).wf(),
            final(ctx).grid.mx == old(ctx).grid.mx && final(ctx).grid.my == old(ctx).grid.my && final(ctx).grid.mz
                == old(ctx).grid.mz,
            final(ctx).grid.c == old(ctx).grid.c,
            final(ctx).first@ == old(ctx).first@,
            final(ctx).counter == old(ctx).counter,
            old(self).data.steps > 0 && old(self).data.counter >= old(self).data.steps ==> !r && final(ctx).grid
                == old(ctx).grid,
            r ==> final(ctx).changes@.len() > old(ctx).changes@.len(),
            !r ==> final(ctx).changes@ == old(ctx).changes@,
            forall|i: int| 0 <= i < final(ctx).grid.mask@.len() && #[trigger] final(ctx).grid.mask@[i] ==> old(ctx).grid.mask@[i],
            counted_step(old(self).data.counter, final(self).data.counter, r),
    {
        if !self.data.compute_matches(ctx) {
            return false;
        }
        self.data.last_matched_turn = #[verifier::truncate] (ctx.counter as i32);
        if self.data.match_count == 0 {
            return false;
        }
        let count = self.data.match_count;
        let ordered = if self.data.potentials.is_some() {
            self.compute_heuristic_order(ctx)
        } else {
            let sh = shuffle_indices(count, &mut ctx.random);
            proof {
                assert forall|j: int| 0 <= j < sh@.len() implies #[trigger] sh@[j] < count by {
                    lemma_multiset_member(sh@, Seq::new(count as nat, |i: int| i as usize), j);
                }
            }
            sh
        };
        let changes_start = ctx.changes.len();
        let ghost mask0 = ctx.grid.mask@;
        let ghost ctx0 = *ctx;
        let mx = ctx.grid.mx;
        let my = ctx.grid.my;
        proof {
            assert(claims_logged(mask0, ctx.grid.mask@, ctx.changes@, changes_start as int));
            assert(ctx.changes@.subrange(0, ctx.changes@.len() as int) =~= ctx.changes@);
        }
        let mut k: usize = 0;
        while k < ordered.len()
            invariant
                data_fits(&self.data, &ctx.grid),
                same_setup(&old(self).data, &self.data),
                self.data.match_count == count,
                self.data.counter == old(self).data.counter,
                ctx_frame(&ctx0, ctx),
                mx == ctx.grid.mx && my == ctx.grid.my,
                forall|j: int| 0 <= j < ordered@.len() ==> #[trigger] ordered@[j] < count,
                changes_start == ctx0.changes@.len(),
                mask0.len() == ctx.grid.mask@.len(),
                claims_logged(mask0, ctx.grid.mask@, ctx.changes@, changes_start as int),
                ctx.first@ == old(ctx).first@,
                ctx.counter == old(ctx).counter,
            decreases ordered@.len() - k,
        {
            let idx = ordered[k];
            let (r, x, y, z) = self.data.matches[idx];
            proof {
                assert(match_in_bounds(self.data.rules@, self.data.matches@[idx as int], self.data.dims));
                lemma_idx3_bound(x as int, y as int, z as int, mx as int, my as int, ctx.grid.mz as int);
            }
            let i = (x as usize) + (y as usize) * mx + (z as usize) * (mx * my);
            self.data.match_mask[r][i] = false;
            let ghost m1 = ctx.grid.mask@;
            let ghost c1 = ctx.changes@;
            let ghost before = *ctx;
            self.fit(r, x, y, z, ctx);
            proof {
                let rule = &self.data.rules@[r as int];
                if !block_claimed(m1, mx as int, my as int, rule, x as int, y as int, z as int) {
                    assert forall|q: int| 0 <= q < m1.len() && m1[q] implies ctx.grid.mask@[q] by {
                    }
                }
                lemma_claims_chain(mask0, m1, ctx.grid.mask@, c1, ctx.changes@, changes_start as int);
                assert(ctx.changes@.subrange(0, ctx0.changes@.len() as int) =~= ctx0.changes@) by {
                    assert(ctx.changes@.subrange(0, before.changes@.len() as int) == before.changes@);
                    assert(before.changes@.subrange(0, ctx0.changes@.len() as int) == ctx0.changes@);
                }
            }
            k = k + 1;
        }
        let end = ctx.changes.len();
        let mut n: usize = changes_start;
        while n < end
            invariant
                data_fits(&self.data, &ctx.grid),
                ctx_frame(&ctx0, ctx),
                end == ctx.changes@.len(),
                changes_start <= n <= end,
                changes_start == ctx0.changes@.len(),
                mask0.len() == ctx.grid.mask@.len(),
                forall|q: int|
                    0 <= q < ctx.grid.mask@.len() && #[trigger] ctx.grid.mask@[q] && !mask0[q] ==> exists|m: int|
                        n <= m < ctx.changes@.len() && #[trigger] ctx.changes@[m] == q,
                forall|q: int| 0 <= q < ctx.grid.mask@.len() && !#[trigger] ctx.grid.mask@[q] && mask0[q] ==> true,
                ctx.first@ == old(ctx).first@,
                ctx.counter == old(ctx).counter,
            decreases end - n,
        {
            let i = ctx.changes[n];
            let ghost mb = ctx.grid.mask@;
            if i < ctx.grid.mask.len() {
                ctx.grid.mask.set(i, false);
            }
            proof {
                assert forall|q: int|
                    0 <= q < ctx.grid.mask@.len() && #[trigger] ctx.grid.mask@[q] && !mask0[q] implies exists|m: int|
                        n + 1 <= m < ctx.changes@.len() && #[trigger] ctx.changes@[m] == q by {
                    assert(mb[q]);
                    let m = choose|m: int| n <= m < ctx.changes@.len() && #[trigger] ctx.changes@[m] == q;
                    if m == n {
                        assert(q == i);
                    }
                }
            }
            n = n + 1;
        }
        if self.data.counter < usize::MAX {
            self.data.counter = self.data.counter + 1;
        }
        self.data.match_count = 0;
        proof {
            assert forall|q: int| 0 <= q < ctx.grid.mask@.len() && #[trigger] ctx.grid.mask@[q] implies old(ctx).grid.mask@[q] by {
                assert(mask0 == old(ctx).grid.mask@);
            }
        }
        ctx.changes.len() > changes_start
    }

    /// Forget the step counter, the goal and every listed match position.
    pub fn reset(&mut self)
        requires
            old(self).data.wf(),
        ensures
            final(self).data.wf(),
            final(self).data.counter == 0,
            final(self).data.last_matched_turn == -1,
            same_setup(&old(self).data, &final(self).data),
            final(self).data.dims == old(self).data.dims,
    {
        self.data.reset();
        self.data.clear_match_mask();
    }
}


impl AllNode {
    /// What one step does: from this node and context to `after` and `ctx_after`, with
    /// result `r`.
    pub open spec fn go_done(self, ctx: ExecutionContext, after: Self, ctx_after: ExecutionContext, r: bool) -> bool {
        &&& data_fits(&after.data, &ctx_after.grid)
        &&& same_setup(&self.data, &after.data)
        &&& ctx_after.wf()
        &&& ctx_after.grid.mx == ctx.grid.mx && ctx_after.grid.my == ctx.grid.my && ctx_after.grid.mz
                == ctx.grid.mz
        &&& ctx_after.grid.c == ctx.grid.c
        &&& ctx_after.first@ == ctx.first@
        &&& ctx_after.counter == ctx.counter
        &&& self.data.steps > 0 && self.data.counter >= self.data.steps ==> !r && ctx_after.grid
                == ctx.grid
        &&& r ==> ctx_after.changes@.len() > ctx.changes@.len()
        &&& !r ==> ctx_after.changes@ == ctx.changes@
        &&& forall|i: int| 0 <= i < ctx_after.grid.mask@.len() && #[trigger] ctx_after.grid.mask@[i] ==> ctx.grid.mask@[i]
        &&& counted_step(self.data.counter, after.data.counter, r)
    }

    /// What a reset does: from this node to `after`.
    pub open spec fn reset_done(self, after: Self) -> bool {
        &&& after.data.wf()
        &&& after.data.counter == 0
        &&& after.data.last_matched_turn == -1
        &&& same_setup(&self.data, &after.data)
        &&& after.data.dims == self.data.dims
    }
}

impl Node for AllNode {
    open spec fn node_inv(&self) -> bool {
        self.data.wf()
    }

    fn go(&mut self, ctx: &mut ExecutionContext) -> (r: bool)
        ensures
            old(self).go_done(*old(ctx), *final(self), *final(ctx), r),
    {
        AllNode::go(self, ctx)
    }

    fn reset(&mut self)
        ensures
            old(self).reset_done(*final(self)),
    {
        AllNode::reset(self)
    }
}

/// How a step moves a node's step counter: a step that made progress counts one (unless
/// the counter is at its maximum), and no step lowers it or adds more than one.
pub open spec fn counted_step(before: usize, after: usize, r: bool) -> bool {
    &&& r ==> after == (if before < usize::MAX { before + 1 } else { before as int })
    &&& after == before || after == before + 1
}

/// The number of steps in `rs` that made progress.
pub open spec fn progress_count(rs: Seq<bool>) -> int
    decreases rs.len(),
{
    if rs.len() == 0 {
        0
    } else {
        progress_count(rs.drop_last()) + if rs.last() { 1int } else { 0int }
    }
}

/// A node with a step limit makes progress on at most that many steps: along any run of
/// steps (each counted as a step of this node counts it, never moving backwards, and
/// refused once the limit is reached), starting from counter `c0`, at most
/// `steps - c0` steps return true.
pub proof fn lemma_step_limit_bounds_progress(counters: Seq<usize>, rs: Seq<bool>, steps: usize)
    requires
        counters.len() == rs.len() + 1,
        steps > 0,
        counters[0] <= steps,
        forall|k: int| 0 <= k < rs.len() ==> counted_step(#[trigger] counters[k], counters[k + 1], rs[k]),
        forall|k: int| 0 <= k < rs.len() && #[trigger] counters[k] >= steps ==> !rs[k],
    ensures
        progress_count(rs) <= steps - counters[0],
        progress_count(rs) <= counters.last() - counters[0],
    decreases rs.len(),
{
    if rs.len() > 0 {
        let n = rs.len() - 1;
        lemma_step_limit_bounds_progress(counters.drop_last(), rs.drop_last(), steps);
        assert(counters.drop_last().last() == counters[n]);
        assert(counted_step(counters[n], counters[n + 1], rs[n]));
        if rs[n] {
            assert(counters[n] < steps);
        }
    }
}


/// Along any run of an all node's steps from a counter within its step limit, the node makes
/// progress on at most `steps - counter` of them, and once it has made progress that many
/// times every further step returns false: a limit of `steps` allows `steps` steps, whatever
/// the rules would still match.
pub proof fn lemma_all_node_step_limit(nodes: Seq<AllNode>, ctxs: Seq<ExecutionContext>, rs: Seq<bool>)
    requires
        nodes.len() == rs.len() + 1,
        ctxs.len() == rs.len() + 1,
        forall|k: int| 0 <= k < rs.len() ==> (#[trigger] nodes[k]).go_done(ctxs[k], nodes[k + 1], ctxs[k + 1], rs[k]),
        nodes[0].data.steps > 0,
        nodes[0].data.counter <= nodes[0].data.steps,
    ensures
        nodes.last().data.steps == nodes[0].data.steps,
        nodes.last().data.counter >= nodes[0].data.counter + progress_count(rs),
        progress_count(rs) <= nodes[0].data.steps - nodes[0].data.counter,
        forall|k: int|
            0 <= k < rs.len() && progress_count(#[trigger] rs.take(k)) >= nodes[0].data.steps - nodes[0].data.counter
                ==> !rs[k],
    decreases rs.len(),
{
    if rs.len() > 0 {
        let n = rs.len() - 1;
        let nodes0 = nodes.drop_last();
        let ctxs0 = ctxs.drop_last();
        let rs0 = rs.drop_last();
        assert forall|k: int| 0 <= k < rs0.len() implies (#[trigger] nodes0[k]).go_done(ctxs0[k], nodes0[k + 1], ctxs0[k + 1], rs0[k]) by {
            assert(nodes[k].go_done(ctxs[k], nodes[k + 1], ctxs[k + 1], rs[k]));
        }
        lemma_all_node_step_limit(nodes0, ctxs0, rs0);
        assert(nodes0.last() == nodes[n]);
        assert(nodes[n].go_done(ctxs[n], nodes[n + 1], ctxs[n + 1], rs[n]));
        assert(rs.take(n) =~= rs0);
        assert forall|k: int|
            0 <= k < rs.len() && progress_count(#[trigger] rs.take(k)) >= nodes[0].data.steps - nodes[0].data.counter
                implies !rs[k] by {
            if k < n {
                assert(rs0.take(k) =~= rs.take(k));
                assert(rs0[k] == rs[k]);
            }
        }
    }
}

} // verus!
