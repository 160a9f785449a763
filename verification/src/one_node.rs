//! The one node: each step applies a single match, chosen at random or, when potentials
//! steer the node, the match that lowers the potential most.
use vstd::prelude::*;
use crate::node::Node;
use crate::context::{grid_ok, ExecutionContext};
use crate::field::delta_pointwise_wide;
use crate::geom::lemma_idx3_bound;
use crate::matching::spec_matches;
use crate::observation::{goal_reached, Observation};
use crate::rng::{DotNetRandom, MBIG};
use crate::rule::MjRule;
use crate::rule_node::{
    all_below, ctx_frame, data_fits, heuristic_of, lemma_fields_arg, matches_hold, promising, rules_ok, same_setup,
    write_rule, RuleNodeData,
};

verus! {

/// Applies one match per step.
pub struct OneNode {
    /// Rules, matches and steering.
    pub data: RuleNodeData,
}

/// Whether a candidate with heuristic `h` and random sample `s` beats the current best.
///
/// The key of a candidate is `-h + 0.001 * s / MBIG`; keys are compared with `>`, and the
/// first candidate must beat -1000.
pub open spec fn beats(h: int, s: int, best: Option<(usize, i128, i32)>) -> bool {
    match best {
        None => h < 1000 || (h == 1000 && s > 0),
        Some(b) => h < b.1 || (h == b.1 && s > b.2),
    }
}

/// Whether match `m` has a heuristic and none of `cands` has a strictly lower one: the
/// match a greedy field-steered step picks.
pub open spec fn least_heuristic(
    data: &RuleNodeData,
    state: Seq<u8>,
    mx: int,
    my: int,
    m: (usize, i32, i32, i32),
    cands: Seq<(usize, i32, i32, i32)>,
) -> bool {
    &&& heuristic_of(data, state, mx, my, m) is Some
    &&& forall|j: int|
        0 <= j < cands.len() ==> (heuristic_of(data, state, mx, my, #[trigger] cands[j]) matches Some(h)
            ==> heuristic_of(data, state, mx, my, m)->0 <= h)
}

/// The greedy field-steered choice is a least one: the chosen match has a heuristic no
/// candidate with a heuristic undercuts, and two such choices over the same candidates, each
/// among them, have the same heuristic (they differ at most by a tie).
pub proof fn lemma_least_heuristic_choice(
    data: &RuleNodeData,
    state: Seq<u8>,
    mx: int,
    my: int,
    m1: (usize, i32, i32, i32),
    m2: (usize, i32, i32, i32),
    cands: Seq<(usize, i32, i32, i32)>,
    k: int,
)
    requires
        least_heuristic(data, state, mx, my, m1, cands),
        0 <= k < cands.len(),
    ensures
        heuristic_of(data, state, mx, my, cands[k]) matches Some(h) ==> heuristic_of(data, state, mx, my, m1)->0 <= h,
        least_heuristic(data, state, mx, my, m2, cands) && cands.contains(m1) && cands.contains(m2) ==> heuristic_of(
            data,
            state,
            mx,
            my,
            m1,
        ) == heuristic_of(data, state, mx, my, m2),
{
    if least_heuristic(data, state, mx, my, m2, cands) && cands.contains(m1) && cands.contains(m2) {
        let i1 = choose|i: int| 0 <= i < cands.len() && cands[i] == m1;
        let i2 = choose|i: int| 0 <= i < cands.len() && cands[i] == m2;
        assert(heuristic_of(data, state, mx, my, cands[i1]) is Some);
        assert(heuristic_of(data, state, mx, my, cands[i2]) is Some);
    }
}

impl OneNode {
    /// A one node over `rules` for a grid of `grid_size` cells.
    pub fn new(rules: Vec<MjRule>, grid_size: usize) -> (node: Self)
        requires
            rules_ok(rules@),
        ensures
            node.data.wf(),
            node.data.rules@ == rules@,
            node.data.potentials is None,
    {
        OneNode { data: RuleNodeData::new(rules, grid_size) }
    }

    /// Apply rule `rule` at (x, y, z), logging the changed cells.
    pub fn apply(rule: &MjRule, x: i32, y: i32, z: i32, ctx: &mut ExecutionContext)
        requires
            old(ctx).wf(),
            rule.wf(),
            rule.outputs_below(32),
            crate::matching::output_fits(rule, x as int, y as int, z as int, old(ctx).grid.mx as int, old(ctx).grid.my as int, old(ctx).grid.mz as int),
        ensures
            ctx_frame(old(ctx), final(ctx)),
            final(ctx).random == old(ctx).random,
            final(ctx).grid.state@ == crate::matching::spec_apply(
                old(ctx).grid.state@,
                old(ctx).grid.mx as int,
                old(ctx).grid.my as int,
                rule,
                x as int,
                y as int,
                z as int,
            ),
    {
        write_rule(rule, x, y, z, ctx);
    }

    /// Draw live matches at random until one still holds; drawn matches leave the list.
    pub fn random_match_simple(&mut self, ctx: &mut ExecutionContext) -> (r: Option<(usize, i32, i32, i32)>)
        requires
            data_fits(&old(self).data, &old(ctx).grid),
            old(ctx).wf(),
        ensures
            data_fits(&final(self).data, &final(ctx).grid),
            same_setup(&old(self).data, &final(self).data),
            final(self).data.counter == old(self).data.counter,
            final(self).data.last == old(self).data.last,
            final(ctx).grid == old(ctx).grid,
            final(ctx).random.wf(),
            final(ctx).changes == old(ctx).changes,
            final(ctx).first == old(ctx).first,
            final(ctx).counter == old(ctx).counter,
            final(ctx).gif == old(ctx).gif,
            final(ctx).wf(),
            r is None ==> final(self).data.match_count == 0,
            r matches Some(m) ==> m.0 < final(self).data.rules@.len() && spec_matches(
                &final(ctx).grid,
                &final(self).data.rules@[m.0 as int],
                m.1 as int,
                m.2 as int,
                m.3 as int,
            ),
    {
        let mx = ctx.grid.mx;
        let my = ctx.grid.my;
        while self.data.match_count > 0
            invariant
                data_fits(&self.data, &ctx.grid),
                same_setup(&old(self).data, &self.data),
                self.data.counter == old(self).data.counter,
                self.data.last == old(self).data.last,
                ctx.grid == old(ctx).grid,
                ctx.changes == old(ctx).changes,
                ctx.first == old(ctx).first,
                ctx.counter == old(ctx).counter,
                ctx.gif == old(ctx).gif,
                ctx.wf(),
                mx == ctx.grid.mx && my == ctx.grid.my,
            decreases self.data.match_count,
        {
            let count = self.data.match_count;
            let match_index = ctx.random.next_usize_max(count);
            let (r, x, y, z) = self.data.matches[match_index];
            proof {
                assert(crate::rule_node::match_in_bounds(self.data.rules@, self.data.matches@[match_index as int], self.data.dims));
                lemma_idx3_bound(x as int, y as int, z as int, mx as int, my as int, ctx.grid.mz as int);
            }
            let i = (x as usize) + (y as usize) * mx + (z as usize) * (mx * my);
            self.data.match_mask[r][i] = false;
            let last_match = self.data.matches[count - 1];
            let ghost before = self.data.matches@;
            self.data.matches.set(match_index, last_match);
            self.data.match_count = count - 1;
            proof {
                assert forall|k: int| 0 <= k < self.data.match_count implies crate::rule_node::match_in_bounds(
                    self.data.rules@,
                    #[trigger] self.data.matches@[k],
                    self.data.dims,
                ) by {
                    if k == match_index {
                        assert(self.data.matches@[k] == before[count - 1]);
                    } else {
                        assert(self.data.matches@[k] == before[k]);
                    }
                }
            }
            if ctx.grid.matches(&self.data.rules[r], x, y, z) {
                return Some((r, x, y, z));
            }
        }
        None
    }
}

/// The rule block at the match lies inside a grid of `mx * my * mz` cells.
pub proof fn lemma_block_below_pub(imz: int, z: int, mx: int, my: int, mz: int)
    requires
        0 <= z,
        z + imz <= mz,
        mx >= 0,
        my >= 0,
    ensures
        (z + imz) * (mx * my) <= mx * my * mz,
{
    assert((z + imz) * (mx * my) <= mz * (mx * my)) by (nonlinear_arith)
        requires
            z + imz <= mz,
            mx * my >= 0,
    ;
    assert(mz * (mx * my) == mx * my * mz) by (nonlinear_arith);
}

impl OneNode {
    /// Pick the live match whose application lowers the potential most (ties broken by
    /// the larger random draw); matches that no longer hold leave the list. Returns
    /// `None` once the goal is reached, or when no candidate qualifies.
    #[verifier::loop_isolation(false)]
    pub fn random_match_heuristic(&mut self, ctx: &mut ExecutionContext) -> (r: Option<(usize, i32, i32, i32)>)
        requires
            data_fits(&old(self).data, &old(ctx).grid),
            old(ctx).wf(),
            old(self).data.potentials is Some,
        ensures
            data_fits(&final(self).data, &final(ctx).grid),
            same_setup(&old(self).data, &final(self).data),
            final(self).data.counter == old(self).data.counter,
            final(self).data.last == old(self).data.last,
            final(ctx).grid == old(ctx).grid,
            final(ctx).changes == old(ctx).changes,
            final(ctx).first == old(ctx).first,
            final(ctx).counter == old(ctx).counter,
            final(ctx).gif == old(ctx).gif,
            final(ctx).wf(),
            r matches Some(m) ==> m.0 < final(self).data.rules@.len() && spec_matches(
                &final(ctx).grid,
                &final(self).data.rules@[m.0 as int],
                m.1 as int,
                m.2 as int,
                m.3 as int,
            ),
            r is None ==> (old(self).data.observations is Some && old(self).data.future is Some && goal_reached(
                old(ctx).grid.state@,
                old(self).data.future->0@,
            )) || !(forall|i: int|
                0 <= i < old(ctx).grid.state@.len() ==> (#[trigger] old(ctx).grid.state@[i] as int)
                    < old(self).data.potentials->0@.len()) || forall|j: int|
                0 <= j < final(self).data.match_count ==> !promising(
                    &old(self).data,
                    old(ctx).grid.state@,
                    old(ctx).grid.mx as int,
                    old(ctx).grid.my as int,
                    #[trigger] final(self).data.matches@[j],
                ),
            r matches Some(m) ==> least_heuristic(
                &old(self).data,
                old(ctx).grid.state@,
                old(ctx).grid.mx as int,
                old(ctx).grid.my as int,
                m,
                final(self).data.matches@.take(final(self).data.match_count as int),
            ),
    {
        if self.data.observations.is_some() && self.data.future.is_some() {
            let goal = match &self.data.future {
                Some(fut) => Observation::is_goal_reached(ctx.grid.state.as_slice(), fut.as_slice()),
                None => false,
            };
            if goal {
                self.data.future_computed = false;
                return None;
            }
        }
        let mx = ctx.grid.mx;
        let my = ctx.grid.my;
        let pcount = match &self.data.potentials {
            Some(p) => p.len(),
            None => 0,
        };
        if !all_below(&ctx.grid.state, pcount) {
            return None;
        }
        let ghost g0 = ctx.grid;
        let mut best: Option<(usize, i128, i32)> = None;
        let mut k: usize = 0;
        while k < self.data.match_count
            invariant
                data_fits(&self.data, &ctx.grid),
                same_setup(&old(self).data, &self.data),
                self.data.counter == old(self).data.counter,
                self.data.last == old(self).data.last,
                self.data.potentials == old(self).data.potentials,
                self.data.future == old(self).data.future,
                self.data.future_computed == old(self).data.future_computed,
                ctx.grid == g0,
                ctx.wf(),
                ctx.changes == old(ctx).changes,
                ctx.first == old(ctx).first,
                ctx.counter == old(ctx).counter,
                ctx.gif == old(ctx).gif,
                k <= self.data.match_count,
                self.data.fields == old(self).data.fields,
                self.data.rules == old(self).data.rules,
                forall|i: int| 0 <= i < ctx.grid.state@.len() ==> (#[trigger] ctx.grid.state@[i] as int) < pcount,
                self.data.potentials matches Some(p) && p@.len() == pcount,
                best is None ==> forall|j: int|
                    0 <= j < k ==> !promising(
                        &old(self).data,
                        old(ctx).grid.state@,
                        mx as int,
                        my as int,
                        #[trigger] self.data.matches@[j],
                    ),
                best is None ==> forall|j: int|
                    0 <= j < k ==> (heuristic_of(
                        &old(self).data,
                        old(ctx).grid.state@,
                        mx as int,
                        my as int,
                        #[trigger] self.data.matches@[j],
                    ) matches Some(h) ==> h >= 1000),
                best matches Some(b) ==> b.1 <= 1000 && heuristic_of(
                    &old(self).data,
                    old(ctx).grid.state@,
                    mx as int,
                    my as int,
                    self.data.matches@[b.0 as int],
                ) == Some(b.1) && forall|j: int|
                    0 <= j < k ==> (heuristic_of(
                        &old(self).data,
                        old(ctx).grid.state@,
                        mx as int,
                        my as int,
                        #[trigger] self.data.matches@[j],
                    ) matches Some(h) ==> b.1 <= h),
                best matches Some(b) ==> b.0 < k && self.data.matches@[b.0 as int].0 < self.data.rules@.len()
                    && spec_matches(
                    &ctx.grid,
                    &self.data.rules@[self.data.matches@[b.0 as int].0 as int],
                    self.data.matches@[b.0 as int].1 as int,
                    self.data.matches@[b.0 as int].2 as int,
                    self.data.matches@[b.0 as int].3 as int,
                ),
            decreases self.data.match_count - k,
        {
            let (r, x, y, z) = self.data.matches[k];
            proof {
                assert(crate::rule_node::match_in_bounds(self.data.rules@, self.data.matches@[k as int], self.data.dims));
            }
            if !ctx.grid.matches(&self.data.rules[r], x, y, z) {
                proof {
                    lemma_idx3_bound(x as int, y as int, z as int, mx as int, my as int, ctx.grid.mz as int);
                }
                let i = (x as usize) + (y as usize) * mx + (z as usize) * (mx * my);
                let count = self.data.match_count;
                self.data.match_mask[r][i] = false;
                let last_match = self.data.matches[count - 1];
                let ghost before = self.data.matches@;
                self.data.matches.set(k, last_match);
                self.data.match_count = count - 1;
                proof {
                    assert forall|j: int| 0 <= j < self.data.match_count implies crate::rule_node::match_in_bounds(
                        self.data.rules@,
                        #[trigger] self.data.matches@[j],
                        self.data.dims,
                    ) by {
                        if j == k {
                            assert(self.data.matches@[j] == before[count - 1]);
                        } else {
                            assert(self.data.matches@[j] == before[j]);
                        }
                    }
                    if best is Some {
                        let b = best->0;
                        assert(self.data.matches@[b.0 as int] == before[b.0 as int]);
                    }
                    assert forall|j: int| 0 <= j < k implies #[trigger] self.data.matches@[j] == before[j] by {}
                }
            } else {
                let rule = &self.data.rules[r];
                proof {
                    lemma_block_below_pub(rule.imz as int, z as int, mx as int, my as int, ctx.grid.mz as int);
                    crate::field::lemma_rows_cover(
                        ctx.grid.state@,
                        rule,
                        x as int,
                        y as int,
                        z as int,
                        self.data.potentials->0@,
                        mx as int,
                        my as int,
                    );
                }
                let h = match (&self.data.fields, &self.data.potentials) {
                    (Some(f), Some(p)) => {
                        let fs = f.as_slice();
                        proof {
                            lemma_fields_arg(self.data.fields, fs);
                        }
                        delta_pointwise_wide(ctx.grid.state.as_slice(), rule, x, y, z, Some(fs), p.as_slice(), mx, my)
                    },
                    (None, Some(p)) => delta_pointwise_wide(
                        ctx.grid.state.as_slice(),
                        rule,
                        x,
                        y,
                        z,
                        None,
                        p.as_slice(),
                        mx,
                        my,
                    ),
                    _ => None,
                };
                proof {
                    assert(h == heuristic_of(&old(self).data, old(ctx).grid.state@, mx as int, my as int, self.data.matches@[k as int]));
                }
                match h {
                    Some(hv) => {
                        let s = ctx.random.next_sample();
                        let better = match best {
                            None => hv < 1000 || (hv == 1000 && s > 0),
                            Some(b) => hv < b.1 || (hv == b.1 && s > b.2),
                        };
                        if better {
                            best = Some((k, hv, s));
                        }
                    },
                    None => {},
                }
                k = k + 1;
            }
        }
        match best {
            Some(b) => {
                proof {
                    let l = self.data.matches@.take(self.data.match_count as int);
                    assert forall|j: int| 0 <= j < l.len() implies (heuristic_of(
                        &old(self).data,
                        old(ctx).grid.state@,
                        mx as int,
                        my as int,
                        #[trigger] l[j],
                    ) matches Some(h) ==> b.1 <= h) by {
                        assert(l[j] == self.data.matches@[j]);
                    }
                }
                Some(self.data.matches[b.0])
            },
            None => None,
        }
    }

    /// Pick a match: by heuristic when the node is steered, else at random.
    pub fn random_match(&mut self, ctx: &mut ExecutionContext) -> (r: Option<(usize, i32, i32, i32)>)
        requires
            data_fits(&old(self).data, &old(ctx).grid),
            old(ctx).wf(),
        ensures
            data_fits(&final(self).data, &final(ctx).grid),
            same_setup(&old(self).data, &final(self).data),
            final(self).data.counter == old(self).data.counter,
            final(self).data.last == old(self).data.last,
            final(ctx).grid == old(ctx).grid,
            final(ctx).changes == old(ctx).changes,
            final(ctx).first == old(ctx).first,
            final(ctx).counter == old(ctx).counter,
            final(ctx).gif == old(ctx).gif,
            final(ctx).wf(),
            r matches Some(m) ==> m.0 < final(self).data.rules@.len() && spec_matches(
                &final(ctx).grid,
                &final(self).data.rules@[m.0 as int],
                m.1 as int,
                m.2 as int,
                m.3 as int,
            ),
            old(self).data.potentials is None ==> (r is None ==> final(self).data.match_count == 0),
            old(self).data.potentials is Some ==> (r is None ==> (old(self).data.observations is Some
                && old(self).data.future is Some && goal_reached(old(ctx).grid.state@, old(self).data.future->0@))
                || !(forall|i: int|
                0 <= i < old(ctx).grid.state@.len() ==> (#[trigger] old(ctx).grid.state@[i] as int)
                    < old(self).data.potentials->0@.len()) || forall|j: int|
                0 <= j < final(self).data.match_count ==> !promising(
                    &old(self).data,
                    old(ctx).grid.state@,
                    old(ctx).grid.mx as int,
                    old(ctx).grid.my as int,
                    #[trigger] final(self).data.matches@[j],
                )),
    {
        if self.data.potentials.is_some() {
            self.random_match_heuristic(ctx)
        } else {
            self.random_match_simple(ctx)
        }
    }

    /// One step: list the matches, pick one and apply it. Returns false when the node is
    /// done (step limit, no match, goal reached or a field failure).
    pub fn go(&mut self, ctx: &mut ExecutionContext) -> (r: bool)
        requires
            old(self).data.wf(),
            old(ctx).wf(),
        ensures
            data_fits(&final(self).data, &final(ctx).grid),
            same_setup(&old(self).data, &final(self).data),
            final(ctx).wf(),
            final(ctx).grid.mx == old(ctx).grid.mx && final(ctx).grid.my == old(ctx).grid.my && final(ctx).grid.mz
                == old(ctx).grid.mz,
            final(ctx).grid.c == old(ctx).grid.c,
            final(ctx).first@ == old(ctx).first@,
            final(ctx).counter == old(ctx).counter,
            old(self).data.steps > 0 && old(self).data.counter >= old(self).data.steps ==> !r && final(ctx).grid
                == old(ctx).grid,
            !r ==> final(ctx).grid.state == old(ctx).grid.state || old(self).data.observations is Some,
            r ==> exists|m: (usize, i32, i32, i32), s0: Seq<u8>|
                #![trigger crate::matching::spec_apply(s0, old(ctx).grid.mx as int, old(ctx).grid.my as int, &old(self).data.rules@[m.0 as int], m.1 as int, m.2 as int, m.3 as int)]
                m.0 < old(self).data.rules@.len() && (s0 == old(ctx).grid.state@ || old(self).data.observations is Some)
                    && crate::matching::input_fits(
                    &old(self).data.rules@[m.0 as int],
                    m.1 as int,
                    m.2 as int,
                    m.3 as int,
                    old(ctx).grid.mx as int,
                    old(ctx).grid.my as int,
                    old(ctx).grid.mz as int,
                ) && crate::matching::pattern_matches(
                    s0,
                    old(ctx).grid.mx as int,
                    old(ctx).grid.my as int,
                    &old(self).data.rules@[m.0 as int],
                    m.1 as int,
                    m.2 as int,
                    m.3 as int,
                ) && final(ctx).grid.state@ == crate::matching::spec_apply(
                    s0,
                    old(ctx).grid.mx as int,
                    old(ctx).grid.my as int,
                    &old(self).data.rules@[m.0 as int],
                    m.1 as int,
                    m.2 as int,
                    m.3 as int,
                ),
    {
        if !self.data.compute_matches(ctx) {
            return false;
        }
        self.data.last_matched_turn = #[verifier::truncate] (ctx.counter as i32);
        match self.random_match(ctx) {
            Some((r, x, y, z)) => {
                let ghost s0 = ctx.grid.state@;
                self.data.last.set(r, true);
                write_rule(&self.data.rules[r], x, y, z, ctx);
                if self.data.counter < usize::MAX {
                    self.data.counter = self.data.counter + 1;
                }
                proof {
                    assert(crate::matching::spec_apply(s0, old(ctx).grid.mx as int, old(ctx).grid.my as int, &old(self).data.rules@[r as int], x as int, y as int, z as int) == ctx.grid.state@);
                }
                true
            },
            None => false,
        }
    }

    /// Forget the step counter, the goal and every listed match position.
    pub fn reset(&mut self)
        requires
            old(self).data.wf(),
        ensures
            final(self).data.wf(),
            final(self).data.counter == 0,
            final(self).data.last_matched_turn == -1,
            same_setup(&old(self).data, &final(self).data),
            final(self).data.dims == old(self).data.dims,
    {
        self.data.reset();
        self.data.clear_match_mask();
    }
}


impl OneNode {
    /// What one step does: from this node and context to `after` and `ctx_after`, with
    /// result `r`.
    pub open spec fn go_done(self, ctx: ExecutionContext, after: Self, ctx_after: ExecutionContext, r: bool) -> bool {
        &&& data_fits(&after.data, &ctx_after.grid)
        &&& same_setup(&self.data, &after.data)
        &&& ctx_after.wf()
        &&& ctx_after.grid.mx == ctx.grid.mx && ctx_after.grid.my == ctx.grid.my && ctx_after.grid.mz
                == ctx.grid.mz
        &&& ctx_after.grid.c == ctx.grid.c
        &&& ctx_after.first@ == ctx.first@
        &&& ctx_after.counter == ctx.counter
        &&& self.data.steps > 0 && self.data.counter >= self.data.steps ==> !r && ctx_after.grid
                == ctx.grid
        &&& !r ==> ctx_after.grid.state == ctx.grid.state || self.data.observations is Some
        &&& r ==> exists|m: (usize, i32, i32, i32), s0: Seq<u8>|
                #![trigger crate::matching::spec_apply(s0, ctx.grid.mx as int, ctx.grid.my as int, &self.data.rules@[m.0 as int], m.1 as int, m.2 as int, m.3 as int)]
                m.0 < self.data.rules@.len() && (s0 == ctx.grid.state@ || self.data.observations is Some)
                    && crate::matching::input_fits(
                    &self.data.rules@[m.0 as int],
                    m.1 as int,
                    m.2 as int,
                    m.3 as int,
                    ctx.grid.mx as int,
                    ctx.grid.my as int,
                    ctx.grid.mz as int,
                ) && crate::matching::pattern_matches(
                    s0,
                    ctx.grid.mx as int,
                    ctx.grid.my as int,
                    &self.data.rules@[m.0 as int],
                    m.1 as int,
                    m.2 as int,
                    m.3 as int,
                ) && ctx_after.grid.state@ == crate::matching::spec_apply(
                    s0,
                    ctx.grid.mx as int,
                    ctx.grid.my as int,
                    &self.data.rules@[m.0 as int],
                    m.1 as int,
                    m.2 as int,
                    m.3 as int,
                )
    }

    /// What a reset does: from this node to `after`.
    pub open spec fn reset_done(self, after: Self) -> bool {
        &&& after.data.wf()
        &&& after.data.counter == 0
        &&& after.data.last_matched_turn == -1
        &&& same_setup(&self.data, &after.data)
        &&& after.data.dims == self.data.dims
    }
}

impl Node for OneNode {
    open spec fn node_inv(&self) -> bool {
        self.data.wf()
    }

    fn go(&mut self, ctx: &mut ExecutionContext) -> (r: bool)
        ensures
            old(self).go_done(*old(ctx), *final(self), *final(ctx), r),
    {
        OneNode::go(self, ctx)
    }

    fn reset(&mut self)
        ensures
            old(self).reset_done(*final(self)),
    {
        OneNode::reset(self)
    }
}

} // verus!
