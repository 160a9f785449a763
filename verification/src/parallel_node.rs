//! The parallel node: each step finds every match on the present state and applies each
//! one with the probability of its rule, all reading the same present state and writing
//! into a buffer that is copied back at the end.
use vstd::prelude::*;
use crate::node::Node;
use crate::context::ExecutionContext;
use crate::geom::{idx3, lemma_idx3_bound, lemma_idx3_inverse};
use crate::grid::lemma_plane_div_bound;
use crate::matching::{footprint_offset, lemma_output_cell, output_cell_index, output_fits, spec_matches};
use crate::rng::MBIG;
use crate::rule::{coord_of, MjRule, Probability};
use crate::grid::MjGrid;
use crate::rule_node::{clear_flags, ctx_frame, data_fits, matches_hold, rules_ok, same_setup, scan_full, RuleNodeData};
use crate::vecs::filled_u8;

verus! {

/// Applies all matches at once, each with its rule's probability.
pub struct ParallelNode {
    /// Rules and matches.
    pub data: RuleNodeData,
    /// Buffer of the values written this step.
    pub newstate: Vec<u8>,
}

/// Whether a draw `s` (the fraction `s / MBIG`) exceeds the probability `num / den`.
pub open spec fn draw_exceeds(s: i32, num: u64, den: u64) -> bool {
    (s as int) * (den as int) > (num as int) * (MBIG as int)
}

/// The buffer after writing the first `k` output cells of the rule at (x, y, z), keeping
/// only the cells whose written value differs from the present state.
pub open spec fn buffered_upto(
    buffer: Seq<u8>,
    state: Seq<u8>,
    mx: int,
    my: int,
    rule: &MjRule,
    x: int,
    y: int,
    z: int,
    k: int,
) -> Seq<u8> {
    Seq::new(
        buffer.len(),
        |i: int|
            {
                let o = footprint_offset(i, mx, my, rule, x, y, z);
                if 0 <= o < k && rule.output@[o] != 0xff && rule.output@[o] != state[i] {
                    rule.output@[o]
                } else {
                    buffer[i]
                }
            },
    )
}

/// The value the rule at (x, y, z) writes on cell `i` when it changes the cell: its output
/// there, unless it is a wildcard or equal to the present value.
pub open spec fn cell_write(state: Seq<u8>, mx: int, my: int, rule: &MjRule, x: int, y: int, z: int, i: int) -> Option<u8> {
    let o = footprint_offset(i, mx, my, rule, x, y, z);
    if 0 <= o < rule.output@.len() && rule.output@[o] != 0xff && rule.output@[o] != state[i] {
        Some(rule.output@[o])
    } else {
        None
    }
}

/// Whether cell `i` is logged in `log` from position `from` on.
pub open spec fn logged_from(log: Seq<usize>, from: int, i: int) -> bool {
    exists|t: int| from <= t < log.len() && #[trigger] log[t] as int == i
}

/// Whether a rule's probability is one, so that its draw always passes.
pub open spec fn certain(p: Probability) -> bool {
    p.num >= p.den
}

/// A rule of probability one never fails its draw.
pub proof fn lemma_certain_draw_passes(s: i32, p: Probability)
    requires
        certain(p),
    ensures
        !draw_exceeds(s, p.num, p.den),
{
    assert((s as int) * (p.den as int) <= (p.num as int) * (MBIG as int)) by (nonlinear_arith)
        requires
            s <= MBIG,
            p.num >= p.den,
            p.den >= 0,
            MBIG > 0,
    ;
}

/// The value match `m` writes on cell `i` when it changes it (see `cell_write`).
pub open spec fn match_write(state: Seq<u8>, mx: int, my: int, rules: Seq<MjRule>, m: (usize, i32, i32, i32), i: int) -> Option<u8> {
    cell_write(state, mx, my, &rules[m.0 as int], m.1 as int, m.2 as int, m.3 as int, i)
}

/// Whether one of the first `k` matches of `ms` whose rule has probability one changes cell
/// `i`.
pub open spec fn surely_written(state: Seq<u8>, mx: int, my: int, rules: Seq<MjRule>, ms: Seq<(usize, i32, i32, i32)>, k: int, i: int) -> bool {
    exists|j: int| 0 <= j < k && certain(rules[ms[j].0 as int].p) && #[trigger] match_write(state, mx, my, rules, ms[j], i) is Some
}

/// Whether one of the first `k` matches of `ms` writes value `v` on cell `i`.
pub open spec fn written_by_some(state: Seq<u8>, mx: int, my: int, rules: Seq<MjRule>, ms: Seq<(usize, i32, i32, i32)>, k: int, i: int, v: u8) -> bool {
    exists|j: int| 0 <= j < k && #[trigger] match_write(state, mx, my, rules, ms[j], i) == Some(v)
}

/// After the first `k` matches of `ms` have been applied into the buffer `buf`: each cell
/// that one of them whose rule has probability one changes holds the value one of them
/// writes there, and is logged from position `from` on.
pub open spec fn prl_applied(
    state: Seq<u8>,
    mx: int,
    my: int,
    rules: Seq<MjRule>,
    ms: Seq<(usize, i32, i32, i32)>,
    k: int,
    buf: Seq<u8>,
    log: Seq<usize>,
    from: int,
) -> bool {
    forall|i: int|
        0 <= i < state.len() && #[trigger] surely_written(state, mx, my, rules, ms, k, i) ==> written_by_some(
            state,
            mx,
            my,
            rules,
            ms,
            k,
            i,
            buf[i],
        ) && logged_from(log, from, i)
}

/// Applying match `k` keeps `prl_applied` for one more match: a buffer that took the
/// match's writes when its draw passed (and is unchanged otherwise), and a log extended
/// with every cell it changed.
proof fn lemma_prl_step(
    state: Seq<u8>,
    mx: int,
    my: int,
    rules: Seq<MjRule>,
    ms: Seq<(usize, i32, i32, i32)>,
    k: int,
    buf0: Seq<u8>,
    buf1: Seq<u8>,
    log0: Seq<usize>,
    log1: Seq<usize>,
    from: int,
    draw: i32,
)
    requires
        0 <= k < ms.len(),
        0 <= from <= log0.len() <= log1.len(),
        log1.subrange(0, log0.len() as int) == log0,
        buf0.len() == state.len(),
        prl_applied(state, mx, my, rules, ms, k, buf0, log0, from),
        draw_exceeds(draw, rules[ms[k].0 as int].p.num, rules[ms[k].0 as int].p.den) ==> buf1 == buf0,
        !draw_exceeds(draw, rules[ms[k].0 as int].p.num, rules[ms[k].0 as int].p.den) ==> {
            &&& buf1 == buffered_upto(
                buf0,
                state,
                mx,
                my,
                &rules[ms[k].0 as int],
                ms[k].1 as int,
                ms[k].2 as int,
                ms[k].3 as int,
                rules[ms[k].0 as int].output@.len() as int,
            )
            &&& forall|i: int|
                0 <= i < state.len() && #[trigger] match_write(state, mx, my, rules, ms[k], i) is Some ==> logged_from(log1, log0.len() as int, i)
        },
    ensures
        prl_applied(state, mx, my, rules, ms, k + 1, buf1, log1, from),
{
    let m = ms[k];
    let rule = &rules[m.0 as int];
    if certain(rule.p) {
        lemma_certain_draw_passes(draw, rule.p);
    }
    assert forall|i: int|
        0 <= i < state.len() && #[trigger] surely_written(state, mx, my, rules, ms, k + 1, i) implies written_by_some(
            state,
            mx,
            my,
            rules,
            ms,
            k + 1,
            i,
            buf1[i],
        ) && logged_from(log1, from, i) by {
        let j = choose|j: int|
            0 <= j < k + 1 && certain(rules[ms[j].0 as int].p) && #[trigger] match_write(state, mx, my, rules, ms[j], i) is Some;
        let passes = !draw_exceeds(draw, rule.p.num, rule.p.den);
        if passes && match_write(state, mx, my, rules, m, i) is Some {
            assert(buf1[i] == match_write(state, mx, my, rules, m, i)->0);
            assert(match_write(state, mx, my, rules, ms[k], i) == Some(buf1[i]));
            let t = choose|t: int| log0.len() <= t < log1.len() && #[trigger] log1[t] as int == i;
            assert(from <= t);
        } else {
            if j == k {
                assert(false);
            }
            assert(j < k);
            assert(buf1[i] == buf0[i]);
            assert(surely_written(state, mx, my, rules, ms, k, i));
            let j2 = choose|j2: int| 0 <= j2 < k && #[trigger] match_write(state, mx, my, rules, ms[j2], i) == Some(buf0[i]);
            assert(match_write(state, mx, my, rules, ms[j2], i) == Some(buf1[i]));
            let t = choose|t: int| from <= t < log0.len() && #[trigger] log0[t] as int == i;
            assert(log1[t] == log1.subrange(0, log0.len() as int)[t]);
        }
    }
}

/// What a parallel step does to the grid: every cell that some found match (each a true
/// match of the grid before the step) of a rule of probability one changes ends up holding
/// the value one of the found matches writes there.
pub open spec fn prl_step_done(before: &MjGrid, rules: Seq<MjRule>, ms: Seq<(usize, i32, i32, i32)>, after: Seq<u8>) -> bool {
    &&& matches_hold(rules, before, ms, 0, ms.len() as int)
    &&& forall|i: int|
        0 <= i < before.state@.len() && #[trigger] surely_written(
            before.state@,
            before.mx as int,
            before.my as int,
            rules,
            ms,
            ms.len() as int,
            i,
        ) ==> written_by_some(before.state@, before.mx as int, before.my as int, rules, ms, ms.len() as int, i, after[i])
}

/// After a parallel step, a cell that some found match of a rule of probability one changes,
/// and on which every found match that changes it writes the same value `v`, holds `v`: the
/// matches of the step are all applied, not only some of them.
pub proof fn lemma_prl_writes_applied(
    before: &MjGrid,
    rules: Seq<MjRule>,
    ms: Seq<(usize, i32, i32, i32)>,
    after: Seq<u8>,
    i: int,
    k: int,
    v: u8,
)
    requires
        prl_step_done(before, rules, ms, after),
        0 <= i < before.state@.len(),
        0 <= k < ms.len(),
        certain(rules[ms[k].0 as int].p),
        match_write(before.state@, before.mx as int, before.my as int, rules, ms[k], i) is Some,
        forall|j: int|
            0 <= j < ms.len() ==> (#[trigger] match_write(before.state@, before.mx as int, before.my as int, rules, ms[j], i)
                matches Some(w) ==> w == v),
    ensures
        after[i] == v,
{
    assert(surely_written(before.state@, before.mx as int, before.my as int, rules, ms, ms.len() as int, i));
}

impl ParallelNode {
    /// Internal consistency: the rule data is consistent and the buffer holds values
    /// below 32.
    pub open spec fn wf(&self) -> bool {
        &&& self.data.wf()
        &&& forall|i: int| 0 <= i < self.newstate@.len() ==> #[trigger] self.newstate@[i] < 32
    }

    /// A parallel node over `rules` for a grid of `grid_size` cells.
    pub fn new(rules: Vec<MjRule>, grid_size: usize) -> (node: Self)
        requires
            rules_ok(rules@),
        ensures
            node.wf(),
            node.data.rules@ == rules@,
    {
        ParallelNode { data: RuleNodeData::new(rules, grid_size), newstate: filled_u8(grid_size, 0) }
    }

    /// A parallel node with prepared rule data; the buffer is sized by the first mask row.
    pub fn with_data(data: RuleNodeData) -> (node: Self)
        requires
            data.wf(),
        ensures
            node.wf(),
            node.data == data,
    {
        let grid_size = if data.match_mask.len() > 0 {
            data.match_mask[0].len()
        } else {
            0
        };
        ParallelNode { data, newstate: filled_u8(grid_size, 0) }
    }

    /// Apply the match of rule `r` at (x, y, z) into the buffer, if a draw does not exceed
    /// the rule's probability. Cells whose written value differs from the present state
    /// are buffered and logged. Returns whether any cell was buffered.
    pub fn apply_match(&mut self, r: usize, x: i32, y: i32, z: i32, ctx: &mut ExecutionContext) -> (changed: bool)
        requires
            old(self).wf(),
            old(ctx).wf(),
            old(self).newstate@.len() == old(ctx).grid.state@.len(),
            r < old(self).data.rules@.len(),
            output_fits(&old(self).data.rules@[r as int], x as int, y as int, z as int, old(ctx).grid.mx as int, old(ctx).grid.my as int, old(ctx).grid.mz as int),
        ensures
            final(self).wf(),
            final(self).data.rules == old(self).data.rules,
            final(self).data.matches == old(self).data.matches,
            final(self).data.match_count == old(self).data.match_count,
            final(self).data.match_mask == old(self).data.match_mask,
            final(self).data.counter == old(self).data.counter,
            final(self).data.dims == old(self).data.dims,
            final(self).data.potentials == old(self).data.potentials,
            final(self).data.fields == old(self).data.fields,
            final(self).data.observations == old(self).data.observations,
            final(self).data.future == old(self).data.future,
            final(self).data.steps == old(self).data.steps,
            final(self).data.last@.len() == old(self).data.last@.len(),
            final(self).newstate@.len() == old(self).newstate@.len(),
            ctx_frame(old(ctx), final(ctx)),
            final(ctx).grid == old(ctx).grid,
            final(ctx).random.wf(),
            draw_exceeds(old(ctx).random.spec_sample(), old(self).data.rules@[r as int].p.num, old(self).data.rules@[r as int].p.den)
                ==> !changed && final(self).newstate == old(self).newstate && final(ctx).changes == old(ctx).changes,
            !draw_exceeds(old(ctx).random.spec_sample(), old(self).data.rules@[r as int].p.num, old(self).data.rules@[r as int].p.den)
                ==> final(self).newstate@ == buffered_upto(
                old(self).newstate@,
                old(ctx).grid.state@,
                old(ctx).grid.mx as int,
                old(ctx).grid.my as int,
                &old(self).data.rules@[r as int],
                x as int,
                y as int,
                z as int,
                old(self).data.rules@[r as int].output@.len() as int,
            ),
            changed <==> final(ctx).changes@.len() > old(ctx).changes@.len(),
            !draw_exceeds(old(ctx).random.spec_sample(), old(self).data.rules@[r as int].p.num, old(self).data.rules@[r as int].p.den)
                ==> forall|i: int|
                0 <= i < old(ctx).grid.state@.len() && #[trigger] cell_write(
                    old(ctx).grid.state@,
                    old(ctx).grid.mx as int,
                    old(ctx).grid.my as int,
                    &old(self).data.rules@[r as int],
                    x as int,
                    y as int,
                    z as int,
                    i,
                ) is Some ==> logged_from(final(ctx).changes@, old(ctx).changes@.len() as int, i),
    {
        let s = ctx.random.next_sample();
        let p = self.data.rules[r].p;
        proof {
            assert(-0x1_0000_0000_0000_0000_0000_0000 <= (s as int) * (p.den as int) <= 0x1_0000_0000_0000_0000_0000_0000) by (nonlinear_arith)
                requires
                    -0x8000_0000 <= s <= 0x7fff_ffff,
                    0 <= p.den <= 0xffff_ffff_ffff_ffff,
            ;
            assert(0 <= (p.num as int) * (MBIG as int) <= 0x1_0000_0000_0000_0000_0000_0000) by (nonlinear_arith)
                requires
                    0 <= p.num <= 0xffff_ffff_ffff_ffff,
                    MBIG == 0x7fff_ffff,
            ;
        }
        if (s as i128) * (p.den as i128) > (p.num as i128) * (MBIG as i128) {
            assert(ctx.changes@.subrange(0, ctx.changes@.len() as int) =~= ctx.changes@);
            return false;
        }
        self.data.last.set(r, true);
        let rule = &self.data.rules[r];
        let ghost old_buf = self.newstate@;
        let ghost state = ctx.grid.state@;
        let mx = ctx.grid.mx;
        let my = ctx.grid.my;
        let ghost mz = ctx.grid.mz as int;
        let olen = rule.output.len();
        let xu = x as usize;
        let yu = y as usize;
        let zu = z as usize;
        proof {
            assert(rule.wf());
            assert(rule.outputs_below(32));
            lemma_idx3_bound(0, 0, 0, rule.omx as int, rule.omy as int, rule.omz as int);
            lemma_idx3_bound(x as int, y as int, z as int, mx as int, my as int, mz);
            assert(buffered_upto(old_buf, state, mx as int, my as int, rule, x as int, y as int, z as int, 0) =~= old_buf);
            assert(ctx.changes@.subrange(0, ctx.changes@.len() as int) =~= ctx.changes@);
        }
        let ghost ctx1 = *ctx;
        let ghost data1 = self.data;
        proof {
            assert(data1.wf());
        }
        let plane = rule.omx * rule.omy;
        let gplane = mx * my;
        let mut changed = false;
        let mut di: usize = 0;
        while di < olen
            invariant
                rule.wf(),
                rule.outputs_below(32),
                self.data == data1,
                data1.wf(),
                olen == rule.output@.len(),
                ctx_frame(&ctx1, ctx),
                ctx.grid == ctx1.grid,
                ctx.random == ctx1.random,
                state == ctx.grid.state@,
                mx == ctx.grid.mx && my == ctx.grid.my && mz == ctx.grid.mz,
                xu == x && yu == y && zu == z,
                output_fits(rule, x as int, y as int, z as int, mx as int, my as int, mz),
                plane == rule.omx * rule.omy,
                gplane == mx * my,
                di <= olen,
                self.newstate@.len() == state.len(),
                self.newstate@ == buffered_upto(old_buf, state, mx as int, my as int, rule, x as int, y as int, z as int, di as int),
                forall|i: int| 0 <= i < self.newstate@.len() ==> #[trigger] self.newstate@[i] < 32,
                changed <==> ctx.changes@.len() > ctx1.changes@.len(),
                forall|i: int|
                    0 <= i < state.len() && 0 <= #[trigger] footprint_offset(i, mx as int, my as int, rule, x as int, y as int, z as int) < di
                        && cell_write(state, mx as int, my as int, rule, x as int, y as int, z as int, i) is Some
                        ==> logged_from(ctx.changes@, ctx1.changes@.len() as int, i),
            decreases olen - di,
        {
            proof {
                lemma_idx3_inverse(di as int, rule.omx as int, rule.omy as int);
                lemma_plane_div_bound(di as int, rule.omx as int, rule.omy as int, rule.omz as int);
                let d = coord_of(di as int, rule.omx as int, rule.omy as int);
                lemma_idx3_bound(x + d.0, y + d.1, z + d.2, mx as int, my as int, mz);
                lemma_output_cell(mx as int, my as int, mz, rule, x as int, y as int, z as int, di as int);
            }
            let new_value = rule.output[di];
            let dx = di % rule.omx;
            let dy = (di / rule.omx) % rule.omy;
            let dz = di / plane;
            let si = (xu + dx) + (yu + dy) * mx + (zu + dz) * gplane;
            let ghost log0 = ctx.changes@;
            if new_value != 0xff && new_value != ctx.grid.state[si] {
                self.newstate.set(si, new_value);
                ctx.record_change(si);
                changed = true;
            }
            proof {
                assert(si as int == output_cell_index(mx as int, my as int, rule, x as int, y as int, z as int, di as int));
                assert forall|i: int|
                    0 <= i < state.len() && 0 <= #[trigger] footprint_offset(i, mx as int, my as int, rule, x as int, y as int, z as int) < di + 1
                        && cell_write(state, mx as int, my as int, rule, x as int, y as int, z as int, i) is Some
                        implies logged_from(ctx.changes@, ctx1.changes@.len() as int, i) by {
                    if footprint_offset(i, mx as int, my as int, rule, x as int, y as int, z as int) < di {
                        let t = choose|t: int| ctx1.changes@.len() <= t < log0.len() && #[trigger] log0[t] as int == i;
                        assert(ctx.changes@[t] == log0[t]);
                    } else {
                        assert(i == si as int);
                        assert(ctx.changes@[log0.len() as int] == si);
                    }
                }
            }
            di = di + 1;
            assert(self.newstate@ =~= buffered_upto(old_buf, state, mx as int, my as int, rule, x as int, y as int, z as int, di as int));
            assert(ctx.changes@.subrange(0, ctx1.changes@.len() as int) =~= ctx1.changes@);
        }
        proof {
            assert forall|i: int|
                0 <= i < state.len() && #[trigger] cell_write(state, mx as int, my as int, rule, x as int, y as int, z as int, i) is Some
                    implies logged_from(ctx.changes@, ctx1.changes@.len() as int, i) by {
                assert(0 <= footprint_offset(i, mx as int, my as int, rule, x as int, y as int, z as int) < olen);
            }
        }
        changed
    }
}

impl ParallelNode {
    /// Find every match on the present state, then apply each one into the buffer;
    /// `match_count` counts the applications that buffered a cell.
    pub fn scan_and_apply(&mut self, ctx: &mut ExecutionContext)
        requires
            old(self).wf(),
            data_fits(&old(self).data, &old(ctx).grid),
            old(ctx).wf(),
            old(self).newstate@.len() == old(ctx).grid.state@.len(),
        ensures
            final(self).wf(),
            data_fits(&final(self).data, &final(ctx).grid),
            same_setup(&old(self).data, &final(self).data),
            final(self).data.counter == old(self).data.counter,
            final(self).newstate@.len() == old(self).newstate@.len(),
            ctx_frame(old(ctx), final(ctx)),
            final(ctx).grid == old(ctx).grid,
            final(self).data.match_count > 0 <==> final(ctx).changes@.len() > old(ctx).changes@.len(),
            matches_hold(final(self).data.rules@, &old(ctx).grid, final(self).data.matches@, 0, final(self).data.matches@.len() as int),
            prl_applied(
                old(ctx).grid.state@,
                old(ctx).grid.mx as int,
                old(ctx).grid.my as int,
                final(self).data.rules@,
                final(self).data.matches@,
                final(self).data.matches@.len() as int,
                final(self).newstate@,
                final(ctx).changes@,
                old(ctx).changes@.len() as int,
            ),
    {
        self.data.match_count = 0;
        let mut pending: Vec<(usize, i32, i32, i32)> = Vec::new();
        let mut pcount: usize = 0;
        scan_full(&self.data.rules, &ctx.grid, &mut pending, &mut pcount, &mut self.data.match_mask);
        self.data.matches = pending;
        let ghost ctx0 = *ctx;
        proof {
            assert(ctx.changes@.subrange(0, ctx.changes@.len() as int) =~= ctx.changes@);
        }
        let mut k: usize = 0;
        while k < pcount
            invariant
                self.wf(),
                data_fits(&self.data, &ctx.grid),
                same_setup(&old(self).data, &self.data),
                self.data.counter == old(self).data.counter,
                self.newstate@.len() == ctx.grid.state@.len(),
                self.newstate@.len() == old(self).newstate@.len(),
                ctx_frame(&ctx0, ctx),
                ctx.grid == ctx0.grid,
                ctx0.grid == old(ctx).grid,
                ctx0.changes == old(ctx).changes,
                ctx0.first == old(ctx).first,
                ctx0.counter == old(ctx).counter,
                ctx0.gif == old(ctx).gif,
                pcount <= self.data.matches@.len(),
                pcount < i32::MAX,
                matches_hold(self.data.rules@, &ctx.grid, self.data.matches@, 0, pcount as int),
                k <= pcount,
                self.data.match_count <= k,
                self.data.match_count > 0 <==> ctx.changes@.len() > ctx0.changes@.len(),
                pcount == self.data.matches@.len(),
                prl_applied(
                    ctx0.grid.state@,
                    ctx0.grid.mx as int,
                    ctx0.grid.my as int,
                    self.data.rules@,
                    self.data.matches@,
                    k as int,
                    self.newstate@,
                    ctx.changes@,
                    ctx0.changes@.len() as int,
                ),
            decreases pcount - k,
        {
            let (r, x, y, z) = self.data.matches[k];
            let ghost before = *ctx;
            let ghost buf0 = self.newstate@;
            let ghost draw = ctx.random.spec_sample();
            let changed = self.apply_match(r, x, y, z, ctx);
            if changed {
                self.data.match_count = self.data.match_count + 1;
            }
            proof {
                assert(ctx.changes@.subrange(0, ctx0.changes@.len() as int) =~= ctx0.changes@) by {
                    assert(ctx.changes@.subrange(0, before.changes@.len() as int) == before.changes@);
                    assert(before.changes@.subrange(0, ctx0.changes@.len() as int) == ctx0.changes@);
                }
                lemma_prl_step(
                    ctx0.grid.state@,
                    ctx0.grid.mx as int,
                    ctx0.grid.my as int,
                    self.data.rules@,
                    self.data.matches@,
                    k as int,
                    buf0,
                    self.newstate@,
                    before.changes@,
                    ctx.changes@,
                    ctx0.changes@.len() as int,
                    draw,
                );
            }
            k = k + 1;
        }
    }

    /// One step: stop at the step limit, apply every match into the buffer and copy the
    /// buffered cells back. Returns whether any match buffered a cell.
    #[verifier::loop_isolation(false)]
    pub fn go(&mut self, ctx: &mut ExecutionContext) -> (r: bool)
        requires
            old(self).wf(),
            old(ctx).wf(),
        ensures
            final(self).wf(),
            data_fits(&final(self).data, &final(ctx).grid),
            same_setup(&old(self).data, &final(self).data),
            final(ctx).wf(),
            final(ctx).grid.mx == old(ctx).grid.mx && final(ctx).grid.my == old(ctx).grid.my && final(ctx).grid.mz
                == old(ctx).grid.mz,
            final(ctx).grid.c == old(ctx).grid.c,
            final(ctx).first@ == old(ctx).first@,
            final(ctx).counter == old(ctx).counter,
            old(self).data.steps > 0 && old(self).data.counter >= old(self).data.steps ==> !r && final(ctx).grid
                == old(ctx).grid,
            !r ==> final(ctx).grid.state == old(ctx).grid.state && final(ctx).changes@ == old(ctx).changes@,
            r ==> final(ctx).changes@.len() > old(ctx).changes@.len(),
            !(old(self).data.steps > 0 && old(self).data.counter >= old(self).data.steps) ==> prl_step_done(
                &old(ctx).grid,
                final(self).data.rules@,
                final(self).data.matches@,
                final(ctx).grid.state@,
            ),
    {
        clear_flags(&mut self.data.last);
        let mx = ctx.grid.mx;
        let my = ctx.grid.my;
        let mz = ctx.grid.mz;
        self.data.resize_for(mx, my, mz);
        if self.data.steps > 0 && self.data.counter >= self.data.steps {
            return false;
        }
        let n = ctx.grid.state.len();
        if self.newstate.len() != n {
            self.newstate = filled_u8(n, 0);
        }
        let changes_start = ctx.changes.len();
        let ghost ctx0 = *ctx;
        self.scan_and_apply(ctx);
        let end = ctx.changes.len();
        let ghost ctx1 = *ctx;
        let ghost nbuf = self.newstate;
        assert(ctx1.grid == old(ctx).grid);
        let mut k: usize = changes_start;
        while k < end
            invariant
                self.wf(),
                ctx.wf(),
                ctx.changes == ctx1.changes,
                ctx.first == ctx1.first,
                ctx.counter == ctx1.counter,
                ctx.random == ctx1.random,
                ctx.grid.mx == ctx1.grid.mx && ctx.grid.my == ctx1.grid.my && ctx.grid.mz == ctx1.grid.mz,
                ctx.grid.c == ctx1.grid.c,
                ctx.grid.characters == ctx1.grid.characters,
                ctx.grid.waves == ctx1.grid.waves,
                ctx.grid.mask == ctx1.grid.mask,
                ctx.grid.state@.len() == n,
                self.newstate@.len() == n,
                end == ctx.changes@.len(),
                changes_start <= k <= end,
                end == changes_start ==> ctx.grid == ctx1.grid,
                forall|t: int|
                    changes_start <= t < k && (#[trigger] ctx.changes@[t] as int) < n ==> ctx.grid.state@[ctx.changes@[t] as int]
                        == self.newstate@[ctx.changes@[t] as int],
                self.newstate == nbuf,
            decreases end - k,
        {
            let i = ctx.changes[k];
            let ghost g0 = ctx.grid.state@;
            if i < n {
                let v = self.newstate[i];
                ctx.grid.state.set(i, v);
            }
            proof {
                assert forall|t: int|
                    changes_start <= t < k + 1 && (#[trigger] ctx.changes@[t] as int) < n implies ctx.grid.state@[ctx.changes@[t] as int]
                        == self.newstate@[ctx.changes@[t] as int] by {
                    if ctx.changes@[t] != i {
                        assert(ctx.grid.state@[ctx.changes@[t] as int] == g0[ctx.changes@[t] as int]);
                    }
                }
            }
            k = k + 1;
        }
        proof {
            let ms = self.data.matches@;
            assert forall|i: int|
                0 <= i < old(ctx).grid.state@.len() && #[trigger] surely_written(
                    old(ctx).grid.state@,
                    old(ctx).grid.mx as int,
                    old(ctx).grid.my as int,
                    self.data.rules@,
                    ms,
                    ms.len() as int,
                    i,
                ) implies written_by_some(
                    old(ctx).grid.state@,
                    old(ctx).grid.mx as int,
                    old(ctx).grid.my as int,
                    self.data.rules@,
                    ms,
                    ms.len() as int,
                    i,
                    ctx.grid.state@[i],
                ) by {
                let t = choose|t: int| changes_start <= t < ctx.changes@.len() && #[trigger] ctx.changes@[t] as int == i;
                assert(ctx.grid.state@[i] == nbuf@[i]);
            }
        }
        if self.data.counter < usize::MAX {
            self.data.counter = self.data.counter + 1;
        }
        self.data.match_count > 0
    }

    /// Forget the step counter.
    pub fn reset(&mut self)
        requires
            old(self).wf(),
        ensures
            final(self).wf(),
            final(self).data.counter == 0,
            same_setup(&old(self).data, &final(self).data),
            final(self).data.dims == old(self).data.dims,
    {
        self.data.reset();
    }
}


impl ParallelNode {
    /// What one step does: from this node and context to `after` and `ctx_after`, with
    /// result `r`.
    pub open spec fn go_done(self, ctx: ExecutionContext, after: Self, ctx_after: ExecutionContext, r: bool) -> bool {
        &&& after.wf()
        &&& data_fits(&after.data, &ctx_after.grid)
        &&& same_setup(&self.data, &after.data)
        &&& ctx_after.wf()
        &&& ctx_after.grid.mx == ctx.grid.mx && ctx_after.grid.my == ctx.grid.my && ctx_after.grid.mz
                == ctx.grid.mz
        &&& ctx_after.grid.c == ctx.grid.c
        &&& ctx_after.first@ == ctx.first@
        &&& ctx_after.counter == ctx.counter
        &&& self.data.steps > 0 && self.data.counter >= self.data.steps ==> !r && ctx_after.grid
                == ctx.grid
        &&& !r ==> ctx_after.grid.state == ctx.grid.state && ctx_after.changes@ == ctx.changes@
        &&& r ==> ctx_after.changes@.len() > ctx.changes@.len()
        &&& !(self.data.steps > 0 && self.data.counter >= self.data.steps) ==> prl_step_done(
            &ctx.grid,
            after.data.rules@,
            after.data.matches@,
            ctx_after.grid.state@,
        )
    }

    /// What a reset does: from this node to `after`.
    pub open spec fn reset_done(self, after: Self) -> bool {
        &&& after.wf()
        &&& after.data.counter == 0
        &&& same_setup(&self.data, &after.data)
        &&& after.data.dims == self.data.dims
    }
}

impl Node for ParallelNode {
    open spec fn node_inv(&self) -> bool {
        self.wf()
    }

    fn go(&mut self, ctx: &mut ExecutionContext) -> (r: bool)
        ensures
            old(self).go_done(*old(ctx), *final(self), *final(ctx), r),
    {
        ParallelNode::go(self, ctx)
    }

    fn reset(&mut self)
        ensures
            old(self).reset_done(*final(self)),
    {
        ParallelNode::reset(self)
    }
}

} // verus!
