//! The state shared by the rule nodes (one, all, parallel): their rules, the list of
//! current matches with a per-rule mask of matched positions, step limits, and the
//! potentials that steer heuristic selection.
use vstd::prelude::*;
use crate::context::{grid_ok, turns_ok, ExecutionContext};
use crate::field::{blocked_upto, delta_upto, has_target, is_distance_field, Field};
use crate::geom::{idx3, lemma_idx3_bound, lemma_idx3_inverse};
use crate::grid::{lemma_plane_div_bound, MjGrid};
use crate::matching::{applied_upto, input_fits, lemma_output_cell, output_cell_index, output_fits, spec_apply, spec_matches};
use crate::rule::coord_of;
use crate::observation::{propagation_rule, rows_len, Observation};
use crate::rule::MjRule;
use crate::vecs::{filled_bool, filled_i32};

verus! {

/// Rules, matches and potentials of a rule node.
pub struct RuleNodeData {
    /// The rules, tried in order.
    pub rules: Vec<MjRule>,
    /// Number of steps taken since the last reset.
    pub counter: usize,
    /// Step limit; 0 for none.
    pub steps: usize,
    /// Current matches `(rule, x, y, z)`; only the first `match_count` are live.
    pub matches: Vec<(usize, i32, i32, i32)>,
    /// Number of live matches.
    pub match_count: usize,
    /// `match_mask[r][i]`: rule `r` has a listed match at cell `i`.
    pub match_mask: Vec<Vec<bool>>,
    /// Which rules were applied in the last step.
    pub last: Vec<bool>,
    /// The turn at which matches were last computed; -1 when never.
    pub last_matched_turn: i32,
    /// Distance fields per value, when the node is steered by fields.
    pub fields: Option<Vec<Option<Field>>>,
    /// Potentials per value and cell, when the node is steered.
    pub potentials: Option<Vec<Vec<i32>>>,
    /// Observations per value, when the node is steered toward a goal.
    pub observations: Option<Vec<Option<Observation>>>,
    /// The goal wave per cell.
    pub future: Option<Vec<i32>>,
    /// Whether the goal has been computed since the last reset.
    pub future_computed: bool,
    /// Grid size the buffers were made for.
    pub dims: (usize, usize, usize),
}

/// Number of cells of a grid of the given size.
pub open spec fn dims_cells(d: (usize, usize, usize)) -> int {
    d.0 * d.1 * d.2
}

/// The match `(r, x, y, z)` names a rule and a block position inside a grid of size `d`.
pub open spec fn match_in_bounds(rules: Seq<MjRule>, m: (usize, i32, i32, i32), d: (usize, usize, usize)) -> bool {
    &&& m.0 < rules.len()
    &&& input_fits(&rules[m.0 as int], m.1 as int, m.2 as int, m.3 as int, d.0 as int, d.1 as int, d.2 as int)
}

/// Every rule is consistent and writes values below 32.
pub open spec fn rules_ok(rules: Seq<MjRule>) -> bool {
    forall|r: int| 0 <= r < rules.len() ==> (#[trigger] rules[r]).wf() && rules[r].outputs_below(32) && rules[r].same_size()
}

impl RuleNodeData {
    /// Consistency that does not depend on the grid size.
    pub open spec fn shape_ok(&self) -> bool {
        &&& rules_ok(self.rules@)
        &&& self.match_mask@.len() == self.rules@.len()
        &&& self.last@.len() == self.rules@.len()
        &&& self.match_count <= self.matches@.len()
        &&& self.match_count < i32::MAX
        &&& (self.potentials matches Some(p) ==> p@.len() <= 32 && forall|r: int|
            0 <= r < self.rules@.len() ==> (#[trigger] self.rules@[r]).outputs_below(p@.len() as int))
        &&& (self.fields matches Some(f) ==> self.potentials matches Some(p) && f@.len() == p@.len())
        &&& (self.observations matches Some(o) ==> {
            &&& self.potentials matches Some(p)
            &&& self.future is Some
            &&& forall|r: int| 0 <= r < self.rules@.len() ==> propagation_rule(&#[trigger] self.rules@[r], p@.len() as int)
            &&& forall|v: int| 0 <= v < o@.len() && o@[v] is Some ==> (#[trigger] o@[v])->0.from < 32
        })
    }

    /// Internal consistency: buffers sized for `dims`, live matches inside such a grid.
    pub open spec fn wf(&self) -> bool {
        let n = dims_cells(self.dims);
        &&& self.shape_ok()
        &&& forall|r: int| 0 <= r < self.match_mask@.len() ==> (#[trigger] self.match_mask@[r])@.len() == n
        &&& forall|k: int| 0 <= k < self.match_count ==> match_in_bounds(self.rules@, #[trigger] self.matches@[k], self.dims)
        &&& (self.potentials matches Some(p) ==> rows_len(p@, n))
        &&& (self.future matches Some(fu) ==> fu@.len() == n)
    }

    /// Node data for `rules` on a grid of `grid_size` cells, without steering.
    pub fn new(rules: Vec<MjRule>, grid_size: usize) -> (d: Self)
        requires
            rules_ok(rules@),
        ensures
            d.wf(),
            d.dims == (grid_size, 1usize, 1usize),
            d.rules@ == rules@,
            d.counter == 0,
            d.steps == 0,
            d.match_count == 0,
            d.last_matched_turn == -1,
            d.fields is None,
            d.potentials is None,
            d.observations is None,
            d.match_mask@.len() == rules@.len(),
            d.last@ == Seq::new(rules@.len(), |i: int| false),
    {
        let rlen = rules.len();
        let mut match_mask: Vec<Vec<bool>> = Vec::new();
        let mut last: Vec<bool> = Vec::new();
        let mut r: usize = 0;
        while r < rlen
            invariant
                r <= rlen,
                match_mask@.len() == r,
                last@ == Seq::new(r as nat, |i: int| false),
                forall|k: int| 0 <= k < r ==> (#[trigger] match_mask@[k])@.len() == grid_size,
            decreases rlen - r,
        {
            match_mask.push(filled_bool(grid_size, false));
            last.push(false);
            r = r + 1;
            assert(last@ =~= Seq::new(r as nat, |i: int| false));
        }
        RuleNodeData {
            rules,
            counter: 0,
            steps: 0,
            matches: Vec::new(),
            match_count: 0,
            match_mask,
            last,
            last_matched_turn: -1,
            fields: None,
            potentials: None,
            observations: None,
            future: None,
            future_computed: false,
            dims: (grid_size, 1, 1),
        }
    }

    /// Node data steered by distance fields, one per value (absent for some values).
    pub fn with_fields(rules: Vec<MjRule>, grid_size: usize, fields: Vec<Option<Field>>) -> (d: Self)
        requires
            rules_ok(rules@),
            fields@.len() <= 32,
            forall|r: int| 0 <= r < rules@.len() ==> (#[trigger] rules@[r]).outputs_below(fields@.len() as int),
        ensures
            d.wf(),
            d.dims == (grid_size, 1usize, 1usize),
            d.rules@ == rules@,
            d.counter == 0,
            d.match_count == 0,
            d.last_matched_turn == -1,
            d.fields == Some(fields),
            d.potentials matches Some(p) && p@.len() == fields@.len() && rows_len(p@, grid_size as int),
            d.observations is None,
    {
        let mut d = RuleNodeData::new(rules, grid_size);
        let flen = fields.len();
        let mut pots: Vec<Vec<i32>> = Vec::new();
        let mut c: usize = 0;
        while c < flen
            invariant
                c <= flen,
                pots@.len() == c,
                rows_len(pots@, grid_size as int),
            decreases flen - c,
        {
            pots.push(filled_i32(grid_size, 0));
            c = c + 1;
        }
        d.potentials = Some(pots);
        d.fields = Some(fields);
        d
    }

    /// Forget the step counter, the goal and the match turn.
    pub fn reset(&mut self)
        ensures
            final(self).counter == 0,
            final(self).last_matched_turn == -1,
            !final(self).future_computed,
            final(self).rules == old(self).rules,
            final(self).matches == old(self).matches,
            final(self).match_count == old(self).match_count,
            final(self).match_mask == old(self).match_mask,
            final(self).last == old(self).last,
            final(self).fields == old(self).fields,
            final(self).potentials == old(self).potentials,
            final(self).observations == old(self).observations,
            final(self).future == old(self).future,
            final(self).steps == old(self).steps,
            final(self).dims == old(self).dims,
    {
        self.counter = 0;
        self.last_matched_turn = -1;
        self.future_computed = false;
    }

    /// Clear every match-mask entry.
    pub fn clear_match_mask(&mut self)
        ensures
            final(self).match_mask@.len() == old(self).match_mask@.len(),
            forall|r: int| 0 <= r < old(self).match_mask@.len() ==> (#[trigger] final(self).match_mask@[r])@
                == Seq::new(old(self).match_mask@[r]@.len(), |i: int| false),
            final(self).rules == old(self).rules,
            final(self).matches == old(self).matches,
            final(self).match_count == old(self).match_count,
            final(self).last == old(self).last,
            final(self).counter == old(self).counter,
            final(self).last_matched_turn == old(self).last_matched_turn,
            final(self).fields == old(self).fields,
            final(self).potentials == old(self).potentials,
            final(self).observations == old(self).observations,
            final(self).future == old(self).future,
            final(self).future_computed == old(self).future_computed,
            final(self).steps == old(self).steps,
            final(self).dims == old(self).dims,
    {
        clear_rows(&mut self.match_mask);
    }
}


impl RuleNodeData {
    /// Re-create the grid-sized buffers when the grid size differs from `dims`: masks,
    /// potentials and goal are cleared, and the match list emptied.
    pub fn resize_for(&mut self, mx: usize, my: usize, mz: usize)
        requires
            old(self).wf(),
            mx * my * mz <= usize::MAX,
            mx * my <= usize::MAX,
        ensures
            final(self).wf(),
            final(self).dims == (mx, my, mz),
            same_setup(old(self), final(self)),
            final(self).counter == old(self).counter,
            final(self).last == old(self).last,
            old(self).dims == (mx, my, mz) ==> *final(self) == *old(self),
            old(self).dims != (mx, my, mz) ==> final(self).match_count == 0 && final(self).last_matched_turn == -1
                && !final(self).future_computed,
    {
        if self.dims.0 == mx && self.dims.1 == my && self.dims.2 == mz {
            return;
        }
        let n = mx * my * mz;
        let rlen = self.rules.len();
        let mut mask: Vec<Vec<bool>> = Vec::new();
        let mut r: usize = 0;
        while r < rlen
            invariant
                r <= rlen,
                rlen == self.rules@.len(),
                mask@.len() == r,
                forall|k: int| 0 <= k < r ==> (#[trigger] mask@[k])@.len() == n,
            decreases rlen - r,
        {
            mask.push(filled_bool(n, false));
            r = r + 1;
        }
        self.match_mask = mask;
        self.match_count = 0;
        self.last_matched_turn = -1;
        self.future_computed = false;
        match self.potentials.take() {
            Some(old_p) => {
                let pc = old_p.len();
                let mut pots: Vec<Vec<i32>> = Vec::new();
                let mut c: usize = 0;
                while c < pc
                    invariant
                        c <= pc,
                        pots@.len() == c,
                        rows_len(pots@, n as int),
                    decreases pc - c,
                {
                    pots.push(filled_i32(n, 0));
                    c = c + 1;
                }
                self.potentials = Some(pots);
            },
            None => {},
        }
        if self.future.is_some() {
            self.future = Some(filled_i32(n, 0));
        }
        self.dims = (mx, my, mz);
    }

}


/// Append a match and mark its cell in the rule's mask row.
fn push_match(
    matches: &mut Vec<(usize, i32, i32, i32)>,
    count: &mut usize,
    mask: &mut Vec<Vec<bool>>,
    m: (usize, i32, i32, i32),
    si: usize,
)
    requires
        *old(count) <= old(matches)@.len(),
        *old(count) < usize::MAX,
        m.0 < old(mask)@.len(),
        si < old(mask)@[m.0 as int]@.len(),
    ensures
        *final(count) == *old(count) + 1,
        *final(count) <= final(matches)@.len(),
        *old(count) == old(matches)@.len() ==> final(matches)@.len() == *final(count),
        final(matches)@[*old(count) as int] == m,
        forall|k: int| 0 <= k < *old(count) ==> #[trigger] final(matches)@[k] == old(matches)@[k],
        final(mask)@.len() == old(mask)@.len(),
        forall|r: int| 0 <= r < old(mask)@.len() ==> (#[trigger] final(mask)@[r])@.len() == old(mask)@[r]@.len(),
        final(mask)@[m.0 as int]@[si as int],
        mask_grows(old(mask)@, final(mask)@),
{
    mask[m.0][si] = true;
    if *count < matches.len() {
        matches.set(*count, m);
    } else {
        matches.push(m);
    }
    *count = *count + 1;
}

/// The fields argument of the heuristic: the node's fields as a slice, if it has any.
pub open spec fn fields_arg(fields: Option<Vec<Option<Field>>>) -> Option<&'static [Option<Field>]> {
    match fields {
        Some(f) => Some(choose|sl: &'static [Option<Field>]| sl@ == f@),
        None => None,
    }
}

/// The heuristic value of applying match `m` to `state`: the change in total potential,
/// `None` when a rewritten cell would get a value its potential calls unreachable.
pub open spec fn heuristic_of(
    data: &RuleNodeData,
    state: Seq<u8>,
    mx: int,
    my: int,
    m: (usize, i32, i32, i32),
) -> Option<i128> {
    let rule = &data.rules@[m.0 as int];
    let pots = data.potentials->0@;
    if blocked_upto(state, rule, m.1 as int, m.2 as int, m.3 as int, pots, mx, my, rule.input@.len() as int) {
        None
    } else {
        Some(
            delta_upto(
                state,
                rule,
                m.1 as int,
                m.2 as int,
                m.3 as int,
                fields_arg(data.fields),
                pots,
                mx,
                my,
                rule.input@.len() as int,
            ) as i128,
        )
    }
}

/// A slice of the node's fields is the heuristic's fields argument.
pub proof fn lemma_fields_arg(fields: Option<Vec<Option<Field>>>, fs: &[Option<Field>])
    requires
        fields matches Some(f) && fs@ == f@,
    ensures
        fields_arg(fields) == Some(fs),
{
    let f = fields->0;
    let sl = choose|sl: &'static [Option<Field>]| sl@ == f@;
    assert(sl =~= fs);
}

/// A match that a steered node would take without a random draw: its heuristic value is
/// known and below 1000.
pub open spec fn promising(data: &RuleNodeData, state: Seq<u8>, mx: int, my: int, m: (usize, i32, i32, i32)) -> bool {
    heuristic_of(data, state, mx, my, m) matches Some(h) && h < 1000
}

/// The live matches are all true matches on the grid.
pub open spec fn matches_hold(rules: Seq<MjRule>, g: &MjGrid, matches: Seq<(usize, i32, i32, i32)>, from: int, to: int) -> bool {
    forall|k: int| from <= k < to ==> {
        let m = #[trigger] matches[k];
        &&& m.0 < rules.len()
        &&& spec_matches(g, &rules[m.0 as int], m.1 as int, m.2 as int, m.3 as int)
    }
}

/// Every flag set in `a` is set in `b`, and the rows keep their lengths.
pub open spec fn mask_grows(a: Seq<Vec<bool>>, b: Seq<Vec<bool>>) -> bool {
    &&& a.len() == b.len()
    &&& forall|q: int| 0 <= q < a.len() ==> (#[trigger] b[q])@.len() == a[q]@.len()
    &&& forall|q: int, i: int| 0 <= q < a.len() && 0 <= i < a[q]@.len() && #[trigger] a[q]@[i] ==> b[q]@[i]
}

/// Growth of a mask is transitive.
proof fn lemma_mask_grows_trans(a: Seq<Vec<bool>>, b: Seq<Vec<bool>>, c: Seq<Vec<bool>>)
    requires
        mask_grows(a, b),
        mask_grows(b, c),
    ensures
        mask_grows(a, c),
{
    assert forall|q: int, i: int| 0 <= q < a.len() && 0 <= i < a[q]@.len() && #[trigger] a[q]@[i] implies c[q]@[i] by {
        assert(b[q]@[i]);
    }
}

/// The count at which no more matches are logged.
pub open spec fn match_limit() -> int {
    0x7fff_fffe
}

/// Every position where rule `r` matches with its input over cell (x, y, z) holding
/// `value` is marked in the rule's mask, unless the log is full.
pub open spec fn found_around(
    rules: Seq<MjRule>,
    g: &MjGrid,
    r: int,
    x: int,
    y: int,
    z: int,
    value: u8,
    mask: Seq<Vec<bool>>,
    count: int,
) -> bool {
    (value as int) < rules[r].ishifts@.len() ==> forall|l: int|
        0 <= l < rules[r].ishifts@[value as int]@.len() ==> {
            let s = #[trigger] rules[r].ishifts@[value as int]@[l];
            spec_matches(g, &rules[r], x - s.0, y - s.1, z - s.2) ==> mask[r]@[idx3(
                x - s.0,
                y - s.1,
                z - s.2,
                g.mx as int,
                g.my as int,
            )] || count >= match_limit()
        }
}

/// What is found around a cell stays found as the mask and the count grow.
proof fn lemma_found_around_grows(
    rules: Seq<MjRule>,
    g: &MjGrid,
    r: int,
    x: int,
    y: int,
    z: int,
    value: u8,
    m1: Seq<Vec<bool>>,
    c1: int,
    m2: Seq<Vec<bool>>,
    c2: int,
)
    requires
        grid_ok(g),
        0 <= r < m1.len(),
        0 <= r < rules.len(),
        rules[r].wf(),
        m1[r]@.len() == g.state@.len(),
        found_around(rules, g, r, x, y, z, value, m1, c1),
        mask_grows(m1, m2),
        c1 <= c2,
    ensures
        found_around(rules, g, r, x, y, z, value, m2, c2),
{
    if (value as int) < rules[r].ishifts@.len() {
        assert forall|l: int| 0 <= l < rules[r].ishifts@[value as int]@.len() implies {
            let s = #[trigger] rules[r].ishifts@[value as int]@[l];
            spec_matches(g, &rules[r], x - s.0, y - s.1, z - s.2) ==> m2[r]@[idx3(
                x - s.0,
                y - s.1,
                z - s.2,
                g.mx as int,
                g.my as int,
            )] || c2 >= match_limit()
        } by {
            let s = rules[r].ishifts@[value as int]@[l];
            if spec_matches(g, &rules[r], x - s.0, y - s.1, z - s.2) && c2 < match_limit() {
                lemma_idx3_bound(x - s.0, y - s.1, z - s.2, g.mx as int, g.my as int, g.mz as int);
                assert(m1[r]@[idx3(x - s.0, y - s.1, z - s.2, g.mx as int, g.my as int)]);
            }
        }
    }
}

/// Check the shifts of `value` for rule `r` around cell (x, y, z) and log each position
/// where the rule matches; with `use_mask`, positions already marked are skipped.
fn scan_cell(
    rules: &Vec<MjRule>,
    r: usize,
    g: &MjGrid,
    x: i32,
    y: i32,
    z: i32,
    value: u8,
    use_mask: bool,
    matches: &mut Vec<(usize, i32, i32, i32)>,
    count: &mut usize,
    mask: &mut Vec<Vec<bool>>,
)
    requires
        rules_ok(rules@),
        grid_ok(g),
        r < rules@.len(),
        0 <= x < g.mx && 0 <= y < g.my && 0 <= z < g.mz,
        old(mask)@.len() == rules@.len(),
        forall|q: int| 0 <= q < old(mask)@.len() ==> (#[trigger] old(mask)@[q])@.len() == g.state@.len(),
        *old(count) <= old(matches)@.len(),
        *old(count) < i32::MAX,
    ensures
        *final(count) < i32::MAX,
        final(mask)@.len() == old(mask)@.len(),
        forall|q: int| 0 <= q < final(mask)@.len() ==> (#[trigger] final(mask)@[q])@.len() == g.state@.len(),
        *old(count) <= *final(count) <= final(matches)@.len(),
        *old(count) == old(matches)@.len() ==> final(matches)@.len() == *final(count),
        forall|k: int| 0 <= k < *old(count) ==> #[trigger] final(matches)@[k] == old(matches)@[k],
        matches_hold(rules@, g, final(matches)@, *old(count) as int, *final(count) as int),
        mask_grows(old(mask)@, final(mask)@),
        found_around(rules@, g, r as int, x as int, y as int, z as int, value, final(mask)@, *final(count) as int),
{
    let rule = &rules[r];
    proof {
        assert(old(mask)@ =~= mask@);
    }
    if (value as usize) < rule.ishifts.len() {
        let shifts = &rule.ishifts[value as usize];
        let mx = g.mx;
        let my = g.my;
        let mut l: usize = 0;
        while l < shifts.len()
            invariant
                rules_ok(rules@),
                grid_ok(g),
                r < rules@.len(),
                *rule == rules@[r as int],
                rule.wf(),
                (value as int) < rule.ishifts@.len(),
                *shifts == rule.ishifts@[value as int],
                mx == g.mx && my == g.my,
                0 <= x < g.mx && 0 <= y < g.my && 0 <= z < g.mz,
                mask@.len() == rules@.len(),
                forall|q: int| 0 <= q < mask@.len() ==> (#[trigger] mask@[q])@.len() == g.state@.len(),
                *old(count) <= *count <= matches@.len(),
                *old(count) == old(matches)@.len() ==> matches@.len() == *count,
                *count < i32::MAX,
                forall|k: int| 0 <= k < *old(count) ==> #[trigger] matches@[k] == old(matches)@[k],
                matches_hold(rules@, g, matches@, *old(count) as int, *count as int),
                l <= shifts@.len(),
                mask_grows(old(mask)@, mask@),
                forall|l2: int|
                    0 <= l2 < l ==> {
                        let s = #[trigger] shifts@[l2];
                        spec_matches(g, rule, x - s.0, y - s.1, z - s.2) ==> mask@[r as int]@[idx3(
                            x - s.0,
                            y - s.1,
                            z - s.2,
                            g.mx as int,
                            g.my as int,
                        )] || *count >= match_limit()
                    },
            decreases shifts@.len() - l,
        {
            let ghost mask0 = mask@;
            let ghost count0 = *count;
            let (shiftx, shifty, shiftz) = shifts[l];
            proof {
                assert(0 <= shifts@[l as int].0 < rule.imx);
            }
            let sx = x - shiftx;
            let sy = y - shifty;
            let sz = z - shiftz;
            if g.matches(rule, sx, sy, sz) {
                proof {
                    lemma_idx3_bound(sx as int, sy as int, sz as int, g.mx as int, g.my as int, g.mz as int);
                }
                let si = (sx as usize) + (sy as usize) * mx + (sz as usize) * (mx * my);
                if (!use_mask || !mask[r][si]) && *count < 0x7fff_fffe {
                    let ghost before = matches@;
                    let ghost c0 = *count;
                    push_match(matches, count, mask, (r, sx, sy, sz), si);
                    proof {
                        assert forall|k: int| *old(count) <= k < *count implies {
                            let m = #[trigger] matches@[k];
                            &&& m.0 < rules@.len()
                            &&& spec_matches(g, &rules@[m.0 as int], m.1 as int, m.2 as int, m.3 as int)
                        } by {
                            if k < c0 {
                                assert(matches@[k] == before[k]);
                            }
                        }
                    }
                }
            }
            proof {
                if mask@ != mask0 {
                    lemma_mask_grows_trans(old(mask)@, mask0, mask@);
                }
                assert forall|l2: int| 0 <= l2 < l + 1 implies {
                    let s = #[trigger] shifts@[l2];
                    spec_matches(g, rule, x - s.0, y - s.1, z - s.2) ==> mask@[r as int]@[idx3(
                        x - s.0,
                        y - s.1,
                        z - s.2,
                        g.mx as int,
                        g.my as int,
                    )] || *count >= match_limit()
                } by {
                    let s = shifts@[l2];
                    if spec_matches(g, rule, x - s.0, y - s.1, z - s.2) && *count < match_limit() {
                        lemma_idx3_bound(x - s.0, y - s.1, z - s.2, g.mx as int, g.my as int, g.mz as int);
                        if l2 < l {
                            assert(mask0[r as int]@[idx3(x - s.0, y - s.1, z - s.2, g.mx as int, g.my as int)]);
                        }
                    }
                }
            }
            l = l + 1;
        }
    }
}

/// Rebuild the match list from scratch: for each rule, sample one cell per block and try
/// the shifts that put that cell under the block.
pub fn scan_full(
    rules: &Vec<MjRule>,
    g: &MjGrid,
    matches: &mut Vec<(usize, i32, i32, i32)>,
    count: &mut usize,
    mask: &mut Vec<Vec<bool>>,
)
    requires
        rules_ok(rules@),
        grid_ok(g),
        old(mask)@.len() == rules@.len(),
        forall|q: int| 0 <= q < old(mask)@.len() ==> (#[trigger] old(mask)@[q])@.len() == g.state@.len(),
        *old(count) <= old(matches)@.len(),
    ensures
        final(mask)@.len() == old(mask)@.len(),
        forall|q: int| 0 <= q < final(mask)@.len() ==> (#[trigger] final(mask)@[q])@.len() == g.state@.len(),
        *final(count) <= final(matches)@.len(),
        old(matches)@.len() == 0 ==> final(matches)@.len() == *final(count),
        *final(count) < i32::MAX,
        matches_hold(rules@, g, final(matches)@, 0, *final(count) as int),
{
    *count = 0;
    let rlen = rules.len();
    let mx = g.mx;
    let my = g.my;
    let mz = g.mz;
    let mut r: usize = 0;
    while r < rlen
        invariant
            rules_ok(rules@),
            grid_ok(g),
            rlen == rules@.len(),
            mx == g.mx && my == g.my && mz == g.mz,
            r <= rlen,
            mask@.len() == rules@.len(),
            forall|q: int| 0 <= q < mask@.len() ==> (#[trigger] mask@[q])@.len() == g.state@.len(),
            *count <= matches@.len(),
            old(matches)@.len() == 0 ==> matches@.len() == *count,
            *count < i32::MAX,
            matches_hold(rules@, g, matches@, 0, *count as int),
        decreases rlen - r,
    {
        let imx = rules[r].imx;
        let imy = rules[r].imy;
        let imz = rules[r].imz;
        proof {
            assert(rules@[r as int].wf());
        }
        let mut z: usize = imz - 1;
        while z < mz
            invariant
                rules_ok(rules@),
                grid_ok(g),
                rlen == rules@.len(),
                mx == g.mx && my == g.my && mz == g.mz,
                r < rlen,
                imx == rules@[r as int].imx && imy == rules@[r as int].imy && imz == rules@[r as int].imz,
                imx >= 1 && imy >= 1 && imz >= 1,
                imx <= i32::MAX && imy <= i32::MAX && imz <= i32::MAX,
                mask@.len() == rules@.len(),
                forall|q: int| 0 <= q < mask@.len() ==> (#[trigger] mask@[q])@.len() == g.state@.len(),
                *count <= matches@.len(),
                old(matches)@.len() == 0 ==> matches@.len() == *count,
                *count < i32::MAX,
                matches_hold(rules@, g, matches@, 0, *count as int),
            decreases mz + imz - z,
        {
            let mut y: usize = imy - 1;
            while y < my
                invariant
                    rules_ok(rules@),
                    grid_ok(g),
                    rlen == rules@.len(),
                    mx == g.mx && my == g.my && mz == g.mz,
                    r < rlen,
                    z < mz,
                    imx == rules@[r as int].imx && imy == rules@[r as int].imy && imz == rules@[r as int].imz,
                imx >= 1 && imy >= 1 && imz >= 1,
                imx <= i32::MAX && imy <= i32::MAX && imz <= i32::MAX,
                    mask@.len() == rules@.len(),
                    forall|q: int| 0 <= q < mask@.len() ==> (#[trigger] mask@[q])@.len() == g.state@.len(),
                    *count <= matches@.len(),
                    old(matches)@.len() == 0 ==> matches@.len() == *count,
                    *count < i32::MAX,
                    matches_hold(rules@, g, matches@, 0, *count as int),
                decreases my + imy - y,
            {
                let mut x: usize = imx - 1;
                while x < mx
                    invariant
                        rules_ok(rules@),
                        grid_ok(g),
                        rlen == rules@.len(),
                        mx == g.mx && my == g.my && mz == g.mz,
                        r < rlen,
                        z < mz,
                        y < my,
                        imx == rules@[r as int].imx && imy == rules@[r as int].imy && imz == rules@[r as int].imz,
                imx >= 1 && imy >= 1 && imz >= 1,
                imx <= i32::MAX && imy <= i32::MAX && imz <= i32::MAX,
                        mask@.len() == rules@.len(),
                        forall|q: int| 0 <= q < mask@.len() ==> (#[trigger] mask@[q])@.len() == g.state@.len(),
                        *count <= matches@.len(),
                        old(matches)@.len() == 0 ==> matches@.len() == *count,
                        *count < i32::MAX,
                        matches_hold(rules@, g, matches@, 0, *count as int),
                    decreases mx + imx - x,
                {
                    proof {
                        lemma_idx3_bound(x as int, y as int, z as int, mx as int, my as int, mz as int);
                    }
                    let i = x + y * mx + z * (mx * my);
                    let value = g.state[i];
                    let ghost before = matches@;
                    let ghost c0 = *count;
                    scan_cell(rules, r, g, x as i32, y as i32, z as i32, value, false, matches, count, mask);
                    proof {
                        assert forall|k: int| 0 <= k < *count implies {
                            let m = #[trigger] matches@[k];
                            &&& m.0 < rules@.len()
                            &&& spec_matches(g, &rules@[m.0 as int], m.1 as int, m.2 as int, m.3 as int)
                        } by {
                            if k < c0 {
                                assert(matches@[k] == before[k]);
                            }
                        }
                    }
                    x = x + imx;
                }
                y = y + imy;
            }
            z = z + imz;
        }
        r = r + 1;
    }
}

/// Look for new matches around the cells changed since position `from` of the log;
/// positions already marked in a rule's mask are skipped.
fn scan_changes(
    rules: &Vec<MjRule>,
    g: &MjGrid,
    changes: &Vec<usize>,
    from: usize,
    matches: &mut Vec<(usize, i32, i32, i32)>,
    count: &mut usize,
    mask: &mut Vec<Vec<bool>>,
)
    requires
        rules_ok(rules@),
        grid_ok(g),
        old(mask)@.len() == rules@.len(),
        forall|q: int| 0 <= q < old(mask)@.len() ==> (#[trigger] old(mask)@[q])@.len() == g.state@.len(),
        *old(count) <= old(matches)@.len(),
        *old(count) < i32::MAX,
    ensures
        final(mask)@.len() == old(mask)@.len(),
        forall|q: int| 0 <= q < final(mask)@.len() ==> (#[trigger] final(mask)@[q])@.len() == g.state@.len(),
        *old(count) <= *final(count) <= final(matches)@.len(),
        *final(count) < i32::MAX,
        forall|k: int| 0 <= k < *old(count) ==> #[trigger] final(matches)@[k] == old(matches)@[k],
        matches_hold(rules@, g, final(matches)@, *old(count) as int, *final(count) as int),
        mask_grows(old(mask)@, final(mask)@),
        forall|k: int|
            from <= k < changes@.len() && changes@[k] < g.state@.len() ==> found_at_cell(
                rules@,
                g,
                #[trigger] changes@[k] as int,
                final(mask)@,
                *final(count) as int,
            ),
{
    proof {
        assert(old(mask)@ =~= mask@);
    }
    let rlen = rules.len();
    let mx = g.mx;
    let my = g.my;
    let mz = g.mz;
    let n = g.state.len();
    let mut k: usize = from;
    while k < changes.len()
        invariant
            rules_ok(rules@),
            grid_ok(g),
            rlen == rules@.len(),
            n == g.state@.len(),
            mx == g.mx && my == g.my && mz == g.mz,
            mask@.len() == rules@.len(),
            forall|q: int| 0 <= q < mask@.len() ==> (#[trigger] mask@[q])@.len() == g.state@.len(),
            *old(count) <= *count <= matches@.len(),
            *count < i32::MAX,
            forall|j: int| 0 <= j < *old(count) ==> #[trigger] matches@[j] == old(matches)@[j],
            matches_hold(rules@, g, matches@, *old(count) as int, *count as int),
            from <= k,
            mask_grows(old(mask)@, mask@),
            forall|k2: int|
                from <= k2 < k && changes@[k2] < g.state@.len() ==> found_at_cell(
                    rules@,
                    g,
                    #[trigger] changes@[k2] as int,
                    mask@,
                    *count as int,
                ),
        decreases changes@.len() - k,
    {
        let idx = changes[k];
        if idx < n {
            proof {
                crate::grid::lemma_nonempty_dims(mx as int, my as int, mz as int);
                lemma_idx3_inverse(idx as int, mx as int, my as int);
                lemma_plane_div_bound(idx as int, mx as int, my as int, mz as int);
            }
            let x = (idx % mx) as i32;
            let y = ((idx / mx) % my) as i32;
            let z = (idx / (mx * my)) as i32;
            let value = g.state[idx];
            let mut r: usize = 0;
            while r < rlen
                invariant
                    rules_ok(rules@),
                    grid_ok(g),
                    rlen == rules@.len(),
                    n == g.state@.len(),
                    mx == g.mx && my == g.my && mz == g.mz,
                    0 <= x < mx && 0 <= y < my && 0 <= z < mz,
                    r <= rlen,
                    mask@.len() == rules@.len(),
                    forall|q: int| 0 <= q < mask@.len() ==> (#[trigger] mask@[q])@.len() == g.state@.len(),
                    *old(count) <= *count <= matches@.len(),
                    *count < i32::MAX,
                    forall|j: int| 0 <= j < *old(count) ==> #[trigger] matches@[j] == old(matches)@[j],
                    matches_hold(rules@, g, matches@, *old(count) as int, *count as int),
                    from <= k < changes@.len(),
                    idx == changes@[k as int],
                    x == idx as int % (mx as int) && y == (idx as int / (mx as int)) % (my as int) && z == idx as int / ((mx * my) as int),
                    value == g.state@[idx as int],
                    mask_grows(old(mask)@, mask@),
                    forall|k2: int|
                        from <= k2 < k && changes@[k2] < g.state@.len() ==> found_at_cell(
                            rules@,
                            g,
                            #[trigger] changes@[k2] as int,
                            mask@,
                            *count as int,
                        ),
                    forall|r2: int|
                        0 <= r2 < r ==> #[trigger] found_around(
                            rules@,
                            g,
                            r2,
                            x as int,
                            y as int,
                            z as int,
                            value,
                            mask@,
                            *count as int,
                        ),
                decreases rlen - r,
            {
                let ghost before = matches@;
                let ghost c0 = *count;
                let ghost mask0 = mask@;
                scan_cell(rules, r, g, x, y, z, value, false, matches, count, mask);
                proof {
                    lemma_mask_grows_trans(old(mask)@, mask0, mask@);
                    assert forall|k2: int|
                        from <= k2 < k && changes@[k2] < g.state@.len() implies found_at_cell(
                        rules@,
                        g,
                        #[trigger] changes@[k2] as int,
                        mask@,
                        *count as int,
                    ) by {
                        lemma_found_at_cell_grows(rules@, g, changes@[k2] as int, mask0, c0 as int, mask@, *count as int);
                    }
                    assert forall|r2: int| 0 <= r2 < r + 1 implies #[trigger] found_around(
                        rules@,
                        g,
                        r2,
                        x as int,
                        y as int,
                        z as int,
                        value,
                        mask@,
                        *count as int,
                    ) by {
                        if r2 < r {
                            lemma_found_around_grows(rules@, g, r2, x as int, y as int, z as int, value, mask0, c0 as int, mask@, *count as int);
                        }
                    }
                }
                proof {
                    assert forall|j: int| *old(count) <= j < *count implies {
                        let m = #[trigger] matches@[j];
                        &&& m.0 < rules@.len()
                        &&& spec_matches(g, &rules@[m.0 as int], m.1 as int, m.2 as int, m.3 as int)
                    } by {
                        if j < c0 {
                            assert(matches@[j] == before[j]);
                        }
                    }
                }
                r = r + 1;
            }
            proof {
                assert(found_at_cell(rules@, g, changes@[k as int] as int, mask@, *count as int));
            }
        }
        k = k + 1;
    }
}

/// Every rule's matches over cell `i` are marked, unless the log is full.
pub open spec fn found_at_cell(rules: Seq<MjRule>, g: &MjGrid, i: int, mask: Seq<Vec<bool>>, count: int) -> bool {
    forall|r: int|
        0 <= r < rules.len() ==> #[trigger] found_around(
            rules,
            g,
            r,
            i % (g.mx as int),
            (i / (g.mx as int)) % (g.my as int),
            i / (g.mx * g.my),
            g.state@[i],
            mask,
            count,
        )
}

/// What is found at a cell stays found as the mask and the count grow.
proof fn lemma_found_at_cell_grows(
    rules: Seq<MjRule>,
    g: &MjGrid,
    i: int,
    m1: Seq<Vec<bool>>,
    c1: int,
    m2: Seq<Vec<bool>>,
    c2: int,
)
    requires
        grid_ok(g),
        rules_ok(rules),
        m1.len() == rules.len(),
        forall|q: int| 0 <= q < m1.len() ==> (#[trigger] m1[q])@.len() == g.state@.len(),
        found_at_cell(rules, g, i, m1, c1),
        mask_grows(m1, m2),
        c1 <= c2,
    ensures
        found_at_cell(rules, g, i, m2, c2),
{
    assert forall|r: int| 0 <= r < rules.len() implies #[trigger] found_around(
        rules,
        g,
        r,
        i % (g.mx as int),
        (i / (g.mx as int)) % (g.my as int),
        i / (g.mx * g.my),
        g.state@[i],
        m2,
        c2,
    ) by {
        lemma_found_around_grows(
            rules,
            g,
            r,
            i % (g.mx as int),
            (i / (g.mx as int)) % (g.my as int),
            i / (g.mx * g.my),
            g.state@[i],
            m1,
            c1,
            m2,
            c2,
        );
    }
}


impl RuleNodeData {
    /// Prepare the matches for one step: clear the applied flags, stop at the step limit,
    /// compute the goal and its potentials once, then list the matches (all of them on
    /// the first step, otherwise only around the cells changed since the last match
    /// turn) and recompute the distance fields. Returns false when the node cannot run.
    #[verifier::loop_isolation(false)]
    pub fn compute_matches(&mut self, ctx: &mut ExecutionContext) -> (r: bool)
        requires
            old(self).wf(),
            old(ctx).wf(),
        ensures
            final(ctx).wf(),
            data_fits(final(self), &final(ctx).grid),
            same_setup(old(self), final(self)),
            final(self).counter == old(self).counter,
            final(self).last@ == Seq::new(old(self).last@.len(), |i: int| false),
            final(ctx).grid.mx == old(ctx).grid.mx && final(ctx).grid.my == old(ctx).grid.my && final(ctx).grid.mz
                == old(ctx).grid.mz,
            final(ctx).grid.c == old(ctx).grid.c,
            final(ctx).grid.characters == old(ctx).grid.characters,
            final(ctx).grid.waves == old(ctx).grid.waves,
            final(ctx).grid.mask == old(ctx).grid.mask,
            final(ctx).random == old(ctx).random,
            final(ctx).changes == old(ctx).changes,
            final(ctx).first == old(ctx).first,
            final(ctx).counter == old(ctx).counter,
            final(ctx).gif == old(ctx).gif,
            old(self).steps > 0 && old(self).counter >= old(self).steps ==> !r && final(ctx).grid == old(ctx).grid,
            final(ctx).grid.state == old(ctx).grid.state || old(self).observations is Some,
            r && old(self).last_matched_turn < 0 ==> matches_hold(
                final(self).rules@,
                &final(ctx).grid,
                final(self).matches@,
                0,
                final(self).match_count as int,
            ),
    {
        clear_flags(&mut self.last);
        let mx = ctx.grid.mx;
        let my = ctx.grid.my;
        let mz = ctx.grid.mz;
        self.resize_for(mx, my, mz);
        if self.steps > 0 && self.counter >= self.steps {
            return false;
        }
        if self.observations.is_some() && !self.future_computed {
            let obs = self.observations.take().unwrap();
            let mut future = self.future.take().unwrap();
            let mut pots = self.potentials.take().unwrap();
            let ok = Observation::compute_future_set_present(future.as_mut_slice(), ctx.grid.state.as_mut_slice(), obs.as_slice());
            proof {
                assert forall|i: int| 0 <= i < ctx.grid.state@.len() implies ctx.grid.state@[i] < 32 by {
                    let v = old(ctx).grid.state@[i];
                    if (v as int) < obs@.len() && obs@[v as int] is Some {
                        assert(obs@[v as int]->0.from < 32);
                    }
                }
            }
            if !ok {
                self.observations = Some(obs);
                self.future = Some(future);
                self.potentials = Some(pots);
                return false;
            }
            if !potentials_fit(pots.len(), ctx.grid.state.len()) {
                self.observations = Some(obs);
                self.future = Some(future);
                self.potentials = Some(pots);
                return false;
            }
            self.future_computed = true;
            Observation::compute_backward_potentials(pots.as_mut_slice(), future.as_slice(), mx, my, mz, &self.rules);
            self.observations = Some(obs);
            self.future = Some(future);
            self.potentials = Some(pots);
        }
        let full = self.last_matched_turn < 0 || (self.last_matched_turn as usize) >= ctx.first.len();
        if full {
            scan_full(&self.rules, &ctx.grid, &mut self.matches, &mut self.match_count, &mut self.match_mask);
        } else {
            let from = ctx.first[self.last_matched_turn as usize];
            scan_changes(&self.rules, &ctx.grid, &ctx.changes, from, &mut self.matches, &mut self.match_count, &mut self.match_mask);
        }
        if self.fields.is_some() {
            let fields = self.fields.take().unwrap();
            let mut pots = self.potentials.take().unwrap();
            let ok = compute_fields(&fields, &mut pots, &ctx.grid, self.counter);
            self.fields = Some(fields);
            self.potentials = Some(pots);
            if !ok {
                return false;
            }
        }
        true
    }
}


/// The context after a step: same grid size, values and generator shape, with the change
/// log only grown.
pub open spec fn ctx_frame(before: &ExecutionContext, after: &ExecutionContext) -> bool {
    &&& after.wf()
    &&& after.grid.mx == before.grid.mx && after.grid.my == before.grid.my && after.grid.mz == before.grid.mz
    &&& after.grid.c == before.grid.c
    &&& after.grid.characters == before.grid.characters
    &&& after.grid.waves == before.grid.waves
    &&& after.first@ == before.first@
    &&& after.counter == before.counter
    &&& after.gif == before.gif
    &&& after.changes@.len() >= before.changes@.len()
    &&& after.changes@.subrange(0, before.changes@.len() as int) == before.changes@
}

/// Write the rule's output at (x, y, z); each cell whose value changes is logged.
pub fn write_rule(rule: &MjRule, x: i32, y: i32, z: i32, ctx: &mut ExecutionContext)
    requires
        old(ctx).wf(),
        rule.wf(),
        rule.outputs_below(32),
        output_fits(rule, x as int, y as int, z as int, old(ctx).grid.mx as int, old(ctx).grid.my as int, old(ctx).grid.mz as int),
    ensures
        ctx_frame(old(ctx), final(ctx)),
        final(ctx).grid.mask == old(ctx).grid.mask,
        final(ctx).random == old(ctx).random,
        final(ctx).grid.state@ == spec_apply(
            old(ctx).grid.state@,
            old(ctx).grid.mx as int,
            old(ctx).grid.my as int,
            rule,
            x as int,
            y as int,
            z as int,
        ),
{
    let ghost old_state = ctx.grid.state@;
    let mx = ctx.grid.mx;
    let my = ctx.grid.my;
    let ghost mz = ctx.grid.mz as int;
    let n = ctx.grid.state.len();
    let olen = rule.output.len();
    let xu = x as usize;
    let yu = y as usize;
    let zu = z as usize;
    proof {
        lemma_idx3_bound(0, 0, 0, rule.omx as int, rule.omy as int, rule.omz as int);
        lemma_idx3_bound(x as int, y as int, z as int, mx as int, my as int, mz);
        assert(applied_upto(old_state, mx as int, my as int, rule, x as int, y as int, z as int, 0) =~= old_state);
        assert(ctx.changes@.subrange(0, ctx.changes@.len() as int) =~= ctx.changes@);
    }
    let plane = rule.omx * rule.omy;
    let gplane = mx * my;
    let mut di: usize = 0;
    while di < olen
        invariant
            ctx_frame(old(ctx), ctx),
            ctx.grid.mask == old(ctx).grid.mask,
            ctx.random == old(ctx).random,
            rule.wf(),
            rule.outputs_below(32),
            n == ctx.grid.state@.len(),
            olen == rule.output@.len(),
            mx == ctx.grid.mx && my == ctx.grid.my && mz == ctx.grid.mz,
            xu == x && yu == y && zu == z,
            output_fits(rule, x as int, y as int, z as int, mx as int, my as int, mz),
            plane == rule.omx * rule.omy,
            gplane == mx * my,
            di <= olen,
            ctx.grid.state@ == applied_upto(old_state, mx as int, my as int, rule, x as int, y as int, z as int, di as int),
        decreases olen - di,
    {
        proof {
            lemma_idx3_inverse(di as int, rule.omx as int, rule.omy as int);
            lemma_plane_div_bound(di as int, rule.omx as int, rule.omy as int, rule.omz as int);
            let d = coord_of(di as int, rule.omx as int, rule.omy as int);
            lemma_idx3_bound(x + d.0, y + d.1, z + d.2, mx as int, my as int, mz);
            lemma_output_cell(mx as int, my as int, mz, rule, x as int, y as int, z as int, di as int);
        }
        let out_value = rule.output[di];
        let dx = di % rule.omx;
        let dy = (di / rule.omx) % rule.omy;
        let dz = di / plane;
        let si = (xu + dx) + (yu + dy) * mx + (zu + dz) * gplane;
        if out_value != 0xff && out_value != ctx.grid.state[si] {
            ctx.grid.state.set(si, out_value);
            ctx.record_change(si);
            proof {
                assert(out_value < 32);
                assert(ctx.grid.cells_below(32));
            }
        }
        di = di + 1;
        assert(ctx.grid.state@ =~= applied_upto(old_state, mx as int, my as int, rule, x as int, y as int, z as int, di as int));
        assert(ctx.changes@.subrange(0, old(ctx).changes@.len() as int) =~= old(ctx).changes@);
    }
}

/// Whether every value of `state` is below `n`.
pub fn all_below(state: &Vec<u8>, n: usize) -> (r: bool)
    ensures
        r == (forall|i: int| 0 <= i < state@.len() ==> (#[trigger] state@[i] as int) < n),
{
    let mut i: usize = 0;
    while i < state.len()
        invariant
            i <= state@.len(),
            forall|j: int| 0 <= j < i ==> (#[trigger] state@[j] as int) < n,
        decreases state@.len() - i,
    {
        if state[i] as usize >= n {
            return false;
        }
        i = i + 1;
    }
    true
}

/// Whether `rows` potential rows of `cells` cells each can hold every distance as a
/// 32-bit integer: their total count fits.
pub fn potentials_fit(rows: usize, cells: usize) -> (r: bool)
    requires
        rows <= 32,
        cells <= i32::MAX,
    ensures
        r == (rows * cells <= i32::MAX),
{
    let a: u64 = rows as u64;
    let b: u64 = cells as u64;
    assert(a * b <= 32 * 0x7fff_ffff) by (nonlinear_arith)
        requires
            a <= 32,
            b <= 0x7fff_ffff,
    ;
    a * b <= 0x7fff_ffff
}

/// Recompute the distance fields that are due (all of them on the first step, then
/// those marked for recomputation). Returns false when an essential field fails, or
/// when every computed field fails.
fn compute_fields(fields: &Vec<Option<Field>>, pots: &mut Vec<Vec<i32>>, g: &MjGrid, counter: usize) -> (ok: bool)
    requires
        grid_ok(g),
        fields@.len() == old(pots)@.len(),
        rows_len(old(pots)@, g.state@.len() as int),
    ensures
        final(pots)@.len() == old(pots)@.len(),
        rows_len(final(pots)@, g.state@.len() as int),
        ok == fields_ok(fields@, g, counter),
        forall|c: int|
            0 <= c < fields@.len() ==> #[trigger] final(pots)@[c] == old(pots)@[c] || field_computed(
                fields@[c],
                g,
                counter,
                final(pots)@[c]@,
            ),
        ok ==> forall|c: int|
            0 <= c < fields@.len() ==> if field_due(fields@[c], counter) {
                field_computed(fields@[c], g, counter, #[trigger] final(pots)@[c]@)
            } else {
                final(pots)@[c] == old(pots)@[c]
            },
{
    let flen = fields.len();
    let mut any_success = false;
    let mut any_computation = false;
    let mut c: usize = 0;
    while c < flen
        invariant
            grid_ok(g),
            flen == fields@.len(),
            flen == pots@.len(),
            flen == old(pots)@.len(),
            rows_len(pots@, g.state@.len() as int),
            c <= flen,
            any_computation == exists|k: int| 0 <= k < c && #[trigger] field_due(fields@[k], counter),
            any_success == exists|k: int| 0 <= k < c && #[trigger] field_succeeds(fields@[k], g, counter),
            forall|k: int| 0 <= k < c ==> !#[trigger] field_fatal(fields@[k], g, counter),
            forall|k: int|
                0 <= k < c ==> if field_due(fields@[k], counter) {
                    field_computed(fields@[k], g, counter, #[trigger] pots@[k]@)
                } else {
                    pots@[k] == old(pots)@[k]
                },
            forall|k: int| c <= k < flen ==> #[trigger] pots@[k] == old(pots)@[k],
        decreases flen - c,
    {
        let ghost before = pots@;
        match fields[c] {
            Some(field) => {
                if counter == 0 || field.recompute {
                    let success = field.compute(&mut pots[c], g);
                    proof {
                        assert forall|k: int| 0 <= k < flen && k != c implies #[trigger] pots@[k] == before[k] by {}
                    }
                    if !success && field.essential {
                        assert(field_fatal(fields@[c as int], g, counter));
                        return false;
                    }
                    any_success = any_success || success;
                    any_computation = true;
                    proof {
                        assert(field_due(fields@[c as int], counter));
                        if success {
                            assert(field_succeeds(fields@[c as int], g, counter));
                        } else {
                            assert(!field_succeeds(fields@[c as int], g, counter));
                        }
                    }
                } else {
                    assert(!field_due(fields@[c as int], counter));
                    assert(!field_succeeds(fields@[c as int], g, counter));
                }
            },
            None => {
                assert(!field_due(fields@[c as int], counter));
                assert(!field_succeeds(fields@[c as int], g, counter));
            },
        }
        proof {
            assert forall|k: int| 0 <= k < c + 1 && #[trigger] field_due(fields@[k], counter) implies (0 <= k < c
                && field_due(fields@[k], counter)) || k == c by {}
            assert forall|k: int| 0 <= k < c + 1 && #[trigger] field_succeeds(fields@[k], g, counter) implies (0 <= k < c
                && field_succeeds(fields@[k], g, counter)) || k == c by {}
        }
        c = c + 1;
    }
    !(any_computation && !any_success)
}

/// A field that is due at step `counter`: every field on the first step, then those
/// marked for recomputation.
pub open spec fn field_due(f: Option<Field>, counter: usize) -> bool {
    f matches Some(fd) && (counter == 0 || fd.recompute)
}

/// A due field that finds a target on the grid.
pub open spec fn field_succeeds(f: Option<Field>, g: &MjGrid, counter: usize) -> bool {
    field_due(f, counter) && has_target(g, f->0)
}

/// A due essential field that finds no target.
pub open spec fn field_fatal(f: Option<Field>, g: &MjGrid, counter: usize) -> bool {
    field_due(f, counter) && !has_target(g, f->0) && f->0.essential
}

/// The potentials of a due field after computing it: its distance field when it has a
/// target, else -1 everywhere.
pub open spec fn field_computed(f: Option<Field>, g: &MjGrid, counter: usize, p: Seq<i32>) -> bool {
    &&& field_due(f, counter)
    &&& if has_target(g, f->0) {
        is_distance_field(g, f->0, p)
    } else {
        p == Seq::new(g.state@.len(), |i: int| -1i32)
    }
}

/// Whether the fields due at step `counter` allow the step: no essential one fails, and
/// when some are computed at least one succeeds.
pub open spec fn fields_ok(fields: Seq<Option<Field>>, g: &MjGrid, counter: usize) -> bool {
    &&& forall|k: int| 0 <= k < fields.len() ==> !#[trigger] field_fatal(fields[k], g, counter)
    &&& (exists|k: int| 0 <= k < fields.len() && #[trigger] field_due(fields[k], counter)) ==> exists|k: int|
        0 <= k < fields.len() && #[trigger] field_succeeds(fields[k], g, counter)
}

/// Set every flag to false.
pub fn clear_flags(v: &mut Vec<bool>)
    ensures
        final(v)@ == Seq::new(old(v)@.len(), |i: int| false),
{
    let n = v.len();
    let mut k: usize = 0;
    while k < n
        invariant
            n == v@.len(),
            k <= n,
            forall|j: int| 0 <= j < k ==> v@[j] == false,
        decreases n - k,
    {
        v.set(k, false);
        k = k + 1;
    }
    assert(v@ =~= Seq::new(old(v)@.len(), |i: int| false));
}

/// Set every entry of every row to false.
pub fn clear_rows(m: &mut Vec<Vec<bool>>)
    ensures
        final(m)@.len() == old(m)@.len(),
        forall|r: int| 0 <= r < old(m)@.len() ==> (#[trigger] final(m)@[r])@ == Seq::new(old(m)@[r]@.len(), |i: int| false),
{
    let ghost old_mask = m@;
    let n = m.len();
    let mut r: usize = 0;
    while r < n
        invariant
            n == old_mask.len(),
            m@.len() == n,
            r <= n,
            forall|k: int| 0 <= k < r ==> (#[trigger] m@[k])@ == Seq::new(old_mask[k]@.len(), |i: int| false),
            forall|k: int| r <= k < n ==> #[trigger] m@[k] == old_mask[k],
        decreases n - r,
    {
        let len = m[r].len();
        let mut i: usize = 0;
        while i < len
            invariant
                n == old_mask.len(),
                m@.len() == n,
                r < n,
                len == old_mask[r as int]@.len(),
                m@[r as int]@.len() == len,
                i <= len,
                forall|j: int| 0 <= j < i ==> #[trigger] m@[r as int]@[j] == false,
                forall|k: int| 0 <= k < r ==> (#[trigger] m@[k])@ == Seq::new(old_mask[k]@.len(), |i: int| false),
                forall|k: int| r < k < n ==> #[trigger] m@[k] == old_mask[k],
            decreases len - i,
        {
            m[r][i] = false;
            i = i + 1;
        }
        assert(m@[r as int]@ =~= Seq::new(old_mask[r as int]@.len(), |i: int| false));
        r = r + 1;
    }
}

/// The node's buffers fit the grid: same size, and every live match in bounds.
pub open spec fn data_fits(d: &RuleNodeData, g: &MjGrid) -> bool {
    &&& d.wf()
    &&& d.dims == (g.mx, g.my, g.mz)
}

/// `after` differs from `before` only in its matches, counters, goal and potentials.
pub open spec fn same_setup(before: &RuleNodeData, after: &RuleNodeData) -> bool {
    &&& after.rules == before.rules
    &&& after.steps == before.steps
    &&& after.fields == before.fields
    &&& after.observations == before.observations
    &&& (after.potentials is Some <==> before.potentials is Some)
    &&& (after.future is Some <==> before.future is Some)
}

} // verus!
