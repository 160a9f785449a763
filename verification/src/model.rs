//! A loaded model with its name, ready to run: the high-level way to use the library.
use vstd::prelude::*;
use crate::context::grid_ok;
use crate::grid::MjGrid;
use crate::interpreter::{reset_state, run_result, stepped, turn_context, Interpreter};
use crate::all_node::AllNode;
use crate::rng::seeded_table;
use crate::loader::{dim_or, load_model_str_with_resources, text_load_outcome, LoadError, LoadedModel};
use crate::node::{MarkovNode, NodeBox, SequenceNode};
use crate::one_node::OneNode;
use crate::pattern::RuleParseError;
use crate::rule::{spec_rule_parse_error, MjRule};
use crate::grid::{spec_values_error, GridError};
use crate::text::{spec_utf8_len, spec_without_whitespace};

verus! {

/// A named model and the interpreter that runs it.
pub struct Model {
    /// The model's name (its file stem, or `inline`).
    pub name: String,
    /// The interpreter running the model.
    pub interpreter: Interpreter,
}

/// The grid, origin flag and node tree of a loaded model.
pub open spec fn model_parts(r: Result<Model, LoadError>) -> Result<(MjGrid, bool, NodeBox), LoadError> {
    match r {
        Ok(m) => Ok((m.interpreter.ctx.grid, m.interpreter.origin, m.interpreter.root)),
        Err(e) => Err(e),
    }
}

impl Model {
    /// The interpreter is consistent.
    pub open spec fn inv(&self) -> bool {
        self.interpreter.inv()
    }

    /// A model from a loaded tree: its resets set the center cell when the model asks for
    /// an origin.
    fn from_loaded(name: String, loaded: LoadedModel) -> (m: Self)
        requires
            loaded.root.inv(),
            grid_ok(&loaded.grid),
        ensures
            m.inv(),
            m.name == name,
            m.interpreter.ctx.grid == loaded.grid,
            m.interpreter.origin == loaded.origin,
            m.interpreter.root == loaded.root,
            m.interpreter.ctx.counter == 0,
            !m.interpreter.running,
    {
        let LoadedModel { root, grid, origin } = loaded;
        let interpreter = if origin {
            Interpreter::with_origin(root, grid)
        } else {
            Interpreter::new(root, grid)
        };
        Model { name, interpreter }
    }

    /// A model named `name` from the text of its XML file and its resource files, on a
    /// grid of `mx` by `my` by `mz` cells (16, 16 and 1 where zero).
    pub fn load_with_size(
        name: &str,
        xml: &str,
        mx: usize,
        my: usize,
        mz: usize,
        resources: &[(String, Vec<u8>)],
    ) -> (r: Result<Self, LoadError>)
        ensures
            r matches Ok(m) ==> {
                &&& m.inv()
                &&& m.name@ == name@
                &&& m.interpreter.ctx.grid.mx == dim_or(mx, 16)
                &&& m.interpreter.ctx.grid.my == dim_or(my, 16)
                &&& m.interpreter.ctx.grid.mz == dim_or(mz, 1)
                &&& m.interpreter.ctx.counter == 0
                &&& !m.interpreter.running
            },
            text_load_outcome(xml@, mx, my, mz, model_parts(r)),
    {
        let loaded = load_model_str_with_resources(xml, mx, my, mz, resources)?;
        Ok(Model::from_loaded(name.to_owned(), loaded))
    }

    /// A model named `name` from the text of its XML file and its resource files, on the
    /// default grid of 16 by 16 by 1 cells.
    pub fn load(name: &str, xml: &str, resources: &[(String, Vec<u8>)]) -> (r: Result<Self, LoadError>)
        ensures
            r matches Ok(m) ==> {
                &&& m.inv()
                &&& m.name@ == name@
                &&& m.interpreter.ctx.grid.mx == 16 && m.interpreter.ctx.grid.my == 16
                &&& m.interpreter.ctx.grid.mz == 1
                &&& m.interpreter.ctx.counter == 0
                &&& !m.interpreter.running
            },
            text_load_outcome(xml@, 0, 0, 0, model_parts(r)),
    {
        Model::load_with_size(name, xml, 0, 0, 0, resources)
    }

    /// A model named `inline` from XML text, on a grid of `mx` by `my` by `mz` cells (16,
    /// 16 and 1 where zero).
    pub fn load_str(xml: &str, mx: usize, my: usize, mz: usize) -> (r: Result<Self, LoadError>)
        ensures
            r matches Ok(m) ==> {
                &&& m.inv()
                &&& m.name@ == "inline"@
                &&& m.interpreter.ctx.grid.mx == dim_or(mx, 16)
                &&& m.interpreter.ctx.grid.my == dim_or(my, 16)
                &&& m.interpreter.ctx.grid.mz == dim_or(mz, 1)
                &&& m.interpreter.ctx.counter == 0
                &&& !m.interpreter.running
            },
            text_load_outcome(xml@, mx, my, mz, model_parts(r)),
    {
        Model::load_with_size("inline", xml, mx, my, mz, &[])
    }

    /// Reset with `seed` and run until the model stops or, when `max_steps` is not zero,
    /// until `max_steps` turns have made progress. Returns the number of turns that made
    /// progress.
    pub fn run(&mut self, seed: u64, max_steps: usize) -> (r: usize)
        requires
            old(self).inv(),
        ensures
            final(self).inv(),
            final(self).name == old(self).name,
            r == final(self).interpreter.ctx.counter,
            max_steps > 0 ==> r <= max_steps,
            !final(self).interpreter.running || (max_steps > 0 && r == max_steps),
            run_result(old(self).interpreter, seed, final(self).interpreter, r),
    {
        self.interpreter.run(seed, max_steps)
    }

    /// Run one turn; true when the model made progress and is still running.
    pub fn step(&mut self) -> (r: bool)
        requires
            old(self).inv(),
        ensures
            final(self).inv(),
            final(self).name == old(self).name,
            r == final(self).interpreter.running,
            !old(self).interpreter.running ==> !r && final(self).interpreter == old(self).interpreter,
            old(self).interpreter.running && old(self).interpreter.ctx.counter < usize::MAX
                ==> final(self).interpreter.ctx.counter == old(self).interpreter.ctx.counter + (if r {
                1int
            } else {
                0int
            }),
            old(self).interpreter.running && old(self).interpreter.ctx.counter < usize::MAX ==> stepped(
                old(self).interpreter.root,
                turn_context(old(self).interpreter.ctx, old(self).interpreter.animated),
                final(self).interpreter.root,
                final(self).interpreter.ctx,
                r,
            ),
    {
        self.interpreter.step()
    }

    /// Start a new run seeded with `seed`: grid cleared (center set for origin models),
    /// counter zero, running.
    pub fn reset(&mut self, seed: u64)
        requires
            old(self).inv(),
        ensures
            final(self).inv(),
            final(self).name == old(self).name,
            final(self).interpreter.ctx.grid.state@ == reset_state(
                old(self).interpreter.ctx.grid.state@.len(),
                old(self).interpreter.origin,
                old(self).interpreter.ctx.grid.mx as int,
                old(self).interpreter.ctx.grid.my as int,
                old(self).interpreter.ctx.grid.mz as int,
            ),
            final(self).interpreter.ctx.grid.mx == old(self).interpreter.ctx.grid.mx,
            final(self).interpreter.ctx.grid.my == old(self).interpreter.ctx.grid.my,
            final(self).interpreter.ctx.grid.mz == old(self).interpreter.ctx.grid.mz,
            final(self).interpreter.ctx.grid.c == old(self).interpreter.ctx.grid.c,
            final(self).interpreter.ctx.grid.mask@ == Seq::new(old(self).interpreter.ctx.grid.mask@.len(), |i: int| false),
            final(self).interpreter.ctx.grid.characters@ == old(self).interpreter.ctx.grid.characters@,
            final(self).interpreter.ctx.grid.waves@ == old(self).interpreter.ctx.grid.waves@,
            final(self).interpreter.ctx.random.table() == seeded_table(seed as i32),
            final(self).interpreter.ctx.random.cursors() == (0int, 21int),
            old(self).interpreter.root.reset_done(final(self).interpreter.root),
            final(self).interpreter.ctx.changes@.len() == 0,
            final(self).interpreter.ctx.first@ == seq![0usize],
            final(self).interpreter.ctx.counter == 0,
            final(self).interpreter.running,
            final(self).interpreter.origin == old(self).interpreter.origin,
            final(self).interpreter.animated == old(self).interpreter.animated,
    {
        self.interpreter.reset(seed);
    }

    /// The current grid.
    pub fn grid(&self) -> (r: &MjGrid)
        ensures
            *r == self.interpreter.ctx.grid,
    {
        self.interpreter.grid()
    }

    /// The turn counter.
    pub fn counter(&self) -> (r: usize)
        ensures
            r == self.interpreter.ctx.counter,
    {
        self.interpreter.counter()
    }

    /// Whether the model is still running.
    pub fn is_running(&self) -> (r: bool)
        ensures
            r == self.interpreter.running,
    {
        self.interpreter.is_running()
    }

    /// Turn intermediate-state publishing on or off.
    pub fn set_animated(&mut self, animated: bool)
        ensures
            final(self).interpreter.animated == animated,
            final(self).interpreter.ctx == old(self).interpreter.ctx,
            final(self).interpreter.root == old(self).interpreter.root,
            final(self).interpreter.running == old(self).interpreter.running,
            final(self).interpreter.origin == old(self).interpreter.origin,
            final(self).name == old(self).name,
    {
        self.interpreter.set_animated(animated);
    }

    /// Whether intermediate states are published.
    pub fn is_animated(&self) -> (r: bool)
        ensures
            r == self.interpreter.animated,
    {
        self.interpreter.is_animated()
    }

    /// Number of cells changed in the last turn (0 before any turn).
    pub fn last_step_change_count(&self) -> (r: usize)
        requires
            self.inv(),
        ensures
            self.interpreter.ctx.first@.len() < 2 ==> r == 0,
            self.interpreter.ctx.first@.len() >= 2 ==> r == self.interpreter.ctx.first@.last()
                - self.interpreter.ctx.first@[self.interpreter.ctx.first@.len() - 2],
    {
        self.interpreter.last_step_change_count()
    }

    /// Coordinates of every cell changed since the last reset, in order, leaving out
    /// indices outside the current grid.
    pub fn changes(&self) -> (r: Vec<(i32, i32, i32)>)
        requires
            self.inv(),
        ensures
            coords_listed(
                self.interpreter.ctx.grid,
                r@,
                cells_inside(self.interpreter.ctx.changes@, self.interpreter.ctx.grid.state@.len() as int),
            ),
    {
        coords_of(self.interpreter.grid(), self.interpreter.changes())
    }

    /// Coordinates of the cells changed in the last turn, in order (none before any turn),
    /// leaving out indices outside the current grid.
    pub fn last_step_changes(&self) -> (r: Vec<(i32, i32, i32)>)
        requires
            self.inv(),
        ensures
            ({
                let c = self.interpreter.ctx;
                let idx = if c.first@.len() >= 2 {
                    c.changes@.subrange(c.first@[c.first@.len() - 2] as int, c.first@.last() as int)
                } else {
                    Seq::<usize>::empty()
                };
                coords_listed(c.grid, r@, cells_inside(idx, c.grid.state@.len() as int))
            }),
    {
        let idx = self.interpreter.last_step_changes();
        let ghost c = self.interpreter.ctx;
        let ghost target = if c.first@.len() >= 2 {
            c.changes@.subrange(c.first@[c.first@.len() - 2] as int, c.first@.last() as int)
        } else {
            Seq::<usize>::empty()
        };
        assert(idx@ =~= target);
        coords_of(self.interpreter.grid(), idx.as_slice())
    }
}

/// `coords` are, in order, the coordinates inside `grid` of the flat indices `idx`.
pub open spec fn coords_listed(grid: MjGrid, coords: Seq<(i32, i32, i32)>, idx: Seq<usize>) -> bool {
    &&& coords.len() == idx.len()
    &&& forall|k: int|
        0 <= k < coords.len() ==> grid.at(coords[k].0 as int, coords[k].1 as int, coords[k].2 as int) == idx[k] && 0
            <= coords[k].0 < grid.mx && 0 <= coords[k].1 < grid.my && 0 <= coords[k].2 < grid.mz
}

/// The coordinates of the indices of `idx` that lie inside `grid`, in order.
fn coords_of(grid: &MjGrid, idx: &[usize]) -> (r: Vec<(i32, i32, i32)>)
    requires
        grid_ok(grid),
    ensures
        coords_listed(*grid, r@, cells_inside(idx@, grid.state@.len() as int)),
{
    let n = grid.state.len();
    let mut out: Vec<(i32, i32, i32)> = Vec::new();
    let mut k: usize = 0;
    while k < idx.len()
        invariant
            grid_ok(grid),
            n == grid.state@.len(),
            k <= idx@.len(),
            coords_listed(*grid, out@, cells_inside(idx@.take(k as int), n as int)),
        decreases idx@.len() - k,
    {
        let ghost before = cells_inside(idx@.take(k as int), n as int);
        proof {
            assert(idx@.take(k + 1).drop_last() =~= idx@.take(k as int));
            assert(idx@.take(k + 1).last() == idx@[k as int]);
        }
        if idx[k] < n {
            let p = grid.index_to_coord(idx[k]);
            let ghost prev = out@;
            out.push(p);
            proof {
                let after = cells_inside(idx@.take(k + 1), n as int);
                assert(after == before.push(idx@[k as int]));
                assert forall|j: int| 0 <= j < out@.len() implies grid.at(out@[j].0 as int, out@[j].1 as int, out@[j].2 as int)
                    == after[j] && 0 <= out@[j].0 < grid.mx && 0 <= out@[j].1 < grid.my && 0 <= out@[j].2
                    < grid.mz by {
                    if j < prev.len() {
                        assert(out@[j] == prev[j]);
                        assert(after[j] == before[j]);
                    }
                }
                assert(coords_listed(*grid, out@, after));
            }
        } else {
            proof {
                assert(cells_inside(idx@.take(k + 1), n as int) == before);
            }
        }
        k = k + 1;
    }
    assert(idx@.take(idx@.len() as int) =~= idx@);
    out
}

/// The indices below `n`, in order.
pub open spec fn cells_inside(idx: Seq<usize>, n: int) -> Seq<usize>
    decreases idx.len(),
{
    if idx.len() == 0 {
        Seq::empty()
    } else if (idx.last() as int) < n {
        cells_inside(idx.drop_last(), n).push(idx.last())
    } else {
        cells_inside(idx.drop_last(), n)
    }
}

/// How a builder arranges its rules.
#[derive(Debug, Clone, Copy, PartialEq, Eq)]
pub enum BuilderNode {
    /// One rule node in a Markov node (the start).
    Markov,
    /// A sequence with a Markov node around a one-node for each rule.
    Sequence,
    /// A one-node of all rules, in a Markov node.
    One,
    /// An all-node of all rules, in a Markov node.
    All,
}

/// Why a builder could not make its model or grid.
#[derive(Debug, Clone, PartialEq)]
pub enum BuildError {
    /// The values string repeats a character.
    InvalidValues(GridError),
    /// The values string is 32 bytes or more, or the grid is too large for the engine.
    GridTooLarge,
    /// No rule was added.
    NoRules,
    /// A rule does not parse against the grid.
    InvalidRule { input: String, output: String, error: RuleParseError },
}

/// A model described rule by rule: a grid, whether runs start from a center seed, and
/// rules given as input and output patterns.
pub struct ModelBuilder {
    /// The grid the model runs on.
    pub grid: MjGrid,
    /// Whether a reset puts value 1 in the center cell.
    pub origin: bool,
    /// The rules, as input and output patterns.
    pub rules: Vec<(String, String)>,
    /// How the rules are arranged.
    pub node_type: BuilderNode,
}

/// Whether `a * b * c` fits in a machine word.
fn product_fits(a: usize, b: usize, c: usize) -> (r: bool)
    ensures
        r == (a * b * c <= usize::MAX),
{
    if a == 0 || b == 0 || c == 0 {
        assert(a * b * c == 0) by (nonlinear_arith)
            requires
                a == 0 || b == 0 || c == 0,
        ;
        return true;
    }
    match a.checked_mul(b) {
        Some(ab) => match ab.checked_mul(c) {
            Some(_) => true,
            None => false,
        },
        None => {
            assert(a * b * c >= a * b) by (nonlinear_arith)
                requires
                    c >= 1,
                    a * b >= 0,
            ;
            false
        },
    }
}

/// A Markov node around the single node `n`.
fn markov_around(n: NodeBox) -> (r: NodeBox)
    requires
        n.inv(),
    ensures
        r.inv(),
        r matches NodeBox::Markov(k) && k.nodes@ == seq![n],
{
    let mut nodes: Vec<NodeBox> = Vec::new();
    nodes.push(n);
    let k = MarkovNode::new(nodes);
    assert(k.nodes@ =~= seq![n]);
    NodeBox::Markov(k)
}

/// The index of the first rule that does not parse, or the number of rules.
pub open spec fn first_bad_rule(rules: Seq<(String, String)>, grid: &MjGrid, k: int) -> int
    decreases rules.len() - k,
{
    if k < 0 || k >= rules.len() {
        rules.len() as int
    } else if spec_rule_parse_error(rules[k].0@, rules[k].1@, grid) is Some {
        k
    } else {
        first_bad_rule(rules, grid, k + 1)
    }
}

impl ModelBuilder {
    /// The grid is usable by the engine.
    pub open spec fn inv(&self) -> bool {
        grid_ok(&self.grid)
    }

    /// A builder for a grid of `mx` by `my` by `mz` cells with the given values, without
    /// rules; refused when the values repeat a character or the grid is too large.
    pub fn new(values: &str, mx: usize, my: usize, mz: usize, origin: bool) -> (r: Result<Self, BuildError>)
        ensures
            r matches Ok(b) ==> {
                &&& b.inv()
                &&& b.grid.built_from(mx, my, mz, values@)
                &&& b.origin == origin
                &&& b.rules@.len() == 0
                &&& b.node_type == BuilderNode::Markov
            },
            (mx * my * mz <= usize::MAX && spec_utf8_len(spec_without_whitespace(values@)) < 32
                && spec_values_error(values@) is Some) ==> r == Err::<Self, BuildError>(
                BuildError::InvalidValues(spec_values_error(values@).unwrap()),
            ),
    {
        if !product_fits(mx, my, mz) || !MjGrid::values_fit(values) {
            return Err(BuildError::GridTooLarge);
        }
        let grid = match MjGrid::try_with_values(mx, my, mz, values) {
            Ok(g) => g,
            Err(e) => {
                return Err(BuildError::InvalidValues(e));
            },
        };
        if !crate::loader::engine_size_ok(mx, my, mz) {
            return Err(BuildError::GridTooLarge);
        }
        proof {
            assert(grid.cells_below(32));
        }
        Ok(ModelBuilder { grid, origin, rules: Vec::new(), node_type: BuilderNode::Markov })
    }

    /// Add a rule for a one-node; the first rule makes the model a one-node.
    pub fn one(&mut self, input: String, output: String)
        ensures
            final(self).rules@ == old(self).rules@.push((input, output)),
            final(self).node_type == (if old(self).rules@.len() == 0 {
                BuilderNode::One
            } else {
                old(self).node_type
            }),
            final(self).grid == old(self).grid && final(self).origin == old(self).origin,
    {
        self.rules.push((input, output));
        if self.rules.len() == 1 {
            self.node_type = BuilderNode::One;
        }
    }

    /// Add a rule for an all-node; the first rule makes the model an all-node.
    pub fn all(&mut self, input: String, output: String)
        ensures
            final(self).rules@ == old(self).rules@.push((input, output)),
            final(self).node_type == (if old(self).rules@.len() == 0 {
                BuilderNode::All
            } else {
                old(self).node_type
            }),
            final(self).grid == old(self).grid && final(self).origin == old(self).origin,
    {
        self.rules.push((input, output));
        if self.rules.len() == 1 {
            self.node_type = BuilderNode::All;
        }
    }

    /// The model named `lua_model` of the builder's rules, each parsed against its grid,
    /// arranged by its node kind; refused without rules or with a rule that does not parse
    /// (the first such).
    pub fn build(&self) -> (r: Result<Model, BuildError>)
        requires
            self.inv(),
        ensures
            self.rules@.len() == 0 ==> r == Err::<Model, BuildError>(BuildError::NoRules),
            self.rules@.len() > 0 && first_bad_rule(self.rules@, &self.grid, 0) < self.rules@.len() ==> ({
                let k = first_bad_rule(self.rules@, &self.grid, 0);
                r matches Err(BuildError::InvalidRule { input, output, error }) && input@ == self.rules@[k].0@
                    && output@ == self.rules@[k].1@ && spec_rule_parse_error(
                    self.rules@[k].0@,
                    self.rules@[k].1@,
                    &self.grid,
                ) == Some(error)
            }),
            self.rules@.len() > 0 && first_bad_rule(self.rules@, &self.grid, 0) == self.rules@.len() ==> (r matches Ok(
                m,
            ) && {
                &&& m.inv()
                &&& m.name@ == "lua_model"@
                &&& m.interpreter.ctx.grid.same_as(&self.grid)
                &&& m.interpreter.origin == self.origin
                &&& !m.interpreter.running
                &&& built_tree(m.interpreter.root, self.rules@, &self.grid, self.node_type)
            }),
    {
        if self.rules.len() == 0 {
            return Err(BuildError::NoRules);
        }
        let mut parsed: Vec<MjRule> = Vec::new();
        let mut k: usize = 0;
        while k < self.rules.len()
            invariant
                self.inv(),
                k <= self.rules@.len(),
                first_bad_rule(self.rules@, &self.grid, 0) == first_bad_rule(self.rules@, &self.grid, k as int),
                parsed@.len() == k,
                forall|q: int| 0 <= q < k ==> (#[trigger] parsed@[q]).parsed_from(self.rules@[q].0@, self.rules@[q].1@, &self.grid),
                crate::rule_node::rules_ok(parsed@),
            decreases self.rules@.len() - k,
        {
            match MjRule::parse(self.rules[k].0.as_str(), self.rules[k].1.as_str(), &self.grid) {
                Ok(rule) => {
                    proof {
                        assert(rule.outputs_below(32));
                    }
                    parsed.push(rule);
                },
                Err(e) => {
                    return Err(
                        BuildError::InvalidRule {
                            input: self.rules[k].0.clone(),
                            output: self.rules[k].1.clone(),
                            error: e,
                        },
                    );
                },
            }
            k = k + 1;
        }
        let n = self.grid.state.len();
        let root = match self.node_type {
            BuilderNode::One | BuilderNode::Markov => markov_around(NodeBox::One(OneNode::new(parsed, n))),
            BuilderNode::All => markov_around(NodeBox::All(AllNode::new(parsed, n))),
            BuilderNode::Sequence => {
                let mut nodes: Vec<NodeBox> = Vec::new();
                let mut rest = parsed;
                let ghost all_rules = rest@;
                let total = rest.len();
                while rest.len() > 0
                    invariant
                        crate::rule_node::rules_ok(all_rules),
                        nodes@.len() + rest@.len() == total,
                        total == all_rules.len(),
                        forall|q: int| 0 <= q < rest@.len() ==> rest@[q] == all_rules[q + nodes@.len()],
                        forall|q: int| 0 <= q < nodes@.len() ==> sequence_step(#[trigger] nodes@[q], all_rules[q]),
                        forall|q: int| 0 <= q < nodes@.len() ==> (#[trigger] nodes@[q]).inv(),
                    decreases rest@.len(),
                {
                    let r = rest.remove(0);
                    let mut one_rules: Vec<MjRule> = Vec::new();
                    one_rules.push(r);
                    proof {
                        assert(one_rules@ =~= seq![r]);
                    }
                    let step = markov_around(NodeBox::One(OneNode::new(one_rules, n)));
                    nodes.push(step);
                }
                NodeBox::Sequence(SequenceNode::new(nodes))
            },
        };
        let grid = self.grid.copy();
        let interpreter = if self.origin {
            Interpreter::with_origin(root, grid)
        } else {
            Interpreter::new(root, grid)
        };
        Ok(Model { name: "lua_model".to_owned(), interpreter })
    }
}

/// A Markov node around a single one-node whose rules are `rules`.
pub open spec fn markov_of_one(n: NodeBox, rules: Seq<MjRule>) -> bool {
    match n {
        NodeBox::Markov(k) => k.nodes@.len() == 1 && match k.nodes@[0] {
            NodeBox::One(o) => o.data.rules@ == rules,
            _ => false,
        },
        _ => false,
    }
}

/// A Markov node around a one-node of the single rule `rule`.
pub open spec fn sequence_step(n: NodeBox, rule: MjRule) -> bool {
    markov_of_one(n, seq![rule])
}

/// A Markov node around a one-node of a single rule, parsed from `rule` against `grid`.
pub open spec fn step_of_rule(n: NodeBox, rule: (String, String), grid: &MjGrid) -> bool {
    match n {
        NodeBox::Markov(k) => k.nodes@.len() == 1 && match k.nodes@[0] {
            NodeBox::One(o) => o.data.rules@.len() == 1 && o.data.rules@[0].parsed_from(rule.0@, rule.1@, grid),
            _ => false,
        },
        _ => false,
    }
}

/// The rules `rs` are the builder's rules `rules` parsed in order against `grid`.
pub open spec fn parsed_rules(rs: Seq<MjRule>, rules: Seq<(String, String)>, grid: &MjGrid) -> bool {
    &&& rs.len() == rules.len()
    &&& forall|q: int| 0 <= q < rules.len() ==> (#[trigger] rs[q]).parsed_from(rules[q].0@, rules[q].1@, grid)
}

/// The node tree a builder makes: the rules parsed in order, as one one-node or all-node
/// in a Markov node, or (for a sequence) one Markov node around a one-node per rule.
pub open spec fn built_tree(root: NodeBox, rules: Seq<(String, String)>, grid: &MjGrid, kind: BuilderNode) -> bool {
    match kind {
        BuilderNode::Sequence => match root {
            NodeBox::Sequence(s) => s.nodes@.len() == rules.len() && forall|q: int|
                0 <= q < rules.len() ==> step_of_rule(#[trigger] s.nodes@[q], rules[q], grid),
            _ => false,
        },
        BuilderNode::All => match root {
            NodeBox::Markov(k) => k.nodes@.len() == 1 && match k.nodes@[0] {
                NodeBox::All(a) => parsed_rules(a.data.rules@, rules, grid),
                _ => false,
            },
            _ => false,
        },
        _ => match root {
            NodeBox::Markov(k) => k.nodes@.len() == 1 && match k.nodes@[0] {
                NodeBox::One(o) => parsed_rules(o.data.rules@, rules, grid),
                _ => false,
            },
            _ => false,
        },
    }
}

} // verus!
