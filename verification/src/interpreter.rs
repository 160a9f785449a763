//! Running a model: a root node over a grid, with a seeded generator, one turn at a time.
use vstd::prelude::*;
use crate::context::{grid_ok, turns_ok, ExecutionContext};
use crate::grid::MjGrid;
use crate::node::{ctx_kept, NodeBox};
use crate::rng::{seeded_table, DotNetRandom};

verus! {

/// Runs a root node over a grid, turn by turn, logging the cells each turn changed.
pub struct Interpreter {
    /// The root of the node tree.
    pub root: NodeBox,
    /// Grid, generator, change log and turn counter.
    pub ctx: ExecutionContext,
    /// Whether a reset puts value 1 in the center cell.
    pub origin: bool,
    /// Whether the last turn made progress (the model is still running).
    pub running: bool,
    /// Whether nodes publish intermediate states.
    pub animated: bool,
}

/// Flat index of the center cell of a grid.
pub open spec fn center_index(mx: int, my: int, mz: int) -> int {
    mx / 2 + (my / 2) * mx + (mz / 2) * mx * my
}

/// The state a reset leaves: all zeros, with a 1 in the center when `origin` is set and the
/// grid has cells.
pub open spec fn reset_state(len: nat, origin: bool, mx: int, my: int, mz: int) -> Seq<u8> {
    let zeros = Seq::new(len, |i: int| 0u8);
    if origin && len > 0 {
        zeros.update(center_index(mx, my, mz), 1u8)
    } else {
        zeros
    }
}

/// The context a turn starts from: `ctx` with its intermediate-state flag set to
/// `animated`.
pub open spec fn turn_context(ctx: ExecutionContext, animated: bool) -> ExecutionContext {
    ExecutionContext { gif: animated, ..ctx }
}

/// One turn: the root went from `root` to `root2` taking a step (`NodeBox::go_done`) from
/// `ctx` to a context that agrees with `ctx2` in its grid, generator, log and flag, with
/// result `r`.
pub open spec fn stepped(root: NodeBox, ctx: ExecutionContext, root2: NodeBox, ctx2: ExecutionContext, r: bool) -> bool {
    exists|mid: ExecutionContext|
        #![trigger root.go_done(ctx, root2, mid, r)]
        root.go_done(ctx, root2, mid, r) && mid.grid == ctx2.grid && mid.random == ctx2.random && mid.changes@
            == ctx2.changes@ && mid.gif == ctx2.gif
}

/// A run from `roots[0]` over `ctxs[0]`: each turn `i` takes the root and context from
/// `roots[i]`, `ctxs[i]` to `roots[i + 1]`, `ctxs[i + 1]` with result `results[i]`.
pub open spec fn run_chain(roots: Seq<NodeBox>, ctxs: Seq<ExecutionContext>, results: Seq<bool>, animated: bool) -> bool {
    &&& roots.len() == results.len() + 1
    &&& ctxs.len() == results.len() + 1
    &&& forall|i: int|
        0 <= i < results.len() ==> stepped(
            roots[i],
            turn_context(ctxs[i], animated),
            roots[i + 1],
            ctxs[i + 1],
            #[trigger] results[i],
        )
}

/// A run of `before` seeded with `seed` that ends as `after` with result `r`: a reset,
/// then turns (`run_chain`) of which all but possibly the last made progress, `r`
/// counting those; a stopped run ended on a turn without progress or at the counter's
/// limit.
pub open spec fn run_result(before: Interpreter, seed: u64, after: Interpreter, r: usize) -> bool {
    exists|roots: Seq<NodeBox>, ctxs: Seq<ExecutionContext>, results: Seq<bool>|
        #![trigger run_chain(roots, ctxs, results, before.animated)]
        {
            &&& run_chain(roots, ctxs, results, before.animated)
            &&& before.root.reset_done(roots[0])
            &&& ctxs[0].grid.state@ == reset_state(
                before.ctx.grid.state@.len(),
                before.origin,
                before.ctx.grid.mx as int,
                before.ctx.grid.my as int,
                before.ctx.grid.mz as int,
            )
            &&& ctxs[0].grid.mx == before.ctx.grid.mx && ctxs[0].grid.my == before.ctx.grid.my
                && ctxs[0].grid.mz == before.ctx.grid.mz
            &&& ctxs[0].random.table() == seeded_table(seed as i32)
            &&& ctxs[0].random.cursors() == (0int, 21int)
            &&& ctxs[0].changes@.len() == 0
            &&& roots.last() == after.root
            &&& ctxs.last() == after.ctx
            &&& forall|i: int| 0 <= i < results.len() - 1 ==> #[trigger] results[i]
            &&& r == results.len() - (if results.len() > 0 && !results.last() { 1int } else { 0int })
            &&& !after.running ==> (results.len() > 0 && !results.last()) || after.ctx.counter
                == usize::MAX
        }
}

impl Interpreter {
    /// Root and context consistent.
    pub open spec fn inv(&self) -> bool {
        &&& self.root.inv()
        &&& self.ctx.wf()
    }

    /// An interpreter for `root` over `grid`, not yet reset.
    pub fn new(root: NodeBox, grid: MjGrid) -> (r: Self)
        requires
            root.inv(),
            grid_ok(&grid),
        ensures
            r.inv(),
            r.root == root,
            r.ctx.grid == grid,
            r.ctx.counter == 0,
            r.ctx.changes@.len() == 0,
            r.ctx.first@ == seq![0usize],
            !r.origin,
            !r.running,
            !r.animated,
    {
        let ctx = ExecutionContext::new(grid, DotNetRandom::from_seed(0));
        Interpreter { root, ctx, origin: false, running: false, animated: false }
    }

    /// An interpreter whose resets put value 1 in the center cell.
    pub fn with_origin(root: NodeBox, grid: MjGrid) -> (r: Self)
        requires
            root.inv(),
            grid_ok(&grid),
        ensures
            r.inv(),
            r.root == root,
            r.ctx.grid == grid,
            r.ctx.counter == 0,
            r.ctx.changes@.len() == 0,
            r.ctx.first@ == seq![0usize],
            r.origin,
            !r.running,
            !r.animated,
    {
        let ctx = ExecutionContext::new(grid, DotNetRandom::from_seed(0));
        Interpreter { root, ctx, origin: true, running: false, animated: false }
    }

    /// Turn intermediate-state publishing on or off.
    pub fn set_animated(&mut self, animated: bool)
        ensures
            final(self).animated == animated,
            final(self).root == old(self).root,
            final(self).ctx == old(self).ctx,
            final(self).origin == old(self).origin,
            final(self).running == old(self).running,
    {
        self.animated = animated;
    }

    /// Whether intermediate states are published.
    pub fn is_animated(&self) -> (r: bool)
        ensures
            r == self.animated,
    {
        self.animated
    }

    /// Start a new run with the generator `rng`: grid cleared (with the center set when
    /// `origin` is), log emptied, root reset, counter zero, running.
    pub fn reset_with_rng(&mut self, rng: DotNetRandom)
        requires
            old(self).inv(),
            rng.wf(),
        ensures
            final(self).inv(),
            final(self).ctx.random == rng,
            old(self).root.reset_done(final(self).root),
            final(self).ctx.grid.state@ == reset_state(
                old(self).ctx.grid.state@.len(),
                old(self).origin,
                old(self).ctx.grid.mx as int,
                old(self).ctx.grid.my as int,
                old(self).ctx.grid.mz as int,
            ),
            final(self).ctx.grid.mx == old(self).ctx.grid.mx,
            final(self).ctx.grid.my == old(self).ctx.grid.my,
            final(self).ctx.grid.mz == old(self).ctx.grid.mz,
            final(self).ctx.grid.c == old(self).ctx.grid.c,
            final(self).ctx.grid.mask@ == Seq::new(old(self).ctx.grid.mask@.len(), |i: int| false),
            final(self).ctx.grid.characters@ == old(self).ctx.grid.characters@,
            final(self).ctx.grid.waves@ == old(self).ctx.grid.waves@,
            final(self).ctx.changes@.len() == 0,
            final(self).ctx.first@ == seq![0usize],
            final(self).ctx.counter == 0,
            final(self).running,
            final(self).origin == old(self).origin,
            final(self).animated == old(self).animated,
    {
        self.ctx.random = rng;
        self.ctx.grid.clear();
        let n = self.ctx.grid.state.len();
        if self.origin && n > 0 {
            let mx = self.ctx.grid.mx;
            let my = self.ctx.grid.my;
            let mz = self.ctx.grid.mz;
            proof {
                assert(mx > 0 && my > 0 && mz > 0) by (nonlinear_arith)
                    requires
                        n == mx * my * mz,
                        n > 0,
                ;
                crate::geom::lemma_idx3_bound((mx / 2) as int, (my / 2) as int, (mz / 2) as int, mx as int, my as int, mz as int);
                assert((mz / 2) * mx * my == (mz / 2) * (mx * my)) by (nonlinear_arith);
            }
            let center = mx / 2 + (my / 2) * mx + (mz / 2) * (mx * my);
            self.ctx.grid.state.set(center, 1);
        }
        self.ctx.changes.clear();
        self.ctx.first.clear();
        self.ctx.first.push(0);
        self.root.reset();
        self.ctx.counter = 0;
        self.running = true;
        proof {
            assert(self.ctx.grid.state@ =~= reset_state(
                old(self).ctx.grid.state@.len(),
                old(self).origin,
                old(self).ctx.grid.mx as int,
                old(self).ctx.grid.my as int,
                old(self).ctx.grid.mz as int,
            ));
        }
    }

    /// Start a new run seeded with `seed` (its low 32 bits, as a signed seed).
    pub fn reset(&mut self, seed: u64)
        requires
            old(self).inv(),
        ensures
            final(self).inv(),
            final(self).ctx.grid.state@ == reset_state(
                old(self).ctx.grid.state@.len(),
                old(self).origin,
                old(self).ctx.grid.mx as int,
                old(self).ctx.grid.my as int,
                old(self).ctx.grid.mz as int,
            ),
            final(self).ctx.grid.mx == old(self).ctx.grid.mx,
            final(self).ctx.grid.my == old(self).ctx.grid.my,
            final(self).ctx.grid.mz == old(self).ctx.grid.mz,
            final(self).ctx.grid.c == old(self).ctx.grid.c,
            final(self).ctx.grid.mask@ == Seq::new(old(self).ctx.grid.mask@.len(), |i: int| false),
            final(self).ctx.grid.characters@ == old(self).ctx.grid.characters@,
            final(self).ctx.grid.waves@ == old(self).ctx.grid.waves@,
            final(self).ctx.random.table() == seeded_table(seed as i32),
            final(self).ctx.random.cursors() == (0int, 21int),
            old(self).root.reset_done(final(self).root),
            final(self).ctx.changes@.len() == 0,
            final(self).ctx.first@ == seq![0usize],
            final(self).ctx.counter == 0,
            final(self).running,
            final(self).origin == old(self).origin,
            final(self).animated == old(self).animated,
    {
        let s: i32 = #[verifier::truncate] (seed as i32);
        self.reset_with_rng(DotNetRandom::from_seed(s));
    }

    /// Run one turn: the root takes a step and the turn is closed in the log. A turn that
    /// made progress advances the counter; one that made none stops the model. A stopped
    /// model does nothing and answers false.
    pub fn step(&mut self) -> (r: bool)
        requires
            old(self).inv(),
        ensures
            final(self).inv(),
            r == final(self).running,
            !old(self).running ==> !r && *final(self) == *old(self),
            old(self).running && old(self).ctx.counter < usize::MAX ==> {
                &&& final(self).ctx.counter == old(self).ctx.counter + (if r { 1int } else { 0int })
                &&& final(self).ctx.first@ == old(self).ctx.first@.push(final(self).ctx.changes@.len() as usize)
            },
            old(self).running && old(self).ctx.counter == usize::MAX ==> !r && final(self).ctx == old(self).ctx
                && final(self).root == old(self).root,
            old(self).running && old(self).ctx.counter < usize::MAX ==> stepped(
                old(self).root,
                turn_context(old(self).ctx, old(self).animated),
                final(self).root,
                final(self).ctx,
                r,
            ),
            final(self).ctx.counter >= old(self).ctx.counter,
            final(self).origin == old(self).origin,
            final(self).animated == old(self).animated,
    {
        if !self.running {
            return false;
        }
        if self.ctx.counter == usize::MAX {
            self.running = false;
            return false;
        }
        self.ctx.gif = self.animated;
        let ghost ctx_in = self.ctx;
        let ghost root_in = self.root;
        let still = self.root.go(&mut self.ctx);
        let ghost mid = self.ctx;
        proof {
            assert(ctx_in == turn_context(old(self).ctx, old(self).animated));
            assert(root_in.go_done(ctx_in, self.root, mid, still));
        }
        if still {
            self.ctx.next_turn();
        } else {
            self.ctx.close_idle_turn();
            self.running = false;
        }
        proof {
            assert(mid.grid == self.ctx.grid && mid.random == self.ctx.random && mid.changes@ == self.ctx.changes@
                && mid.gif == self.ctx.gif);
            assert(stepped(old(self).root, turn_context(old(self).ctx, old(self).animated), self.root, self.ctx, still));
        }
        still
    }

    /// Reset with `seed`, then run turns until the model stops or, when `max_steps` is not
    /// zero, until `max_steps` turns have made progress. Returns the number of turns that
    /// made progress.
    pub fn run(&mut self, seed: u64, max_steps: usize) -> (r: usize)
        requires
            old(self).inv(),
        ensures
            final(self).inv(),
            r == final(self).ctx.counter,
            max_steps > 0 ==> r <= max_steps,
            !final(self).running || (max_steps > 0 && r == max_steps),
            final(self).origin == old(self).origin,
            final(self).animated == old(self).animated,
            run_result(*old(self), seed, *final(self), r),
    {
        self.reset(seed);
        let ghost mut roots: Seq<NodeBox> = seq![self.root];
        let ghost mut ctxs: Seq<ExecutionContext> = seq![self.ctx];
        let ghost mut results: Seq<bool> = Seq::empty();
        let ghost root0 = self.root;
        let ghost ctx0 = self.ctx;
        while self.running && (max_steps == 0 || self.ctx.counter < max_steps)
            invariant
                self.inv(),
                max_steps > 0 ==> self.ctx.counter <= max_steps,
                self.animated == old(self).animated,
                self.origin == old(self).origin,
                run_chain(roots, ctxs, results, self.animated),
                roots.len() >= 1,
                roots[0] == root0,
                ctxs[0] == ctx0,
                roots.last() == self.root,
                ctxs.last() == self.ctx,
                forall|i: int| 0 <= i < results.len() - 1 ==> #[trigger] results[i],
                results.len() > 0 && !results.last() ==> !self.running,
                self.ctx.counter == results.len() - (if results.len() > 0 && !results.last() { 1int } else { 0int }),
                !self.running ==> (results.len() > 0 && !results.last()) || self.ctx.counter == usize::MAX,
            ensures
                self.inv(),
                max_steps > 0 ==> self.ctx.counter <= max_steps,
                !self.running || (max_steps > 0 && self.ctx.counter == max_steps),
                self.animated == old(self).animated,
                self.origin == old(self).origin,
                run_chain(roots, ctxs, results, self.animated),
                roots.len() >= 1,
                roots[0] == root0,
                ctxs[0] == ctx0,
                roots.last() == self.root,
                ctxs.last() == self.ctx,
                forall|i: int| 0 <= i < results.len() - 1 ==> #[trigger] results[i],
                self.ctx.counter == results.len() - (if results.len() > 0 && !results.last() { 1int } else { 0int }),
                !self.running ==> (results.len() > 0 && !results.last()) || self.ctx.counter == usize::MAX,
            decreases usize::MAX - self.ctx.counter,
        {
            let ghost pre_root = self.root;
            let ghost pre_ctx = self.ctx;
            let b = self.step();
            proof {
                if pre_ctx.counter < usize::MAX {
                    let roots2 = roots.push(self.root);
                    let ctxs2 = ctxs.push(self.ctx);
                    let results2 = results.push(b);
                    assert forall|i: int| 0 <= i < results2.len() implies stepped(
                        roots2[i],
                        turn_context(ctxs2[i], self.animated),
                        roots2[i + 1],
                        ctxs2[i + 1],
                        #[trigger] results2[i],
                    ) by {
                        if i < results.len() {
                            assert(stepped(
                                roots[i],
                                turn_context(ctxs[i], self.animated),
                                roots[i + 1],
                                ctxs[i + 1],
                                results[i],
                            ));
                        }
                    }
                    roots = roots2;
                    ctxs = ctxs2;
                    results = results2;
                }
            }
            if !b {
                break;
            }
        }
        proof {
            assert(run_chain(roots, ctxs, results, old(self).animated));
        }
        self.ctx.counter
    }

    /// The current grid.
    pub fn grid(&self) -> (r: &MjGrid)
        ensures
            *r == self.ctx.grid,
    {
        &self.ctx.grid
    }

    /// The turn counter.
    pub fn counter(&self) -> (r: usize)
        ensures
            r == self.ctx.counter,
    {
        self.ctx.counter
    }

    /// Whether the model is still running.
    pub fn is_running(&self) -> (r: bool)
        ensures
            r == self.running,
    {
        self.running
    }

    /// Flat indices of every changed cell since the last reset, in order.
    pub fn changes(&self) -> (r: &[usize])
        ensures
            r@ == self.ctx.changes@,
    {
        self.ctx.changes.as_slice()
    }

    /// Start of each turn in the change log.
    pub fn first(&self) -> (r: &[usize])
        ensures
            r@ == self.ctx.first@,
    {
        self.ctx.first.as_slice()
    }

    /// Number of cells changed in the last turn (0 before any turn).
    pub fn last_step_change_count(&self) -> (r: usize)
        requires
            self.inv(),
        ensures
            self.ctx.first@.len() < 2 ==> r == 0,
            self.ctx.first@.len() >= 2 ==> r == self.ctx.first@.last() - self.ctx.first@[self.ctx.first@.len() - 2],
    {
        let n = self.ctx.first.len();
        if n < 2 {
            return 0;
        }
        let last = self.ctx.first[n - 1];
        let prev = self.ctx.first[n - 2];
        last - prev
    }

    /// The cells changed in the last turn (none before any turn).
    pub fn last_step_changes(&self) -> (r: Vec<usize>)
        requires
            self.inv(),
        ensures
            self.ctx.first@.len() < 2 ==> r@.len() == 0,
            self.ctx.first@.len() >= 2 ==> r@ == self.ctx.changes@.subrange(
                self.ctx.first@[self.ctx.first@.len() - 2] as int,
                self.ctx.first@.last() as int,
            ),
    {
        let n = self.ctx.first.len();
        if n < 2 {
            return Vec::new();
        }
        self.ctx.changes_from_turn(n - 2)
    }
}

} // verus!
