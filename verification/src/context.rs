//! The execution context shared by the nodes of a running model: the grid, the random
//! generator and the log of changed cells, grouped by turn.
use vstd::prelude::*;
use crate::grid::MjGrid;
use crate::rng::DotNetRandom;

verus! {

/// Grid, generator and change log of a running model.
pub struct ExecutionContext {
    /// The grid being rewritten.
    pub grid: MjGrid,
    /// The random generator.
    pub random: DotNetRandom,
    /// Flat indices of the changed cells, in order.
    pub changes: Vec<usize>,
    /// `first[turn]` is the index in `changes` where that turn's changes start.
    pub first: Vec<usize>,
    /// Turn counter.
    pub counter: usize,
    /// Whether nodes publish intermediate states.
    pub gif: bool,
}

/// Limits on a grid that the engine can run on: consistent, values below 32, and small
/// enough for 32-bit potentials over every value.
pub open spec fn grid_ok(g: &MjGrid) -> bool {
    &&& g.wf()
    &&& g.cells_below(32)
    &&& g.state@.len() <= i32::MAX
    &&& g.mx * g.my <= i32::MAX
    &&& g.mx <= i32::MAX && g.my <= i32::MAX && g.mz <= i32::MAX
}

/// The turn boundaries are non-decreasing indices into the change log.
pub open spec fn turns_ok(changes: Seq<usize>, first: Seq<usize>) -> bool {
    &&& first.len() >= 1
    &&& forall|k: int| 0 <= k < first.len() ==> #[trigger] first[k] <= changes.len()
    &&& forall|a: int, b: int| 0 <= a <= b < first.len() ==> #[trigger] first[a] <= #[trigger] first[b]
}

impl ExecutionContext {
    /// Internal consistency.
    pub open spec fn wf(&self) -> bool {
        &&& grid_ok(&self.grid)
        &&& self.random.wf()
        &&& turns_ok(self.changes@, self.first@)
    }

    /// A fresh context on `grid`: no changes, turn zero.
    pub fn new(grid: MjGrid, random: DotNetRandom) -> (ctx: Self)
        ensures
            ctx.grid == grid,
            ctx.random == random,
            ctx.changes@ == Seq::<usize>::empty(),
            ctx.first@ == seq![0usize],
            ctx.counter == 0,
            !ctx.gif,
    {
        let first = vec![0usize];
        ExecutionContext { grid, random, changes: Vec::new(), first, counter: 0, gif: false }
    }

    /// A fresh context with the given intermediate-state flag.
    pub fn with_gif(grid: MjGrid, random: DotNetRandom, gif: bool) -> (ctx: Self)
        ensures
            ctx.grid == grid,
            ctx.random == random,
            ctx.changes@ == Seq::<usize>::empty(),
            ctx.first@ == seq![0usize],
            ctx.counter == 0,
            ctx.gif == gif,
    {
        let first = vec![0usize];
        ExecutionContext { grid, random, changes: Vec::new(), first, counter: 0, gif }
    }

    /// Log a change of cell `idx`.
    pub fn record_change(&mut self, idx: usize)
        ensures
            final(self).changes@ == old(self).changes@.push(idx),
            final(self).grid == old(self).grid,
            final(self).random == old(self).random,
            final(self).first@ == old(self).first@,
            final(self).counter == old(self).counter,
            final(self).gif == old(self).gif,
            turns_ok(old(self).changes@, old(self).first@) ==> turns_ok(final(self).changes@, final(self).first@),
    {
        self.changes.push(idx);
    }

    /// Close the current turn: advance the counter and open the next turn at the end of
    /// the log.
    pub fn next_turn(&mut self)
        requires
            old(self).counter < usize::MAX,
        ensures
            final(self).counter == old(self).counter + 1,
            final(self).first@ == old(self).first@.push(old(self).changes@.len() as usize),
            final(self).changes@ == old(self).changes@,
            final(self).grid == old(self).grid,
            final(self).random == old(self).random,
            final(self).gif == old(self).gif,
            turns_ok(old(self).changes@, old(self).first@) ==> turns_ok(final(self).changes@, final(self).first@),
    {
        self.counter = self.counter + 1;
        let len = self.changes.len();
        self.first.push(len);
    }

    /// Close a turn that made no progress: open the next turn at the end of the log,
    /// without advancing the counter.
    pub fn close_idle_turn(&mut self)
        ensures
            final(self).counter == old(self).counter,
            final(self).first@ == old(self).first@.push(old(self).changes@.len() as usize),
            final(self).changes@ == old(self).changes@,
            final(self).grid == old(self).grid,
            final(self).random == old(self).random,
            final(self).gif == old(self).gif,
            turns_ok(old(self).changes@, old(self).first@) ==> turns_ok(final(self).changes@, final(self).first@),
    {
        let len = self.changes.len();
        self.first.push(len);
    }

    /// The changes logged during `turn`: from its start (0 when unknown) to the start of
    /// the next turn (the end of the log when unknown).
    pub fn changes_from_turn(&self, turn: usize) -> (r: Vec<usize>)
        requires
            turns_ok(self.changes@, self.first@),
        ensures
            ({
                let start = if (turn as int) < self.first@.len() { self.first@[turn as int] as int } else { 0 };
                let end = if turn + 1 < self.first@.len() {
                    self.first@[turn + 1] as int
                } else {
                    self.changes@.len() as int
                };
                r@ == self.changes@.subrange(start, end)
            }),
    {
        let start = if turn < self.first.len() {
            self.first[turn]
        } else {
            0
        };
        let end = if turn < self.first.len() && turn + 1 < self.first.len() {
            self.first[turn + 1]
        } else {
            self.changes.len()
        };
        let mut r: Vec<usize> = Vec::new();
        let mut k = start;
        while k < end
            invariant
                start <= k <= end,
                end <= self.changes@.len(),
                r@ == self.changes@.subrange(start as int, k as int),
            decreases end - k,
        {
            r.push(self.changes[k]);
            k = k + 1;
            assert(r@ =~= self.changes@.subrange(start as int, k as int));
        }
        r
    }
}

} // verus!
