//! The node tree of a model: rule nodes (one, all, parallel), path nodes, convolution nodes,
//! map nodes, and the branches that run their children in sequence or as a Markov chain.
use vstd::prelude::*;

use crate::all_node::AllNode;
use crate::context::ExecutionContext;
use crate::convolution_node::ConvolutionNode;
use crate::map_node::MapNode;
use crate::one_node::OneNode;
use crate::parallel_node::ParallelNode;
use crate::path_node::PathNode;

verus! {

/// A node of the model tree.
pub enum NodeBox {
    One(OneNode),
    All(AllNode),
    Parallel(ParallelNode),
    Path(PathNode),
    Convolution(ConvolutionNode),
    Mapping(MapNode),
    Sequence(SequenceNode),
    Markov(MarkovNode),
}

/// Runs its children in order, each until it stops.
pub struct SequenceNode {
    /// The children.
    pub nodes: Vec<NodeBox>,
    /// Index of the child being run.
    pub n: usize,
    /// A branch child that succeeded and keeps the turn until it stops.
    pub active_branch_child: Option<usize>,
}

/// Runs the first child that can make progress, starting over from the first each step.
pub struct MarkovNode {
    /// The children.
    pub nodes: Vec<NodeBox>,
    /// Index of the child being tried.
    pub n: usize,
    /// A branch child that succeeded and keeps the turn until it stops.
    pub active_branch_child: Option<usize>,
}

/// A branch's child cursor and active child are consistent with its children.
pub open spec fn branch_ok(nodes: Seq<NodeBox>, n: usize, active: Option<usize>) -> bool {
    &&& n <= nodes.len()
    &&& (active matches Some(a) ==> a < nodes.len())
}

/// The largest height among the first `k` nodes (0 when there are none).
pub open spec fn max_height(nodes: Seq<NodeBox>, k: int) -> nat
    decreases nodes, k,
{
    if k <= 0 || k > nodes.len() {
        0
    } else {
        let a = max_height(nodes, k - 1);
        let b = nodes[k - 1].height();
        if a >= b {
            a
        } else {
            b
        }
    }
}

/// The height of the tallest node among all of `nodes`.
pub open spec fn nodes_height(nodes: Seq<NodeBox>) -> nat {
    max_height(nodes, nodes.len() as int)
}

/// Every node's height is at most the largest height.
pub proof fn lemma_max_height_ge(nodes: Seq<NodeBox>, k: int, i: int)
    requires
        0 <= i < k <= nodes.len(),
    ensures
        nodes[i].height() <= max_height(nodes, k),
    decreases k,
{
    if i < k - 1 {
        lemma_max_height_ge(nodes, k - 1, i);
    }
}

/// Two lists whose nodes have the same heights have the same largest height.
pub proof fn lemma_max_height_eq(a: Seq<NodeBox>, b: Seq<NodeBox>, k: int)
    requires
        a.len() == b.len(),
        k <= a.len(),
        forall|i: int| 0 <= i < k ==> (#[trigger] a[i]).height() == b[i].height(),
    ensures
        max_height(a, k) == max_height(b, k),
    decreases k,
{
    if k > 0 {
        lemma_max_height_eq(a, b, k - 1);
    }
}

/// The children are consistent and their shape is kept from `before` to `after`.
pub open spec fn kept_shape(before: Seq<NodeBox>, after: Seq<NodeBox>) -> bool {
    &&& after.len() == before.len()
    &&& forall|i: int| 0 <= i < after.len() ==> (#[trigger] after[i]).inv()
    &&& forall|i: int|
        0 <= i < after.len() ==> (#[trigger] after[i]).height() == before[i].height() && after[i].spec_is_branch()
            == before[i].spec_is_branch()
}

/// One step of a branch, from cursor `n` and active child `active` to `n2` and `active2`,
/// returning `r`. An active child keeps the turn: the step returns true, and the child
/// stays active only if it succeeded. Otherwise the children are tried from `n` (from the
/// first for a Markov node); the step succeeds at the first child that succeeds, which
/// becomes active when it is a branch, and when none succeeds the branch resets.
pub open spec fn branch_step(
    nodes: Seq<NodeBox>,
    n: usize,
    active: Option<usize>,
    markov: bool,
    n2: usize,
    active2: Option<usize>,
    r: bool,
) -> bool {
    match active {
        Some(a) => r && n2 == n && (active2 is None || active2 == Some(a)),
        None => if r {
            &&& (if markov {
                0 <= n2
            } else {
                n <= n2
            })
            &&& n2 < nodes.len()
            &&& active2 == (if nodes[n2 as int].spec_is_branch() {
                Some(n2)
            } else {
                None::<usize>
            })
        } else {
            n2 == 0 && active2 is None
        },
    }
}

/// One step of a branch: the children keep their shape and the cursor and active child
/// move as `branch_step` says.
pub open spec fn branch_go_done(
    nodes: Seq<NodeBox>,
    n: usize,
    active: Option<usize>,
    markov: bool,
    nodes2: Seq<NodeBox>,
    n2: usize,
    active2: Option<usize>,
    r: bool,
) -> bool {
    &&& branch_ok(nodes2, n2, active2)
    &&& kept_shape(nodes, nodes2)
    &&& nodes_height(nodes2) == nodes_height(nodes)
    &&& branch_step(nodes, n, active, markov, n2, active2, r)
}

/// What a step keeps of the execution context: its consistency, turn counter and turns.
pub open spec fn ctx_kept(before: &ExecutionContext, after: &ExecutionContext) -> bool {
    &&& after.wf()
    &&& after.counter == before.counter
    &&& after.first@ == before.first@
}

impl NodeBox {
    /// Internal consistency of the whole subtree.
    pub open spec fn inv(&self) -> bool
        decreases self,
    {
        match self {
            NodeBox::One(o) => o.data.wf(),
            NodeBox::All(a) => a.data.wf(),
            NodeBox::Parallel(p) => p.wf(),
            NodeBox::Path(p) => p.wf(),
            NodeBox::Convolution(c) => c.wf(),
            NodeBox::Mapping(m) => m.inv(),
            NodeBox::Sequence(s) => s.inv(),
            NodeBox::Markov(s) => s.inv(),
        }
    }

    /// Height of the subtree: 0 for a leaf, one more than the tallest child otherwise.
    pub open spec fn height(&self) -> nat
        decreases self, 0nat,
    {
        match self {
            NodeBox::Mapping(m) => {
                proof {
                    assert(decreases_to!(m.children => m.children@));
                }
                1 + max_height(m.children@, m.children@.len() as int)
            },
            NodeBox::Sequence(s) => {
                proof {
                    assert(decreases_to!(s.nodes => s.nodes@));
                }
                1 + max_height(s.nodes@, s.nodes@.len() as int)
            },
            NodeBox::Markov(s) => {
                proof {
                    assert(decreases_to!(s.nodes => s.nodes@));
                }
                1 + max_height(s.nodes@, s.nodes@.len() as int)
            },
            _ => 0,
        }
    }

    /// What one step does, by kind of node: from this node and context to `after` and
    /// `ctx_after`, with result `r`.
    pub open spec fn go_done(self, ctx: ExecutionContext, after: NodeBox, ctx_after: ExecutionContext, r: bool) -> bool {
        match (self, after) {
            (NodeBox::One(a), NodeBox::One(b)) => a.go_done(ctx, b, ctx_after, r),
            (NodeBox::All(a), NodeBox::All(b)) => a.go_done(ctx, b, ctx_after, r),
            (NodeBox::Parallel(a), NodeBox::Parallel(b)) => a.go_done(ctx, b, ctx_after, r),
            (NodeBox::Path(a), NodeBox::Path(b)) => a.go_done(ctx, b, ctx_after, r),
            (NodeBox::Convolution(a), NodeBox::Convolution(b)) => a.go_done(ctx, b, ctx_after, r),
            (NodeBox::Mapping(a), NodeBox::Mapping(b)) => a.go_done(ctx, b, ctx_after, r),
            (NodeBox::Sequence(a), NodeBox::Sequence(b)) => branch_go_done(
                a.nodes@,
                a.n,
                a.active_branch_child,
                false,
                b.nodes@,
                b.n,
                b.active_branch_child,
                r,
            ),
            (NodeBox::Markov(a), NodeBox::Markov(b)) => branch_go_done(
                a.nodes@,
                a.n,
                a.active_branch_child,
                true,
                b.nodes@,
                b.n,
                b.active_branch_child,
                r,
            ),
            _ => false,
        }
    }

    /// What a reset does, by kind of node: from this node to `after`. A branch resets
    /// every child and starts over from the first, with no active child.
    pub open spec fn reset_done(self, after: NodeBox) -> bool
        decreases self,
    {
        match (self, after) {
            (NodeBox::One(a), NodeBox::One(b)) => a.reset_done(b),
            (NodeBox::All(a), NodeBox::All(b)) => a.reset_done(b),
            (NodeBox::Parallel(a), NodeBox::Parallel(b)) => a.reset_done(b),
            (NodeBox::Path(a), NodeBox::Path(b)) => a.reset_done(b),
            (NodeBox::Convolution(a), NodeBox::Convolution(b)) => a.reset_done(b),
            (NodeBox::Mapping(a), NodeBox::Mapping(b)) => a.reset_done(b),
            (NodeBox::Sequence(a), NodeBox::Sequence(b)) => {
                &&& kept_shape(a.nodes@, b.nodes@)
                &&& nodes_height(b.nodes@) == nodes_height(a.nodes@)
                &&& forall|i: int| 0 <= i < a.nodes@.len() ==> (#[trigger] a.nodes@[i]).reset_done(b.nodes@[i])
                &&& b.n == 0
                &&& b.active_branch_child is None
            },
            (NodeBox::Markov(a), NodeBox::Markov(b)) => {
                &&& kept_shape(a.nodes@, b.nodes@)
                &&& nodes_height(b.nodes@) == nodes_height(a.nodes@)
                &&& forall|i: int| 0 <= i < a.nodes@.len() ==> (#[trigger] a.nodes@[i]).reset_done(b.nodes@[i])
                &&& b.n == 0
                &&& b.active_branch_child is None
            },
            _ => false,
        }
    }

    /// Whether the node is a branch (sequence or Markov).
    pub open spec fn spec_is_branch(&self) -> bool {
        self is Sequence || self is Markov
    }

    /// Whether the node is a branch (sequence or Markov).
    pub fn is_branch(&self) -> (r: bool)
        ensures
            r == self.spec_is_branch(),
    {
        match self {
            NodeBox::Sequence(_) => true,
            NodeBox::Markov(_) => true,
            _ => false,
        }
    }

    /// Reset the subtree.
    pub fn reset(&mut self)
        requires
            old(self).inv(),
        ensures
            final(self).inv(),
            final(self).height() == old(self).height(),
            final(self).spec_is_branch() == old(self).spec_is_branch(),
            old(self).reset_done(*final(self)),
        decreases *old(self),
    {
        match self {
            NodeBox::One(o) => {
                o.reset();
            },
            NodeBox::All(a) => {
                a.reset();
            },
            NodeBox::Parallel(p) => {
                p.reset();
            },
            NodeBox::Path(p) => {
                p.reset();
            },
            NodeBox::Convolution(c) => {
                c.reset();
            },
            NodeBox::Mapping(m) => {
                proof {
                    assert(decreases_to!(*old(self) => (*old(self))->Mapping_0));
                }
                m.reset();
            },
            NodeBox::Sequence(s) => {
                proof {
                    assert(decreases_to!(*old(self) => (*old(self))->Sequence_0));
                }
                s.reset();
            },
            NodeBox::Markov(s) => {
                proof {
                    assert(decreases_to!(*old(self) => (*old(self))->Markov_0));
                }
                s.reset();
            },
        }
    }

    /// Run one step of the subtree; true when it made progress.
    pub fn go(&mut self, ctx: &mut ExecutionContext) -> (r: bool)
        requires
            old(self).inv(),
            old(ctx).wf(),
        ensures
            final(self).inv(),
            final(self).height() == old(self).height(),
            final(self).spec_is_branch() == old(self).spec_is_branch(),
            ctx_kept(old(ctx), final(ctx)),
            old(self).go_done(*old(ctx), *final(self), *final(ctx), r),
        decreases old(self).height(), 1nat,
    {
        match self {
            NodeBox::One(o) => o.go(ctx),
            NodeBox::All(a) => a.go(ctx),
            NodeBox::Parallel(p) => p.go(ctx),
            NodeBox::Path(p) => p.go(ctx),
            NodeBox::Convolution(c) => c.go(ctx),
            NodeBox::Mapping(m) => m.go(ctx),
            NodeBox::Sequence(s) => branch_go(&mut s.nodes, &mut s.n, &mut s.active_branch_child, false, ctx),
            NodeBox::Markov(s) => branch_go(&mut s.nodes, &mut s.n, &mut s.active_branch_child, true, ctx),
        }
    }
}

/// Reset every node of the list.
pub fn reset_nodes(nodes: &mut Vec<NodeBox>)
    requires
        forall|i: int| 0 <= i < old(nodes)@.len() ==> (#[trigger] old(nodes)@[i]).inv(),
    ensures
        kept_shape(old(nodes)@, final(nodes)@),
        nodes_height(final(nodes)@) == nodes_height(old(nodes)@),
        forall|i: int| 0 <= i < old(nodes)@.len() ==> (#[trigger] old(nodes)@[i]).reset_done(final(nodes)@[i]),
{
    let ghost orig = nodes@;
    let mut i: usize = 0;
    while i < nodes.len()
        invariant
            i <= nodes@.len(),
            nodes@.len() == orig.len(),
            forall|j: int| 0 <= j < i ==> (#[trigger] orig[j]).reset_done(nodes@[j]),
            forall|j: int| 0 <= j < nodes@.len() ==> (#[trigger] nodes@[j]).inv(),
            forall|j: int|
                0 <= j < i ==> (#[trigger] nodes@[j]).height() == orig[j].height() && nodes@[j].spec_is_branch()
                    == orig[j].spec_is_branch(),
            forall|j: int| i <= j < nodes@.len() ==> nodes@[j] == orig[j],
        decreases nodes@.len() - i,
    {
        nodes[i].reset();
        i = i + 1;
    }
    proof {
        lemma_max_height_eq(nodes@, orig, nodes@.len() as int);
    }
}

/// The child a branch without an active child tries first: the first for a Markov node,
/// the cursor's for a sequence.
pub open spec fn branch_start(markov: bool, n: usize) -> int {
    if markov {
        0
    } else {
        n as int
    }
}

/// The children of a branch tried in one step, from child `from` on, with the contexts
/// `cs` between their steps: each of children `from` to `to - 1` made a step that reported
/// no progress, and child `to` made a step that did, ending in `ctx_after`.
pub open spec fn branch_trace(
    nodes: Seq<NodeBox>,
    nodes2: Seq<NodeBox>,
    from: int,
    to: int,
    cs: Seq<ExecutionContext>,
    ctx: ExecutionContext,
    ctx_after: ExecutionContext,
) -> bool {
    &&& 0 <= from <= to < nodes.len()
    &&& cs.len() == to - from + 1
    &&& cs[0] == ctx
    &&& forall|j: int| from <= j < to ==> (#[trigger] nodes[j]).go_done(cs[j - from], nodes2[j], cs[j - from + 1], false)
    &&& nodes[to].go_done(cs[to - from], nodes2[to], ctx_after, true)
}

/// A Markov step that starts with no active child tries the children from the first one,
/// whatever the cursor was before: the child that makes progress is the lowest-indexed one
/// whose step reports progress, every child before it ran a step that reported none, and the
/// same run is a step from any other cursor too.
pub proof fn lemma_markov_restarts(
    nodes: Seq<NodeBox>,
    nodes2: Seq<NodeBox>,
    cursor: usize,
    other: usize,
    to: int,
    cs: Seq<ExecutionContext>,
    ctx: ExecutionContext,
    ctx_after: ExecutionContext,
)
    requires
        branch_trace(nodes, nodes2, branch_start(true, cursor), to, cs, ctx, ctx_after),
    ensures
        0 <= to < nodes.len(),
        cs.len() == to + 1,
        cs[0] == ctx,
        forall|j: int| 0 <= j < to ==> (#[trigger] nodes[j]).go_done(cs[j], nodes2[j], cs[j + 1], false),
        nodes[to].go_done(cs[to], nodes2[to], ctx_after, true),
        branch_trace(nodes, nodes2, branch_start(true, other), to, cs, ctx, ctx_after),
{
    assert forall|j: int| 0 <= j < to implies (#[trigger] nodes[j]).go_done(cs[j], nodes2[j], cs[j + 1], false) by {
        assert(j - 0 == j);
    }
}

/// One step of a branch over `nodes` (see `branch_step`).
pub fn branch_go(
    nodes: &mut Vec<NodeBox>,
    n: &mut usize,
    active: &mut Option<usize>,
    markov: bool,
    ctx: &mut ExecutionContext,
) -> (r: bool)
    requires
        branch_ok(old(nodes)@, *old(n), *old(active)),
        forall|i: int| 0 <= i < old(nodes)@.len() ==> (#[trigger] old(nodes)@[i]).inv(),
        old(ctx).wf(),
    ensures
        branch_ok(final(nodes)@, *final(n), *final(active)),
        kept_shape(old(nodes)@, final(nodes)@),
        nodes_height(final(nodes)@) == nodes_height(old(nodes)@),
        branch_step(old(nodes)@, *old(n), *old(active), markov, *final(n), *final(active), r),
        ctx_kept(old(ctx), final(ctx)),
        (*old(active)) is None && r ==> exists|cs: Seq<ExecutionContext>|
            #[trigger] branch_trace(
                old(nodes)@,
                final(nodes)@,
                branch_start(markov, *old(n)),
                *final(n) as int,
                cs,
                *old(ctx),
                *final(ctx),
            ),
    decreases nodes_height(old(nodes)@) + 1, 0nat,
{
    let ghost orig = nodes@;
    if let Some(a) = *active {
        proof {
            lemma_max_height_ge(orig, orig.len() as int, a as int);
        }
        let ok = nodes[a].go(ctx);
        proof {
            assert forall|j: int| 0 <= j < nodes@.len() implies (#[trigger] nodes@[j]).height() == orig[j].height()
                && nodes@[j].spec_is_branch() == orig[j].spec_is_branch() by {
                if j != a {
                    assert(nodes@[j] == orig[j]);
                }
            }
            lemma_max_height_eq(nodes@, orig, nodes@.len() as int);
        }
        if !ok {
            *active = None;
        }
        return true;
    }
    if markov {
        *n = 0;
    }
    let ghost start = *n as int;
    let ghost mut cs: Seq<ExecutionContext> = seq![*ctx];
    while *n < nodes.len()
        invariant
            start == branch_start(markov, *old(n)),
            start <= *n,
            cs.len() == *n - start + 1,
            cs[0] == *old(ctx),
            cs.last() == *ctx,
            forall|j: int| start <= j < *n ==> (#[trigger] orig[j]).go_done(cs[j - start], nodes@[j], cs[j - start + 1], false),
            orig == old(nodes)@,
            nodes@.len() == orig.len(),
            forall|j: int| 0 <= j < nodes@.len() ==> (#[trigger] nodes@[j]).inv(),
            forall|j: int|
                0 <= j < nodes@.len() ==> (#[trigger] nodes@[j]).height() == orig[j].height() && nodes@[j].spec_is_branch()
                    == orig[j].spec_is_branch(),
            forall|j: int| *n <= j < nodes@.len() ==> nodes@[j] == orig[j],
            *n <= nodes@.len(),
            markov || *old(n) <= *n,
            *active is None,
            *old(active) is None,
            ctx.wf(),
            ctx.counter == old(ctx).counter,
            ctx.first@ == old(ctx).first@,
        decreases nodes@.len() - *n,
    {
        let i = *n;
        let is_branch = nodes[i].is_branch();
        proof {
            lemma_max_height_ge(orig, orig.len() as int, i as int);
        }
        let ghost pre = nodes@;
        let ghost c0 = *ctx;
        let ok = nodes[i].go(ctx);
        proof {
            assert forall|j: int| 0 <= j < nodes@.len() implies (#[trigger] nodes@[j]).height() == orig[j].height()
                && nodes@[j].spec_is_branch() == orig[j].spec_is_branch() by {
                if j != i {
                    assert(nodes@[j] == pre[j]);
                }
            }
            lemma_max_height_eq(nodes@, orig, nodes@.len() as int);
        }
        if ok {
            if is_branch {
                *active = Some(i);
            }
            proof {
                assert(pre[i as int] == orig[i as int]);
                assert(branch_trace(orig, nodes@, start, i as int, cs, *old(ctx), *ctx)) by {
                    assert forall|j: int| start <= j < i implies (#[trigger] orig[j]).go_done(cs[j - start], nodes@[j], cs[j - start + 1], false) by {
                        assert(nodes@[j] == pre[j]);
                    }
                }
            }
            return true;
        }
        proof {
            assert(pre[i as int] == orig[i as int]);
            let cs0 = cs;
            cs = cs0.push(*ctx);
            assert forall|j: int| start <= j < i + 1 implies (#[trigger] orig[j]).go_done(cs[j - start], nodes@[j], cs[j - start + 1], false) by {
                if j < i {
                    assert(nodes@[j] == pre[j]);
                    assert(cs[j - start] == cs0[j - start] && cs[j - start + 1] == cs0[j - start + 1]);
                } else {
                    assert(cs[j - start] == c0);
                }
            }
        }
        *n = i + 1;
    }
    proof {
        lemma_max_height_eq(nodes@, orig, nodes@.len() as int);
    }
    reset_nodes(nodes);
    *n = 0;
    *active = None;
    false
}

impl SequenceNode {
    /// Children consistent, cursor and active child in range.
    pub open spec fn inv(&self) -> bool
        decreases self,
    {
        &&& branch_ok(self.nodes@, self.n, self.active_branch_child)
        &&& forall|i: int| 0 <= i < self.nodes@.len() ==> (#[trigger] self.nodes@[i]).inv()
    }

    /// A sequence over `nodes`, starting at the first.
    pub fn new(nodes: Vec<NodeBox>) -> (s: Self)
        ensures
            s.nodes@ == nodes@,
            s.n == 0,
            s.active_branch_child is None,
    {
        SequenceNode { nodes, n: 0, active_branch_child: None }
    }

    /// Reset every child and start over from the first.
    pub fn reset(&mut self)
        requires
            old(self).inv(),
        ensures
            final(self).inv(),
            kept_shape(old(self).nodes@, final(self).nodes@),
            nodes_height(final(self).nodes@) == nodes_height(old(self).nodes@),
            final(self).n == 0,
            final(self).active_branch_child is None,
            forall|i: int|
                0 <= i < old(self).nodes@.len() ==> (#[trigger] old(self).nodes@[i]).reset_done(final(self).nodes@[i]),
        decreases *old(self),
    {
        let ghost orig = self.nodes@;
        let mut i: usize = 0;
        while i < self.nodes.len()
            invariant
                i <= self.nodes@.len(),
                self.nodes@.len() == orig.len(),
                orig == old(self).nodes@,
                forall|j: int| 0 <= j < i ==> (#[trigger] orig[j]).reset_done(self.nodes@[j]),
                forall|j: int| 0 <= j < self.nodes@.len() ==> (#[trigger] self.nodes@[j]).inv(),
                forall|j: int|
                    0 <= j < i ==> (#[trigger] self.nodes@[j]).height() == orig[j].height()
                        && self.nodes@[j].spec_is_branch() == orig[j].spec_is_branch(),
                forall|j: int| i <= j < self.nodes@.len() ==> self.nodes@[j] == orig[j],
            decreases self.nodes@.len() - i,
        {
            proof {
                assert(decreases_to!(old(self).nodes => old(self).nodes@));
                assert(decreases_to!(old(self).nodes@ => old(self).nodes@[i as int]));
            }
            self.nodes[i].reset();
            i = i + 1;
        }
        proof {
            lemma_max_height_eq(self.nodes@, orig, self.nodes@.len() as int);
        }
        self.n = 0;
        self.active_branch_child = None;
    }

    /// Run one step: the active branch child if there is one, else the children from the
    /// current one until one makes progress; when none does the sequence resets.
    pub fn go(&mut self, ctx: &mut ExecutionContext) -> (r: bool)
        requires
            old(self).inv(),
            old(ctx).wf(),
        ensures
            final(self).inv(),
            kept_shape(old(self).nodes@, final(self).nodes@),
            branch_step(
                old(self).nodes@,
                old(self).n,
                old(self).active_branch_child,
                false,
                final(self).n,
                final(self).active_branch_child,
                r,
            ),
            nodes_height(final(self).nodes@) == nodes_height(old(self).nodes@),
            ctx_kept(old(ctx), final(ctx)),
    {
        branch_go(&mut self.nodes, &mut self.n, &mut self.active_branch_child, false, ctx)
    }
}

impl MarkovNode {
    /// Children consistent, cursor and active child in range.
    pub open spec fn inv(&self) -> bool
        decreases self,
    {
        &&& branch_ok(self.nodes@, self.n, self.active_branch_child)
        &&& forall|i: int| 0 <= i < self.nodes@.len() ==> (#[trigger] self.nodes@[i]).inv()
    }

    /// A Markov chain over `nodes`.
    pub fn new(nodes: Vec<NodeBox>) -> (s: Self)
        ensures
            s.nodes@ == nodes@,
            s.n == 0,
            s.active_branch_child is None,
    {
        MarkovNode { nodes, n: 0, active_branch_child: None }
    }

    /// Reset every child.
    pub fn reset(&mut self)
        requires
            old(self).inv(),
        ensures
            final(self).inv(),
            kept_shape(old(self).nodes@, final(self).nodes@),
            nodes_height(final(self).nodes@) == nodes_height(old(self).nodes@),
            final(self).n == 0,
            final(self).active_branch_child is None,
            forall|i: int|
                0 <= i < old(self).nodes@.len() ==> (#[trigger] old(self).nodes@[i]).reset_done(final(self).nodes@[i]),
        decreases *old(self),
    {
        let ghost orig = self.nodes@;
        let mut i: usize = 0;
        while i < self.nodes.len()
            invariant
                i <= self.nodes@.len(),
                self.nodes@.len() == orig.len(),
                orig == old(self).nodes@,
                forall|j: int| 0 <= j < i ==> (#[trigger] orig[j]).reset_done(self.nodes@[j]),
                forall|j: int| 0 <= j < self.nodes@.len() ==> (#[trigger] self.nodes@[j]).inv(),
                forall|j: int|
                    0 <= j < i ==> (#[trigger] self.nodes@[j]).height() == orig[j].height()
                        && self.nodes@[j].spec_is_branch() == orig[j].spec_is_branch(),
                forall|j: int| i <= j < self.nodes@.len() ==> self.nodes@[j] == orig[j],
            decreases self.nodes@.len() - i,
        {
            proof {
                assert(decreases_to!(old(self).nodes => old(self).nodes@));
                assert(decreases_to!(old(self).nodes@ => old(self).nodes@[i as int]));
            }
            self.nodes[i].reset();
            i = i + 1;
        }
        proof {
            lemma_max_height_eq(self.nodes@, orig, self.nodes@.len() as int);
        }
        self.n = 0;
        self.active_branch_child = None;
    }

    /// Run one step: the active branch child if there is one, else the children from the
    /// first until one makes progress; when none does the chain resets.
    pub fn go(&mut self, ctx: &mut ExecutionContext) -> (r: bool)
        requires
            old(self).inv(),
            old(ctx).wf(),
        ensures
            final(self).inv(),
            kept_shape(old(self).nodes@, final(self).nodes@),
            branch_step(
                old(self).nodes@,
                old(self).n,
                old(self).active_branch_child,
                true,
                final(self).n,
                final(self).active_branch_child,
                r,
            ),
            nodes_height(final(self).nodes@) == nodes_height(old(self).nodes@),
            ctx_kept(old(ctx), final(ctx)),
    {
        branch_go(&mut self.nodes, &mut self.n, &mut self.active_branch_child, true, ctx)
    }
}

/// A node of the model tree: one step of execution at a time, and back to its initial
/// state on reset.
pub trait Node {
    /// Internal consistency the node keeps between steps.
    spec fn node_inv(&self) -> bool;

    /// Run one step; true when the node made progress.
    fn go(&mut self, ctx: &mut ExecutionContext) -> (r: bool)
        requires
            old(self).node_inv(),
            old(ctx).wf(),
        ensures
            final(self).node_inv(),
            ctx_kept(old(ctx), final(ctx)),
    ;

    /// Back to the initial state.
    fn reset(&mut self)
        requires
            old(self).node_inv(),
        ensures
            final(self).node_inv(),
    ;

    /// Whether the node is a branch, whose successful child keeps the turn.
    fn is_branch(&self) -> (r: bool)
        default_ensures
            r == false,
    {
        false
    }
}

impl Node for NodeBox {
    open spec fn node_inv(&self) -> bool {
        self.inv()
    }

    fn go(&mut self, ctx: &mut ExecutionContext) -> (r: bool)
        ensures
            old(self).go_done(*old(ctx), *final(self), *final(ctx), r),
    {
        NodeBox::go(self, ctx)
    }

    fn reset(&mut self)
        ensures
            old(self).reset_done(*final(self)),
    {
        NodeBox::reset(self)
    }

    fn is_branch(&self) -> (r: bool)
        ensures
            r == self.spec_is_branch(),
    {
        NodeBox::is_branch(self)
    }
}

impl Node for SequenceNode {
    open spec fn node_inv(&self) -> bool {
        self.inv()
    }

    fn go(&mut self, ctx: &mut ExecutionContext) -> (r: bool)
        ensures
            branch_go_done(
                old(self).nodes@,
                old(self).n,
                old(self).active_branch_child,
                false,
                final(self).nodes@,
                final(self).n,
                final(self).active_branch_child,
                r,
            ),
    {
        SequenceNode::go(self, ctx)
    }

    fn reset(&mut self)
        ensures
            kept_shape(old(self).nodes@, final(self).nodes@),
            nodes_height(final(self).nodes@) == nodes_height(old(self).nodes@),
            forall|i: int|
                0 <= i < old(self).nodes@.len() ==> (#[trigger] old(self).nodes@[i]).reset_done(final(self).nodes@[i]),
            final(self).n == 0,
            final(self).active_branch_child is None,
    {
        SequenceNode::reset(self)
    }

    fn is_branch(&self) -> (r: bool)
        ensures
            r == true,
    {
        true
    }
}


impl Node for MarkovNode {
    open spec fn node_inv(&self) -> bool {
        self.inv()
    }

    fn go(&mut self, ctx: &mut ExecutionContext) -> (r: bool)
        ensures
            branch_go_done(
                old(self).nodes@,
                old(self).n,
                old(self).active_branch_child,
                true,
                final(self).nodes@,
                final(self).n,
                final(self).active_branch_child,
                r,
            ),
    {
        MarkovNode::go(self, ctx)
    }

    fn reset(&mut self)
        ensures
            kept_shape(old(self).nodes@, final(self).nodes@),
            nodes_height(final(self).nodes@) == nodes_height(old(self).nodes@),
            forall|i: int|
                0 <= i < old(self).nodes@.len() ==> (#[trigger] old(self).nodes@[i]).reset_done(final(self).nodes@[i]),
            final(self).n == 0,
            final(self).active_branch_child is None,
    {
        MarkovNode::reset(self)
    }

    fn is_branch(&self) -> (r: bool)
        ensures
            r == true,
    {
        true
    }
}

} // verus!
