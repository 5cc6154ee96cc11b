//! The backward pass: reverse-mode accumulation of gradients.

use crate::graph::{
    adjacency, grads, lemma_well_formed_acyclic, node_ok, well_formed, with_grads, Graph, NodeView,
};
use crate::order::{
    lemma_postorder_topological, lemma_reaches_below, lemma_reaches_onward, postorder,
    reaches,
};
use crate::schedule::{
    edges_of, head, lemma_schedule_covers, lemma_schedule_settles, schedule, swept, Edge,
};
use crate::scalar::{is_accumulation, is_one, is_product, is_sum, Scalar};
use crate::value::Value;
use crate::walk::build_topo;
use vstd::prelude::*;

verus! {

/// The node that the edge `e` leads to.
pub open spec fn target<T>(nodes: Seq<NodeView<T>>, e: Edge) -> int {
    head(adjacency(nodes), e) as int
}

/// `after` is `before` once the gradient of the parent of `e` has been pushed
/// along `e`: the gradient of the child is a result of adding the edge's local
/// gradient times the parent's gradient to it, and no other gradient changed.
pub open spec fn pushes<T: Scalar>(
    nodes: Seq<NodeView<T>>,
    e: Edge,
    before: Seq<T>,
    after: Seq<T>,
) -> bool {
    let child = target(nodes, e);
    &&& after == before.update(child, after[child])
    &&& is_accumulation(
        before[child],
        nodes[e.parent as int].local_grads[e.slot],
        before[e.parent as int],
        after[child],
    )
}

/// Step `k` of `trace` pushes gradient along the `k`-th edge of `plan`.
pub open spec fn step_ok<T: Scalar>(
    nodes: Seq<NodeView<T>>,
    plan: Seq<Edge>,
    trace: Seq<Seq<T>>,
    k: int,
) -> bool {
    pushes(nodes, plan[k], trace[k], trace[k + 1])
}

/// `trace` lists the gradients of all nodes before and after each step of a
/// backward pass from `root`: at first those of `nodes` with the gradient of
/// `root` set to one, then one more entry for each edge of the schedule.
pub open spec fn is_backward_trace<T: Scalar>(
    nodes: Seq<NodeView<T>>,
    root: usize,
    trace: Seq<Seq<T>>,
) -> bool {
    let plan = schedule(adjacency(nodes), root);
    &&& trace.len() == plan.len() + 1
    &&& is_one(trace[0][root as int])
    &&& trace[0] == grads(nodes).update(root as int, trace[0][root as int])
    &&& forall|k: int| 0 <= k < plan.len() ==> #[trigger] step_ok(nodes, plan, trace, k)
}

/// `after` is `before` after a backward pass from `root`: the same nodes, with
/// the gradients that some trace of that pass ends in.
pub open spec fn is_backward_pass<T: Scalar>(
    before: Seq<NodeView<T>>,
    root: usize,
    after: Seq<NodeView<T>>,
) -> bool {
    exists|trace: Seq<Seq<T>>| #[trigger]
        is_backward_trace(before, root, trace) && after == with_grads(before, trace.last())
}

/// Every edge of the schedule leaves a node of the graph and leads to a node
/// created before that one.
pub proof fn lemma_schedule_edges<T>(nodes: Seq<NodeView<T>>, root: usize, k: int)
    requires
        well_formed(nodes),
        root < nodes.len(),
        0 <= k < schedule(adjacency(nodes), root).len(),
    ensures
        reaches(adjacency(nodes), root, schedule(adjacency(nodes), root)[k].parent),
        schedule(adjacency(nodes), root)[k].parent <= root,
        0 <= schedule(adjacency(nodes), root)[k].slot < nodes[schedule(
            adjacency(nodes),
            root,
        )[k].parent as int].children.len(),
        0 <= target(nodes, schedule(adjacency(nodes), root)[k]) < schedule(
            adjacency(nodes),
            root,
        )[k].parent,
{
    let adj = adjacency(nodes);
    let plan = schedule(adj, root);
    lemma_well_formed_acyclic(nodes);
    lemma_schedule_covers(adj, root);
    assert(plan.contains(plan[k]));
    lemma_reaches_below(adj, root, plan[k].parent);
}

/// Every entry of a backward trace holds a gradient for each node.
pub proof fn lemma_trace_lengths<T: Scalar>(nodes: Seq<NodeView<T>>, root: usize, trace: Seq<Seq<T>>, k: int)
    requires
        well_formed(nodes),
        root < nodes.len(),
        is_backward_trace(nodes, root, trace),
        0 <= k <= schedule(adjacency(nodes), root).len(),
    ensures
        trace[k].len() == nodes.len(),
    decreases k,
{
    if k > 0 {
        lemma_trace_lengths(nodes, root, trace, k - 1);
        lemma_schedule_edges(nodes, root, k - 1);
        assert(step_ok(nodes, schedule(adjacency(nodes), root), trace, k - 1));
    }
}

/// During a backward pass the gradient of a node stays as it is over any run
/// of steps of which none leads to that node.
pub proof fn lemma_trace_untouched<T: Scalar>(
    nodes: Seq<NodeView<T>>,
    root: usize,
    trace: Seq<Seq<T>>,
    v: int,
    lo: int,
    hi: int,
)
    requires
        well_formed(nodes),
        root < nodes.len(),
        is_backward_trace(nodes, root, trace),
        0 <= v < nodes.len(),
        0 <= lo <= hi <= schedule(adjacency(nodes), root).len(),
        forall|j: int| lo <= j < hi ==> target(nodes, #[trigger] schedule(adjacency(nodes), root)[j]) != v,
    ensures
        trace[hi].len() == nodes.len(),
        trace[lo].len() == nodes.len(),
        trace[hi][v] == trace[lo][v],
    decreases hi,
{
    let plan = schedule(adjacency(nodes), root);
    lemma_trace_lengths(nodes, root, trace, lo);
    lemma_trace_lengths(nodes, root, trace, hi);
    if lo < hi {
        lemma_trace_untouched(nodes, root, trace, v, lo, hi - 1);
        lemma_schedule_edges(nodes, root, hi - 1);
        assert(step_ok(nodes, plan, trace, hi - 1));
    }
}

/// A backward pass changes nothing but gradients. It leaves the gradient of
/// `root` at one, and the gradient of every node that `root` does not depend
/// on as it was.
pub proof fn lemma_backward_frame<T: Scalar>(
    before: Seq<NodeView<T>>,
    root: usize,
    after: Seq<NodeView<T>>,
)
    requires
        well_formed(before),
        root < before.len(),
        is_backward_pass(before, root, after),
    ensures
        after.len() == before.len(),
        is_one(after[root as int].grad),
        forall|v: int|
            0 <= v < before.len() ==> {
                &&& (#[trigger] after[v]).value == before[v].value
                &&& after[v].children == before[v].children
                &&& after[v].local_grads == before[v].local_grads
            },
        forall|v: int|
            0 <= v < before.len() && !reaches(adjacency(before), root, v as usize)
                ==> (#[trigger] after[v]).grad == before[v].grad,
{
    let adj = adjacency(before);
    let plan = schedule(adj, root);
    let trace = choose|trace: Seq<Seq<T>>| #[trigger]
        is_backward_trace(before, root, trace) && after == with_grads(before, trace.last());
    let n = plan.len() as int;
    lemma_well_formed_acyclic(before);
    assert forall|j: int| 0 <= j < n implies target(before, #[trigger] plan[j]) != root by {
        lemma_schedule_edges(before, root, j);
    }
    lemma_trace_untouched(before, root, trace, root as int, 0, n);
    assert forall|v: int|
        0 <= v < before.len() && !reaches(adj, root, v as usize) implies (#[trigger] after[v]).grad
        == before[v].grad by {
        assert forall|j: int| 0 <= j < n implies target(before, #[trigger] plan[j]) != v by {
            lemma_schedule_edges(before, root, j);
            let e = plan[j];
            if target(before, e) == v {
                assert(reaches(adj, v as usize, v as usize));
                lemma_reaches_onward(adj, root, e.parent, v as usize);
            }
        }
        lemma_trace_untouched(before, root, trace, v, 0, n);
    }
}

/// At every step of a backward pass, the gradient that is pushed along the
/// edge is final: the node it belongs to gathers nothing more from that step
/// on, so what its operands receive is its whole gradient.
pub proof fn lemma_backward_settled<T: Scalar>(
    nodes: Seq<NodeView<T>>,
    root: usize,
    trace: Seq<Seq<T>>,
    k: int,
)
    requires
        well_formed(nodes),
        root < nodes.len(),
        is_backward_trace(nodes, root, trace),
        0 <= k < schedule(adjacency(nodes), root).len(),
    ensures
        trace[k][schedule(adjacency(nodes), root)[k].parent as int] == trace.last()[schedule(
            adjacency(nodes),
            root,
        )[k].parent as int],
{
    let adj = adjacency(nodes);
    let plan = schedule(adj, root);
    lemma_well_formed_acyclic(nodes);
    lemma_schedule_settles(adj, root);
    lemma_schedule_edges(nodes, root, k);
    lemma_trace_untouched(nodes, root, trace, plan[k].parent as int, k, plan.len() as int);
}

impl Value {
    /// Runs the backward pass from this value.
    ///
    /// Sets the gradient of this node to one, then walks the topological order
    /// of the graph below it from the end; at each node it adds to the gradient
    /// of every operand the local gradient of that edge times the node's own
    /// gradient. Numbers, edges and local gradients stay as they are, and so
    /// does the gradient of every node this value does not depend on.
    pub fn backward<T: Scalar>(self, graph: &mut Graph<T>)
        requires
            old(graph).wf(),
            self.index < old(graph)@.len(),
        ensures
            is_backward_pass(old(graph)@, self.index, final(graph)@),
            final(graph).wf(),
    {
        let ghost nodes = graph@;
        let ghost adj = adjacency(nodes);
        let topo = build_topo(graph, self);
        proof {
            lemma_well_formed_acyclic(nodes);
            lemma_postorder_topological(adj, self.index);
        }
        let seed = T::one();
        graph.set_grad(self.index, seed);
        let ghost mut trace: Seq<Seq<T>> = seq![grads(graph@)];
        let mut k: usize = topo.len();
        while k > 0
            invariant
                well_formed(nodes),
                adj == adjacency(nodes),
                topo@ == postorder(adj, self.index),
                forall|i: int| 0 <= i < topo@.len() ==> #[trigger] topo@[i] < nodes.len(),
                k <= topo@.len(),
                graph@ == with_grads(nodes, trace.last()),
                trace.len() == swept(adj, topo@, k as nat).len() + 1,
                forall|i: int| 0 <= i < trace.len() ==> (#[trigger] trace[i]).len() == nodes.len(),
                trace[0] == grads(nodes).update(self.index as int, seed),
                forall|j: int|
                    0 <= j < swept(adj, topo@, k as nat).len() ==> #[trigger] step_ok(
                        nodes,
                        swept(adj, topo@, k as nat),
                        trace,
                        j,
                    ),
            decreases k,
        {
            k -= 1;
            let v = topo[k];
            let n = graph.arity(v);
            let ghost done = swept(adj, topo@, (k + 1) as nat);
            let ghost row = edges_of(adj, v);
            let mut slot: usize = 0;
            while slot < n
                invariant
                    well_formed(nodes),
                    adj == adjacency(nodes),
                    v < nodes.len(),
                    n == nodes[v as int].children.len(),
                    row == edges_of(adj, v),
                    slot <= n,
                    graph@ == with_grads(nodes, trace.last()),
                    trace.len() == (done + row.take(slot as int)).len() + 1,
                    forall|i: int|
                        0 <= i < trace.len() ==> (#[trigger] trace[i]).len() == nodes.len(),
                    trace[0] == grads(nodes).update(self.index as int, seed),
                    forall|j: int|
                        0 <= j < (done + row.take(slot as int)).len() ==> #[trigger] step_ok(
                            nodes,
                            done + row.take(slot as int),
                            trace,
                            j,
                        ),
                decreases n - slot,
            {
                proof {
                    assert(node_ok(nodes, v as int));
                }
                let child = graph.child(v, slot);
                let local = graph.local_grad(v, slot);
                let upstream = graph.grad_at(v);
                let gathered = graph.grad_at(child);
                let share = local.times(upstream);
                let total = gathered.plus(share);
                let ghost before = trace.last();
                let ghost plan_before = done + row.take(slot as int);
                let ghost trace_before = trace;
                graph.set_grad(child, total);
                proof {
                    let e = Edge { parent: v, slot: slot as int };
                    let plan_after = done + row.take(slot as int + 1);
                    let after = before.update(child as int, total);
                    trace = trace.push(after);
                    assert(is_product(local, upstream, share) && is_sum(gathered, share, total));
                    assert forall|j: int| 0 <= j < plan_after.len() implies #[trigger] step_ok(
                        nodes,
                        plan_after,
                        trace,
                        j,
                    ) by {
                        if j < plan_before.len() {
                            assert(step_ok(nodes, plan_before, trace_before, j));
                        }
                    }
                }
                slot += 1;
            }
            proof {
                assert(row.take(n as int) =~= row);
            }
        }
        proof {
            assert(is_backward_trace(nodes, self.index, trace));
            assert forall|v: int| 0 <= v < graph@.len() implies #[trigger] node_ok(graph@, v) by {
                assert(node_ok(nodes, v));
            }
        }
    }
}

} // verus!
