//! What a backward pass leaves in the operands of the value it starts from.
//!
//! These are the chain rule for a single operation, stated for every number
//! type: the gradient of an operand is what was there before, plus the local
//! gradient of each edge that leads to it times the gradient of the result.

use crate::backward::{
    is_backward_pass, is_backward_trace, lemma_backward_settled, lemma_schedule_edges,
    lemma_trace_lengths, lemma_trace_untouched, step_ok, target,
};
use crate::graph::{
    adjacency, grads, lemma_well_formed_acyclic, node_ok, well_formed, with_grads, NodeView,
};
use crate::order::{lemma_reaches_below, lemma_reaches_onward, reaches};
use crate::scalar::{is_accumulation, is_exponential, is_one, is_sign_of, is_zero, Scalar};
use crate::schedule::{lemma_schedule_begins, lemma_schedule_covers, schedule, Edge};
use crate::value::{
    is_exponential_of, is_power_of, is_power_slope, is_product_of, is_rectified_of,
    is_rectifier_slope, is_sum_of, Value,
};
use vstd::prelude::*;

verus! {

/// The edges of `plan` that lead to `v`, in the order of `plan`.
pub open spec fn edges_into<T>(nodes: Seq<NodeView<T>>, plan: Seq<Edge>, v: int) -> Seq<Edge> {
    plan.filter(|e: Edge| target(nodes, e) == v)
}

/// `to` is a result of adding to `from`, for each edge of `edges` in turn, the
/// local gradient of the edge times the gradient that `upstream` holds for the
/// node the edge leaves.
pub open spec fn gathers<T: Scalar>(
    nodes: Seq<NodeView<T>>,
    upstream: Seq<T>,
    edges: Seq<Edge>,
    from: T,
    to: T,
) -> bool
    decreases edges.len(),
{
    if edges.len() == 0 {
        to == from
    } else {
        exists|so_far: T|
            gathers(nodes, upstream, edges.drop_last(), from, so_far) && #[trigger] is_accumulation(
                so_far,
                nodes[edges.last().parent as int].local_grads[edges.last().slot],
                upstream[edges.last().parent as int],
                to,
            )
    }
}

/// After the first `m` steps of a backward pass, a node has gathered the
/// shares of the edges that lead to it among the first `m` of the schedule,
/// each taken with the final gradient of the node the edge leaves.
proof fn lemma_gathered_so_far<T: Scalar>(
    nodes: Seq<NodeView<T>>,
    root: usize,
    trace: Seq<Seq<T>>,
    v: int,
    m: int,
)
    requires
        well_formed(nodes),
        root < nodes.len(),
        is_backward_trace(nodes, root, trace),
        0 <= v < nodes.len(),
        0 <= m <= schedule(adjacency(nodes), root).len(),
    ensures
        gathers(
            nodes,
            trace.last(),
            edges_into(nodes, schedule(adjacency(nodes), root).take(m), v),
            trace[0][v],
            trace[m][v],
        ),
    decreases m,
{
    reveal(Seq::filter);
    let plan = schedule(adjacency(nodes), root);
    let seen = plan.take(m);
    if m > 0 {
        let e = plan[m - 1];
        let earlier = plan.take(m - 1);
        let into_earlier = edges_into(nodes, earlier, v);
        lemma_gathered_so_far(nodes, root, trace, v, m - 1);
        assert(seen.drop_last() =~= earlier);
        assert(step_ok(nodes, plan, trace, m - 1));
        lemma_schedule_edges(nodes, root, m - 1);
        lemma_trace_lengths(nodes, root, trace, m - 1);
        if target(nodes, e) == v {
            let into_seen = edges_into(nodes, seen, v);
            assert(into_seen.drop_last() =~= into_earlier);
            assert(into_seen.last() == e);
            lemma_backward_settled(nodes, root, trace, m - 1);
            assert(is_accumulation(
                trace[m - 1][v],
                nodes[e.parent as int].local_grads[e.slot],
                trace.last()[e.parent as int],
                trace[m][v],
            ));
        }
    }
}

/// The chain rule. After a backward pass from `root`, the gradient of any
/// other node is a result of adding to what the node held before, for each
/// edge of the schedule that leads to it, the local gradient of that edge
/// times the final gradient of the node the edge leaves.
pub proof fn lemma_backward_chain_rule<T: Scalar>(
    before: Seq<NodeView<T>>,
    root: usize,
    after: Seq<NodeView<T>>,
    v: int,
)
    requires
        well_formed(before),
        root < before.len(),
        is_backward_pass(before, root, after),
        0 <= v < before.len(),
        v != root,
    ensures
        gathers(
            before,
            grads(after),
            edges_into(before, schedule(adjacency(before), root), v),
            before[v].grad,
            after[v].grad,
        ),
{
    let plan = schedule(adjacency(before), root);
    let n = plan.len() as int;
    let trace = choose|trace: Seq<Seq<T>>| #[trigger]
        is_backward_trace(before, root, trace) && after == with_grads(before, trace.last());
    lemma_gathered_so_far(before, root, trace, v, n);
    lemma_trace_lengths(before, root, trace, n);
    assert(plan.take(n) =~= plan);
    assert(grads(after) =~= trace.last());
}

/// An edge of the schedule after those of `root` itself leaves a node other
/// than `root`, and that node is reached from an operand of `root`.
proof fn lemma_later_edges<T>(nodes: Seq<NodeView<T>>, root: usize, j: int)
    requires
        well_formed(nodes),
        root < nodes.len(),
        nodes[root as int].children.len() <= j < schedule(adjacency(nodes), root).len(),
    ensures
        schedule(adjacency(nodes), root)[j].parent != root,
        exists|k: int|
            0 <= k < nodes[root as int].children.len() && reaches(
                adjacency(nodes),
                #[trigger] nodes[root as int].children[k],
                schedule(adjacency(nodes), root)[j].parent,
            ),
{
    let adj = adjacency(nodes);
    let plan = schedule(adj, root);
    let e = plan[j];
    lemma_well_formed_acyclic(nodes);
    lemma_schedule_covers(adj, root);
    lemma_schedule_begins(adj, root);
    lemma_schedule_edges(nodes, root, j);
    if e.parent == root {
        assert(plan[e.slot] == e);
    }
}

/// No edge of the schedule after those of `root` leads to `a`, if `a` is an
/// operand of `root` that no other operand of `root` depends on.
proof fn lemma_operand_settled<T>(nodes: Seq<NodeView<T>>, root: usize, a: usize, j: int)
    requires
        well_formed(nodes),
        root < nodes.len(),
        a < root,
        forall|k: int|
            0 <= k < nodes[root as int].children.len() ==> #[trigger] nodes[root as int].children[k]
                == a || !reaches(adjacency(nodes), nodes[root as int].children[k], a),
        nodes[root as int].children.len() <= j < schedule(adjacency(nodes), root).len(),
    ensures
        target(nodes, schedule(adjacency(nodes), root)[j]) != a,
{
    let adj = adjacency(nodes);
    let e = schedule(adj, root)[j];
    lemma_later_edges(nodes, root, j);
    lemma_schedule_edges(nodes, root, j);
    let k = choose|k: int|
        0 <= k < nodes[root as int].children.len() && reaches(
            adj,
            #[trigger] nodes[root as int].children[k],
            e.parent,
        );
    let c = nodes[root as int].children[k];
    if target(nodes, e) == a {
        assert(reaches(adj, a, a));
        lemma_reaches_onward(adj, c, e.parent, a);
        lemma_reaches_below(adj, c, e.parent);
    }
}

/// The chain rule for a value with one operand. After a backward pass from
/// `root`, the gradient of `root` is one, and the gradient of its operand is a
/// result of adding the local gradient times the gradient of `root` to what
/// the operand held before.
pub proof fn lemma_backward_unary<T: Scalar>(
    before: Seq<NodeView<T>>,
    root: usize,
    after: Seq<NodeView<T>>,
)
    requires
        well_formed(before),
        root < before.len(),
        before[root as int].children.len() == 1,
        is_backward_pass(before, root, after),
    ensures
        is_one(after[root as int].grad),
        is_accumulation(
            before[before[root as int].children[0] as int].grad,
            before[root as int].local_grads[0],
            after[root as int].grad,
            after[before[root as int].children[0] as int].grad,
        ),
{
    let adj = adjacency(before);
    let plan = schedule(adj, root);
    let n = plan.len() as int;
    let a = before[root as int].children[0];
    let trace = choose|trace: Seq<Seq<T>>| #[trigger]
        is_backward_trace(before, root, trace) && after == with_grads(before, trace.last());
    lemma_well_formed_acyclic(before);
    lemma_schedule_begins(adj, root);
    assert(step_ok(before, plan, trace, 0));
    assert forall|j: int| 0 <= j < n implies target(before, #[trigger] plan[j]) != root by {
        lemma_schedule_edges(before, root, j);
    }
    lemma_trace_untouched(before, root, trace, root as int, 0, n);
    assert forall|j: int| 1 <= j < n implies target(before, #[trigger] plan[j]) != a by {
        lemma_operand_settled(before, root, a, j);
    }
    lemma_trace_untouched(before, root, trace, a as int, 1, n);
}

/// The chain rule for a value with two operands that do not depend on each
/// other. After a backward pass from `root`, the gradient of each operand is a
/// result of adding the local gradient of its edge times the gradient of
/// `root`, which is one, to what the operand held before.
pub proof fn lemma_backward_binary<T: Scalar>(
    before: Seq<NodeView<T>>,
    root: usize,
    after: Seq<NodeView<T>>,
)
    requires
        well_formed(before),
        root < before.len(),
        before[root as int].children.len() == 2,
        !reaches(
            adjacency(before),
            before[root as int].children[0],
            before[root as int].children[1],
        ),
        !reaches(
            adjacency(before),
            before[root as int].children[1],
            before[root as int].children[0],
        ),
        is_backward_pass(before, root, after),
    ensures
        is_one(after[root as int].grad),
        is_accumulation(
            before[before[root as int].children[0] as int].grad,
            before[root as int].local_grads[0],
            after[root as int].grad,
            after[before[root as int].children[0] as int].grad,
        ),
        is_accumulation(
            before[before[root as int].children[1] as int].grad,
            before[root as int].local_grads[1],
            after[root as int].grad,
            after[before[root as int].children[1] as int].grad,
        ),
{
    let adj = adjacency(before);
    let plan = schedule(adj, root);
    let n = plan.len() as int;
    let a = before[root as int].children[0];
    let b = before[root as int].children[1];
    let trace = choose|trace: Seq<Seq<T>>| #[trigger]
        is_backward_trace(before, root, trace) && after == with_grads(before, trace.last());
    lemma_well_formed_acyclic(before);
    lemma_schedule_begins(adj, root);
    assert(a != b);
    assert(step_ok(before, plan, trace, 0));
    assert(step_ok(before, plan, trace, 1));
    lemma_trace_lengths(before, root, trace, 0);
    lemma_trace_lengths(before, root, trace, 1);
    lemma_trace_lengths(before, root, trace, 2);
    assert forall|j: int| 0 <= j < n implies target(before, #[trigger] plan[j]) != root by {
        lemma_schedule_edges(before, root, j);
    }
    lemma_trace_untouched(before, root, trace, root as int, 0, n);
    lemma_trace_untouched(before, root, trace, root as int, 0, 1);
    assert forall|j: int| 1 <= j < n implies target(before, #[trigger] plan[j]) != a by {
        if j >= 2 {
            lemma_operand_settled(before, root, a, j);
        }
    }
    lemma_trace_untouched(before, root, trace, a as int, 1, n);
    assert forall|j: int| 2 <= j < n implies target(before, #[trigger] plan[j]) != b by {
        lemma_operand_settled(before, root, b, j);
    }
    lemma_trace_untouched(before, root, trace, b as int, 2, n);
}

/// The chain rule for a value that uses one operand twice. After a backward
/// pass from `root`, the operand holds the shares of both edges, the second
/// added to the first: neither is lost or written over.
pub proof fn lemma_backward_shared<T: Scalar>(
    before: Seq<NodeView<T>>,
    root: usize,
    after: Seq<NodeView<T>>,
)
    requires
        well_formed(before),
        root < before.len(),
        before[root as int].children.len() == 2,
        before[root as int].children[0] == before[root as int].children[1],
        is_backward_pass(before, root, after),
    ensures
        is_one(after[root as int].grad),
        exists|first: T|
            is_accumulation(
                before[before[root as int].children[0] as int].grad,
                before[root as int].local_grads[0],
                after[root as int].grad,
                first,
            ) && is_accumulation(
                first,
                before[root as int].local_grads[1],
                after[root as int].grad,
                after[before[root as int].children[0] as int].grad,
            ),
{
    let adj = adjacency(before);
    let plan = schedule(adj, root);
    let n = plan.len() as int;
    let a = before[root as int].children[0];
    let trace = choose|trace: Seq<Seq<T>>| #[trigger]
        is_backward_trace(before, root, trace) && after == with_grads(before, trace.last());
    lemma_well_formed_acyclic(before);
    lemma_schedule_begins(adj, root);
    assert(step_ok(before, plan, trace, 0));
    assert(step_ok(before, plan, trace, 1));
    lemma_trace_lengths(before, root, trace, 0);
    lemma_trace_lengths(before, root, trace, 1);
    lemma_trace_lengths(before, root, trace, 2);
    assert forall|j: int| 0 <= j < n implies target(before, #[trigger] plan[j]) != root by {
        lemma_schedule_edges(before, root, j);
    }
    lemma_trace_untouched(before, root, trace, root as int, 0, n);
    lemma_trace_untouched(before, root, trace, root as int, 0, 1);
    assert forall|j: int| 2 <= j < n implies target(before, #[trigger] plan[j]) != a by {
        lemma_operand_settled(before, root, a, j);
    }
    lemma_trace_untouched(before, root, trace, a as int, 2, n);
    let first = trace[1][a as int];
    assert(is_accumulation(
        before[a as int].grad,
        before[root as int].local_grads[0],
        after[root as int].grad,
        first,
    ));
    assert(is_accumulation(
        first,
        before[root as int].local_grads[1],
        after[root as int].grad,
        after[a as int].grad,
    ));
}

/// The gradients of a sum. After a backward pass from the sum of two values
/// that do not depend on each other, the gradient of each is a result of
/// adding one times one to what it held before.
pub proof fn lemma_sum_gradients<T: Scalar>(
    before: Seq<NodeView<T>>,
    a: Value,
    b: Value,
    out: Value,
    after: Seq<NodeView<T>>,
)
    requires
        well_formed(before),
        out.index < before.len(),
        is_sum_of(before, a, b, before[out.index as int]),
        !reaches(adjacency(before), a.index, b.index),
        !reaches(adjacency(before), b.index, a.index),
        is_backward_pass(before, out.index, after),
    ensures
        exists|local: T, seed: T|
            is_one(local) && is_one(seed) && #[trigger] is_accumulation(
                before[a.index as int].grad,
                local,
                seed,
                after[a.index as int].grad,
            ),
        exists|local: T, seed: T|
            is_one(local) && is_one(seed) && #[trigger] is_accumulation(
                before[b.index as int].grad,
                local,
                seed,
                after[b.index as int].grad,
            ),
{
    let node = before[out.index as int];
    lemma_backward_binary(before, out.index, after);
    let seed = after[out.index as int].grad;
    assert(is_one(node.local_grads[0]) && is_one(seed) && is_accumulation(
        before[a.index as int].grad,
        node.local_grads[0],
        seed,
        after[a.index as int].grad,
    ));
    assert(is_one(node.local_grads[1]) && is_one(seed) && is_accumulation(
        before[b.index as int].grad,
        node.local_grads[1],
        seed,
        after[b.index as int].grad,
    ));
}

/// The gradients of a product. After a backward pass from the product of two
/// values that do not depend on each other, the gradient of each is a result
/// of adding the number of the other times one to what it held before.
pub proof fn lemma_product_gradients<T: Scalar>(
    before: Seq<NodeView<T>>,
    a: Value,
    b: Value,
    out: Value,
    after: Seq<NodeView<T>>,
)
    requires
        well_formed(before),
        out.index < before.len(),
        is_product_of(before, a, b, before[out.index as int]),
        !reaches(adjacency(before), a.index, b.index),
        !reaches(adjacency(before), b.index, a.index),
        is_backward_pass(before, out.index, after),
    ensures
        exists|seed: T|
            is_one(seed) && #[trigger] is_accumulation(
                before[a.index as int].grad,
                before[b.index as int].value,
                seed,
                after[a.index as int].grad,
            ),
        exists|seed: T|
            is_one(seed) && #[trigger] is_accumulation(
                before[b.index as int].grad,
                before[a.index as int].value,
                seed,
                after[b.index as int].grad,
            ),
{
    let node = before[out.index as int];
    lemma_backward_binary(before, out.index, after);
    let seed = after[out.index as int].grad;
    assert(is_one(seed) && is_accumulation(
        before[a.index as int].grad,
        before[b.index as int].value,
        seed,
        after[a.index as int].grad,
    ));
    assert(is_one(seed) && is_accumulation(
        before[b.index as int].grad,
        before[a.index as int].value,
        seed,
        after[b.index as int].grad,
    ));
}

/// The gradient of a power. After a backward pass from `a` raised to `p`, the
/// gradient of `a` is a result of adding `p * a^(p - 1)` times one to what it
/// held before.
pub proof fn lemma_power_gradient<T: Scalar>(
    before: Seq<NodeView<T>>,
    a: Value,
    p: T,
    out: Value,
    after: Seq<NodeView<T>>,
)
    requires
        well_formed(before),
        out.index < before.len(),
        is_power_of(before, a, p, before[out.index as int]),
        is_backward_pass(before, out.index, after),
    ensures
        exists|local: T, seed: T|
            is_power_slope(before[a.index as int].value, p, local) && is_one(seed)
                && #[trigger] is_accumulation(
                before[a.index as int].grad,
                local,
                seed,
                after[a.index as int].grad,
            ),
{
    let node = before[out.index as int];
    lemma_backward_unary(before, out.index, after);
    let seed = after[out.index as int].grad;
    let local = node.local_grads[0];
    assert(is_power_slope(before[a.index as int].value, p, local) && is_one(seed)
        && is_accumulation(
        before[a.index as int].grad,
        local,
        seed,
        after[a.index as int].grad,
    ));
}

/// The gradient of an exponential. After a backward pass from `e` raised to
/// `a`, the gradient of `a` is a result of adding `e^a` times one to what it
/// held before.
pub proof fn lemma_exponential_gradient<T: Scalar>(
    before: Seq<NodeView<T>>,
    a: Value,
    out: Value,
    after: Seq<NodeView<T>>,
)
    requires
        well_formed(before),
        out.index < before.len(),
        is_exponential_of(before, a, before[out.index as int]),
        is_backward_pass(before, out.index, after),
    ensures
        exists|local: T, seed: T|
            is_exponential(before[a.index as int].value, local) && is_one(seed)
                && #[trigger] is_accumulation(
                before[a.index as int].grad,
                local,
                seed,
                after[a.index as int].grad,
            ),
{
    let node = before[out.index as int];
    lemma_backward_unary(before, out.index, after);
    let seed = after[out.index as int].grad;
    assert(is_exponential(before[a.index as int].value, node.value) && is_one(seed)
        && is_accumulation(
        before[a.index as int].grad,
        node.value,
        seed,
        after[a.index as int].grad,
    ));
}

/// The gradient of a rectified value. After a backward pass from `a`
/// rectified, the gradient of `a` is a result of adding to what it held
/// before: one times one where `a` is positive, zero times one elsewhere.
pub proof fn lemma_rectified_gradient<T: Scalar>(
    before: Seq<NodeView<T>>,
    a: Value,
    out: Value,
    after: Seq<NodeView<T>>,
)
    requires
        well_formed(before),
        out.index < before.len(),
        is_rectified_of(before, a, before[out.index as int]),
        is_backward_pass(before, out.index, after),
    ensures
        exists|local: T, seed: T|
            is_rectifier_slope(before[a.index as int].value, local) && is_one(seed)
                && #[trigger] is_accumulation(
                before[a.index as int].grad,
                local,
                seed,
                after[a.index as int].grad,
            ),
{
    let node = before[out.index as int];
    let x = before[a.index as int].value;
    lemma_backward_unary(before, out.index, after);
    let seed = after[out.index as int].grad;
    let local = node.local_grads[0];
    let positive = choose|positive: bool|
        is_sign_of(x, positive) && if positive {
            node.value == x && is_one(node.local_grads[0])
        } else {
            is_zero(node.value) && is_zero(node.local_grads[0])
        };
    assert(is_sign_of(x, positive) && if positive {
        is_one(local)
    } else {
        is_zero(local)
    });
    assert(is_rectifier_slope(x, local) && is_one(seed) && is_accumulation(
        before[a.index as int].grad,
        local,
        seed,
        after[a.index as int].grad,
    ));
}

} // verus!
