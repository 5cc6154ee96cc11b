//! Computing the topological order.

use crate::graph::{adjacency, node_ok, Graph};
use crate::order::{postorder, visit, visit_children};
use crate::value::Value;
use vstd::prelude::*;

verus! {

/// A node whose children are being walked, and the position of the child to
/// walk next.
#[derive(Clone, Copy)]
struct Frame {
    node: usize,
    next: usize,
}

/// What the walk ends with once every frame of `stack` has been finished,
/// from the last to the first, after `done`: for each frame, the children
/// that are left, then the node itself.
spec fn resume(adj: Seq<Seq<usize>>, stack: Seq<Frame>, done: Seq<usize>) -> Seq<usize>
    decreases stack.len(),
{
    if stack.len() == 0 {
        done
    } else {
        let top = stack.last();
        resume(
            adj,
            stack.drop_last(),
            visit_children(adj, top.node, top.next as nat, done).push(top.node),
        )
    }
}

/// `x` is the node of a frame of `stack`.
spec fn on_stack(stack: Seq<Frame>, x: usize) -> bool {
    exists|i: int| 0 <= i < stack.len() && (#[trigger] stack[i]).node == x
}

/// The frames of `stack` are frames of the graph, each deeper one for a node
/// created before the node of the frame below it, and `seen` marks exactly the
/// nodes that are finished or on the stack.
spec fn walk_ok(adj: Seq<Seq<usize>>, stack: Seq<Frame>, done: Seq<usize>, seen: Seq<bool>) -> bool {
    &&& seen.len() == adj.len()
    &&& forall|i: int|
        0 <= i < stack.len() ==> (#[trigger] stack[i]).node < adj.len() && stack[i].next
            <= adj[stack[i].node as int].len()
    &&& forall|i: int, j: int|
        0 <= i < j < stack.len() ==> (#[trigger] stack[j]).node < (#[trigger] stack[i]).node
    &&& forall|x: usize|
        x < seen.len() ==> (#[trigger] seen[x as int] <==> done.contains(x) || on_stack(stack, x))
}

/// The steps the frames of `stack` still have to take: one for each child
/// that is left and one to finish the node.
spec fn pending(adj: Seq<Seq<usize>>, stack: Seq<Frame>) -> nat
    decreases stack.len(),
{
    if stack.len() == 0 {
        0
    } else {
        let top = stack.last();
        pending(adj, stack.drop_last()) + (adj[top.node as int].len() - top.next) as nat + 1
    }
}

/// The number of nodes that `seen` does not mark.
spec fn unseen(seen: Seq<bool>) -> nat
    decreases seen.len(),
{
    if seen.len() == 0 {
        0
    } else {
        unseen(seen.drop_last()) + if seen.last() {
            0nat
        } else {
            1nat
        }
    }
}

proof fn lemma_unseen_mark(seen: Seq<bool>, i: int)
    requires
        0 <= i < seen.len(),
        !seen[i],
    ensures
        unseen(seen.update(i, true)) + 1 == unseen(seen),
    decreases seen.len(),
{
    let marked = seen.update(i, true);
    if i == seen.len() - 1 {
        assert(marked.drop_last() =~= seen.drop_last());
    } else {
        lemma_unseen_mark(seen.drop_last(), i);
        assert(marked.drop_last() =~= seen.drop_last().update(i, true));
    }
}

proof fn lemma_contains_push(done: Seq<usize>, v: usize, x: usize)
    ensures
        done.push(v).contains(x) <==> done.contains(x) || x == v,
{
    let more = done.push(v);
    if done.contains(x) {
        let j = choose|j: int| 0 <= j < done.len() && done[j] == x;
        assert(more[j] == x);
    }
    if x == v {
        assert(more[done.len() as int] == x);
    }
}

proof fn lemma_on_stack_push(stack: Seq<Frame>, f: Frame, x: usize)
    ensures
        on_stack(stack.push(f), x) <==> on_stack(stack, x) || x == f.node,
{
    let more = stack.push(f);
    if on_stack(stack, x) {
        let i = choose|i: int| 0 <= i < stack.len() && (#[trigger] stack[i]).node == x;
        assert(more[i].node == x);
    }
    if x == f.node {
        assert(more[stack.len() as int].node == x);
    }
}

/// The topological order of the graph below `root`, as node positions:
/// operands before the values computed from them, each node once however many
/// paths lead to it.
///
/// The walk keeps its own stack, so its depth is not bounded by the depth of
/// the call stack; the order is that of the recursive definition.
pub fn build_topo<T: Copy>(graph: &Graph<T>, root: Value) -> (order: Vec<usize>)
    requires
        graph.wf(),
        root.index < graph@.len(),
    ensures
        order@ == postorder(adjacency(graph@), root.index),
{
    let ghost adj = adjacency(graph@);
    let n = graph.len();
    let mut seen: Vec<bool> = Vec::new();
    let mut i: usize = 0;
    while i < n
        invariant
            i <= n,
            seen@.len() == i,
            forall|j: int| 0 <= j < i ==> !seen@[j],
        decreases n - i,
    {
        seen.push(false);
        i += 1;
    }
    let mut order: Vec<usize> = Vec::new();
    let mut stack: Vec<Frame> = Vec::new();
    seen[root.index] = true;
    stack.push(Frame { node: root.index, next: 0 });
    proof {
        assert(resume(adj, stack@, order@) == postorder(adj, root.index)) by {
            reveal_with_fuel(resume, 2);
        }
    }
    while stack.len() > 0
        invariant
            graph.wf(),
            adj == adjacency(graph@),
            n == graph@.len(),
            walk_ok(adj, stack@, order@, seen@),
            resume(adj, stack@, order@) == postorder(adj, root.index),
        decreases unseen(seen@), pending(adj, stack@),
    {
        let ghost before = stack@;
        let ghost done = order@;
        let ghost marks = seen@;
        let popped = stack.pop();
        let ghost rest = stack@;
        match popped {
            Some(top) => {
                let v = top.node;
                let k = top.next;
                proof {
                    assert(node_ok(graph@, v as int));
                    assert forall|x: usize| on_stack(before, x) <==> on_stack(rest, x) || x == v by {
                        assert(before =~= rest.push(top));
                        lemma_on_stack_push(rest, top, x);
                    }
                    assert forall|x: usize| on_stack(rest, x) implies v < x by {
                        let i = choose|i: int| 0 <= i < rest.len() && (#[trigger] rest[i]).node == x;
                        assert(before[i].node == x);
                    }
                }
                if k < graph.arity(v) {
                    let child = graph.child(v, k);
                    let again = Frame { node: v, next: k + 1 };
                    stack.push(again);
                    proof {
                        assert(stack@.drop_last() =~= rest);
                        assert forall|x: usize| on_stack(stack@, x) <==> on_stack(before, x) by {
                            lemma_on_stack_push(rest, again, x);
                        }
                    }
                    if !seen[child] {
                        // A new node: walk it before the children of `v` that are left.
                        let ghost middle = stack@;
                        seen[child] = true;
                        let below = Frame { node: child, next: 0 };
                        stack.push(below);
                        proof {
                            assert(stack@.drop_last() =~= middle);
                            assert(visit(adj, child, done) == visit_children(adj, child, 0, done).push(
                                child,
                            ));
                            assert(resume(adj, middle, visit(adj, child, done)) == resume(
                                adj,
                                rest,
                                visit_children(adj, v, (k + 1) as nat, visit(adj, child, done)).push(v),
                            ));
                            assert(resume(adj, before, done) == resume(
                                adj,
                                rest,
                                visit_children(adj, v, k as nat, done).push(v),
                            ));
                            lemma_unseen_mark(marks, child as int);
                            assert forall|x: usize| x < seen@.len() implies (#[trigger] seen@[x as int]
                                <==> done.contains(x) || on_stack(stack@, x)) by {
                                lemma_on_stack_push(middle, below, x);
                            }
                        }
                    } else {
                        // Walked before, along another path: it stands in the order already.
                        proof {
                            assert(visit(adj, child, done) == done);
                            assert(resume(adj, stack@, done) == resume(
                                adj,
                                rest,
                                visit_children(adj, v, (k + 1) as nat, done).push(v),
                            ));
                            assert(resume(adj, before, done) == resume(
                                adj,
                                rest,
                                visit_children(adj, v, k as nat, done).push(v),
                            ));
                        }
                    }
                } else {
                    // Every child of `v` is finished, so `v` is.
                    order.push(v);
                    proof {
                        assert forall|x: usize| x < seen@.len() implies (#[trigger] seen@[x as int]
                            <==> order@.contains(x) || on_stack(rest, x)) by {
                            lemma_contains_push(done, v, x);
                        }
                    }
                }
            },
            None => {},
        }
    }
    order
}

} // verus!
