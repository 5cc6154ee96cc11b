//! The topological order of a graph, as mathematics.
//!
//! The order is defined as a depth-first walk; the lemmas say what makes it
//! the right order for a backward pass.

use crate::graph::acyclic;
use vstd::prelude::*;

verus! {

/// The nodes finished once a depth-first walk from `v` has been added to the
/// walk that already finished `done`: nothing new if `v` is among them, else
/// what the children of `v` add, one after another, and then `v` itself.
pub open spec fn visit(adj: Seq<Seq<usize>>, v: usize, done: Seq<usize>) -> Seq<usize>
    decreases v, 1nat, 0nat,
{
    if done.contains(v) {
        done
    } else {
        visit_children(adj, v, 0, done).push(v)
    }
}

/// The nodes finished once the children of `v` from the `k`-th on have been
/// walked, in order, after `done`.
pub open spec fn visit_children(adj: Seq<Seq<usize>>, v: usize, k: nat, done: Seq<usize>) -> Seq<
    usize,
>
    decreases v, 0nat, adj[v as int].len() - k,
{
    if v < adj.len() && k < adj[v as int].len() && adj[v as int][k as int] < v {
        visit_children(adj, v, k + 1, visit(adj, adj[v as int][k as int], done))
    } else {
        done
    }
}

/// The topological order of the graph below `root`: the depth-first
/// post-order, in which each node stands once, after everything it was
/// computed from.
pub open spec fn postorder(adj: Seq<Seq<usize>>, root: usize) -> Seq<usize> {
    visit(adj, root, Seq::empty())
}

/// `to` can be reached from `from` along edges of the graph: it is `from`
/// itself, or can be reached from one of the children of `from`.
pub open spec fn reaches(adj: Seq<Seq<usize>>, from: usize, to: usize) -> bool
    decreases from,
{
    from < adj.len() && (from == to || exists|k: int|
        0 <= k < adj[from as int].len() && #[trigger] adj[from as int][k] < from && reaches(
            adj,
            adj[from as int][k],
            to,
        ))
}

/// `x` stands in `order` at a position before `i`.
pub open spec fn stands_before(order: Seq<usize>, x: usize, i: int) -> bool {
    exists|j: int| 0 <= j < i && j < order.len() && order[j] == x
}

/// Every child of every node in `order` stands in `order` before that node.
pub open spec fn children_first(adj: Seq<Seq<usize>>, order: Seq<usize>) -> bool {
    forall|i: int, k: int|
        0 <= i < order.len() && 0 <= k < adj[order[i] as int].len() ==> stands_before(
            order,
            #[trigger] adj[order[i] as int][k],
            i,
        )
}

/// `order` lists nodes of the graph, none of them twice, each after all of
/// its children.
pub open spec fn topological(adj: Seq<Seq<usize>>, order: Seq<usize>) -> bool {
    &&& forall|i: int| 0 <= i < order.len() ==> #[trigger] order[i] < adj.len()
    &&& order.no_duplicates()
    &&& children_first(adj, order)
}

/// `longer` begins with `shorter`.
pub open spec fn extends(longer: Seq<usize>, shorter: Seq<usize>) -> bool {
    &&& shorter.len() <= longer.len()
    &&& forall|i: int| 0 <= i < shorter.len() ==> longer[i] == shorter[i]
}

proof fn lemma_extends_contains(longer: Seq<usize>, shorter: Seq<usize>, x: usize)
    requires
        extends(longer, shorter),
        shorter.contains(x),
    ensures
        longer.contains(x),
{
    let j = choose|j: int| 0 <= j < shorter.len() && shorter[j] == x;
    assert(longer[j] == x);
}

/// A node reached from `from` was created no later than `from`.
pub proof fn lemma_reaches_below(adj: Seq<Seq<usize>>, from: usize, to: usize)
    requires
        reaches(adj, from, to),
    ensures
        to <= from,
        to < adj.len(),
    decreases from,
{
    if from != to {
        let k = choose|k: int|
            0 <= k < adj[from as int].len() && #[trigger] adj[from as int][k] < from && reaches(
                adj,
                adj[from as int][k],
                to,
            );
        lemma_reaches_below(adj, adj[from as int][k], to);
    }
}

/// A node reached from `via` is reached from every node that reaches `via`.
pub proof fn lemma_reaches_onward(adj: Seq<Seq<usize>>, from: usize, via: usize, to: usize)
    requires
        reaches(adj, from, via),
        reaches(adj, via, to),
    ensures
        reaches(adj, from, to),
    decreases from,
{
    if from != via {
        let k = choose|k: int|
            0 <= k < adj[from as int].len() && #[trigger] adj[from as int][k] < from && reaches(
                adj,
                adj[from as int][k],
                via,
            );
        lemma_reaches_onward(adj, adj[from as int][k], via, to);
    }
}

/// Walking from `v` keeps a topological order topological, only appends to
/// it, ends with `v` in it, and appends nothing but nodes reached from `v`.
proof fn lemma_visit(adj: Seq<Seq<usize>>, v: usize, done: Seq<usize>)
    requires
        acyclic(adj),
        v < adj.len(),
        topological(adj, done),
    ensures
        topological(adj, visit(adj, v, done)),
        extends(visit(adj, v, done), done),
        visit(adj, v, done).contains(v),
        forall|x: usize| #[trigger]
            visit(adj, v, done).contains(x) ==> done.contains(x) || reaches(adj, v, x),
        !done.contains(v) ==> visit(adj, v, done).last() == v,
    decreases v, 1nat, 0nat,
{
    if !done.contains(v) {
        lemma_visit_children(adj, v, 0, done);
        let mid = visit_children(adj, v, 0, done);
        let out = mid.push(v);
        assert(out == visit(adj, v, done));
        assert(!mid.contains(v));
        assert(out.no_duplicates()) by {
            assert forall|i: int, j: int| 0 <= i < out.len() && 0 <= j < out.len() && i != j implies out[i]
                != out[j] by {
                if i < mid.len() && j < mid.len() {
                } else if i < mid.len() {
                    assert(mid[i] != v);
                } else {
                    assert(mid[j] != v);
                }
            }
        }
        assert(children_first(adj, out)) by {
            assert forall|i: int, k: int|
                0 <= i < out.len() && 0 <= k < adj[out[i] as int].len() implies stands_before(
                out,
                #[trigger] adj[out[i] as int][k],
                i,
            ) by {
                if i < mid.len() {
                    assert(out[i] == mid[i]);
                    assert(stands_before(mid, adj[mid[i] as int][k], i));
                    let j = choose|j: int| 0 <= j < i && j < mid.len() && mid[j] == adj[mid[i] as int][k];
                    assert(out[j] == adj[out[i] as int][k]);
                } else {
                    let c = adj[v as int][k];
                    assert(mid.contains(c));
                    let j = choose|j: int| 0 <= j < mid.len() && mid[j] == c;
                    assert(out[j] == c);
                }
            }
        }
        assert(out[mid.len() as int] == v);
        assert forall|x: usize| #[trigger] out.contains(x) implies done.contains(x) || reaches(
            adj,
            v,
            x,
        ) by {
            let j = choose|j: int| 0 <= j < out.len() && out[j] == x;
            if j < mid.len() {
                assert(mid[j] == x);
                assert(mid.contains(x));
            }
        }
    }
}

/// Walking the children of `v` from the `k`-th on keeps a topological order
/// topological, only appends to it, ends with every child of `v` in it, and
/// appends nothing but nodes reached from `v` and created before it.
proof fn lemma_visit_children(adj: Seq<Seq<usize>>, v: usize, k: nat, done: Seq<usize>)
    requires
        acyclic(adj),
        v < adj.len(),
        k <= adj[v as int].len(),
        topological(adj, done),
        forall|i: int| 0 <= i < k ==> done.contains(#[trigger] adj[v as int][i]),
    ensures
        topological(adj, visit_children(adj, v, k, done)),
        extends(visit_children(adj, v, k, done), done),
        forall|i: int|
            0 <= i < adj[v as int].len() ==> visit_children(adj, v, k, done).contains(
                #[trigger] adj[v as int][i],
            ),
        forall|x: usize| #[trigger]
            visit_children(adj, v, k, done).contains(x) ==> done.contains(x) || (x < v && reaches(
                adj,
                v,
                x,
            )),
    decreases v, 0nat, adj[v as int].len() - k,
{
    if k < adj[v as int].len() {
        let c = adj[v as int][k as int];
        assert(c < v);
        lemma_visit(adj, c, done);
        let mid = visit(adj, c, done);
        assert forall|i: int| 0 <= i < k + 1 implies mid.contains(#[trigger] adj[v as int][i]) by {
            if i < k {
                lemma_extends_contains(mid, done, adj[v as int][i]);
            }
        }
        lemma_visit_children(adj, v, k + 1, mid);
        let out = visit_children(adj, v, k + 1, mid);
        assert(out == visit_children(adj, v, k, done));
        assert forall|x: usize| #[trigger] out.contains(x) implies done.contains(x) || (x < v
            && reaches(adj, v, x)) by {
            if !done.contains(x) && mid.contains(x) {
                assert(reaches(adj, c, x));
                lemma_reaches_below(adj, c, x);
            }
        }
    }
}

/// An order that holds a node and, with each node, its children holds every
/// node reached from it.
proof fn lemma_closed_holds_reached(adj: Seq<Seq<usize>>, order: Seq<usize>, from: usize, to: usize)
    requires
        children_first(adj, order),
        order.contains(from),
        reaches(adj, from, to),
    ensures
        order.contains(to),
    decreases from,
{
    if from != to {
        let k = choose|k: int|
            0 <= k < adj[from as int].len() && #[trigger] adj[from as int][k] < from && reaches(
                adj,
                adj[from as int][k],
                to,
            );
        let i = choose|i: int| 0 <= i < order.len() && order[i] == from;
        let c = adj[order[i] as int][k];
        assert(stands_before(order, c, i));
        let j = choose|j: int| 0 <= j < i && j < order.len() && order[j] == c;
        assert(order.contains(adj[from as int][k]));
        lemma_closed_holds_reached(adj, order, adj[from as int][k], to);
    }
}

/// The order of a backward pass is topological: it lists nodes of the graph,
/// each once however many paths lead to it, and each only after all the nodes
/// it was computed from. It ends with `root`, and it holds exactly the nodes
/// that `root` depends on.
pub proof fn lemma_postorder_topological(adj: Seq<Seq<usize>>, root: usize)
    requires
        acyclic(adj),
        root < adj.len(),
    ensures
        topological(adj, postorder(adj, root)),
        postorder(adj, root).len() > 0,
        postorder(adj, root).last() == root,
        forall|x: usize| #[trigger] postorder(adj, root).contains(x) <==> reaches(adj, root, x),
{
    let empty = Seq::<usize>::empty();
    lemma_visit(adj, root, empty);
    let order = postorder(adj, root);
    assert forall|x: usize| #[trigger] order.contains(x) <==> reaches(adj, root, x) by {
        if reaches(adj, root, x) {
            lemma_closed_holds_reached(adj, order, root, x);
        }
    }
}

} // verus!
