//! The order in which a backward pass pushes gradient along the edges.

use crate::graph::acyclic;
use crate::order::{
    lemma_postorder_topological, postorder, reaches, stands_before, topological,
};
use vstd::prelude::*;

verus! {

/// One edge of the graph: the `slot`-th operand of the node `parent`.
pub struct Edge {
    pub parent: usize,
    pub slot: int,
}

/// The edges that leave `v`, in the order of its operands.
pub open spec fn edges_of(adj: Seq<Seq<usize>>, v: usize) -> Seq<Edge> {
    Seq::new(adj[v as int].len(), |slot: int| Edge { parent: v, slot })
}

/// The edges of the nodes `order[k..]`, last node first.
pub open spec fn swept(adj: Seq<Seq<usize>>, order: Seq<usize>, k: nat) -> Seq<Edge>
    decreases order.len() - k,
{
    if k >= order.len() {
        Seq::empty()
    } else {
        swept(adj, order, k + 1) + edges_of(adj, order[k as int])
    }
}

/// The edges along which a backward pass from `root` pushes gradient, in the
/// order in which it does so: the topological order walked from its end, and
/// for each node its operands from the first to the last.
pub open spec fn schedule(adj: Seq<Seq<usize>>, root: usize) -> Seq<Edge> {
    swept(adj, postorder(adj, root), 0)
}

/// The node that the edge `e` leads to.
pub open spec fn head(adj: Seq<Seq<usize>>, e: Edge) -> usize {
    adj[e.parent as int][e.slot]
}

/// `e` is an edge of the graph that leaves one of the nodes `order[k..]`.
pub open spec fn leaves_from(adj: Seq<Seq<usize>>, order: Seq<usize>, k: nat, e: Edge) -> bool {
    &&& 0 <= e.slot < adj[e.parent as int].len()
    &&& exists|q: int| k <= q < order.len() && #[trigger] order[q] == e.parent
}

proof fn lemma_edges_of_contains(adj: Seq<Seq<usize>>, v: usize, e: Edge)
    ensures
        edges_of(adj, v).contains(e) <==> e.parent == v && 0 <= e.slot < adj[v as int].len(),
{
    let row = edges_of(adj, v);
    if e.parent == v && 0 <= e.slot < adj[v as int].len() {
        assert(row[e.slot] == e);
    }
}

proof fn lemma_concat_contains(a: Seq<Edge>, b: Seq<Edge>, e: Edge)
    ensures
        (a + b).contains(e) <==> a.contains(e) || b.contains(e),
{
    let ab = a + b;
    if ab.contains(e) {
        let i = choose|i: int| 0 <= i < ab.len() && ab[i] == e;
        if i < a.len() {
            assert(a[i] == e);
        } else {
            assert(b[i - a.len()] == e);
        }
    }
    if a.contains(e) {
        let i = choose|i: int| 0 <= i < a.len() && a[i] == e;
        assert(ab[i] == e);
    }
    if b.contains(e) {
        let i = choose|i: int| 0 <= i < b.len() && b[i] == e;
        assert(ab[a.len() + i] == e);
    }
}

/// The edges swept from `order[k..]` are the edges that leave those nodes.
proof fn lemma_swept_contains(adj: Seq<Seq<usize>>, order: Seq<usize>, k: nat, e: Edge)
    ensures
        swept(adj, order, k).contains(e) <==> leaves_from(adj, order, k, e),
    decreases order.len() - k,
{
    if k < order.len() {
        let rest = swept(adj, order, k + 1);
        let row = edges_of(adj, order[k as int]);
        lemma_swept_contains(adj, order, k + 1, e);
        lemma_edges_of_contains(adj, order[k as int], e);
        lemma_concat_contains(rest, row, e);
        if leaves_from(adj, order, k, e) {
            let q = choose|q: int| k <= q < order.len() && #[trigger] order[q] == e.parent;
            if q > k {
                assert(leaves_from(adj, order, k + 1, e));
            }
        }
        if leaves_from(adj, order, k + 1, e) {
            let q = choose|q: int| k + 1 <= q < order.len() && #[trigger] order[q] == e.parent;
            assert(k <= q < order.len() && order[q] == e.parent);
        }
        if row.contains(e) {
            assert(order[k as int] == e.parent);
        }
    }
}

/// No edge is swept twice from an order that lists no node twice.
proof fn lemma_swept_distinct(adj: Seq<Seq<usize>>, order: Seq<usize>, k: nat)
    requires
        order.no_duplicates(),
    ensures
        swept(adj, order, k).no_duplicates(),
    decreases order.len() - k,
{
    if k < order.len() {
        let rest = swept(adj, order, k + 1);
        let v = order[k as int];
        let row = edges_of(adj, v);
        let all = rest + row;
        lemma_swept_distinct(adj, order, k + 1);
        assert forall|i: int, j: int| 0 <= i < all.len() && 0 <= j < all.len() && i != j implies all[i]
            != all[j] by {
            if i < rest.len() && j < rest.len() {
                assert(all[i] == rest[i]);
                assert(all[j] == rest[j]);
            } else if i >= rest.len() && j >= rest.len() {
                assert(all[i] == row[i - rest.len()]);
                assert(all[j] == row[j - rest.len()]);
            } else {
                let (inner, outer) = if i < rest.len() {
                    (i, j)
                } else {
                    (j, i)
                };
                assert(rest.contains(rest[inner]));
                lemma_swept_contains(adj, order, k + 1, rest[inner]);
                let q = choose|q: int|
                    k + 1 <= q < order.len() && #[trigger] order[q] == rest[inner].parent;
                assert(order[q] != order[k as int]);
                assert(all[inner] == rest[inner]);
                assert(all[outer] == row[outer - rest.len()]);
            }
        }
    }
}

/// Among the edges swept from a topological order, none leads to a node whose
/// own edges were swept at or before it.
proof fn lemma_swept_settles(adj: Seq<Seq<usize>>, order: Seq<usize>, k: nat)
    requires
        acyclic(adj),
        topological(adj, order),
    ensures
        forall|i: int, j: int|
            0 <= i <= j < swept(adj, order, k).len() ==> head(adj, #[trigger] swept(adj, order, k)[j])
                != (#[trigger] swept(adj, order, k)[i]).parent,
    decreases order.len() - k,
{
    if k < order.len() {
        let rest = swept(adj, order, k + 1);
        let v = order[k as int];
        let row = edges_of(adj, v);
        let all = rest + row;
        lemma_swept_settles(adj, order, k + 1);
        assert(all == swept(adj, order, k));
        assert forall|i: int, j: int| 0 <= i <= j < all.len() implies head(adj, #[trigger] all[j]) != (
        #[trigger] all[i]).parent by {
            if j < rest.len() {
                assert(all[i] == rest[i]);
                assert(all[j] == rest[j]);
            } else {
                let e = row[j - rest.len()];
                assert(all[j] == e);
                let c = adj[v as int][e.slot];
                assert(head(adj, e) == c);
                assert(stands_before(order, c, k as int));
                let p = choose|p: int| 0 <= p < k && p < order.len() && order[p] == c;
                if i < rest.len() {
                    assert(rest.contains(rest[i]));
                    lemma_swept_contains(adj, order, k + 1, rest[i]);
                    let q = choose|q: int|
                        k + 1 <= q < order.len() && #[trigger] order[q] == rest[i].parent;
                    assert(order[p] != order[q]);
                } else {
                    assert(all[i] == row[i - rest.len()]);
                    assert(order[p] != order[k as int]);
                }
            }
        }
    }
}

/// The edges swept from `order[k..]` begin with the edges of the last node.
proof fn lemma_swept_begins(adj: Seq<Seq<usize>>, order: Seq<usize>, k: nat)
    requires
        k < order.len(),
    ensures
        edges_of(adj, order.last()).len() <= swept(adj, order, k).len(),
        forall|i: int|
            0 <= i < edges_of(adj, order.last()).len() ==> #[trigger] swept(adj, order, k)[i]
                == edges_of(adj, order.last())[i],
    decreases order.len() - k,
{
    if k + 1 < order.len() {
        lemma_swept_begins(adj, order, k + 1);
    } else {
        assert(swept(adj, order, k + 1) =~= Seq::<Edge>::empty());
    }
}

/// The schedule of a backward pass from `root` begins with the edges of
/// `root` itself, in the order of its operands.
pub proof fn lemma_schedule_begins(adj: Seq<Seq<usize>>, root: usize)
    requires
        acyclic(adj),
        root < adj.len(),
    ensures
        adj[root as int].len() <= schedule(adj, root).len(),
        forall|slot: int|
            0 <= slot < adj[root as int].len() ==> #[trigger] schedule(adj, root)[slot] == (Edge {
                parent: root,
                slot,
            }),
{
    lemma_postorder_topological(adj, root);
    lemma_swept_begins(adj, postorder(adj, root), 0);
    assert forall|slot: int| 0 <= slot < adj[root as int].len() implies #[trigger] schedule(
        adj,
        root,
    )[slot] == (Edge { parent: root, slot }) by {
        assert(edges_of(adj, root)[slot] == Edge { parent: root, slot });
    }
}

/// The schedule of a backward pass from `root` holds every edge that leaves a
/// node `root` depends on, each of them once, and no other edge.
pub proof fn lemma_schedule_covers(adj: Seq<Seq<usize>>, root: usize)
    requires
        acyclic(adj),
        root < adj.len(),
    ensures
        schedule(adj, root).no_duplicates(),
        forall|e: Edge| #[trigger]
            schedule(adj, root).contains(e) <==> reaches(adj, root, e.parent) && 0 <= e.slot
                < adj[e.parent as int].len(),
{
    let order = postorder(adj, root);
    lemma_postorder_topological(adj, root);
    lemma_swept_distinct(adj, order, 0);
    assert forall|e: Edge| #[trigger]
        schedule(adj, root).contains(e) <==> reaches(adj, root, e.parent) && 0 <= e.slot
            < adj[e.parent as int].len() by {
        lemma_swept_contains(adj, order, 0, e);
        if leaves_from(adj, order, 0, e) {
            let q = choose|q: int| 0 <= q < order.len() && #[trigger] order[q] == e.parent;
            assert(order.contains(e.parent));
        }
        if reaches(adj, root, e.parent) {
            assert(order.contains(e.parent));
            let q = choose|q: int| 0 <= q < order.len() && order[q] == e.parent;
            assert(0 <= q < order.len() && order[q] == e.parent);
        }
    }
}

/// In the schedule of a backward pass, every edge into a node comes before
/// every edge out of it: by the time a node's gradient is pushed on to its
/// operands, no edge that leads to that node is left.
pub proof fn lemma_schedule_settles(adj: Seq<Seq<usize>>, root: usize)
    requires
        acyclic(adj),
        root < adj.len(),
    ensures
        forall|i: int, j: int|
            0 <= i <= j < schedule(adj, root).len() ==> head(adj, #[trigger] schedule(adj, root)[j])
                != (#[trigger] schedule(adj, root)[i]).parent,
{
    lemma_postorder_topological(adj, root);
    lemma_swept_settles(adj, postorder(adj, root), 0);
}

} // verus!
