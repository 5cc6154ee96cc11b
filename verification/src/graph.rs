//! The arena that owns every node of a computation graph.
//!
//! Nodes are addressed by the position at which they were created. A node can
//! only name nodes that existed before it, so the graph is acyclic by
//! construction and a node reached along several paths is still one node.

use vstd::prelude::*;

verus! {

/// What a node is, as mathematics: its number, the gradient gathered so far,
/// the nodes it was computed from, and the partial derivative of its number
/// with respect to each of them, edge by edge.
pub struct NodeView<T> {
    pub value: T,
    pub grad: T,
    pub children: Seq<usize>,
    pub local_grads: Seq<T>,
}

/// A node as the arena stores it.
struct Node<T> {
    value: T,
    grad: T,
    children: Vec<usize>,
    local_grads: Vec<T>,
}

impl<T> View for Node<T> {
    type V = NodeView<T>;

    closed spec fn view(&self) -> NodeView<T> {
        NodeView {
            value: self.value,
            grad: self.grad,
            children: self.children@,
            local_grads: self.local_grads@,
        }
    }
}

/// A computation graph: its nodes in the order they were created.
pub struct Graph<T> {
    nodes: Vec<Node<T>>,
}

impl<T> View for Graph<T> {
    type V = Seq<NodeView<T>>;

    closed spec fn view(&self) -> Seq<NodeView<T>> {
        Seq::new(self.nodes@.len(), |i: int| self.nodes@[i]@)
    }
}

/// The children of every node: the shape of the graph without its numbers.
pub open spec fn adjacency<T>(nodes: Seq<NodeView<T>>) -> Seq<Seq<usize>> {
    Seq::new(nodes.len(), |i: int| nodes[i].children)
}

/// The gradient of every node.
pub open spec fn grads<T>(nodes: Seq<NodeView<T>>) -> Seq<T> {
    Seq::new(nodes.len(), |i: int| nodes[i].grad)
}

/// The same nodes with their gradients replaced by `grads`.
pub open spec fn with_grads<T>(nodes: Seq<NodeView<T>>, grads: Seq<T>) -> Seq<NodeView<T>> {
    Seq::new(
        nodes.len(),
        |i: int|
            NodeView {
                value: nodes[i].value,
                grad: grads[i],
                children: nodes[i].children,
                local_grads: nodes[i].local_grads,
            },
    )
}

/// `longer` begins with the nodes of `shorter`, each as it is there.
pub open spec fn grows_from<T>(longer: Seq<NodeView<T>>, shorter: Seq<NodeView<T>>) -> bool {
    &&& shorter.len() <= longer.len()
    &&& forall|i: int| 0 <= i < shorter.len() ==> #[trigger] longer[i] == shorter[i]
}

/// Every edge leads to a node created earlier.
pub open spec fn acyclic(adj: Seq<Seq<usize>>) -> bool {
    forall|v: int, k: int| 0 <= v < adj.len() && 0 <= k < adj[v].len() ==> #[trigger] adj[v][k] < v
}

/// Node `v` has one local gradient for each of its edges, and each edge leads
/// to a node created before `v`.
pub open spec fn node_ok<T>(nodes: Seq<NodeView<T>>, v: int) -> bool {
    &&& nodes[v].local_grads.len() == nodes[v].children.len()
    &&& forall|k: int| 0 <= k < nodes[v].children.len() ==> #[trigger] nodes[v].children[k] < v
}

/// Every node is as [`node_ok`] asks.
pub open spec fn well_formed<T>(nodes: Seq<NodeView<T>>) -> bool {
    forall|v: int| 0 <= v < nodes.len() ==> #[trigger] node_ok(nodes, v)
}

/// A well-formed graph is acyclic.
pub proof fn lemma_well_formed_acyclic<T>(nodes: Seq<NodeView<T>>)
    requires
        well_formed(nodes),
    ensures
        acyclic(adjacency(nodes)),
{
    let adj = adjacency(nodes);
    assert forall|v: int, k: int| 0 <= v < adj.len() && 0 <= k < adj[v].len() implies #[trigger] adj[v][k]
        < v by {
        assert(node_ok(nodes, v));
    }
}

impl<T: Copy> Graph<T> {
    /// The invariant of the arena; every operation of this crate keeps it.
    pub open spec fn wf(&self) -> bool {
        well_formed(self@)
    }

    /// An empty graph.
    pub fn new() -> (graph: Self)
        ensures
            graph@ == Seq::<NodeView<T>>::empty(),
            graph.wf(),
    {
        let graph = Graph { nodes: Vec::new() };
        graph
    }

    /// The number of nodes created so far.
    pub fn len(&self) -> (n: usize)
        ensures
            n == self@.len(),
    {
        self.nodes.len()
    }

    /// Forgets every node created at position `len` or later, and keeps the
    /// rest as they are. This releases the nodes of a finished pass while the
    /// parameters created before them live on.
    pub fn truncate(&mut self, len: usize)
        requires
            old(self).wf(),
        ensures
            final(self)@ == if len <= old(self)@.len() {
                old(self)@.take(len as int)
            } else {
                old(self)@
            },
            final(self).wf(),
    {
        self.nodes.truncate(len);
        assert(self@ =~= if len <= old(self)@.len() {
            old(self)@.take(len as int)
        } else {
            old(self)@
        });
        assert forall|v: int| 0 <= v < self@.len() implies #[trigger] node_ok(self@, v) by {
            assert(node_ok(old(self)@, v));
        }
    }

    /// Appends a node and returns its position.
    pub(crate) fn push(
        &mut self,
        value: T,
        grad: T,
        children: Vec<usize>,
        local_grads: Vec<T>,
    ) -> (index: usize)
        requires
            old(self).wf(),
            children@.len() == local_grads@.len(),
            forall|k: int| 0 <= k < children@.len() ==> children@[k] < old(self)@.len(),
        ensures
            index == old(self)@.len(),
            final(self)@ == old(self)@.push(
                NodeView { value, grad, children: children@, local_grads: local_grads@ },
            ),
            final(self).wf(),
    {
        let index = self.nodes.len();
        self.nodes.push(Node { value, grad, children, local_grads });
        assert(self@ =~= old(self)@.push(
            NodeView { value, grad, children: children@, local_grads: local_grads@ },
        ));
        assert forall|v: int| 0 <= v < self@.len() implies #[trigger] node_ok(self@, v) by {
            if v < index {
                assert(node_ok(old(self)@, v));
            }
        }
        index
    }

    /// The number of node `v`.
    pub(crate) fn value_at(&self, v: usize) -> (value: T)
        requires
            v < self@.len(),
        ensures
            value == self@[v as int].value,
    {
        self.nodes[v].value
    }

    /// The gradient of node `v`.
    pub(crate) fn grad_at(&self, v: usize) -> (grad: T)
        requires
            v < self@.len(),
        ensures
            grad == self@[v as int].grad,
    {
        self.nodes[v].grad
    }

    /// The number of operands of node `v`.
    pub(crate) fn arity(&self, v: usize) -> (n: usize)
        requires
            v < self@.len(),
        ensures
            n == self@[v as int].children.len(),
    {
        self.nodes[v].children.len()
    }

    /// The `k`-th operand of node `v`.
    pub(crate) fn child(&self, v: usize, k: usize) -> (child: usize)
        requires
            v < self@.len(),
            k < self@[v as int].children.len(),
        ensures
            child == self@[v as int].children[k as int],
    {
        self.nodes[v].children[k]
    }

    /// The local gradient along the `k`-th edge of node `v`.
    pub(crate) fn local_grad(&self, v: usize, k: usize) -> (local: T)
        requires
            v < self@.len(),
            k < self@[v as int].local_grads.len(),
        ensures
            local == self@[v as int].local_grads[k as int],
    {
        self.nodes[v].local_grads[k]
    }

    /// Replaces the gradient of node `v`.
    pub(crate) fn set_grad(&mut self, v: usize, grad: T)
        requires
            v < old(self)@.len(),
        ensures
            final(self)@ == with_grads(old(self)@, grads(old(self)@).update(v as int, grad)),
    {
        self.nodes[v].grad = grad;
    }

    /// Replaces the number and the gradient of node `v`.
    pub(crate) fn set_value_and_grad(&mut self, v: usize, value: T, grad: T)
        requires
            v < old(self)@.len(),
        ensures
            final(self)@ == old(self)@.update(
                v as int,
                NodeView {
                    value,
                    grad,
                    children: old(self)@[v as int].children,
                    local_grads: old(self)@[v as int].local_grads,
                },
            ),
    {
        self.nodes[v].value = value;
        self.nodes[v].grad = grad;
        assert(self@ =~= old(self)@.update(
            v as int,
            NodeView {
                value,
                grad,
                children: old(self)@[v as int].children,
                local_grads: old(self)@[v as int].local_grads,
            },
        ));
    }
}

} // verus!
