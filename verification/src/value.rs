//! Handles to the nodes of a graph, and the operations that create nodes.
//!
//! Every operation appends exactly one node to the graph and returns a handle
//! to it. The new node records its operands and, for each of them, the partial
//! derivative of the result with respect to that operand, taken at the
//! operands' numbers at the time of the call.

use crate::graph::{grows_from, Graph, NodeView};
use crate::scalar::{
    is_descent, is_difference, is_exponential, is_negation, is_one, is_power, is_product,
    is_quotient, is_sign_of, is_sum, is_zero, Scalar,
};
use vstd::prelude::*;

verus! {

/// A handle to one node of a [`Graph`]: the position at which the node was
/// created. Copies of a handle name the same node.
#[derive(Clone, Copy, Debug, PartialEq, Eq, Structural)]
pub struct Value {
    /// The position of the node in its graph.
    pub index: usize,
}

/// `after` is `before` with one more node at its end, which `out` names.
pub open spec fn adds_node<T>(before: Seq<NodeView<T>>, after: Seq<NodeView<T>>, out: Value) -> bool {
    &&& out.index == before.len()
    &&& after.len() == before.len() + 1
    &&& grows_from(after, before)
}

/// `node` is a leaf that holds `value`: no operands, and a zero gradient.
pub open spec fn is_leaf_of<T: Scalar>(value: T, node: NodeView<T>) -> bool {
    &&& node.value == value
    &&& is_zero(node.grad)
    &&& node.children == Seq::<usize>::empty()
    &&& node.local_grads == Seq::<T>::empty()
}

/// `node` is the sum of `a` and `b`: the local gradient is one along both edges.
pub open spec fn is_sum_of<T: Scalar>(nodes: Seq<NodeView<T>>, a: Value, b: Value, node: NodeView<T>) -> bool {
    &&& is_sum(nodes[a.index as int].value, nodes[b.index as int].value, node.value)
    &&& is_zero(node.grad)
    &&& node.children == seq![a.index, b.index]
    &&& node.local_grads.len() == 2
    &&& is_one(node.local_grads[0])
    &&& is_one(node.local_grads[1])
}

/// `node` is `a` minus `b`: the local gradient is one along the first edge and
/// minus one along the second.
pub open spec fn is_difference_of<T: Scalar>(
    nodes: Seq<NodeView<T>>,
    a: Value,
    b: Value,
    node: NodeView<T>,
) -> bool {
    &&& is_difference(nodes[a.index as int].value, nodes[b.index as int].value, node.value)
    &&& is_zero(node.grad)
    &&& node.children == seq![a.index, b.index]
    &&& node.local_grads.len() == 2
    &&& is_one(node.local_grads[0])
    &&& exists|one: T| is_one(one) && is_negation(one, node.local_grads[1])
}

/// `node` is the product of `a` and `b`: the local gradient along each edge is
/// the number of the other operand.
pub open spec fn is_product_of<T: Scalar>(
    nodes: Seq<NodeView<T>>,
    a: Value,
    b: Value,
    node: NodeView<T>,
) -> bool {
    &&& is_product(nodes[a.index as int].value, nodes[b.index as int].value, node.value)
    &&& is_zero(node.grad)
    &&& node.children == seq![a.index, b.index]
    &&& node.local_grads == seq![nodes[b.index as int].value, nodes[a.index as int].value]
}

/// `node` is `a` over `b`: the local gradient is `1 / b` along the first edge
/// and `-a / (b * b)` along the second.
pub open spec fn is_quotient_of<T: Scalar>(
    nodes: Seq<NodeView<T>>,
    a: Value,
    b: Value,
    node: NodeView<T>,
) -> bool {
    let x = nodes[a.index as int].value;
    let y = nodes[b.index as int].value;
    &&& is_quotient(x, y, node.value)
    &&& is_zero(node.grad)
    &&& node.children == seq![a.index, b.index]
    &&& node.local_grads.len() == 2
    &&& exists|one: T| is_one(one) && is_quotient(one, y, node.local_grads[0])
    &&& exists|minus_x: T, square: T|
        is_negation(x, minus_x) && is_product(y, y, square) && is_quotient(
            minus_x,
            square,
            node.local_grads[1],
        )
}

/// `r` is a result of `p * x^(p - 1)`, the derivative of `x^p` by `x`.
pub open spec fn is_power_slope<T: Scalar>(x: T, p: T, r: T) -> bool {
    exists|one: T, less: T, lower: T|
        is_one(one) && is_difference(p, one, less) && is_power(x, less, lower) && is_product(
            p,
            lower,
            r,
        )
}

/// `node` is `a` raised to the constant `p`: the local gradient is
/// `p * a^(p - 1)`.
pub open spec fn is_power_of<T: Scalar>(nodes: Seq<NodeView<T>>, a: Value, p: T, node: NodeView<T>) -> bool {
    let x = nodes[a.index as int].value;
    &&& is_power(x, p, node.value)
    &&& is_zero(node.grad)
    &&& node.children == seq![a.index]
    &&& node.local_grads.len() == 1
    &&& is_power_slope(x, p, node.local_grads[0])
}

/// `node` is `e` raised to `a`: the local gradient is the result itself.
pub open spec fn is_exponential_of<T: Scalar>(nodes: Seq<NodeView<T>>, a: Value, node: NodeView<T>) -> bool {
    &&& is_exponential(nodes[a.index as int].value, node.value)
    &&& is_zero(node.grad)
    &&& node.children == seq![a.index]
    &&& node.local_grads == seq![node.value]
}

/// `r` is the derivative of the rectifier at `x`: one where `x` is positive,
/// zero elsewhere.
pub open spec fn is_rectifier_slope<T: Scalar>(x: T, r: T) -> bool {
    exists|positive: bool|
        is_sign_of(x, positive) && if positive {
            is_one(r)
        } else {
            is_zero(r)
        }
}

/// `node` is `a` rectified: where `a` is positive, the number of `a` with
/// local gradient one; elsewhere, and so at zero, zero with local gradient zero.
pub open spec fn is_rectified_of<T: Scalar>(nodes: Seq<NodeView<T>>, a: Value, node: NodeView<T>) -> bool {
    let x = nodes[a.index as int].value;
    &&& is_zero(node.grad)
    &&& node.children == seq![a.index]
    &&& node.local_grads.len() == 1
    &&& exists|positive: bool|
        is_sign_of(x, positive) && if positive {
            node.value == x && is_one(node.local_grads[0])
        } else {
            is_zero(node.value) && is_zero(node.local_grads[0])
        }
}

/// `after` is `before` after a step of gradient descent on the node `v` with
/// rate `rate`: the number of `v` is a result of `value - rate * grad`, its
/// gradient is zero again, and nothing else has changed.
pub open spec fn is_step<T: Scalar>(
    before: Seq<NodeView<T>>,
    v: Value,
    rate: T,
    after: Seq<NodeView<T>>,
) -> bool {
    let old_node = before[v.index as int];
    let new_node = after[v.index as int];
    &&& after == before.update(v.index as int, new_node)
    &&& is_descent(old_node.value, rate, old_node.grad, new_node.value)
    &&& is_zero(new_node.grad)
    &&& new_node.children == old_node.children
    &&& new_node.local_grads == old_node.local_grads
}

impl Value {
    /// This handle names a node of `graph`.
    pub open spec fn within<T>(&self, graph: &Graph<T>) -> bool {
        self.index < graph@.len()
    }

    /// A new leaf that holds `value`.
    pub fn new<T: Scalar>(graph: &mut Graph<T>, value: T) -> (out: Value)
        requires
            old(graph).wf(),
        ensures
            adds_node(old(graph)@, final(graph)@, out),
            is_leaf_of(value, final(graph)@.last()),
            final(graph).wf(),
    {
        let index = graph.push(value, T::zero(), Vec::new(), Vec::new());
        Value { index }
    }

    /// The number this node holds.
    pub fn value<T: Scalar>(&self, graph: &Graph<T>) -> (value: T)
        requires
            self.within(graph),
        ensures
            value == graph@[self.index as int].value,
    {
        graph.value_at(self.index)
    }

    /// The gradient this node has gathered.
    pub fn grad<T: Scalar>(&self, graph: &Graph<T>) -> (grad: T)
        requires
            self.within(graph),
        ensures
            grad == graph@[self.index as int].grad,
    {
        graph.grad_at(self.index)
    }

    /// Appends a node computed from this one alone.
    fn unary<T: Scalar>(&self, graph: &mut Graph<T>, value: T, local: T) -> (out: Value)
        requires
            old(graph).wf(),
            self.within(old(graph)),
        ensures
            adds_node(old(graph)@, final(graph)@, out),
            final(graph)@.last().value == value,
            is_zero(final(graph)@.last().grad),
            final(graph)@.last().children == seq![self.index],
            final(graph)@.last().local_grads == seq![local],
            final(graph).wf(),
    {
        let mut children: Vec<usize> = Vec::new();
        children.push(self.index);
        let mut local_grads: Vec<T> = Vec::new();
        local_grads.push(local);
        let index = graph.push(value, T::zero(), children, local_grads);
        Value { index }
    }

    /// Appends a node computed from this one and `other`.
    fn binary<T: Scalar>(
        &self,
        graph: &mut Graph<T>,
        other: &Value,
        value: T,
        local_self: T,
        local_other: T,
    ) -> (out: Value)
        requires
            old(graph).wf(),
            self.within(old(graph)),
            other.within(old(graph)),
        ensures
            adds_node(old(graph)@, final(graph)@, out),
            final(graph)@.last().value == value,
            is_zero(final(graph)@.last().grad),
            final(graph)@.last().children == seq![self.index, other.index],
            final(graph)@.last().local_grads == seq![local_self, local_other],
            final(graph).wf(),
    {
        let mut children: Vec<usize> = Vec::new();
        children.push(self.index);
        children.push(other.index);
        let mut local_grads: Vec<T> = Vec::new();
        local_grads.push(local_self);
        local_grads.push(local_other);
        let index = graph.push(value, T::zero(), children, local_grads);
        Value { index }
    }

    /// `self + other`.
    pub fn add<T: Scalar>(&self, graph: &mut Graph<T>, other: &Value) -> (out: Value)
        requires
            old(graph).wf(),
            self.within(old(graph)),
            other.within(old(graph)),
        ensures
            adds_node(old(graph)@, final(graph)@, out),
            is_sum_of(old(graph)@, *self, *other, final(graph)@.last()),
            final(graph).wf(),
    {
        let value = graph.value_at(self.index).plus(graph.value_at(other.index));
        self.binary(graph, other, value, T::one(), T::one())
    }

    /// `self - other`.
    pub fn sub<T: Scalar>(&self, graph: &mut Graph<T>, other: &Value) -> (out: Value)
        requires
            old(graph).wf(),
            self.within(old(graph)),
            other.within(old(graph)),
        ensures
            adds_node(old(graph)@, final(graph)@, out),
            is_difference_of(old(graph)@, *self, *other, final(graph)@.last()),
            final(graph).wf(),
    {
        let value = graph.value_at(self.index).minus(graph.value_at(other.index));
        let one = T::one();
        let minus_one = one.negated();
        let out = self.binary(graph, other, value, one, minus_one);
        out
    }

    /// `self * other`.
    pub fn mul<T: Scalar>(&self, graph: &mut Graph<T>, other: &Value) -> (out: Value)
        requires
            old(graph).wf(),
            self.within(old(graph)),
            other.within(old(graph)),
        ensures
            adds_node(old(graph)@, final(graph)@, out),
            is_product_of(old(graph)@, *self, *other, final(graph)@.last()),
            final(graph).wf(),
    {
        let x = graph.value_at(self.index);
        let y = graph.value_at(other.index);
        self.binary(graph, other, x.times(y), y, x)
    }

    /// `self / other`. A zero divisor is no error: the result and its local
    /// gradients are whatever the number type gives for the divisions.
    pub fn div<T: Scalar>(&self, graph: &mut Graph<T>, other: &Value) -> (out: Value)
        requires
            old(graph).wf(),
            self.within(old(graph)),
            other.within(old(graph)),
        ensures
            adds_node(old(graph)@, final(graph)@, out),
            is_quotient_of(old(graph)@, *self, *other, final(graph)@.last()),
            final(graph).wf(),
    {
        let x = graph.value_at(self.index);
        let y = graph.value_at(other.index);
        let value = x.over(y);
        let one = T::one();
        let local_self = one.over(y);
        let minus_x = x.negated();
        let square = y.times(y);
        let local_other = minus_x.over(square);
        let out = self.binary(graph, other, value, local_self, local_other);
        proof {
            let node = graph@.last();
            assert(is_one(one) && is_quotient(one, y, node.local_grads[0]));
            assert(is_negation(x, minus_x) && is_product(y, y, square) && is_quotient(
                minus_x,
                square,
                node.local_grads[1],
            ));
        }
        out
    }

    /// `self` raised to the constant `exponent`, which is no node of the
    /// graph. A base and exponent outside the domain of the power are no
    /// error: the result is whatever the number type gives.
    pub fn pow<T: Scalar>(&self, graph: &mut Graph<T>, exponent: T) -> (out: Value)
        requires
            old(graph).wf(),
            self.within(old(graph)),
        ensures
            adds_node(old(graph)@, final(graph)@, out),
            is_power_of(old(graph)@, *self, exponent, final(graph)@.last()),
            final(graph).wf(),
    {
        let x = graph.value_at(self.index);
        let value = x.powf(exponent);
        let one = T::one();
        let less = exponent.minus(one);
        let lower = x.powf(less);
        let local = exponent.times(lower);
        let out = self.unary(graph, value, local);
        proof {
            assert(is_one(one) && is_difference(exponent, one, less) && is_power(x, less, lower)
                && is_product(exponent, lower, local));
        }
        out
    }

    /// `self` rectified: `self` where it is positive, zero elsewhere.
    pub fn relu<T: Scalar>(&self, graph: &mut Graph<T>) -> (out: Value)
        requires
            old(graph).wf(),
            self.within(old(graph)),
        ensures
            adds_node(old(graph)@, final(graph)@, out),
            is_rectified_of(old(graph)@, *self, final(graph)@.last()),
            final(graph).wf(),
    {
        let x = graph.value_at(self.index);
        let positive = x.is_positive();
        let out = if positive {
            self.unary(graph, x, T::one())
        } else {
            self.unary(graph, T::zero(), T::zero())
        };
        proof {
            let node = graph@.last();
            assert(is_sign_of(x, positive) && if positive {
                node.value == x && is_one(node.local_grads[0])
            } else {
                is_zero(node.value) && is_zero(node.local_grads[0])
            });
        }
        out
    }

    /// `e` raised to `self`.
    pub fn exp<T: Scalar>(&self, graph: &mut Graph<T>) -> (out: Value)
        requires
            old(graph).wf(),
            self.within(old(graph)),
        ensures
            adds_node(old(graph)@, final(graph)@, out),
            is_exponential_of(old(graph)@, *self, final(graph)@.last()),
            final(graph).wf(),
    {
        let value = graph.value_at(self.index).exp();
        self.unary(graph, value, value)
    }

    /// One step of gradient descent on this node: takes `learning_rate` times
    /// the gradient off the number, and sets the gradient back to zero.
    pub fn step<T: Scalar>(&self, graph: &mut Graph<T>, learning_rate: T)
        requires
            old(graph).wf(),
            self.within(old(graph)),
        ensures
            is_step(old(graph)@, *self, learning_rate, final(graph)@),
            final(graph).wf(),
    {
        let value = graph.value_at(self.index);
        let grad = graph.grad_at(self.index);
        let delta = learning_rate.times(grad);
        let moved = value.minus(delta);
        graph.set_value_and_grad(self.index, moved, T::zero());
        proof {
            assert(is_product(learning_rate, grad, delta) && is_difference(value, delta, moved));
            assert forall|v: int| 0 <= v < graph@.len() implies #[trigger] crate::graph::node_ok(
                graph@,
                v,
            ) by {
                assert(crate::graph::node_ok(old(graph)@, v));
            }
        }
    }
}

} // verus!
