//! A fully-connected layer built from the operations of the engine.
//!
//! The layer has no gradient logic of its own: its output is made of ordinary
//! product and sum nodes, so a backward pass through it is the engine's.

use crate::graph::{grows_from, Graph, NodeView};
use crate::scalar::{is_one, is_zero, Scalar};
use crate::value::{is_leaf_of, is_product_of, is_sum_of, Value};
use vstd::prelude::*;

verus! {

/// What a layer is, as mathematics: its two dimensions and its weights, row
/// by row, a row for each output and in it a weight for each input.
pub struct LayerView {
    pub input_dim: nat,
    pub output_dim: nat,
    pub weights: Seq<Value>,
}

/// A linear layer: `output_dim` rows of `input_dim` trainable weights each.
pub struct LinearLayer {
    input_dim: usize,
    output_dim: usize,
    weights: Vec<Value>,
}

impl View for LinearLayer {
    type V = LayerView;

    closed spec fn view(&self) -> LayerView {
        LayerView {
            input_dim: self.input_dim as nat,
            output_dim: self.output_dim as nat,
            weights: self.weights@,
        }
    }
}

/// The layer has a weight for each pair of an output and an input, and each
/// weight is a node of `nodes`.
pub open spec fn layer_within<T>(layer: LayerView, nodes: Seq<NodeView<T>>) -> bool {
    &&& layer.weights.len() == layer.input_dim * layer.output_dim
    &&& forall|i: int| 0 <= i < layer.weights.len() ==> (#[trigger] layer.weights[i]).index < nodes.len()
}

/// The position of the first node that a forward pass creates for the output
/// `row`, when the pass begins at position `start`: each row takes a leaf for
/// the empty sum, and a product and a sum for each input.
pub open spec fn row_start(start: int, input_dim: int, row: int) -> int {
    start + row * (2 * input_dim + 1)
}

/// The nodes for the input `col` of the output `row`, in a row that begins at
/// `base`: the product of the input and its weight, and after it the sum of the
/// row so far and that product.
pub open spec fn is_forward_term<T: Scalar>(
    nodes: Seq<NodeView<T>>,
    layer: LayerView,
    input: Seq<Value>,
    base: int,
    row: int,
    col: int,
) -> bool {
    let so_far = Value { index: (base + 2 * col) as usize };
    let product = Value { index: (base + 1 + 2 * col) as usize };
    &&& is_product_of(
        nodes,
        input[col],
        layer.weights[layer.input_dim * row + col],
        nodes[base + 1 + 2 * col],
    )
    &&& is_sum_of(nodes, so_far, product, nodes[base + 2 + 2 * col])
}

/// The nodes of the output `row`, beginning at `base`: a leaf that holds
/// zero, then the nodes of each input in turn. The last of them is the output.
pub open spec fn is_forward_row<T: Scalar>(
    nodes: Seq<NodeView<T>>,
    layer: LayerView,
    input: Seq<Value>,
    base: int,
    row: int,
) -> bool {
    &&& is_zero(nodes[base].value)
    &&& is_leaf_of(nodes[base].value, nodes[base])
    &&& forall|col: int|
        0 <= col < layer.input_dim ==> #[trigger] is_forward_term(nodes, layer, input, base, row, col)
}

proof fn lemma_term_stable<T: Scalar>(
    shorter: Seq<NodeView<T>>,
    longer: Seq<NodeView<T>>,
    layer: LayerView,
    input: Seq<Value>,
    base: int,
    row: int,
    col: int,
)
    requires
        grows_from(longer, shorter),
        0 <= base,
        0 <= col < input.len(),
        0 <= layer.input_dim * row + col < layer.weights.len(),
        base + 2 + 2 * col < shorter.len(),
        input[col].index < shorter.len(),
        layer.weights[layer.input_dim * row + col].index < shorter.len(),
        is_forward_term(shorter, layer, input, base, row, col),
    ensures
        is_forward_term(longer, layer, input, base, row, col),
{
}

proof fn lemma_row_stable<T: Scalar>(
    shorter: Seq<NodeView<T>>,
    longer: Seq<NodeView<T>>,
    layer: LayerView,
    input: Seq<Value>,
    base: int,
    row: int,
)
    requires
        grows_from(longer, shorter),
        layer_within(layer, shorter),
        input.len() == layer.input_dim,
        forall|i: int| 0 <= i < input.len() ==> (#[trigger] input[i]).index < shorter.len(),
        0 <= base,
        0 <= row < layer.output_dim,
        base + 2 * layer.input_dim < shorter.len(),
        is_forward_row(shorter, layer, input, base, row),
    ensures
        is_forward_row(longer, layer, input, base, row),
{
    assert forall|col: int| 0 <= col < layer.input_dim implies #[trigger] is_forward_term(
        longer,
        layer,
        input,
        base,
        row,
        col,
    ) by {
        lemma_weight_index(layer.input_dim as int, layer.output_dim as int, row, col);
        lemma_term_stable(shorter, longer, layer, input, base, row, col);
    }
}

/// The weight of input `col` in row `row` has a position among the weights.
proof fn lemma_weight_index(input_dim: int, output_dim: int, row: int, col: int)
    requires
        0 <= row < output_dim,
        0 <= col < input_dim,
    ensures
        0 <= input_dim * row,
        input_dim * row + input_dim <= input_dim * output_dim,
        0 <= input_dim * row + col < input_dim * output_dim,
{
    assert(0 <= input_dim * row) by (nonlinear_arith)
        requires
            0 <= row,
            0 <= input_dim,
    ;
    assert(input_dim * row + input_dim <= input_dim * output_dim) by (nonlinear_arith)
        requires
            row + 1 <= output_dim,
            0 <= input_dim,
    ;
}

impl LinearLayer {
    /// A layer whose weights are new leaves of `graph`, each holding one.
    pub fn new<T: Scalar>(graph: &mut Graph<T>, input_dim: usize, output_dim: usize) -> (layer: Self)
        requires
            old(graph).wf(),
        ensures
            layer@.input_dim == input_dim,
            layer@.output_dim == output_dim,
            layer@.weights.len() == input_dim * output_dim,
            final(graph)@.len() == old(graph)@.len() + input_dim * output_dim,
            grows_from(final(graph)@, old(graph)@),
            forall|i: int|
                0 <= i < input_dim * output_dim ==> (#[trigger] layer@.weights[i]).index == old(
                    graph,
                )@.len() + i,
            forall|i: int|
                old(graph)@.len() <= i < final(graph)@.len() ==> is_one(
                    (#[trigger] final(graph)@[i]).value,
                ) && is_leaf_of(final(graph)@[i].value, final(graph)@[i]),
            layer_within(layer@, final(graph)@),
            final(graph).wf(),
    {
        let ghost start = graph@;
        let mut weights: Vec<Value> = Vec::new();
        let mut row: usize = 0;
        while row < input_dim
            invariant
                graph.wf(),
                row <= input_dim,
                weights@.len() == row * output_dim,
                graph@.len() == start.len() + weights@.len(),
                grows_from(graph@, start),
                forall|i: int| 0 <= i < weights@.len() ==> (#[trigger] weights@[i]).index == start.len() + i,
                forall|i: int|
                    start.len() <= i < graph@.len() ==> is_one((#[trigger] graph@[i]).value) && is_leaf_of(
                        graph@[i].value,
                        graph@[i],
                    ),
            decreases input_dim - row,
        {
            let mut col: usize = 0;
            while col < output_dim
                invariant
                    graph.wf(),
                    row < input_dim,
                    col <= output_dim,
                    weights@.len() == row * output_dim + col,
                    graph@.len() == start.len() + weights@.len(),
                    grows_from(graph@, start),
                    forall|i: int|
                        0 <= i < weights@.len() ==> (#[trigger] weights@[i]).index == start.len() + i,
                    forall|i: int|
                        start.len() <= i < graph@.len() ==> is_one((#[trigger] graph@[i]).value)
                            && is_leaf_of(graph@[i].value, graph@[i]),
                decreases output_dim - col,
            {
                let ghost before = graph@;
                let one = T::one();
                let weight = Value::new(graph, one);
                weights.push(weight);
                proof {
                    assert forall|i: int| start.len() <= i < graph@.len() implies is_one(
                        (#[trigger] graph@[i]).value,
                    ) && is_leaf_of(graph@[i].value, graph@[i]) by {
                        if i < before.len() {
                            assert(graph@[i] == before[i]);
                        }
                    }
                }
                col += 1;
            }
            proof {
                assert((row + 1) * output_dim == row * output_dim + output_dim) by (nonlinear_arith);
            }
            row += 1;
        }
        LinearLayer { input_dim, output_dim, weights }
    }

    /// One output of the layer: the sum over the inputs of each input times
    /// its weight in `row`, built up from zero in the order of the inputs.
    fn forward_row<T: Scalar>(&self, graph: &mut Graph<T>, input: &Vec<Value>, row: usize) -> (sum: Value)
        requires
            old(graph).wf(),
            layer_within(self@, old(graph)@),
            input@.len() == self@.input_dim,
            forall|i: int| 0 <= i < input@.len() ==> (#[trigger] input@[i]).index < old(graph)@.len(),
            row < self@.output_dim,
        ensures
            final(graph)@.len() == old(graph)@.len() + 2 * self@.input_dim + 1,
            grows_from(final(graph)@, old(graph)@),
            sum.index == old(graph)@.len() + 2 * self@.input_dim,
            is_forward_row(final(graph)@, self@, input@, old(graph)@.len() as int, row as int),
            final(graph).wf(),
    {
        let ghost start = graph@;
        let ghost base = start.len() as int;
        let ghost layer = self@;
        let zero = T::zero();
        let mut sum = Value::new(graph, zero);
        let mut col: usize = 0;
        while col < self.input_dim
            invariant
                graph.wf(),
                layer == self@,
                base == start.len(),
                layer_within(layer, start),
                input@.len() == layer.input_dim,
                forall|i: int| 0 <= i < input@.len() ==> (#[trigger] input@[i]).index < start.len(),
                row < layer.output_dim,
                col <= self.input_dim,
                graph@.len() == base + 1 + 2 * col,
                grows_from(graph@, start),
                sum.index == base + 2 * col,
                is_zero(graph@[base].value),
                is_leaf_of(graph@[base].value, graph@[base]),
                forall|c: int|
                    0 <= c < col ==> #[trigger] is_forward_term(graph@, layer, input@, base, row as int, c),
            decreases self.input_dim - col,
        {
            proof {
                lemma_weight_index(self.input_dim as int, self.output_dim as int, row as int, col as int);
                assert(self.weights@.len() == self.weights.len());
            }
            let idx = self.input_dim * row + col;
            let ghost before = graph@;
            let term = input[col].mul(graph, &self.weights[idx]);
            let total = sum.add(graph, &term);
            proof {
                assert(grows_from(graph@, before));
                assert forall|c: int| 0 <= c < col + 1 implies #[trigger] is_forward_term(
                    graph@,
                    layer,
                    input@,
                    base,
                    row as int,
                    c,
                ) by {
                    if c < col {
                        lemma_weight_index(layer.input_dim as int, layer.output_dim as int, row as int, c);
                        lemma_term_stable(before, graph@, layer, input@, base, row as int, c);
                    }
                }
            }
            sum = total;
            col += 1;
        }
        sum
    }

    /// The outputs of the layer for `input`: for each row, the sum over the
    /// inputs of each input times its weight in that row.
    ///
    /// Every output is built from product and sum nodes appended to `graph`,
    /// row after row; the nodes that were there stay as they are. `input` must
    /// hold one value for each input of the layer.
    pub fn forward<T: Scalar>(&self, graph: &mut Graph<T>, input: Vec<Value>) -> (output: Vec<Value>)
        requires
            old(graph).wf(),
            layer_within(self@, old(graph)@),
            input@.len() == self@.input_dim,
            forall|i: int| 0 <= i < input@.len() ==> (#[trigger] input@[i]).index < old(graph)@.len(),
        ensures
            output@.len() == self@.output_dim,
            final(graph)@.len() == old(graph)@.len() + self@.output_dim * (2 * self@.input_dim + 1),
            grows_from(final(graph)@, old(graph)@),
            forall|row: int|
                0 <= row < self@.output_dim ==> (#[trigger] output@[row]).index == row_start(
                    old(graph)@.len() as int,
                    self@.input_dim as int,
                    row,
                ) + 2 * self@.input_dim,
            forall|row: int|
                0 <= row < self@.output_dim ==> #[trigger] is_forward_row(
                    final(graph)@,
                    self@,
                    input@,
                    row_start(old(graph)@.len() as int, self@.input_dim as int, row),
                    row,
                ),
            final(graph).wf(),
    {
        let ghost start = graph@;
        let ghost n0 = start.len() as int;
        let ghost layer = self@;
        let ghost width = 2 * layer.input_dim as int + 1;
        let mut output: Vec<Value> = Vec::new();
        let mut row: usize = 0;
        while row < self.output_dim
            invariant
                graph.wf(),
                layer == self@,
                n0 == start.len(),
                width == 2 * layer.input_dim + 1,
                layer_within(layer, start),
                input@.len() == layer.input_dim,
                forall|i: int| 0 <= i < input@.len() ==> (#[trigger] input@[i]).index < start.len(),
                row <= self.output_dim,
                output@.len() == row,
                graph@.len() == n0 + row * width,
                grows_from(graph@, start),
                forall|r: int|
                    0 <= r < row ==> (#[trigger] output@[r]).index == row_start(
                        n0,
                        layer.input_dim as int,
                        r,
                    ) + 2 * layer.input_dim,
                forall|r: int|
                    0 <= r < row ==> #[trigger] is_forward_row(
                        graph@,
                        layer,
                        input@,
                        row_start(n0, layer.input_dim as int, r),
                        r,
                    ),
            decreases self.output_dim - row,
        {
            let ghost before = graph@;
            proof {
                assert(0 <= row * width) by (nonlinear_arith)
                    requires
                        0 <= row,
                        0 <= width,
                ;
            }
            let sum = self.forward_row(graph, &input, row);
            output.push(sum);
            proof {
                assert((row + 1) * width == row * width + width) by (nonlinear_arith);
                assert forall|r: int| 0 <= r < row + 1 implies #[trigger] is_forward_row(
                    graph@,
                    layer,
                    input@,
                    row_start(n0, layer.input_dim as int, r),
                    r,
                ) by {
                    if r < row {
                        assert(0 <= r * width && r * width + width <= row * width) by (nonlinear_arith)
                            requires
                                0 <= r,
                                r + 1 <= row,
                                0 <= width,
                        ;
                        assert(is_forward_row(
                            before,
                            layer,
                            input@,
                            row_start(n0, layer.input_dim as int, r),
                            r,
                        ));
                        lemma_row_stable(
                            before,
                            graph@,
                            layer,
                            input@,
                            row_start(n0, layer.input_dim as int, r),
                            r,
                        );
                    }
                }
            }
            row += 1;
        }
        output
    }

    /// The number of values the layer takes.
    pub fn input_dim(&self) -> (n: usize)
        ensures
            n == self@.input_dim,
    {
        self.input_dim
    }

    /// The number of values the layer gives.
    pub fn output_dim(&self) -> (n: usize)
        ensures
            n == self@.output_dim,
    {
        self.output_dim
    }

    /// The weights, row by row: what a training loop steps after a backward pass.
    pub fn parameters(&self) -> (weights: &Vec<Value>)
        ensures
            weights@ == self@.weights,
    {
        &self.weights
    }
}

} // verus!
