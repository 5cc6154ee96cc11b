use micrograd::{build_topo, Graph, LinearLayer, Scalar, Value};

#[derive(Clone, Copy, Debug, PartialEq)]
struct Real(f64);

impl Scalar for Real {
    fn zero() -> Self {
        Real(0.0)
    }
    fn one() -> Self {
        Real(1.0)
    }
    fn plus(self, rhs: Self) -> Self {
        Real(self.0 + rhs.0)
    }
    fn minus(self, rhs: Self) -> Self {
        Real(self.0 - rhs.0)
    }
    fn times(self, rhs: Self) -> Self {
        Real(self.0 * rhs.0)
    }
    fn over(self, rhs: Self) -> Self {
        Real(self.0 / rhs.0)
    }
    fn negated(self) -> Self {
        Real(-self.0)
    }
    fn powf(self, exponent: Self) -> Self {
        Real(self.0.powf(exponent.0))
    }
    fn exp(self) -> Self {
        Real(self.0.exp())
    }
    fn is_positive(self) -> bool {
        self.0 > 0.0
    }
    fn from_byte(byte: u8) -> Self {
        Real(byte as f64)
    }
}

#[test]
fn layer_holds_a_weight_for_each_input_of_each_output() {
    let mut g: Graph<Real> = Graph::new();
    let layer = LinearLayer::new(&mut g, 3, 2);
    assert_eq!(layer.parameters().len(), 6);
    assert_eq!(g.len(), 6);
    for (i, w) in layer.parameters().iter().enumerate() {
        assert_eq!(w.index, i);
        assert_eq!(w.value(&g).0, 1.0);
        assert_eq!(w.grad(&g).0, 0.0);
        assert_eq!(build_topo(&g, *w), vec![i]);
    }
}

#[test]
fn layer_weights_follow_the_nodes_already_there() {
    let mut g: Graph<Real> = Graph::new();
    let x = Value::new(&mut g, Real(7.0));
    let layer = LinearLayer::new(&mut g, 2, 2);
    assert_eq!(layer.parameters().len(), 4);
    assert_eq!(layer.parameters()[0].index, 1);
    assert_eq!(layer.parameters()[3].index, 4);
    assert_eq!(x.value(&g).0, 7.0);
}

#[test]
fn empty_layer() {
    let mut g: Graph<Real> = Graph::new();
    let layer = LinearLayer::new(&mut g, 0, 3);
    assert_eq!(layer.parameters().len(), 0);
    let out = layer.forward(&mut g, vec![]);
    assert_eq!(out.len(), 3);
    for o in out.iter() {
        assert_eq!(o.value(&g).0, 0.0);
    }
    let none = LinearLayer::new(&mut g, 3, 0);
    assert_eq!(none.parameters().len(), 0);
}

#[test]
fn forward_is_a_matrix_vector_product() {
    let mut g: Graph<Real> = Graph::new();
    let layer = LinearLayer::new(&mut g, 2, 3);
    let x0 = Value::new(&mut g, Real(2.0));
    let x1 = Value::new(&mut g, Real(3.0));
    let out = layer.forward(&mut g, vec![x0, x1]);
    assert_eq!(out.len(), 3);
    for o in out.iter() {
        assert_eq!(o.value(&g).0, 5.0);
    }
}

#[test]
fn forward_uses_the_weight_of_its_row_and_column() {
    let mut g: Graph<Real> = Graph::new();
    let layer = LinearLayer::new(&mut g, 2, 2);
    let w = layer.parameters().clone();
    // one backward and step per weight gives each its own number:
    // w[i] becomes 1 - (i + 1)
    for (i, wi) in w.iter().enumerate() {
        let scale = Value::new(&mut g, Real((i + 1) as f64));
        let y = wi.mul(&mut g, &scale);
        y.backward(&mut g);
        wi.step(&mut g, Real(1.0));
        scale.step(&mut g, Real(0.0));
    }
    assert_eq!(w[0].value(&g).0, 0.0);
    assert_eq!(w[1].value(&g).0, -1.0);
    assert_eq!(w[2].value(&g).0, -2.0);
    assert_eq!(w[3].value(&g).0, -3.0);
    let x0 = Value::new(&mut g, Real(10.0));
    let x1 = Value::new(&mut g, Real(100.0));
    let out = layer.forward(&mut g, vec![x0, x1]);
    assert_eq!(out[0].value(&g).0, -100.0);
    assert_eq!(out[1].value(&g).0, -320.0);
}

#[test]
fn forward_appends_a_leaf_then_a_product_and_a_sum_for_each_input() {
    let mut g: Graph<Real> = Graph::new();
    let layer = LinearLayer::new(&mut g, 2, 2);
    let x0 = Value::new(&mut g, Real(2.0));
    let x1 = Value::new(&mut g, Real(3.0));
    let start = g.len();
    assert_eq!(start, 6);
    let out = layer.forward(&mut g, vec![x0, x1]);
    assert_eq!(g.len(), start + 2 * 5);
    assert_eq!(out[0].index, start + 4);
    assert_eq!(out[1].index, start + 9);
    // row 0: zero, x0*w0, 0+.., x1*w1, ..+..
    assert_eq!(build_topo(&g, out[0]), vec![6, 4, 0, 7, 8, 5, 1, 9, 10]);
    assert_eq!(build_topo(&g, out[1]), vec![11, 4, 2, 12, 13, 5, 3, 14, 15]);
}

#[test]
fn gradient_of_an_output_with_respect_to_its_weights_is_the_input() {
    let mut g: Graph<Real> = Graph::new();
    let layer = LinearLayer::new(&mut g, 2, 2);
    let x0 = Value::new(&mut g, Real(2.0));
    let x1 = Value::new(&mut g, Real(3.0));
    let out = layer.forward(&mut g, vec![x0, x1]);
    out[1].backward(&mut g);
    let w = layer.parameters();
    assert_eq!(w[0].grad(&g).0, 0.0);
    assert_eq!(w[1].grad(&g).0, 0.0);
    assert_eq!(w[2].grad(&g).0, 2.0);
    assert_eq!(w[3].grad(&g).0, 3.0);
    assert_eq!(x0.grad(&g).0, 1.0);
    assert_eq!(x1.grad(&g).0, 1.0);
}

#[test]
fn one_training_step_lowers_the_output() {
    let mut g: Graph<Real> = Graph::new();
    let layer = LinearLayer::new(&mut g, 2, 1);
    let kept = g.len();
    let x0 = Value::new(&mut g, Real(2.0));
    let x1 = Value::new(&mut g, Real(3.0));
    let out = layer.forward(&mut g, vec![x0, x1]);
    assert_eq!(out[0].value(&g).0, 5.0);
    out[0].backward(&mut g);
    for w in layer.parameters().iter() {
        w.step(&mut g, Real(0.1));
    }
    g.truncate(kept);
    assert_eq!(layer.parameters()[0].value(&g).0, 0.8);
    assert_eq!(layer.parameters()[1].value(&g).0, 0.7);
    let x0 = Value::new(&mut g, Real(2.0));
    let x1 = Value::new(&mut g, Real(3.0));
    let out = layer.forward(&mut g, vec![x0, x1]);
    assert_eq!(out[0].value(&g).0, 0.0 + 2.0 * 0.8 + 3.0 * 0.7);
}
