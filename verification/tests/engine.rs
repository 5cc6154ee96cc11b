use micrograd::{build_topo, Graph, Scalar, Value};

#[derive(Clone, Copy, Debug, PartialEq)]
struct Real(f64);

impl Scalar for Real {
    fn zero() -> Self {
        Real(0.0)
    }
    fn one() -> Self {
        Real(1.0)
    }
    fn plus(self, rhs: Self) -> Self {
        Real(self.0 + rhs.0)
    }
    fn minus(self, rhs: Self) -> Self {
        Real(self.0 - rhs.0)
    }
    fn times(self, rhs: Self) -> Self {
        Real(self.0 * rhs.0)
    }
    fn over(self, rhs: Self) -> Self {
        Real(self.0 / rhs.0)
    }
    fn negated(self) -> Self {
        Real(-self.0)
    }
    fn powf(self, exponent: Self) -> Self {
        Real(self.0.powf(exponent.0))
    }
    fn exp(self) -> Self {
        Real(self.0.exp())
    }
    fn is_positive(self) -> bool {
        self.0 > 0.0
    }
    fn from_byte(byte: u8) -> Self {
        Real(byte as f64)
    }
}

#[test]
fn add_backprop() {
    let mut g: Graph<Real> = Graph::new();
    let a = Value::new(&mut g, Real(2.0));
    let b = Value::new(&mut g, Real(3.0));
    let result = a.add(&mut g, &b);
    result.backward(&mut g); // a.grad == b.grad == 1
    assert_eq!(a.grad(&g).0, 1.0);
    assert_eq!(b.grad(&g).0, 1.0);
}

#[test]
fn mul_backprop() {
    let mut g: Graph<Real> = Graph::new();
    let a = Value::new(&mut g, Real(2.0));
    let b = Value::new(&mut g, Real(3.0));
    let result = a.mul(&mut g, &b);
    result.backward(&mut g); // a.grad == b, b.grad == a
    assert_eq!(a.grad(&g).0, 3.0);
    assert_eq!(b.grad(&g).0, 2.0);
}

#[test]
fn pow_backprop() {
    let mut g: Graph<Real> = Graph::new();
    let a = Value::new(&mut g, Real(4.0));
    a.pow(&mut g, Real(2.0)).backward(&mut g);
    assert_eq!(a.grad(&g).0, 8.0);

    let b = Value::new(&mut g, Real(4.0));
    b.pow(&mut g, Real(-1.0)).backward(&mut g);
    assert_eq!(b.grad(&g).0, -0.0625);
}

#[test]
fn div_backprop() {
    let mut g: Graph<Real> = Graph::new();
    let a = Value::new(&mut g, Real(4.0));
    let b = Value::new(&mut g, Real(2.0));
    let result = a.div(&mut g, &b);
    result.backward(&mut g);
    assert_eq!(a.grad(&g).0, 0.5);
    assert_eq!(b.grad(&g).0, -1.0);
}

#[test]
fn exp_backprop() {
    let mut g: Graph<Real> = Graph::new();
    let a = Value::new(&mut g, Real(2.0));
    a.exp(&mut g).backward(&mut g); // a.grad == a.exp()
    assert_eq!(a.grad(&g).0, 2.0_f64.exp());
}

#[test]
fn relu_backprop() {
    let mut g: Graph<Real> = Graph::new();
    let a = Value::new(&mut g, Real(2.0));
    let b = Value::new(&mut g, Real(-2.0));
    a.relu(&mut g).backward(&mut g); // a.grad = 1.0
    b.relu(&mut g).backward(&mut g); // b.grad = 0.0
    assert_eq!(a.grad(&g).0, 1.0);
    assert_eq!(b.grad(&g).0, 0.0);
}

#[test]
fn test_step() {
    let mut g: Graph<Real> = Graph::new();
    let a = Value::new(&mut g, Real(3.0));
    let b = Value::new(&mut g, Real(2.0));
    let c = a.mul(&mut g, &b); // a.grad = 2, b.grad = 3
    c.backward(&mut g);
    assert_eq!(a.grad(&g).0, 2.0);
    assert_eq!(b.grad(&g).0, 3.0);

    a.step(&mut g, Real(0.1)); // update by 2.0*0.1=0.2 => 2.8 new val
    b.step(&mut g, Real(0.1)); // update by 3.0*0.1=0.3 => 1.7 new val

    assert_eq!(a.value(&g).0, 2.8);
    assert_eq!(b.value(&g).0, 1.7);
    assert_eq!(a.grad(&g).0, 0.0); // Gradients zeroed
    assert_eq!(b.grad(&g).0, 0.0); // Gradients zeroed
}

#[test]
fn new_value_is_a_leaf_with_zero_gradient() {
    let mut g: Graph<Real> = Graph::new();
    assert_eq!(g.len(), 0);
    let a = Value::new(&mut g, Real(-7.5));
    assert_eq!(a.index, 0);
    assert_eq!(g.len(), 1);
    assert_eq!(a.value(&g).0, -7.5);
    assert_eq!(a.grad(&g).0, 0.0);
    assert_eq!(build_topo(&g, a), vec![0]);
}

#[test]
fn every_operation_allocates_one_node() {
    let mut g: Graph<Real> = Graph::new();
    let a = Value::new(&mut g, Real(2.0));
    let b = Value::new(&mut g, Real(3.0));
    let first = a.add(&mut g, &b);
    let second = a.add(&mut g, &b);
    assert_eq!(first.index, 2);
    assert_eq!(second.index, 3);
    assert_ne!(first, second);
    assert_eq!(first.value(&g).0, 5.0);
    assert_eq!(second.value(&g).0, 5.0);
    assert_eq!(g.len(), 4);
}

#[test]
fn forward_values_of_each_operation() {
    let mut g: Graph<Real> = Graph::new();
    let a = Value::new(&mut g, Real(6.0));
    let b = Value::new(&mut g, Real(4.0));
    assert_eq!(a.add(&mut g, &b).value(&g).0, 10.0);
    assert_eq!(a.sub(&mut g, &b).value(&g).0, 2.0);
    assert_eq!(a.mul(&mut g, &b).value(&g).0, 24.0);
    assert_eq!(a.div(&mut g, &b).value(&g).0, 1.5);
    assert_eq!(a.pow(&mut g, Real(2.0)).value(&g).0, 36.0);
    assert_eq!(a.exp(&mut g).value(&g).0, 6.0_f64.exp());
    assert_eq!(a.relu(&mut g).value(&g).0, 6.0);
    let c = Value::new(&mut g, Real(-6.0));
    assert_eq!(c.relu(&mut g).value(&g).0, 0.0);
}

#[test]
fn sub_backprop() {
    let mut g: Graph<Real> = Graph::new();
    let a = Value::new(&mut g, Real(5.0));
    let b = Value::new(&mut g, Real(3.0));
    let result = a.sub(&mut g, &b);
    assert_eq!(result.value(&g).0, 2.0);
    result.backward(&mut g);
    assert_eq!(a.grad(&g).0, 1.0);
    assert_eq!(b.grad(&g).0, -1.0);
}

#[test]
fn backward_seeds_the_terminal_with_one() {
    let mut g: Graph<Real> = Graph::new();
    let a = Value::new(&mut g, Real(2.0));
    let b = Value::new(&mut g, Real(3.0));
    let c = a.mul(&mut g, &b);
    c.backward(&mut g);
    assert_eq!(c.grad(&g).0, 1.0);
    assert_eq!(c.value(&g).0, 6.0);
    assert_eq!(a.value(&g).0, 2.0);
    assert_eq!(b.value(&g).0, 3.0);
}

#[test]
fn diamond_sums_both_edges() {
    let mut g: Graph<Real> = Graph::new();
    let a = Value::new(&mut g, Real(3.0));
    let c = a.add(&mut g, &a);
    assert_eq!(c.value(&g).0, 6.0);
    assert_eq!(build_topo(&g, c), vec![0, 1]);
    c.backward(&mut g);
    assert_eq!(a.grad(&g).0, 2.0);
}

#[test]
fn square_by_product_sums_both_edges() {
    let mut g: Graph<Real> = Graph::new();
    let a = Value::new(&mut g, Real(3.0));
    let c = a.mul(&mut g, &a);
    c.backward(&mut g);
    assert_eq!(a.grad(&g).0, 6.0);
}

#[test]
fn end_to_end_product_plus_operand() {
    let mut g: Graph<Real> = Graph::new();
    let a = Value::new(&mut g, Real(2.0));
    let b = Value::new(&mut g, Real(3.0));
    let c = a.mul(&mut g, &b);
    let d = c.add(&mut g, &a);
    d.backward(&mut g);
    assert_eq!(a.grad(&g).0, 4.0);
    assert_eq!(a.grad(&g).0, b.value(&g).0 + 1.0);
    assert_eq!(b.grad(&g).0, 2.0);
    assert_eq!(b.grad(&g).0, a.value(&g).0);
    assert_eq!(c.grad(&g).0, 1.0);
    assert_eq!(d.grad(&g).0, 1.0);
}

#[test]
fn upstream_gradient_is_multiplied_in() {
    // f = (a * b) * c with a=2, b=3, c=4: df/da = b*c, df/db = a*c, df/dc = a*b
    let mut g: Graph<Real> = Graph::new();
    let a = Value::new(&mut g, Real(2.0));
    let b = Value::new(&mut g, Real(3.0));
    let c = Value::new(&mut g, Real(4.0));
    let ab = a.mul(&mut g, &b);
    let f = ab.mul(&mut g, &c);
    f.backward(&mut g);
    assert_eq!(ab.grad(&g).0, 4.0);
    assert_eq!(c.grad(&g).0, 6.0);
    assert_eq!(a.grad(&g).0, 12.0);
    assert_eq!(b.grad(&g).0, 8.0);
}

#[test]
fn shared_interior_node_settles_before_it_pushes() {
    // s = a + b; f = s * s. df/ds = 2s = 10, so df/da = df/db = 10.
    let mut g: Graph<Real> = Graph::new();
    let a = Value::new(&mut g, Real(2.0));
    let b = Value::new(&mut g, Real(3.0));
    let s = a.add(&mut g, &b);
    let f = s.mul(&mut g, &s);
    f.backward(&mut g);
    assert_eq!(s.grad(&g).0, 10.0);
    assert_eq!(a.grad(&g).0, 10.0);
    assert_eq!(b.grad(&g).0, 10.0);
}

#[test]
fn node_reached_by_paths_of_different_length() {
    // f = (a * b) + a * (a * b) with a=2, b=3:
    // p = a*b = 6, q = a*p = 12, f = p + q = 18
    // df/dp = 1 + a = 3, df/da = p + b*3 = 15, df/db = a*3 = 6
    let mut g: Graph<Real> = Graph::new();
    let a = Value::new(&mut g, Real(2.0));
    let b = Value::new(&mut g, Real(3.0));
    let p = a.mul(&mut g, &b);
    let q = a.mul(&mut g, &p);
    let f = p.add(&mut g, &q);
    assert_eq!(f.value(&g).0, 18.0);
    assert_eq!(build_topo(&g, f), vec![0, 1, 2, 3, 4]);
    f.backward(&mut g);
    assert_eq!(q.grad(&g).0, 1.0);
    assert_eq!(p.grad(&g).0, 3.0);
    assert_eq!(a.grad(&g).0, 15.0);
    assert_eq!(b.grad(&g).0, 6.0);
}

#[test]
fn topological_order_is_depth_first_post_order() {
    let mut g: Graph<Real> = Graph::new();
    let a = Value::new(&mut g, Real(1.0)); // 0
    let b = Value::new(&mut g, Real(2.0)); // 1
    let c = Value::new(&mut g, Real(3.0)); // 2
    let bc = b.mul(&mut g, &c); // 3
    let f = bc.add(&mut g, &a); // 4
    assert_eq!(build_topo(&g, f), vec![1, 2, 3, 0, 4]);
    assert_eq!(build_topo(&g, bc), vec![1, 2, 3]);
    assert_eq!(build_topo(&g, a), vec![0]);
}

#[test]
fn topological_order_lists_each_node_once_after_its_operands() {
    let mut g: Graph<Real> = Graph::new();
    let a = Value::new(&mut g, Real(1.0));
    let b = a.exp(&mut g);
    let c = b.mul(&mut g, &a);
    let d = c.add(&mut g, &b);
    let e = d.div(&mut g, &c);
    let order = build_topo(&g, e);
    assert_eq!(order, vec![0, 1, 2, 3, 4]);
    let unused = Value::new(&mut g, Real(9.0));
    let order = build_topo(&g, e);
    assert!(!order.contains(&unused.index));
    assert_eq!(order.len(), 5);
}

#[test]
fn backward_leaves_other_nodes_alone() {
    let mut g: Graph<Real> = Graph::new();
    let a = Value::new(&mut g, Real(2.0));
    let b = Value::new(&mut g, Real(3.0));
    let other = Value::new(&mut g, Real(5.0));
    let c = a.mul(&mut g, &b);
    let beside = other.mul(&mut g, &a);
    c.backward(&mut g);
    assert_eq!(other.grad(&g).0, 0.0);
    assert_eq!(beside.grad(&g).0, 0.0);
    assert_eq!(beside.value(&g).0, 10.0);
    assert_eq!(a.grad(&g).0, 3.0);
}

#[test]
fn backward_twice_accumulates() {
    let mut g: Graph<Real> = Graph::new();
    let a = Value::new(&mut g, Real(2.0));
    let b = Value::new(&mut g, Real(3.0));
    let c = a.mul(&mut g, &b);
    c.backward(&mut g);
    c.backward(&mut g);
    assert_eq!(c.grad(&g).0, 1.0);
    assert_eq!(a.grad(&g).0, 6.0);
    assert_eq!(b.grad(&g).0, 4.0);
}

#[test]
fn relu_at_zero_takes_the_zero_branch() {
    let mut g: Graph<Real> = Graph::new();
    let a = Value::new(&mut g, Real(0.0));
    let r = a.relu(&mut g);
    assert_eq!(r.value(&g).0, 0.0);
    r.backward(&mut g);
    assert_eq!(a.grad(&g).0, 0.0);
}

#[test]
fn division_by_zero_propagates_infinity() {
    let mut g: Graph<Real> = Graph::new();
    let a = Value::new(&mut g, Real(1.0));
    let b = Value::new(&mut g, Real(0.0));
    let q = a.div(&mut g, &b);
    assert_eq!(q.value(&g).0, f64::INFINITY);
    q.backward(&mut g);
    assert_eq!(a.grad(&g).0, f64::INFINITY);
    assert_eq!(b.grad(&g).0, f64::NEG_INFINITY);
}

#[test]
fn zero_over_zero_propagates_nan() {
    let mut g: Graph<Real> = Graph::new();
    let a = Value::new(&mut g, Real(0.0));
    let b = Value::new(&mut g, Real(0.0));
    let q = a.div(&mut g, &b);
    assert!(q.value(&g).0.is_nan());
    q.backward(&mut g);
    assert!(b.grad(&g).0.is_nan());
}

#[test]
fn pow_outside_its_domain_propagates_nan() {
    let mut g: Graph<Real> = Graph::new();
    let a = Value::new(&mut g, Real(-4.0));
    let r = a.pow(&mut g, Real(0.5));
    assert!(r.value(&g).0.is_nan());
    r.backward(&mut g);
    assert!(a.grad(&g).0.is_nan());
}

#[test]
fn pow_rule_with_a_cube() {
    let mut g: Graph<Real> = Graph::new();
    let a = Value::new(&mut g, Real(2.0));
    let r = a.pow(&mut g, Real(3.0));
    assert_eq!(r.value(&g).0, 8.0);
    r.backward(&mut g);
    assert_eq!(a.grad(&g).0, 12.0);
}

#[test]
fn step_formula() {
    let mut g: Graph<Real> = Graph::new();
    let a = Value::new(&mut g, Real(3.0));
    let two = Value::new(&mut g, Real(2.0));
    let c = a.mul(&mut g, &two);
    c.backward(&mut g);
    assert_eq!(a.value(&g).0, 3.0);
    assert_eq!(a.grad(&g).0, 2.0);
    a.step(&mut g, Real(0.1));
    assert_eq!(a.value(&g).0, 2.8);
    assert_eq!(a.grad(&g).0, 0.0);
    assert_eq!(two.value(&g).0, 2.0);
    assert_eq!(two.grad(&g).0, 3.0);
    assert_eq!(c.value(&g).0, 6.0);
}

#[test]
fn step_before_backward_changes_no_value() {
    let mut g: Graph<Real> = Graph::new();
    let a = Value::new(&mut g, Real(3.0));
    a.step(&mut g, Real(0.5));
    assert_eq!(a.value(&g).0, 3.0);
    assert_eq!(a.grad(&g).0, 0.0);
}

#[test]
fn copies_of_a_handle_name_one_node() {
    let mut g: Graph<Real> = Graph::new();
    let a = Value::new(&mut g, Real(3.0));
    let again = a;
    let c = a.mul(&mut g, &again);
    c.backward(&mut g);
    assert_eq!(a, again);
    assert_eq!(again.grad(&g).0, 6.0);
}

#[test]
fn truncate_releases_the_nodes_of_a_pass() {
    let mut g: Graph<Real> = Graph::new();
    let w = Value::new(&mut g, Real(1.5));
    let kept = g.len();
    let x = Value::new(&mut g, Real(2.0));
    let y = w.mul(&mut g, &x);
    y.backward(&mut g);
    w.step(&mut g, Real(0.25));
    assert_eq!(g.len(), 3);
    g.truncate(kept);
    assert_eq!(g.len(), 1);
    assert_eq!(w.value(&g).0, 1.0);
    assert_eq!(w.grad(&g).0, 0.0);
    g.truncate(5);
    assert_eq!(g.len(), 1);
    let x = Value::new(&mut g, Real(4.0));
    assert_eq!(x.index, 1);
    let y = w.mul(&mut g, &x);
    y.backward(&mut g);
    assert_eq!(w.grad(&g).0, 4.0);
}

#[test]
fn deep_chain_of_sums() {
    let mut g: Graph<Real> = Graph::new();
    let a = Value::new(&mut g, Real(1.0));
    let mut acc = a;
    for _ in 0..200_000 {
        acc = acc.add(&mut g, &a);
    }
    assert_eq!(acc.value(&g).0, 200_001.0);
    acc.backward(&mut g);
    assert_eq!(a.grad(&g).0, 200_001.0);
}
