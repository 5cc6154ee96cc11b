use micrograd::data::{normalize, one_hot, sample_count, CLASSES};
use micrograd::{Graph, Scalar, Value};

#[derive(Clone, Copy, Debug, PartialEq)]
struct Real(f64);

impl Scalar for Real {
    fn zero() -> Self {
        Real(0.0)
    }
    fn one() -> Self {
        Real(1.0)
    }
    fn plus(self, rhs: Self) -> Self {
        Real(self.0 + rhs.0)
    }
    fn minus(self, rhs: Self) -> Self {
        Real(self.0 - rhs.0)
    }
    fn times(self, rhs: Self) -> Self {
        Real(self.0 * rhs.0)
    }
    fn over(self, rhs: Self) -> Self {
        Real(self.0 / rhs.0)
    }
    fn negated(self) -> Self {
        Real(-self.0)
    }
    fn powf(self, exponent: Self) -> Self {
        Real(self.0.powf(exponent.0))
    }
    fn exp(self) -> Self {
        Real(self.0.exp())
    }
    fn is_positive(self) -> bool {
        self.0 > 0.0
    }
    fn from_byte(byte: u8) -> Self {
        Real(byte as f64)
    }
}

#[test]
fn sample_count_reads_the_low_two_bytes() {
    let mut header = [0u8; 16];
    header[3] = 3;
    header[6] = 0xea;
    header[7] = 0x60;
    assert_eq!(sample_count(&header), 60000);
    header[6] = 0x27;
    header[7] = 0x10;
    assert_eq!(sample_count(&header), 10000);
    header[6] = 0xff;
    header[7] = 0xff;
    assert_eq!(sample_count(&header), 65535);
    assert_eq!(sample_count(&[0u8; 16]), 0);
}

#[test]
fn sample_count_ignores_the_other_bytes() {
    let mut header = [0xabu8; 16];
    header[6] = 1;
    header[7] = 2;
    assert_eq!(sample_count(&header), 258);
}

#[test]
fn normalize_divides_each_byte_by_255() {
    let mut g: Graph<Real> = Graph::new();
    let before = Value::new(&mut g, Real(9.0));
    let image = normalize(&mut g, &vec![0, 255, 51, 128]);
    assert_eq!(image.len(), 4);
    assert_eq!(g.len(), 5);
    assert_eq!(image[0].index, 1);
    assert_eq!(image[3].index, 4);
    assert_eq!(image[0].value(&g).0, 0.0);
    assert_eq!(image[1].value(&g).0, 1.0);
    assert_eq!(image[2].value(&g).0, 0.2);
    assert_eq!(image[3].value(&g).0, 128.0 / 255.0);
    for pixel in image.iter() {
        assert_eq!(pixel.grad(&g).0, 0.0);
    }
    assert_eq!(before.value(&g).0, 9.0);
}

#[test]
fn normalize_of_no_bytes() {
    let mut g: Graph<Real> = Graph::new();
    let image = normalize(&mut g, &vec![]);
    assert_eq!(image.len(), 0);
    assert_eq!(g.len(), 0);
}

#[test]
fn one_hot_marks_the_class_of_the_label() {
    let mut g: Graph<Real> = Graph::new();
    let label = one_hot(&mut g, 3);
    assert_eq!(CLASSES, 10);
    assert_eq!(label.len(), 10);
    assert_eq!(g.len(), 10);
    for (i, v) in label.iter().enumerate() {
        assert_eq!(v.index, i);
        assert_eq!(v.value(&g), if i == 3 { Real(1.0) } else { Real(0.0) });
    }
}

#[test]
fn one_hot_of_the_first_and_last_class() {
    let mut g: Graph<Real> = Graph::new();
    let first = one_hot(&mut g, 0);
    let last = one_hot(&mut g, 9);
    assert_eq!(first[0].value(&g).0, 1.0);
    assert_eq!(first[9].value(&g).0, 0.0);
    assert_eq!(last[0].value(&g).0, 0.0);
    assert_eq!(last[9].value(&g).0, 1.0);
    assert_eq!(last[0].index, 10);
}

#[test]
fn one_hot_of_a_label_that_names_no_class() {
    let mut g: Graph<Real> = Graph::new();
    let label = one_hot(&mut g, 10);
    assert_eq!(label.len(), 10);
    for v in label.iter() {
        assert_eq!(v.value(&g).0, 0.0);
    }
}
