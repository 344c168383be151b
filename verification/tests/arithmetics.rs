use journey::value::Graph;

#[test]
fn test_value() {
    let mut g = Graph::new();
    let a = g.leaf(2.0f64.to_bits());
    let b = g.leaf(3.0f64.to_bits());
    assert_eq!(f64::from_bits(g.data(a)), 2.0);
    assert_eq!(f64::from_bits(g.data(b)), 3.0);
}

#[test]
fn test_add() {
    let mut g = Graph::new();
    let a = g.leaf(2.0f64.to_bits());
    let b = g.leaf(3.0f64.to_bits());
    let c = g.add(a, b);
    assert_eq!(f64::from_bits(g.data(c)), 5.0);
}

#[test]
fn test_sub() {
    let mut g = Graph::new();
    let a = g.leaf(2.0f64.to_bits());
    let b = g.leaf(3.0f64.to_bits());
    let c = g.sub(a, b);
    assert_eq!(f64::from_bits(g.data(c)), -1.0);
}

#[test]
fn test_mul() {
    let mut g = Graph::new();
    let a = g.leaf(2.0f64.to_bits());
    let b = g.leaf(3.0f64.to_bits());
    let c = g.mul(a, b);
    assert_eq!(f64::from_bits(g.data(c)), 6.0);
}

#[test]
fn test_div() {
    let mut g = Graph::new();
    let a = g.leaf(2.0f64.to_bits());
    let b = g.leaf(3.0f64.to_bits());
    let c = g.div(a, b);
    assert_eq!(f64::from_bits(g.data(c)), 2.0 / 3.0);
}

#[test]
fn test_div_by_zero_is_infinite() {
    let mut g = Graph::new();
    let a = g.leaf(1.0f64.to_bits());
    let b = g.leaf(0.0f64.to_bits());
    let c = g.div(a, b);
    assert!(f64::from_bits(g.data(c)).is_infinite());
    assert!(f64::from_bits(g.data(c)) > 0.0);
}

#[test]
fn test_pow_value() {
    let mut g = Graph::new();
    let a = g.leaf(3.0f64.to_bits());
    let c = g.pow(a, 2.0f64.to_bits());
    assert_eq!(f64::from_bits(g.data(c)), 9.0);
}

#[test]
fn test_tanh_value() {
    let mut g = Graph::new();
    let z = g.leaf(0.0f64.to_bits());
    let t0 = g.tanh(z);
    assert_eq!(f64::from_bits(g.data(t0)), 0.0);
    let a = g.leaf(2.0f64.to_bits());
    let t2 = g.tanh(a);
    let v = f64::from_bits(g.data(t2));
    assert!(v > 0.9 && v < 1.0);
}

#[test]
fn test_sum_value_and_children() {
    let mut g = Graph::new();
    let a = g.leaf(1.0f64.to_bits());
    let b = g.leaf(2.0f64.to_bits());
    let c = g.leaf(3.0f64.to_bits());
    let xs = vec![a, b, c];
    let s = g.sum(&xs);
    assert_eq!(f64::from_bits(g.data(s)), 6.0);
    let kids = g.children(s);
    assert_eq!(kids.len(), 3);
    assert_eq!(kids[0], a);
    assert_eq!(kids[1], b);
    assert_eq!(kids[2], c);
}

#[test]
fn test_set_data_and_set_grad() {
    let mut g = Graph::new();
    let a = g.leaf(2.0f64.to_bits());
    g.set_data(a, 5.0f64.to_bits());
    assert_eq!(f64::from_bits(g.data(a)), 5.0);
    g.set_grad(a, 7.0f64.to_bits());
    assert_eq!(f64::from_bits(g.grad(a)), 7.0);
    g.set_grad(a, 0.0f64.to_bits());
    assert_eq!(f64::from_bits(g.grad(a)), 0.0);
}
