use journey::value::Graph;

#[test]
fn test_simple_grad_mul() {
    let mut g = Graph::new();
    let a = g.leaf(2.0f64.to_bits());
    let b = g.leaf(3.0f64.to_bits());
    let c = g.mul(a, b);

    g.backward(c);

    assert_eq!(f64::from_bits(g.grad(a)), 3.0);
    assert_eq!(f64::from_bits(g.grad(b)), 2.0);
}

#[test]
fn test_simple_grad_add() {
    let mut g = Graph::new();
    let a = g.leaf(2.0f64.to_bits());
    let b = g.leaf(3.0f64.to_bits());
    let c = g.add(a, b);

    g.backward(c);

    assert_eq!(f64::from_bits(g.grad(a)), 1.0);
    assert_eq!(f64::from_bits(g.grad(b)), 1.0);
}

#[test]
fn test_simple_grad_sub() {
    let mut g = Graph::new();
    let a = g.leaf(2.0f64.to_bits());
    let b = g.leaf(3.0f64.to_bits());
    let c = g.sub(a, b);

    g.backward(c);

    assert_eq!(f64::from_bits(g.grad(a)), 1.0);
    assert_eq!(f64::from_bits(g.grad(b)), -1.0);
}

#[test]
fn test_simple_grad_div() {
    let mut g = Graph::new();
    let a = g.leaf(2.0f64.to_bits());
    let b = g.leaf(3.0f64.to_bits());
    let c = g.div(a, b);

    g.backward(c);

    assert_eq!(f64::from_bits(g.grad(a)), 1.0 / 3.0);
    assert_eq!(f64::from_bits(g.grad(b)), -2.0 / 9.0);
}

#[test]
fn test_simple_grad_tanh() {
    let mut g = Graph::new();
    let a = g.leaf(2.0f64.to_bits());
    let b = g.tanh(a);

    g.backward(b);

    // For tanh(x), the derivative is 1 - tanh(x)^2
    let expected_grad = 1.0 - f64::from_bits(g.data(b)) * f64::from_bits(g.data(b));
    assert_eq!(f64::from_bits(g.grad(a)), expected_grad);
}

#[test]
fn test_grad_pow() {
    let mut g = Graph::new();
    let a = g.leaf(3.0f64.to_bits());
    let c = g.pow(a, 2.0f64.to_bits());

    g.backward(c);

    assert_eq!(f64::from_bits(g.grad(a)), 6.0);
}

#[test]
fn test_grad_sum() {
    let mut g = Graph::new();
    let a = g.leaf(1.0f64.to_bits());
    let b = g.leaf(2.0f64.to_bits());
    let c = g.leaf(3.0f64.to_bits());
    let xs = vec![a, b, c];
    let s = g.sum(&xs);

    g.backward(s);

    assert_eq!(f64::from_bits(g.grad(a)), 1.0);
    assert_eq!(f64::from_bits(g.grad(b)), 1.0);
    assert_eq!(f64::from_bits(g.grad(c)), 1.0);
}

#[test]
fn test_grad_accumulates_through_shared_operand() {
    // d(a*b + a*c)/da = b + c
    let mut g = Graph::new();
    let a = g.leaf(2.0f64.to_bits());
    let b = g.leaf(3.0f64.to_bits());
    let c = g.leaf(4.0f64.to_bits());
    let ab = g.mul(a, b);
    let ac = g.mul(a, c);
    let s = g.add(ab, ac);

    g.backward(s);

    assert_eq!(f64::from_bits(g.grad(a)), 7.0);
    assert_eq!(f64::from_bits(g.grad(b)), 2.0);
    assert_eq!(f64::from_bits(g.grad(c)), 2.0);
}

#[test]
fn test_grad_same_node_twice() {
    // d(a + a)/da = 2
    let mut g = Graph::new();
    let a = g.leaf(5.0f64.to_bits());
    let c = g.add(a, a);

    g.backward(c);

    assert_eq!(f64::from_bits(g.grad(a)), 2.0);
}
