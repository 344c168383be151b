use journey::value::Graph;

#[test]
fn test_children() {
    let mut g = Graph::new();
    let a = g.leaf(2.0f64.to_bits());
    let b = g.leaf(3.0f64.to_bits());
    let c = g.add(a, b);

    let children = g.children(c);
    assert_eq!(children.len(), 2);
    assert!(children.contains(&a));
    assert!(children.contains(&b));
}

#[test]
fn test_forward_idempotent() {
    let mut g = Graph::new();
    let a = g.leaf(2.0f64.to_bits());
    let b = g.leaf(3.0f64.to_bits());
    let c1 = g.mul(a, b);
    let c2 = g.mul(a, b);

    assert!(c1 != c2);
    assert_eq!(g.data(c1), g.data(c2));
    assert_eq!(f64::from_bits(g.data(a)), 2.0);
    assert_eq!(f64::from_bits(g.data(b)), 3.0);
}
