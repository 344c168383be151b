use journey::value::Graph;

#[test]
fn test_topological_sort() {
    // Create a simple computation graph: (a + b) * c
    let mut g = Graph::new();
    let a = g.leaf(2.0f64.to_bits());
    let b = g.leaf(3.0f64.to_bits());
    let c = g.leaf(4.0f64.to_bits());
    let sum = g.add(a, b);
    let product = g.mul(sum, c);

    // Get the sorted nodes
    let mut sorted = g.topological_sort(product);

    // Reverse to backprop
    sorted.reverse();

    // Verify the order: a, b, sum, c, product
    assert_eq!(sorted.len(), 5);
    assert_eq!(f64::from_bits(g.data(sorted[0])), 2.0); // a
    assert_eq!(f64::from_bits(g.data(sorted[1])), 3.0); // b
    assert_eq!(f64::from_bits(g.data(sorted[2])), 5.0); // sum
    assert_eq!(f64::from_bits(g.data(sorted[3])), 4.0); // c
    assert_eq!(f64::from_bits(g.data(sorted[4])), 20.0); // product
}

#[test]
fn test_diamond_visited_once() {
    // a feeds two operations that join again downstream
    let mut g = Graph::new();
    let a = g.leaf(2.0f64.to_bits());
    let b = g.leaf(3.0f64.to_bits());
    let c = g.leaf(4.0f64.to_bits());
    let ab = g.mul(a, b);
    let ac = g.mul(a, c);
    let top = g.add(ab, ac);

    let sorted = g.topological_sort(top);
    assert_eq!(sorted.len(), 6);
    let occurrences = sorted.iter().filter(|v| **v == a).count();
    assert_eq!(occurrences, 1);
    assert_eq!(sorted[0], top);
}
