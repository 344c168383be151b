use journey::value::Graph;

#[test]
fn test_simple_linear_backprop() {
    // y = wx + b
    // we use points (0, 1), (1, 3), (2, 5) to find w and b
    // the true solution is w = 2, b = 1

    let xs = [0.0f64, 1.0, 2.0];
    let ys = [1.0f64, 3.0, 5.0];

    let mut w1: f64 = 0.0;
    let mut b: f64 = 0.0;

    let learning_rate = 0.0005;

    for _ in 0..100000 {
        // a fresh tape per step: parameters re-enter as leaves, so their
        // gradient accumulators start from zero each pass
        let mut g = Graph::new();
        let wv = g.leaf(w1.to_bits());
        let bv = g.leaf(b.to_bits());

        let mut losses = Vec::new();
        for i in 0..3 {
            let xv = g.leaf(xs[i].to_bits());
            let yv = g.leaf(ys[i].to_bits());
            let xw = g.mul(xv, wv);
            let n = g.add(xw, bv);
            let d = g.sub(n, yv);
            let l = g.pow(d, 2.0f64.to_bits());
            losses.push(l);
        }
        let l12 = g.add(losses[0], losses[1]);
        let loss = g.add(l12, losses[2]);

        g.backward(loss);

        w1 = w1 - learning_rate * f64::from_bits(g.grad(wv));
        b = b - learning_rate * f64::from_bits(g.grad(bv));

        if f64::from_bits(g.data(loss)) < 0.001 {
            break;
        }
    }

    // assert with margin of error, let's be generous here
    assert!((w1 - 2.0).abs() < 0.3);
    assert!((b - 1.0).abs() < 0.3);

    println!("Expected w1: 2.0, got: {}", w1);
    println!("Expected b: 1.0, got: {}", b);
}
