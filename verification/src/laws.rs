//! Engine-wide laws, stated over the mathematical view of the graph and
//! proved once for every scalar value.

use vstd::prelude::*;
use crate::scalar::{
    add_bits, sub_bits, mul_bits, div_bits, neg_bits, tanh_bits, pow_bits, ZERO_BITS, ONE_BITS,
};
use crate::value::{
    NodeSpec, Op, wf_seq, node_wf, grads_of, run_props, prop_step, dfs_node, dfs_list,
    traversal_order,
};

verus! {

/// A leaf node carrying `x`.
pub open spec fn leaf_spec(x: u64) -> NodeSpec {
    NodeSpec { data: x, grad: ZERO_BITS, op: Op::Leaf, deps: Seq::empty() }
}

/// The scalar a binary operation computes from its operands' bits.
pub open spec fn binop_data(op: Op, x: u64, y: u64) -> u64 {
    match op {
        Op::Add => add_bits(x, y),
        Op::Sub => sub_bits(x, y),
        Op::Mul => mul_bits(x, y),
        Op::Div => div_bits(x, y),
        _ => arbitrary(),
    }
}

/// Two leaves `x` and `y` and one binary operation over them.
pub open spec fn two_leaf_graph(x: u64, y: u64, op: Op) -> Seq<NodeSpec> {
    seq![
        leaf_spec(x),
        leaf_spec(y),
        NodeSpec { data: binop_data(op, x, y), grad: ZERO_BITS, op, deps: seq![0int, 1int] },
    ]
}

/// Building the same operation twice over the same operands yields two
/// distinct nodes (fresh indices) with identical scalars: forward
/// construction mutates no existing node, so repeating a builder is
/// observationally idempotent on the scalars.
pub proof fn lemma_forward_idempotent(s: Seq<NodeSpec>, a: int, b: int)
    requires
        0 <= a < s.len(),
        0 <= b < s.len(),
    ensures
        ({
            let n1 = NodeSpec {
                data: mul_bits(s[a].data, s[b].data),
                grad: ZERO_BITS,
                op: Op::Mul,
                deps: seq![a, b],
            };
            let s1 = s.push(n1);
            let n2 = NodeSpec {
                data: mul_bits(s1[a].data, s1[b].data),
                grad: ZERO_BITS,
                op: Op::Mul,
                deps: seq![a, b],
            };
            let s2 = s1.push(n2);
            &&& s.len() != s1.len()
            &&& s2[s.len() as int].data == s2[s1.len() as int].data
        }),
{
}

/// One backward pass over `c = op(a, b)` with fresh leaves: the traversal
/// order is `[c, b, a]`, the root keeps its unit seed, and each operand's
/// gradient is its zero accumulator plus the operation's local derivative
/// times the root's unit gradient, written exactly as the engine computes
/// it over encoded doubles.
pub proof fn lemma_backward_binary(x: u64, y: u64, op: Op)
    requires
        op == Op::Add || op == Op::Sub || op == Op::Mul || op == Op::Div,
    ensures
        ({
            let s = two_leaf_graph(x, y, op);
            let order = traversal_order(s, 2);
            let g = run_props(s, grads_of(s).update(2, ONE_BITS), order);
            &&& order == seq![2int, 1int, 0int]
            &&& g.len() == 3
            &&& g[2] == ONE_BITS
            &&& g[0] == (match op {
                Op::Add => add_bits(ZERO_BITS, ONE_BITS),
                Op::Sub => add_bits(ZERO_BITS, ONE_BITS),
                Op::Mul => add_bits(ZERO_BITS, mul_bits(y, ONE_BITS)),
                Op::Div => add_bits(ZERO_BITS, mul_bits(div_bits(ONE_BITS, y), ONE_BITS)),
                _ => arbitrary(),
            })
            &&& g[1] == (match op {
                Op::Add => add_bits(ZERO_BITS, ONE_BITS),
                Op::Sub => sub_bits(ZERO_BITS, ONE_BITS),
                Op::Mul => add_bits(ZERO_BITS, mul_bits(x, ONE_BITS)),
                Op::Div => add_bits(ZERO_BITS, mul_bits(
                    div_bits(neg_bits(x), mul_bits(y, y)),
                    ONE_BITS,
                )),
                _ => arbitrary(),
            })
        }),
{
    let s = two_leaf_graph(x, y, op);
    assert(wf_seq(s)) by {
        assert forall|i: int| 0 <= i < s.len() implies node_wf(#[trigger] s[i], i) by {
            if i == 2 {
                assert(s[2].deps[0] == 0 && s[2].deps[1] == 1);
            }
        }
    }
    let v0 = Set::<int>::empty();
    let v2 = v0.insert(2);
    // the depth-first sweep: children of the root first, then the root
    assert(s[2].deps == seq![0int, 1int]);
    let rn0 = dfs_node(s, 0, v2);
    assert(s[0].deps.len() == 0);
    assert(dfs_list(s, 0, s[0].deps, v2.insert(0)).0 == Seq::<int>::empty());
    assert(rn0.0 == seq![0int] && rn0.1 == v2.insert(0)) by {
        assert(Seq::<int>::empty().push(0int) =~= seq![0int]);
    }
    let rn1 = dfs_node(s, 1, rn0.1);
    assert(!rn0.1.contains(1));
    assert(dfs_list(s, 1, s[1].deps, rn0.1.insert(1)).0 == Seq::<int>::empty());
    assert(rn1.0 == seq![1int] && rn1.1 == v2.insert(0).insert(1)) by {
        assert(Seq::<int>::empty().push(1int) =~= seq![1int]);
    }
    let ids = s[2].deps;
    assert(ids.first() == 0 && ids.drop_first() =~= seq![1int]);
    assert(seq![1int].first() == 1 && seq![1int].drop_first() =~= Seq::<int>::empty());
    assert forall|k: int| 0 <= k < seq![1int].len()
        implies 0 <= #[trigger] seq![1int][k] < 2 by {
        assert(seq![1int][k] == 1);
    }
    assert(dfs_list(s, 2, Seq::<int>::empty(), rn1.1).0 == Seq::<int>::empty()
        && dfs_list(s, 2, Seq::<int>::empty(), rn1.1).1 == rn1.1);
    let rl1 = dfs_list(s, 2, seq![1int], rn0.1);
    assert(rl1.0 == rn1.0 + Seq::<int>::empty() && rl1.1 == rn1.1);
    let rl = dfs_list(s, 2, ids, v2);
    assert(rl.0 == rn0.0 + rl1.0 && rl.1 == rl1.1);
    assert(rl.0 =~= seq![0int, 1int]);
    let rn = dfs_node(s, 2, v0);
    assert(rn.0 == rl.0.push(2));
    assert(rn.0 =~= seq![0int, 1int, 2int]);
    let order = rn.0.reverse();
    assert(order =~= seq![2int, 1int, 0int]);
    // the propagation fold: the root's rule fires once, leaves change nothing
    let g0 = grads_of(s).update(2, ONE_BITS);
    assert(grads_of(s)[0] == ZERO_BITS && grads_of(s)[1] == ZERO_BITS);
    assert(g0[0] == ZERO_BITS && g0[1] == ZERO_BITS && g0[2] == ONE_BITS);
    let g1 = prop_step(s, g0, 2);
    assert(g1.len() == 3);
    let g2 = prop_step(s, g1, 1);
    assert(g2 == g1);
    let g3 = prop_step(s, g2, 0);
    assert(g3 == g2);
    assert(order.first() == 2);
    assert(order.drop_first() =~= seq![1int, 0int]);
    assert(seq![1int, 0int].first() == 1 && seq![1int, 0int].drop_first() =~= seq![0int]);
    assert(seq![0int].first() == 0 && seq![0int].drop_first() =~= Seq::<int>::empty());
    let o1 = order.drop_first();
    let o2 = o1.drop_first();
    assert(o1 =~= seq![1int, 0int]);
    assert(o2 =~= seq![0int]);
    assert(run_props(s, g0, order) == run_props(s, g1, o1));
    assert(run_props(s, g1, o1) == run_props(s, g2, o2));
    assert(run_props(s, g2, o2) == run_props(s, g3, o2.drop_first()));
    assert(o2.drop_first().len() == 0);
    assert(run_props(s, g3, o2.drop_first()) == g3);
}

/// One backward pass over a one-operand operation (`tanh` or `pow`) on a
/// fresh leaf: the order is `[result, leaf]`, the root keeps its unit
/// seed, and the leaf's gradient is its zero accumulator plus the local
/// derivative times the unit gradient.
pub proof fn lemma_backward_unary(x: u64, op: Op, data: u64)
    requires
        op matches Op::Tanh || op matches Op::Pow(_),
        data == (match op {
            Op::Tanh => tanh_bits(x),
            Op::Pow(n) => pow_bits(x, n),
            _ => arbitrary(),
        }),
    ensures
        ({
            let s = seq![
                leaf_spec(x),
                NodeSpec { data, grad: ZERO_BITS, op, deps: seq![0int] },
            ];
            let order = traversal_order(s, 1);
            let g = run_props(s, grads_of(s).update(1, ONE_BITS), order);
            &&& order == seq![1int, 0int]
            &&& g.len() == 2
            &&& g[1] == ONE_BITS
            &&& g[0] == (match op {
                Op::Tanh => add_bits(ZERO_BITS, mul_bits(
                    sub_bits(ONE_BITS, mul_bits(data, data)),
                    ONE_BITS,
                )),
                Op::Pow(n) => add_bits(ZERO_BITS, mul_bits(
                    mul_bits(n, pow_bits(x, sub_bits(n, ONE_BITS))),
                    ONE_BITS,
                )),
                _ => arbitrary(),
            })
        }),
{
    let s = seq![
        leaf_spec(x),
        NodeSpec { data, grad: ZERO_BITS, op, deps: seq![0int] },
    ];
    assert(wf_seq(s)) by {
        assert forall|i: int| 0 <= i < s.len() implies node_wf(#[trigger] s[i], i) by {
            if i == 1 {
                assert(s[1].deps[0] == 0);
            }
        }
    }
    let v0 = Set::<int>::empty();
    let v1 = v0.insert(1);
    assert(s[1].deps == seq![0int]);
    let rn0 = dfs_node(s, 0, v1);
    assert(dfs_list(s, 0, s[0].deps, v1.insert(0)).0 == Seq::<int>::empty());
    assert(rn0.0 == seq![0int] && rn0.1 == v1.insert(0)) by {
        assert(Seq::<int>::empty().push(0int) =~= seq![0int]);
    }
    let ids = s[1].deps;
    assert(ids.first() == 0 && ids.drop_first() =~= Seq::<int>::empty());
    assert forall|k: int| 0 <= k < ids.len()
        implies 0 <= #[trigger] ids[k] < 1 by {
        assert(ids[k] == 0);
    }
    assert(dfs_list(s, 1, Seq::<int>::empty(), rn0.1).0 == Seq::<int>::empty());
    let rl = dfs_list(s, 1, ids, v1);
    assert(rl.0 == rn0.0 + Seq::<int>::empty());
    let rn = dfs_node(s, 1, v0);
    assert(rn.0 == rl.0.push(1));
    assert(rn.0 =~= seq![0int, 1int]);
    let order = rn.0.reverse();
    assert(order =~= seq![1int, 0int]);
    let g0 = grads_of(s).update(1, ONE_BITS);
    assert(g0[0] == ZERO_BITS && g0[1] == ONE_BITS);
    let g1 = prop_step(s, g0, 1);
    assert(g1.len() == 2);
    let g2 = prop_step(s, g1, 0);
    assert(g2 == g1);
    assert(order.first() == 1);
    assert(order.drop_first() =~= seq![0int]);
    assert(seq![0int].first() == 0 && seq![0int].drop_first() =~= Seq::<int>::empty());
    let o1 = order.drop_first();
    assert(o1 =~= seq![0int]);
    assert(run_props(s, g0, order) == run_props(s, g1, o1));
    assert(run_props(s, g1, o1) == run_props(s, g2, o1.drop_first()));
    assert(o1.drop_first().len() == 0);
    assert(run_props(s, g2, o1.drop_first()) == g2);
}

} // verus!
