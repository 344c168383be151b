//! The computation graph: scalar nodes, operation builders, the
//! dependency-respecting traversal, and the backward-pass driver.
//!
//! Nodes live in one arena (`Graph`); a `Value` is a handle carrying the
//! node's index, which is its identity. Construction is append-only and a
//! node's dependencies always have strictly smaller indices, so the graph is
//! a DAG by construction. An operation is recorded as an `Op` tag plus the
//! dependency list; the backward pass interprets the tag instead of invoking
//! a stored closure.

use vstd::prelude::*;
use crate::scalar::{
    add_bits, sub_bits, mul_bits, div_bits, neg_bits, tanh_bits, pow_bits,
    f_add, f_sub, f_mul, f_div, f_neg, f_tanh, f_pow, ZERO_BITS, ONE_BITS,
};

verus! {

/// Handle to one node of a `Graph`: its index in the arena.
/// Equality of handles is node identity, never value equality.
#[derive(Clone, Copy, PartialEq, Eq, Structural, Debug)]
pub struct Value {
    id: usize,
}

impl View for Value {
    type V = int;

    closed spec fn view(&self) -> int {
        self.id as int
    }
}

/// The operation that produced a node, interpreted by the backward pass.
/// `Pow` carries the constant exponent as an encoded double.
#[derive(Clone, Copy, PartialEq, Eq, Structural, Debug)]
pub enum Op {
    Leaf,
    Add,
    Sub,
    Mul,
    Div,
    Pow(u64),
    Tanh,
    Sum,
}

struct Node {
    data: u64,
    grad: u64,
    op: Op,
    deps: Vec<Value>,
}

/// Mathematical image of one node: scalar bits, gradient bits, the
/// operation, and the indices of the dependency nodes, in order.
pub ghost struct NodeSpec {
    pub data: u64,
    pub grad: u64,
    pub op: Op,
    pub deps: Seq<int>,
}

impl View for Node {
    type V = NodeSpec;

    closed spec fn view(&self) -> NodeSpec {
        NodeSpec {
            data: self.data,
            grad: self.grad,
            op: self.op,
            deps: self.deps@.map_values(|v: Value| v@),
        }
    }
}

/// The arena holding every node of one computation graph.
pub struct Graph {
    nodes: Vec<Node>,
}

impl View for Graph {
    type V = Seq<NodeSpec>;

    closed spec fn view(&self) -> Seq<NodeSpec> {
        self.nodes@.map_values(|n: Node| n@)
    }
}

/// How many dependencies each operation records.
pub open spec fn op_arity_ok(op: Op, n: int) -> bool {
    match op {
        Op::Leaf => n == 0,
        Op::Add | Op::Sub | Op::Mul | Op::Div => n == 2,
        Op::Pow(_) | Op::Tanh => n == 1,
        Op::Sum => true,
    }
}

/// A node standing at index `i` is well formed when its dependencies all
/// point strictly below `i` and their number fits its operation.
pub open spec fn node_wf(n: NodeSpec, i: int) -> bool {
    &&& op_arity_ok(n.op, n.deps.len() as int)
    &&& forall|k: int| 0 <= k < n.deps.len() ==> 0 <= #[trigger] n.deps[k] < i
}

/// Every node points only at earlier nodes: the graph is acyclic.
pub open spec fn wf_seq(s: Seq<NodeSpec>) -> bool {
    forall|i: int| 0 <= i < s.len() ==> node_wf(#[trigger] s[i], i)
}

/// The running total of `sum`: the encoded doubles of `ids`, added left to
/// right onto an encoded zero, exactly as the builder computes it.
pub open spec fn sum_data(s: Seq<NodeSpec>, ids: Seq<int>) -> u64
    decreases ids.len(),
{
    if ids.len() == 0 {
        ZERO_BITS
    } else {
        add_bits(sum_data(s, ids.drop_last()), s[ids.last()].data)
    }
}

impl Graph {
    pub open spec fn wf(&self) -> bool {
        wf_seq(self@)
    }

    /// An empty graph.
    pub fn new() -> (g: Graph)
        ensures
            g@ == Seq::<NodeSpec>::empty(),
            g.wf(),
    {
        let g = Graph { nodes: Vec::new() };
        proof {
            assert(g@ =~= Seq::<NodeSpec>::empty());
        }
        g
    }

    fn push_node(&mut self, data: u64, op: Op, deps: Vec<Value>) -> (v: Value)
        ensures
            v@ == old(self)@.len(),
            final(self)@ == old(self)@.push(NodeSpec {
                data,
                grad: ZERO_BITS,
                op,
                deps: deps@.map_values(|c: Value| c@),
            }),
    {
        let id = self.nodes.len();
        let ghost n_spec = NodeSpec {
            data,
            grad: ZERO_BITS,
            op,
            deps: deps@.map_values(|c: Value| c@),
        };
        self.nodes.push(Node { data, grad: ZERO_BITS, op, deps });
        proof {
            assert(self@ =~= old(self)@.push(n_spec));
        }
        Value { id }
    }

    /// Construct an input, parameter or constant node: the given scalar,
    /// a zero gradient, and no dependencies.
    pub fn leaf(&mut self, data: u64) -> (v: Value)
        ensures
            v@ == old(self)@.len(),
            final(self)@ == old(self)@.push(NodeSpec {
                data,
                grad: ZERO_BITS,
                op: Op::Leaf,
                deps: Seq::empty(),
            }),
            old(self).wf() ==> final(self).wf(),
    {
        let deps: Vec<Value> = Vec::new();
        proof {
            assert(deps@.map_values(|c: Value| c@) =~= Seq::<int>::empty());
        }
        let v = self.push_node(data, Op::Leaf, deps);
        proof {
            lemma_wf_push(old(self)@, self@);
        }
        v
    }

    /// How many nodes the graph holds.
    pub fn node_count(&self) -> (n: usize)
        ensures
            n == self@.len(),
    {
        self.nodes.len()
    }

    /// The node's current scalar, as encoded-double bits.
    pub fn data(&self, v: Value) -> (r: u64)
        requires
            v@ < self@.len(),
        ensures
            r == self@[v@].data,
    {
        self.nodes[v.id].data
    }

    /// Overwrite the node's scalar. This is the one external mutation of
    /// graph state; no operation builder ever changes an existing node.
    pub fn set_data(&mut self, v: Value, data: u64)
        requires
            v@ < old(self)@.len(),
        ensures
            final(self)@ == old(self)@.update(v@, NodeSpec {
                data,
                ..old(self)@[v@]
            }),
            old(self).wf() ==> final(self).wf(),
    {
        let ghost n_spec = NodeSpec { data, ..old(self)@[v@] };
        self.nodes[v.id].data = data;
        proof {
            assert(self@ =~= old(self)@.update(v@, n_spec));
            lemma_wf_update(old(self)@, self@, v@);
        }
    }

    /// The node's accumulated gradient, as encoded-double bits.
    pub fn grad(&self, v: Value) -> (r: u64)
        requires
            v@ < self@.len(),
        ensures
            r == self@[v@].grad,
    {
        self.nodes[v.id].grad
    }

    /// Overwrite the node's gradient. A caller that runs repeated backward
    /// passes over reused parameter nodes resets them through this.
    pub fn set_grad(&mut self, v: Value, grad: u64)
        requires
            v@ < old(self)@.len(),
        ensures
            final(self)@ == old(self)@.update(v@, NodeSpec {
                grad,
                ..old(self)@[v@]
            }),
            old(self).wf() ==> final(self).wf(),
    {
        let ghost n_spec = NodeSpec { grad, ..old(self)@[v@] };
        self.nodes[v.id].grad = grad;
        proof {
            assert(self@ =~= old(self)@.update(v@, n_spec));
            lemma_wf_update(old(self)@, self@, v@);
        }
    }

    fn binop(&mut self, op: Op, data: u64, a: Value, b: Value) -> (v: Value)
        requires
            a@ < old(self)@.len(),
            b@ < old(self)@.len(),
            op_arity_ok(op, 2),
        ensures
            v@ == old(self)@.len(),
            final(self)@ == old(self)@.push(NodeSpec {
                data,
                grad: ZERO_BITS,
                op,
                deps: seq![a@, b@],
            }),
            old(self).wf() ==> final(self).wf(),
    {
        let deps: Vec<Value> = vec![a, b];
        proof {
            assert(deps@.map_values(|c: Value| c@) =~= seq![a@, b@]);
        }
        let v = self.push_node(data, op, deps);
        proof {
            let i = old(self)@.len() as int;
            assert(self@[i].deps[0] == a@);
            assert(self@[i].deps[1] == b@);
            assert(node_wf(self@[i], i));
            lemma_wf_push(old(self)@, self@);
        }
        v
    }

    fn unop(&mut self, op: Op, data: u64, a: Value) -> (v: Value)
        requires
            a@ < old(self)@.len(),
            op_arity_ok(op, 1),
        ensures
            v@ == old(self)@.len(),
            final(self)@ == old(self)@.push(NodeSpec {
                data,
                grad: ZERO_BITS,
                op,
                deps: seq![a@],
            }),
            old(self).wf() ==> final(self).wf(),
    {
        let deps: Vec<Value> = vec![a];
        proof {
            assert(deps@.map_values(|c: Value| c@) =~= seq![a@]);
        }
        let v = self.push_node(data, op, deps);
        proof {
            let i = old(self)@.len() as int;
            assert(self@[i].deps[0] == a@);
            assert(node_wf(self@[i], i));
            lemma_wf_push(old(self)@, self@);
        }
        v
    }

    /// A new node carrying the sum of the two operands' scalars, depending
    /// on exactly `[a, b]`; the operands are not changed.
    pub fn add(&mut self, a: Value, b: Value) -> (v: Value)
        requires
            a@ < old(self)@.len(),
            b@ < old(self)@.len(),
        ensures
            v@ == old(self)@.len(),
            final(self)@ == old(self)@.push(NodeSpec {
                data: add_bits(old(self)@[a@].data, old(self)@[b@].data),
                grad: ZERO_BITS,
                op: Op::Add,
                deps: seq![a@, b@],
            }),
            old(self).wf() ==> final(self).wf(),
    {
        let data = f_add(self.data(a), self.data(b));
        self.binop(Op::Add, data, a, b)
    }

    /// A new node carrying the difference of the two operands' scalars,
    /// depending on exactly `[a, b]`; the operands are not changed.
    pub fn sub(&mut self, a: Value, b: Value) -> (v: Value)
        requires
            a@ < old(self)@.len(),
            b@ < old(self)@.len(),
        ensures
            v@ == old(self)@.len(),
            final(self)@ == old(self)@.push(NodeSpec {
                data: sub_bits(old(self)@[a@].data, old(self)@[b@].data),
                grad: ZERO_BITS,
                op: Op::Sub,
                deps: seq![a@, b@],
            }),
            old(self).wf() ==> final(self).wf(),
    {
        let data = f_sub(self.data(a), self.data(b));
        self.binop(Op::Sub, data, a, b)
    }

    /// A new node carrying the product of the two operands' scalars,
    /// depending on exactly `[a, b]`; the operands are not changed.
    pub fn mul(&mut self, a: Value, b: Value) -> (v: Value)
        requires
            a@ < old(self)@.len(),
            b@ < old(self)@.len(),
        ensures
            v@ == old(self)@.len(),
            final(self)@ == old(self)@.push(NodeSpec {
                data: mul_bits(old(self)@[a@].data, old(self)@[b@].data),
                grad: ZERO_BITS,
                op: Op::Mul,
                deps: seq![a@, b@],
            }),
            old(self).wf() ==> final(self).wf(),
    {
        let data = f_mul(self.data(a), self.data(b));
        self.binop(Op::Mul, data, a, b)
    }

    /// A new node carrying the quotient of the two operands' scalars,
    /// depending on exactly `[a, b]`; the operands are not changed. A zero
    /// divisor yields an infinity or NaN encoding, never a failure.
    pub fn div(&mut self, a: Value, b: Value) -> (v: Value)
        requires
            a@ < old(self)@.len(),
            b@ < old(self)@.len(),
        ensures
            v@ == old(self)@.len(),
            final(self)@ == old(self)@.push(NodeSpec {
                data: div_bits(old(self)@[a@].data, old(self)@[b@].data),
                grad: ZERO_BITS,
                op: Op::Div,
                deps: seq![a@, b@],
            }),
            old(self).wf() ==> final(self).wf(),
    {
        let data = f_div(self.data(a), self.data(b));
        self.binop(Op::Div, data, a, b)
    }

    /// A new node carrying the hyperbolic tangent of the operand's scalar,
    /// depending on exactly `[a]`; the operand is not changed.
    pub fn tanh(&mut self, a: Value) -> (v: Value)
        requires
            a@ < old(self)@.len(),
        ensures
            v@ == old(self)@.len(),
            final(self)@ == old(self)@.push(NodeSpec {
                data: tanh_bits(old(self)@[a@].data),
                grad: ZERO_BITS,
                op: Op::Tanh,
                deps: seq![a@],
            }),
            old(self).wf() ==> final(self).wf(),
    {
        let data = f_tanh(self.data(a));
        self.unop(Op::Tanh, data, a)
    }

    /// A new node carrying the operand's scalar raised to the constant
    /// exponent `n` (encoded-double bits), depending on exactly `[a]`; the
    /// operand is not changed.
    pub fn pow(&mut self, a: Value, n: u64) -> (v: Value)
        requires
            a@ < old(self)@.len(),
        ensures
            v@ == old(self)@.len(),
            final(self)@ == old(self)@.push(NodeSpec {
                data: pow_bits(old(self)@[a@].data, n),
                grad: ZERO_BITS,
                op: Op::Pow(n),
                deps: seq![a@],
            }),
            old(self).wf() ==> final(self).wf(),
    {
        let data = f_pow(self.data(a), n);
        self.unop(Op::Pow(n), data, a)
    }

    /// A new node carrying the scalars of `xs` added left to right onto an
    /// encoded zero. The node depends on all of `xs`, in order, so
    /// gradients flow through the reduction like through every other
    /// operation.
    pub fn sum(&mut self, xs: &Vec<Value>) -> (v: Value)
        requires
            forall|k: int| 0 <= k < xs@.len() ==> (#[trigger] xs@[k])@ < old(self)@.len(),
        ensures
            v@ == old(self)@.len(),
            final(self)@ == old(self)@.push(NodeSpec {
                data: sum_data(old(self)@, xs@.map_values(|c: Value| c@)),
                grad: ZERO_BITS,
                op: Op::Sum,
                deps: xs@.map_values(|c: Value| c@),
            }),
            old(self).wf() ==> final(self).wf(),
    {
        let mut acc: u64 = ZERO_BITS;
        let mut deps: Vec<Value> = Vec::new();
        let mut k: usize = 0;
        proof {
            assert(xs@.take(0).map_values(|c: Value| c@) =~= Seq::<int>::empty());
        }
        while k < xs.len()
            invariant
                k <= xs@.len(),
                *self == *old(self),
                forall|j: int| 0 <= j < xs@.len() ==> (#[trigger] xs@[j])@ < self@.len(),
                deps@ == xs@.take(k as int),
                acc == sum_data(self@, xs@.take(k as int).map_values(|c: Value| c@)),
            decreases xs@.len() - k,
        {
            let x = xs[k];
            acc = f_add(acc, self.data(x));
            deps.push(x);
            proof {
                let t0 = xs@.take(k as int).map_values(|c: Value| c@);
                let t1 = xs@.take(k + 1).map_values(|c: Value| c@);
                assert(t1 =~= t0.push(xs@[k as int]@));
                assert(t1.drop_last() =~= t0);
                assert(deps@ =~= xs@.take(k + 1));
            }
            k += 1;
        }
        proof {
            assert(xs@.take(xs@.len() as int) =~= xs@);
        }
        let v = self.push_node(acc, Op::Sum, deps);
        proof {
            let i = old(self)@.len() as int;
            assert(self@[i].deps =~= xs@.map_values(|c: Value| c@));
            assert forall|j: int| 0 <= j < self@[i].deps.len()
                implies 0 <= #[trigger] self@[i].deps[j] < i by {
                assert(self@[i].deps[j] == xs@[j]@);
            }
            assert(node_wf(self@[i], i));
            lemma_wf_push(old(self)@, self@);
        }
        v
    }

    /// The dependency-respecting visiting order of the DAG rooted at
    /// `root`: depth-first post-order, reversed, so that the root comes
    /// first and every node stands before all of its dependencies. A node
    /// reachable along several paths appears exactly once.
    pub fn topological_sort(&self, root: Value) -> (r: Vec<Value>)
        requires
            self.wf(),
            root@ < self@.len(),
        ensures
            ids_of(r@) == traversal_order(self@, root@),
            r@.len() > 0,
            r@[0]@ == root@,
            ids_distinct(ids_of(r@)),
    {
        proof {
            lemma_traversal_properties(self@, root@);
        }
        let len = self.nodes.len();
        let mut visited: Vec<bool> = Vec::new();
        let mut j: usize = 0;
        while j < len
            invariant
                j <= len,
                visited@.len() == j,
                forall|i: int| 0 <= i < j ==> !visited@[i],
            decreases len - j,
        {
            visited.push(false);
            j += 1;
        }
        proof {
            assert(visited@.len() == self@.len());
            assert(vis_set(visited@) =~= Set::<int>::empty());
        }
        let mut topo: Vec<Value> = Vec::new();
        proof {
            assert(ids_of(topo@) =~= Seq::<int>::empty());
        }
        visit(self, root.id, &mut visited, &mut topo);
        proof {
            let r0 = dfs_node(self@, root@, Set::empty());
            assert(Seq::<int>::empty() + r0.0 =~= r0.0);
        }
        let mut r: Vec<Value> = Vec::new();
        let mut k = topo.len();
        while k > 0
            invariant
                k <= topo@.len(),
                r@.len() == topo@.len() - k,
                forall|i: int| 0 <= i < r@.len() ==>
                    #[trigger] r@[i] == topo@[topo@.len() - 1 - i],
            decreases k,
        {
            k -= 1;
            let x = topo[k];
            r.push(x);
        }
        proof {
            assert(ids_of(r@) =~= ids_of(topo@).reverse());
        }
        r
    }

    /// Apply node `i`'s local chain-rule contribution to its dependencies'
    /// gradient accumulators.
    fn propagate(&mut self, i: usize)
        requires
            old(self).wf(),
            i < old(self)@.len(),
        ensures
            final(self).wf(),
            final(self)@ == with_grads(
                old(self)@,
                prop_step(old(self)@, grads_of(old(self)@), i as int),
            ),
    {
        proof {
            assert(node_wf(old(self)@[i as int], i as int));
        }
        let ghost s0 = old(self)@;
        let ghost g0 = grads_of(old(self)@);
        let ghost pg = prop_step(s0, g0, i as int);
        let gy = self.nodes[i].grad;
        proof {
            assert(gy == g0[i as int]);
        }
        let op = self.nodes[i].op;
        proof {
            assert(op == s0[i as int].op);
        }
        match op {
            Op::Leaf => {
                proof {
                    assert(self@ =~= with_grads(s0, pg));
                }
            },
            Op::Add => {
                let d0 = self.nodes[i].deps[0].id;
                let d1 = self.nodes[i].deps[1].id;
                proof {
                    assert(d0 as int == s0[i as int].deps[0] && d1 as int == s0[i as int].deps[1]);
                }
                let t0 = f_add(self.nodes[d0].grad, gy);
                self.nodes[d0].grad = t0;
                let t1 = f_add(self.nodes[d1].grad, gy);
                self.nodes[d1].grad = t1;
                proof {
                    assert(self@ =~= with_grads(s0, pg));
                }
            },
            Op::Sub => {
                let d0 = self.nodes[i].deps[0].id;
                let d1 = self.nodes[i].deps[1].id;
                proof {
                    assert(d0 as int == s0[i as int].deps[0] && d1 as int == s0[i as int].deps[1]);
                }
                let t0 = f_add(self.nodes[d0].grad, gy);
                self.nodes[d0].grad = t0;
                let t1 = f_sub(self.nodes[d1].grad, gy);
                self.nodes[d1].grad = t1;
                proof {
                    assert(self@ =~= with_grads(s0, pg));
                }
            },
            Op::Mul => {
                let d0 = self.nodes[i].deps[0].id;
                let d1 = self.nodes[i].deps[1].id;
                proof {
                    assert(d0 as int == s0[i as int].deps[0] && d1 as int == s0[i as int].deps[1]);
                }
                let da = self.nodes[d0].data;
                let db = self.nodes[d1].data;
                let t0 = f_add(self.nodes[d0].grad, f_mul(db, gy));
                self.nodes[d0].grad = t0;
                let t1 = f_add(self.nodes[d1].grad, f_mul(da, gy));
                self.nodes[d1].grad = t1;
                proof {
                    assert(self@ =~= with_grads(s0, pg));
                }
            },
            Op::Div => {
                let d0 = self.nodes[i].deps[0].id;
                let d1 = self.nodes[i].deps[1].id;
                proof {
                    assert(d0 as int == s0[i as int].deps[0] && d1 as int == s0[i as int].deps[1]);
                }
                let da = self.nodes[d0].data;
                let db = self.nodes[d1].data;
                let t0 = f_add(self.nodes[d0].grad, f_mul(f_div(ONE_BITS, db), gy));
                self.nodes[d0].grad = t0;
                let t1 = f_add(
                    self.nodes[d1].grad,
                    f_mul(f_div(f_neg(da), f_mul(db, db)), gy),
                );
                self.nodes[d1].grad = t1;
                proof {
                    assert(self@ =~= with_grads(s0, pg));
                }
            },
            Op::Pow(n) => {
                let d0 = self.nodes[i].deps[0].id;
                proof {
                    assert(d0 as int == s0[i as int].deps[0]);
                }
                let da = self.nodes[d0].data;
                let t0 = f_add(
                    self.nodes[d0].grad,
                    f_mul(f_mul(n, f_pow(da, f_sub(n, ONE_BITS))), gy),
                );
                self.nodes[d0].grad = t0;
                proof {
                    assert(self@ =~= with_grads(s0, pg));
                }
            },
            Op::Tanh => {
                let d0 = self.nodes[i].deps[0].id;
                proof {
                    assert(d0 as int == s0[i as int].deps[0]);
                }
                let y = self.nodes[i].data;
                let t0 = f_add(self.nodes[d0].grad, f_mul(f_sub(ONE_BITS, f_mul(y, y)), gy));
                self.nodes[d0].grad = t0;
                proof {
                    assert(self@ =~= with_grads(s0, pg));
                }
            },
            Op::Sum => {
                let ghost deps = s0[i as int].deps;
                let m = self.nodes[i].deps.len();
                let mut k: usize = 0;
                proof {
                    assert(deps.take(0) =~= Seq::<int>::empty());
                    assert(self@ =~= with_grads(s0, acc_into(g0, deps.take(0), gy)));
                }
                while k < m
                    invariant
                        wf_seq(s0),
                        i < s0.len(),
                        node_wf(s0[i as int], i as int),
                        deps == s0[i as int].deps,
                        m == deps.len(),
                        k <= m,
                        g0 == grads_of(s0),
                        gy == g0[i as int],
                        self@ == with_grads(s0, acc_into(g0, deps.take(k as int), gy)),
                    decreases m - k,
                {
                    let ghost acc_k = acc_into(g0, deps.take(k as int), gy);
                    proof {
                        assert(forall|q: int| 0 <= q < deps.take(k as int).len()
                            ==> 0 <= #[trigger] deps.take(k as int)[q] < g0.len());
                        lemma_acc_into_len(g0, deps.take(k as int), gy);
                    }
                    proof {
                        assert(self@.len() == s0.len());
                        assert(self.nodes@.len() == self@.len());
                        assert(self@[i as int].deps == deps);
                        assert(self.nodes@[i as int]@.deps.len() == deps.len());
                    }
                    let d = self.nodes[i].deps[k].id;
                    proof {
                        assert(d as int == deps[k as int]);
                        assert(self@[d as int].grad == acc_k[d as int]);
                    }
                    let ghost sb = self@;
                    let t = f_add(self.nodes[d].grad, gy);
                    self.nodes[d].grad = t;
                    proof {
                        lemma_acc_into_snoc(g0, deps.take(k as int), d as int, gy);
                        assert(deps.take(k as int + 1) =~= deps.take(k as int).push(d as int));
                        let acc_k1 = acc_into(g0, deps.take(k as int + 1), gy);
                        assert(acc_k1 == acc_k.update(d as int, add_bits(acc_k[d as int], gy)));
                        assert forall|j: int| 0 <= j < self@.len()
                            implies self@[j] == with_grads(s0, acc_k1)[j] by {
                            if j == d as int {
                                assert(self@[j].grad == t);
                                assert(self@[j].data == sb[j].data);
                                assert(self@[j].op == sb[j].op);
                                assert(self@[j].deps == sb[j].deps);
                                assert(sb[j] == with_grads(s0, acc_k)[j]);
                            } else {
                                assert(self@[j] == sb[j]);
                                assert(sb[j] == with_grads(s0, acc_k)[j]);
                                assert(acc_k1[j] == acc_k[j]);
                            }
                        }
                        assert(self@ =~= with_grads(s0, acc_k1));
                    }
                    k += 1;
                }
                proof {
                    assert(deps.take(m as int) =~= deps);
                }
            },
        }
        proof {
            lemma_wf_with_grads(s0, pg);
        }
    }

    /// The backward pass: seed the root's gradient with an encoded one (the
    /// derivative of the root with respect to itself), then let every node
    /// of the traversal order propagate, root first, pure leaves last. Its
    /// only effect is writing gradient accumulators.
    pub fn backward(&mut self, root: Value)
        requires
            old(self).wf(),
            root@ < old(self)@.len(),
        ensures
            final(self).wf(),
            final(self)@ == with_grads(
                old(self)@,
                run_props(
                    old(self)@,
                    grads_of(old(self)@).update(root@, ONE_BITS),
                    traversal_order(old(self)@, root@),
                ),
            ),
    {
        let ghost s0 = old(self)@;
        let ghost rev = dfs_node(s0, root@, Set::empty()).0.reverse();
        let ghost gseed = grads_of(s0).update(root@, ONE_BITS);
        let order = self.topological_sort(root);
        proof {
            lemma_dfs_node_range(s0, root@, Set::empty());
            let fwd = dfs_node(s0, root@, Set::empty()).0;
            assert forall|p: int| 0 <= p < rev.len()
                implies 0 <= #[trigger] rev[p] < s0.len() by {
                assert(rev[p] == fwd[fwd.len() - 1 - p]);
            }
        }
        self.set_grad(root, ONE_BITS);
        proof {
            assert(self@ =~= with_grads(s0, gseed));
            assert(rev.take(0) =~= Seq::<int>::empty());
        }
        let n = order.len();
        let mut k: usize = 0;
        while k < n
            invariant
                wf_seq(s0),
                root@ < s0.len(),
                n == order@.len(),
                k <= n,
                ids_of(order@) == rev,
                forall|p: int| 0 <= p < rev.len() ==> 0 <= #[trigger] rev[p] < s0.len(),
                gseed == grads_of(s0).update(root@, ONE_BITS),
                self@ == with_grads(s0, run_props(s0, gseed, rev.take(k as int))),
            decreases n - k,
        {
            let ghost gk = run_props(s0, gseed, rev.take(k as int));
            let ghost s_before = self@;
            proof {
                assert(forall|p: int| 0 <= p < rev.take(k as int).len()
                    ==> 0 <= #[trigger] rev.take(k as int)[p] < s0.len());
                lemma_run_props_len(s0, gseed, rev.take(k as int));
                lemma_wf_with_grads(s0, gk);
            }
            let v = order[k];
            proof {
                assert(v@ == ids_of(order@)[k as int]);
                assert(v@ == rev[k as int]);
            }
            self.propagate(v.id);
            proof {
                assert(grads_of(s_before) =~= gk);
                assert(forall|j: int| 0 <= j < s0.len() ==> (#[trigger] s0[j]).op == s_before[j].op
                    && s0[j].deps == s_before[j].deps && s0[j].data == s_before[j].data);
                lemma_prop_step_same(s0, s_before, gk, rev[k as int]);
                lemma_run_props_snoc(s0, gseed, rev.take(k as int), rev[k as int]);
                assert(rev.take(k as int + 1) =~= rev.take(k as int).push(rev[k as int]));
                assert(self@ =~= with_grads(s0, run_props(s0, gseed, rev.take(k as int + 1))));
            }
            k += 1;
        }
        proof {
            assert(rev.take(n as int) =~= rev);
        }
    }

    /// The node's dependency list, in the order it was recorded.
    pub fn children(&self, v: Value) -> (r: Vec<Value>)
        requires
            v@ < self@.len(),
        ensures
            r@.map_values(|c: Value| c@) == self@[v@].deps,
    {
        let r = self.nodes[v.id].deps.clone();
        proof {
            assert(r@ =~= self.nodes[v.id as int].deps@);
            assert(r@.map_values(|c: Value| c@) =~= self@[v@].deps);
        }
        r
    }
}

/// The node indices of a sequence of handles.
pub open spec fn ids_of(t: Seq<Value>) -> Seq<int> {
    t.map_values(|x: Value| x@)
}

/// The set of indices a visited-marks vector holds.
pub open spec fn vis_set(b: Seq<bool>) -> Set<int> {
    Set::new(|i: int| 0 <= i < b.len() && b[i])
}

/// Depth-first post-order traversal from node `id`, skipping nodes already
/// in `vis`: the nodes appended to the order, and the visited set after.
/// A node is appended only after all of its dependencies.
pub open spec fn dfs_node(s: Seq<NodeSpec>, id: int, vis: Set<int>) -> (Seq<int>, Set<int>)
    decreases id, 1int, 0int,
        when 0 <= id < s.len() && wf_seq(s)
{
    if vis.contains(id) {
        (Seq::<int>::empty(), vis)
    } else {
        let r = dfs_list(s, id, s[id].deps, vis.insert(id));
        (r.0.push(id), r.1)
    }
}

/// The traversal of a list of nodes, each strictly below `bound`, left to
/// right, threading the visited set through.
pub open spec fn dfs_list(s: Seq<NodeSpec>, bound: int, ids: Seq<int>, vis: Set<int>) -> (Seq<int>, Set<int>)
    decreases bound, 0int, ids.len(),
        when 0 <= bound < s.len() && wf_seq(s)
            && (forall|k: int| 0 <= k < ids.len() ==> 0 <= #[trigger] ids[k] < bound)
{
    if ids.len() == 0 {
        (Seq::<int>::empty(), vis)
    } else {
        let r1 = dfs_node(s, ids.first(), vis);
        let r2 = dfs_list(s, bound, ids.drop_first(), r1.1);
        (r1.0 + r2.0, r2.1)
    }
}

/// Traversing a list and then one more node is the traversal of the list
/// with that node appended.
proof fn lemma_dfs_list_snoc(s: Seq<NodeSpec>, bound: int, ids: Seq<int>, x: int, vis: Set<int>)
    requires
        wf_seq(s),
        0 <= bound < s.len(),
        forall|k: int| 0 <= k < ids.len() ==> 0 <= #[trigger] ids[k] < bound,
        0 <= x < bound,
    ensures
        dfs_list(s, bound, ids.push(x), vis) == ({
            let r1 = dfs_list(s, bound, ids, vis);
            let r2 = dfs_node(s, x, r1.1);
            (r1.0 + r2.0, r2.1)
        }),
    decreases ids.len(),
{
    let snoc = ids.push(x);
    assert(forall|k: int| 0 <= k < snoc.len() ==> 0 <= #[trigger] snoc[k] < bound);
    let l = dfs_list(s, bound, snoc, vis);
    if ids.len() == 0 {
        let r2 = dfs_node(s, x, vis);
        assert(snoc.first() == x);
        assert(snoc.drop_first() =~= Seq::<int>::empty());
        let ra = dfs_node(s, snoc.first(), vis);
        let rb = dfs_list(s, bound, snoc.drop_first(), ra.1);
        assert(l.0 == ra.0 + rb.0 && l.1 == rb.1);
        assert(ra == r2);
        assert(rb.0 == Seq::<int>::empty() && rb.1 == ra.1);
        assert(r2.0 + Seq::<int>::empty() =~= r2.0);
        assert(l.0 == dfs_list(s, bound, ids, vis).0 + r2.0);
        assert(l.1 == r2.1);
    } else {
        let r1 = dfs_node(s, ids.first(), vis);
        assert(snoc.first() == ids.first());
        assert(snoc.drop_first() =~= ids.drop_first().push(x));
        assert(forall|k: int| 0 <= k < ids.drop_first().len()
            ==> 0 <= #[trigger] ids.drop_first()[k] < bound);
        lemma_dfs_list_snoc(s, bound, ids.drop_first(), x, r1.1);
        let ra = dfs_list(s, bound, ids.drop_first(), r1.1);
        let rb = dfs_node(s, x, ra.1);
        assert(r1.0 + (ra.0 + rb.0) =~= (r1.0 + ra.0) + rb.0);
        let rl = dfs_list(s, bound, ids, vis);
        assert(rl.0 == r1.0 + ra.0 && rl.1 == ra.1);
        let r2 = dfs_node(s, x, rl.1);
        assert(l.0 == r1.0 + (ra.0 + rb.0));
        assert(l.0 == rl.0 + r2.0);
        assert(l.1 == r2.1);
    }
}

/// The gradient bits of every node, by index.
pub open spec fn grads_of(s: Seq<NodeSpec>) -> Seq<u64> {
    s.map_values(|n: NodeSpec| n.grad)
}

/// The graph with every gradient replaced from `g`; scalars, operations
/// and dependencies are kept.
pub open spec fn with_grads(s: Seq<NodeSpec>, g: Seq<u64>) -> Seq<NodeSpec> {
    Seq::new(s.len(), |i: int| NodeSpec { grad: g[i], ..s[i] })
}

/// `gy` added (as encoded doubles) into the gradient of each listed node,
/// left to right; a node listed twice receives the contribution twice.
pub open spec fn acc_into(g: Seq<u64>, ids: Seq<int>, gy: u64) -> Seq<u64>
    decreases ids.len(),
{
    if ids.len() == 0 {
        g
    } else {
        let d = ids.first();
        acc_into(g.update(d, add_bits(g[d], gy)), ids.drop_first(), gy)
    }
}

/// One node's local chain-rule contribution: with `gy` the node's own
/// gradient, each dependency's gradient accumulates the operation's local
/// derivative times `gy`, in dependency-list order.
pub open spec fn prop_step(s: Seq<NodeSpec>, g: Seq<u64>, i: int) -> Seq<u64> {
    let gy = g[i];
    let deps = s[i].deps;
    match s[i].op {
        Op::Leaf => g,
        Op::Add => {
            let g1 = g.update(deps[0], add_bits(g[deps[0]], gy));
            g1.update(deps[1], add_bits(g1[deps[1]], gy))
        },
        Op::Sub => {
            let g1 = g.update(deps[0], add_bits(g[deps[0]], gy));
            g1.update(deps[1], sub_bits(g1[deps[1]], gy))
        },
        Op::Mul => {
            let da = s[deps[0]].data;
            let db = s[deps[1]].data;
            let g1 = g.update(deps[0], add_bits(g[deps[0]], mul_bits(db, gy)));
            g1.update(deps[1], add_bits(g1[deps[1]], mul_bits(da, gy)))
        },
        Op::Div => {
            let da = s[deps[0]].data;
            let db = s[deps[1]].data;
            let g1 = g.update(deps[0], add_bits(g[deps[0]], mul_bits(div_bits(ONE_BITS, db), gy)));
            g1.update(deps[1], add_bits(
                g1[deps[1]],
                mul_bits(div_bits(neg_bits(da), mul_bits(db, db)), gy),
            ))
        },
        Op::Pow(n) => {
            let da = s[deps[0]].data;
            g.update(deps[0], add_bits(
                g[deps[0]],
                mul_bits(mul_bits(n, pow_bits(da, sub_bits(n, ONE_BITS))), gy),
            ))
        },
        Op::Tanh => {
            let y = s[i].data;
            g.update(deps[0], add_bits(
                g[deps[0]],
                mul_bits(sub_bits(ONE_BITS, mul_bits(y, y)), gy),
            ))
        },
        Op::Sum => acc_into(g, deps, gy),
    }
}

/// The gradients after the listed nodes have propagated, left to right.
pub open spec fn run_props(s: Seq<NodeSpec>, g: Seq<u64>, order: Seq<int>) -> Seq<u64>
    decreases order.len(),
{
    if order.len() == 0 {
        g
    } else {
        run_props(s, prop_step(s, g, order.first()), order.drop_first())
    }
}

proof fn lemma_acc_into_len(g: Seq<u64>, ids: Seq<int>, gy: u64)
    requires
        forall|k: int| 0 <= k < ids.len() ==> 0 <= #[trigger] ids[k] < g.len(),
    ensures
        acc_into(g, ids, gy).len() == g.len(),
    decreases ids.len(),
{
    if ids.len() > 0 {
        let d = ids.first();
        let g1 = g.update(d, add_bits(g[d], gy));
        assert(forall|k: int| 0 <= k < ids.drop_first().len()
            ==> 0 <= #[trigger] ids.drop_first()[k] < g1.len());
        lemma_acc_into_len(g1, ids.drop_first(), gy);
    }
}

proof fn lemma_acc_into_snoc(g: Seq<u64>, ids: Seq<int>, x: int, gy: u64)
    ensures
        acc_into(g, ids.push(x), gy) == ({
            let gk = acc_into(g, ids, gy);
            gk.update(x, add_bits(gk[x], gy))
        }),
    decreases ids.len(),
{
    let snoc = ids.push(x);
    if ids.len() == 0 {
        assert(snoc.first() == x);
        assert(snoc.drop_first() =~= Seq::<int>::empty());
        let g1 = g.update(x, add_bits(g[x], gy));
        assert(acc_into(g, snoc, gy) == acc_into(g1, snoc.drop_first(), gy));
        assert(acc_into(g1, Seq::<int>::empty(), gy) == g1);
    } else {
        let d = ids.first();
        let g1 = g.update(d, add_bits(g[d], gy));
        assert(snoc.first() == d);
        assert(snoc.drop_first() =~= ids.drop_first().push(x));
        lemma_acc_into_snoc(g1, ids.drop_first(), x, gy);
        assert(acc_into(g, snoc, gy) == acc_into(g1, ids.drop_first().push(x), gy));
        assert(acc_into(g, ids, gy) == acc_into(g1, ids.drop_first(), gy));
    }
}

proof fn lemma_prop_step_len(s: Seq<NodeSpec>, g: Seq<u64>, i: int)
    requires
        wf_seq(s),
        s.len() == g.len(),
        0 <= i < s.len(),
    ensures
        prop_step(s, g, i).len() == g.len(),
{
    assert(node_wf(s[i], i));
    match s[i].op {
        Op::Sum => {
            assert(forall|k: int| 0 <= k < s[i].deps.len()
                ==> 0 <= #[trigger] s[i].deps[k] < g.len());
            lemma_acc_into_len(g, s[i].deps, g[i]);
        },
        _ => {},
    }
}

proof fn lemma_run_props_len(s: Seq<NodeSpec>, g: Seq<u64>, order: Seq<int>)
    requires
        wf_seq(s),
        s.len() == g.len(),
        forall|k: int| 0 <= k < order.len() ==> 0 <= #[trigger] order[k] < s.len(),
    ensures
        run_props(s, g, order).len() == g.len(),
    decreases order.len(),
{
    if order.len() > 0 {
        lemma_prop_step_len(s, g, order.first());
        assert(forall|k: int| 0 <= k < order.drop_first().len()
            ==> 0 <= #[trigger] order.drop_first()[k] < s.len());
        lemma_run_props_len(s, prop_step(s, g, order.first()), order.drop_first());
    }
}

proof fn lemma_run_props_snoc(s: Seq<NodeSpec>, g: Seq<u64>, order: Seq<int>, x: int)
    ensures
        run_props(s, g, order.push(x)) == prop_step(s, run_props(s, g, order), x),
    decreases order.len(),
{
    let snoc = order.push(x);
    if order.len() == 0 {
        assert(snoc.first() == x);
        assert(snoc.drop_first() =~= Seq::<int>::empty());
        assert(run_props(s, g, snoc) == run_props(s, prop_step(s, g, x), Seq::<int>::empty()));
    } else {
        assert(snoc.first() == order.first());
        assert(snoc.drop_first() =~= order.drop_first().push(x));
        lemma_run_props_snoc(s, prop_step(s, g, order.first()), order.drop_first(), x);
        assert(run_props(s, g, snoc)
            == run_props(s, prop_step(s, g, order.first()), order.drop_first().push(x)));
    }
}

/// Two graphs agreeing on scalars, operations and dependencies propagate
/// gradients identically: `prop_step` never reads a stored gradient.
proof fn lemma_prop_step_same(s1: Seq<NodeSpec>, s2: Seq<NodeSpec>, g: Seq<u64>, i: int)
    requires
        wf_seq(s1),
        s1.len() == s2.len(),
        0 <= i < s1.len(),
        forall|j: int| 0 <= j < s1.len() ==> (#[trigger] s1[j]).op == s2[j].op
            && s1[j].deps == s2[j].deps && s1[j].data == s2[j].data,
    ensures
        prop_step(s1, g, i) == prop_step(s2, g, i),
{
    assert(s1[i].op == s2[i].op);
    assert(s1[i].deps == s2[i].deps);
    assert(node_wf(s1[i], i));
    let deps = s1[i].deps;
    match s1[i].op {
        Op::Mul | Op::Div => {
            assert(s1[deps[0]].data == s2[deps[0]].data);
            assert(s1[deps[1]].data == s2[deps[1]].data);
        },
        Op::Pow(_) => {
            assert(s1[deps[0]].data == s2[deps[0]].data);
        },
        Op::Tanh => {
            assert(s1[i].data == s2[i].data);
        },
        _ => {},
    }
}

/// Replacing gradients alone keeps the graph well formed.
proof fn lemma_wf_with_grads(s: Seq<NodeSpec>, g: Seq<u64>)
    requires
        wf_seq(s),
    ensures
        wf_seq(with_grads(s, g)),
{
    let s1 = with_grads(s, g);
    assert forall|i: int| 0 <= i < s1.len() implies node_wf(#[trigger] s1[i], i) by {
        assert(node_wf(s[i], i));
        assert(s1[i].op == s[i].op);
        assert(s1[i].deps == s[i].deps);
    }
}

/// Every index the traversal emits lies in `[0, id]`.
proof fn lemma_dfs_node_range(s: Seq<NodeSpec>, id: int, vis: Set<int>)
    requires
        wf_seq(s),
        0 <= id < s.len(),
    ensures
        forall|p: int| 0 <= p < dfs_node(s, id, vis).0.len()
            ==> 0 <= #[trigger] dfs_node(s, id, vis).0[p] <= id,
    decreases id, 1int, 0int,
{
    if !vis.contains(id) {
        assert(node_wf(s[id], id));
        lemma_dfs_list_range(s, id, s[id].deps, vis.insert(id));
        let r = dfs_list(s, id, s[id].deps, vis.insert(id));
        assert(dfs_node(s, id, vis).0 == r.0.push(id));
        assert forall|p: int| 0 <= p < dfs_node(s, id, vis).0.len()
            implies 0 <= #[trigger] dfs_node(s, id, vis).0[p] <= id by {
            if p < r.0.len() {
                assert(dfs_node(s, id, vis).0[p] == r.0[p]);
            } else {
                assert(dfs_node(s, id, vis).0[p] == id);
            }
        }
    }
}

/// Every index the traversal of a bounded list emits lies below the bound.
proof fn lemma_dfs_list_range(s: Seq<NodeSpec>, bound: int, ids: Seq<int>, vis: Set<int>)
    requires
        wf_seq(s),
        0 <= bound < s.len(),
        forall|k: int| 0 <= k < ids.len() ==> 0 <= #[trigger] ids[k] < bound,
    ensures
        forall|p: int| 0 <= p < dfs_list(s, bound, ids, vis).0.len()
            ==> 0 <= #[trigger] dfs_list(s, bound, ids, vis).0[p] < bound,
    decreases bound, 0int, ids.len(),
{
    if ids.len() > 0 {
        let r1 = dfs_node(s, ids.first(), vis);
        lemma_dfs_node_range(s, ids.first(), vis);
        assert(forall|k: int| 0 <= k < ids.drop_first().len()
            ==> 0 <= #[trigger] ids.drop_first()[k] < bound);
        lemma_dfs_list_range(s, bound, ids.drop_first(), r1.1);
        let r2 = dfs_list(s, bound, ids.drop_first(), r1.1);
        assert(dfs_list(s, bound, ids, vis).0 == r1.0 + r2.0);
        assert forall|p: int| 0 <= p < dfs_list(s, bound, ids, vis).0.len()
            implies 0 <= #[trigger] dfs_list(s, bound, ids, vis).0[p] < bound by {
            if p < r1.0.len() {
                assert(dfs_list(s, bound, ids, vis).0[p] == r1.0[p]);
                assert(0 <= r1.0[p] <= ids.first());
            } else {
                assert(dfs_list(s, bound, ids, vis).0[p] == r2.0[p - r1.0.len()]);
            }
        }
    }
}

/// No index appears twice.
pub open spec fn ids_distinct(t: Seq<int>) -> bool {
    forall|p: int, q: int| 0 <= p < q < t.len() ==> t[p] != t[q]
}

/// In a post-order sequence, every dependency of a listed node stands
/// strictly earlier in the sequence than the node itself.
pub open spec fn deps_come_before(s: Seq<NodeSpec>, t: Seq<int>) -> bool {
    forall|p: int, k: int|
        0 <= p < t.len() && 0 <= k < s[t[p]].deps.len()
            ==> t.subrange(0, p).contains(#[trigger] s[t[p]].deps[k])
}

/// A set of indices closed under taking dependencies.
pub open spec fn deps_closed(s: Seq<NodeSpec>, m: Set<int>) -> bool {
    forall|i: int, k: int|
        m.contains(i) && 0 <= i < s.len() && 0 <= k < s[i].deps.len()
            ==> m.contains(#[trigger] s[i].deps[k])
}

/// `i` is reachable from `root` through dependency edges: it belongs to
/// every dependency-closed set that holds the root.
pub open spec fn reachable(s: Seq<NodeSpec>, root: int, i: int) -> bool {
    forall|m: Set<int>| m.contains(root) && #[trigger] deps_closed(s, m) ==> m.contains(i)
}

proof fn lemma_to_set_push(t: Seq<int>, x: int)
    ensures
        t.push(x).to_set() == t.to_set().insert(x),
{
    assert forall|y: int| #[trigger] t.push(x).to_set().contains(y)
        implies t.to_set().insert(x).contains(y) by {
        let p = choose|p: int| 0 <= p < t.push(x).len() && t.push(x)[p] == y;
        if p < t.len() {
            assert(t[p] == y);
        }
    }
    assert forall|y: int| #[trigger] t.to_set().insert(x).contains(y)
        implies t.push(x).to_set().contains(y) by {
        if y == x {
            assert(t.push(x)[t.len() as int] == y);
        } else {
            let p = choose|p: int| 0 <= p < t.len() && t[p] == y;
            assert(t.push(x)[p] == y);
        }
    }
    assert(t.push(x).to_set() =~= t.to_set().insert(x));
}

proof fn lemma_to_set_concat(a: Seq<int>, b: Seq<int>)
    ensures
        (a + b).to_set() == a.to_set().union(b.to_set()),
{
    assert forall|y: int| #[trigger] (a + b).to_set().contains(y)
        implies a.to_set().union(b.to_set()).contains(y) by {
        let p = choose|p: int| 0 <= p < (a + b).len() && (a + b)[p] == y;
        if p < a.len() {
            assert(a[p] == y);
        } else {
            assert(b[p - a.len()] == y);
        }
    }
    assert forall|y: int| #[trigger] a.to_set().union(b.to_set()).contains(y)
        implies (a + b).to_set().contains(y) by {
        if a.to_set().contains(y) {
            let p = choose|p: int| 0 <= p < a.len() && a[p] == y;
            assert((a + b)[p] == y);
        } else {
            let p = choose|p: int| 0 <= p < b.len() && b[p] == y;
            assert((a + b)[a.len() + p] == y);
        }
    }
    assert((a + b).to_set() =~= a.to_set().union(b.to_set()));
}

/// The traversal invariant, threaded through one node's visit: `t` is what
/// has been emitted so far, `pend` the nodes entered but not yet emitted,
/// all standing strictly above `id`.
proof fn lemma_dfs_node_props(s: Seq<NodeSpec>, id: int, vis: Set<int>, t: Seq<int>, pend: Set<int>)
    requires
        wf_seq(s),
        0 <= id < s.len(),
        vis == t.to_set().union(pend),
        ids_distinct(t),
        deps_come_before(s, t),
        forall|p: int| 0 <= p < t.len() ==> 0 <= #[trigger] t[p] < s.len(),
        forall|x: int| #[trigger] pend.contains(x) ==> id < x < s.len(),
        forall|x: int| #[trigger] pend.contains(x) ==> !t.to_set().contains(x),
    ensures
        ({
            let r = dfs_node(s, id, vis);
            &&& r.1 == vis.union(r.0.to_set())
            &&& ids_distinct(t + r.0)
            &&& deps_come_before(s, t + r.0)
            &&& (forall|p: int| 0 <= p < r.0.len() ==> 0 <= #[trigger] r.0[p] <= id)
            &&& (forall|x: int| #[trigger] pend.contains(x) ==> !r.0.to_set().contains(x))
            &&& (t + r.0).to_set().contains(id)
            &&& (!vis.contains(id) ==> r.0.len() > 0 && r.0.last() == id)
            &&& (forall|p: int| 0 <= p < r.0.len() ==> reachable(s, id, #[trigger] r.0[p]))
        }),
    decreases id, 1int, 0int,
{
    let r = dfs_node(s, id, vis);
    if vis.contains(id) {
        assert(r.0 == Seq::<int>::empty());
        assert(t + r.0 =~= t);
        assert(r.1 == vis.union(r.0.to_set())) by {
            assert(vis.union(r.0.to_set()) =~= vis);
        }
        assert(!pend.contains(id));
        assert(t.to_set().contains(id));
        assert((t + r.0).to_set().contains(id));
    } else {
        assert(node_wf(s[id], id));
        let deps = s[id].deps;
        let vis1 = vis.insert(id);
        let pend1 = pend.insert(id);
        assert(!t.to_set().contains(id));
        assert(vis1 =~= t.to_set().union(pend1));
        lemma_dfs_list_props(s, id, deps, vis1, t, pend1);
        let rl = dfs_list(s, id, deps, vis1);
        assert(r.0 == rl.0.push(id) && r.1 == rl.1);
        let t2 = t + rl.0;
        assert(!rl.0.to_set().contains(id));
        // the emitted order with `id` appended stays duplicate free
        assert(ids_distinct(t + r.0)) by {
            assert(t + r.0 =~= t2.push(id));
            assert forall|p: int, q: int| 0 <= p < q < t2.push(id).len()
                implies t2.push(id)[p] != t2.push(id)[q] by {
                if q < t2.len() {
                    assert(t2[p] != t2[q]);
                } else {
                    assert(t2.push(id)[q] == id);
                    assert(t2.push(id)[p] == t2[p]);
                    if p < t.len() {
                        assert(!t.to_set().contains(id));
                        assert(t.to_set().contains(t[p]));
                    } else {
                        assert(t2[p] == rl.0[p - t.len()]);
                        assert(rl.0.to_set().contains(rl.0[p - t.len()]));
                    }
                }
            }
        }
        // every dependency of `id` was emitted by the child sweep
        assert(deps_come_before(s, t + r.0)) by {
            assert(t + r.0 =~= t2.push(id));
            assert forall|p: int, k: int|
                0 <= p < t2.push(id).len() && 0 <= k < s[t2.push(id)[p]].deps.len()
                implies t2.push(id).subrange(0, p).contains(
                    s[t2.push(id)[p]].deps[k]) by {
                if p < t2.len() {
                    assert(t2.push(id)[p] == t2[p]);
                    assert(t2.subrange(0, p).contains(s[t2[p]].deps[k]));
                    assert(t2.push(id).subrange(0, p) =~= t2.subrange(0, p));
                } else {
                    assert(t2.push(id)[p] == id);
                    assert(t2.to_set().contains(deps[k]));
                    assert(t2.push(id).subrange(0, p) =~= t2);
                }
            }
        }
        assert(r.1 == vis.union(r.0.to_set())) by {
            assert(rl.1 == vis1.union(rl.0.to_set()));
            lemma_to_set_push(rl.0, id);
            assert(vis1.union(rl.0.to_set()) =~= vis.union(rl.0.push(id).to_set()));
        }
        assert forall|p: int| 0 <= p < r.0.len() implies 0 <= #[trigger] r.0[p] <= id by {
            if p < rl.0.len() {
                assert(r.0[p] == rl.0[p]);
            } else {
                assert(r.0[p] == id);
            }
        }
        assert forall|x: int| #[trigger] pend.contains(x)
            implies !r.0.to_set().contains(x) by {
            assert(pend1.contains(x));
            assert(!rl.0.to_set().contains(x));
            assert(x != id);
        }
        assert((t + r.0).to_set().contains(id)) by {
            assert((t + r.0).contains(id)) by {
                assert((t + r.0)[t.len() as int + rl.0.len() as int] == id);
            }
        }
        assert(r.0.last() == id);
        assert forall|p: int| 0 <= p < r.0.len()
            implies reachable(s, id, #[trigger] r.0[p]) by {
            if p < rl.0.len() {
                assert(r.0[p] == rl.0[p]);
                let k = choose|k: int| 0 <= k < deps.len()
                    && reachable(s, deps[k], rl.0[p]);
                assert forall|m: Set<int>|
                    m.contains(id) && #[trigger] deps_closed(s, m)
                    implies m.contains(rl.0[p]) by {
                    assert(m.contains(s[id].deps[k]));
                    assert(m.contains(deps[k]));
                }
            } else {
                assert(r.0[p] == id);
                assert forall|m: Set<int>|
                    m.contains(id) && #[trigger] deps_closed(s, m)
                    implies m.contains(id) by {}
            }
        }
    }
}

/// The traversal invariant over a sweep of siblings, each strictly below
/// `bound`; `pend` holds the entered-but-unfinished ancestors, all at or
/// above `bound`.
proof fn lemma_dfs_list_props(
    s: Seq<NodeSpec>,
    bound: int,
    ids: Seq<int>,
    vis: Set<int>,
    t: Seq<int>,
    pend: Set<int>,
)
    requires
        wf_seq(s),
        0 <= bound < s.len(),
        forall|k: int| 0 <= k < ids.len() ==> 0 <= #[trigger] ids[k] < bound,
        vis == t.to_set().union(pend),
        ids_distinct(t),
        deps_come_before(s, t),
        forall|p: int| 0 <= p < t.len() ==> 0 <= #[trigger] t[p] < s.len(),
        forall|x: int| #[trigger] pend.contains(x) ==> bound <= x < s.len(),
        forall|x: int| #[trigger] pend.contains(x) ==> !t.to_set().contains(x),
    ensures
        ({
            let r = dfs_list(s, bound, ids, vis);
            &&& r.1 == vis.union(r.0.to_set())
            &&& ids_distinct(t + r.0)
            &&& deps_come_before(s, t + r.0)
            &&& (forall|p: int| 0 <= p < r.0.len() ==> 0 <= #[trigger] r.0[p] < bound)
            &&& (forall|x: int| #[trigger] pend.contains(x) ==> !r.0.to_set().contains(x))
            &&& (forall|k: int| 0 <= k < ids.len()
                ==> (t + r.0).to_set().contains(#[trigger] ids[k]))
            &&& (forall|p: int| 0 <= p < r.0.len()
                ==> exists|k: int| 0 <= k < ids.len()
                    && reachable(s, ids[k], #[trigger] r.0[p]))
        }),
    decreases bound, 0int, ids.len(),
{
    let r = dfs_list(s, bound, ids, vis);
    if ids.len() == 0 {
        assert(r.0 == Seq::<int>::empty());
        assert(t + r.0 =~= t);
        assert(r.1 == vis.union(r.0.to_set())) by {
            assert(vis.union(r.0.to_set()) =~= vis);
        }
    } else {
        let x0 = ids.first();
        assert(forall|y: int| #[trigger] pend.contains(y) ==> x0 < y < s.len());
        lemma_dfs_node_props(s, x0, vis, t, pend);
        let r1 = dfs_node(s, x0, vis);
        let t2 = t + r1.0;
        assert(r1.1 =~= t2.to_set().union(pend)) by {
            assert(r1.1 == vis.union(r1.0.to_set()));
            lemma_to_set_concat(t, r1.0);
        }
        assert(forall|p: int| 0 <= p < t2.len() ==> 0 <= #[trigger] t2[p] < s.len()) by {
            assert(forall|p: int| 0 <= p < r1.0.len() ==> 0 <= #[trigger] r1.0[p] <= x0);
        }
        assert forall|y: int| #[trigger] pend.contains(y)
            implies !t2.to_set().contains(y) by {
            assert(!t.to_set().contains(y));
            assert(!r1.0.to_set().contains(y));
        }
        assert(forall|k: int| 0 <= k < ids.drop_first().len()
            ==> 0 <= #[trigger] ids.drop_first()[k] < bound);
        lemma_dfs_list_props(s, bound, ids.drop_first(), r1.1, t2, pend);
        let r2 = dfs_list(s, bound, ids.drop_first(), r1.1);
        assert(r.0 == r1.0 + r2.0 && r.1 == r2.1);
        assert(t + r.0 =~= t2 + r2.0);
        assert(r.1 == vis.union(r.0.to_set())) by {
            assert(r2.1 == r1.1.union(r2.0.to_set()));
            lemma_to_set_concat(r1.0, r2.0);
            assert(vis.union(r1.0.to_set()).union(r2.0.to_set())
                =~= vis.union((r1.0 + r2.0).to_set()));
        }
        assert forall|p: int| 0 <= p < r.0.len()
            implies 0 <= #[trigger] r.0[p] < bound by {
            if p < r1.0.len() {
                assert(r.0[p] == r1.0[p]);
                assert(0 <= r1.0[p] <= x0);
            } else {
                assert(r.0[p] == r2.0[p - r1.0.len()]);
            }
        }
        assert forall|y: int| #[trigger] pend.contains(y)
            implies !r.0.to_set().contains(y) by {
            assert(!r1.0.to_set().contains(y));
            assert(!r2.0.to_set().contains(y));
            if r.0.to_set().contains(y) {
                let p = choose|p: int| 0 <= p < r.0.len() && r.0[p] == y;
                if p < r1.0.len() {
                    assert(r1.0.to_set().contains(r1.0[p]));
                } else {
                    assert(r2.0.to_set().contains(r2.0[p - r1.0.len()]));
                }
            }
        }
        assert forall|k: int| 0 <= k < ids.len()
            implies (t + r.0).to_set().contains(#[trigger] ids[k]) by {
            if k == 0 {
                assert(t2.to_set().contains(x0));
                let p = choose|p: int| 0 <= p < t2.len() && t2[p] == x0;
                assert((t + r.0)[p] == t2[p]);
            } else {
                assert(ids.drop_first()[k - 1] == ids[k]);
                assert((t2 + r2.0).to_set().contains(ids[k]));
                let p = choose|p: int| 0 <= p < (t2 + r2.0).len() && (t2 + r2.0)[p] == ids[k];
                assert((t + r.0)[p] == (t2 + r2.0)[p]);
            }
        }
        assert forall|p: int| 0 <= p < r.0.len()
            implies exists|k: int| 0 <= k < ids.len()
                && reachable(s, ids[k], #[trigger] r.0[p]) by {
            if p < r1.0.len() {
                assert(r.0[p] == r1.0[p]);
                assert(reachable(s, x0, r1.0[p]));
                assert(0 <= 0 < ids.len() && reachable(s, ids[0], r.0[p]));
            } else {
                let pp = p - r1.0.len();
                assert(r.0[p] == r2.0[pp]);
                let k = choose|k: int| 0 <= k < ids.drop_first().len()
                    && reachable(s, ids.drop_first()[k], r2.0[pp]);
                assert(ids.drop_first()[k] == ids[k + 1]);
                assert(0 <= k + 1 < ids.len() && reachable(s, ids[k + 1], r.0[p]));
            }
        }
    }
}

/// What the scheduler's contract yields for any well-formed graph: the
/// order begins with the root, lists each node exactly once, is closed
/// under dependencies, and places every node strictly before each of its
/// dependencies.
/// The order the scheduler returns for a root: the depth-first post-order
/// sweep, reversed.
pub open spec fn traversal_order(s: Seq<NodeSpec>, root: int) -> Seq<int> {
    dfs_node(s, root, Set::empty()).0.reverse()
}

#[verifier::rlimit(100)]
#[verifier::spinoff_prover]
pub proof fn lemma_traversal_properties(s: Seq<NodeSpec>, root: int)
    requires
        wf_seq(s),
        0 <= root < s.len(),
    ensures
        traversal_order(s, root).len() > 0,
        traversal_order(s, root)[0] == root,
        ids_distinct(traversal_order(s, root)),
        forall|p: int| 0 <= p < traversal_order(s, root).len()
            ==> 0 <= #[trigger] traversal_order(s, root)[p] < s.len(),
        traversal_order(s, root).to_set().contains(root),
        deps_closed(s, traversal_order(s, root).to_set()),
        forall|i: int| traversal_order(s, root).to_set().contains(i)
            <==> reachable(s, root, i),
        forall|p: int, k: int|
            0 <= p < traversal_order(s, root).len()
                && 0 <= k < s[traversal_order(s, root)[p]].deps.len()
                ==> exists|q: int| p < q < traversal_order(s, root).len()
                    && traversal_order(s, root)[q]
                        == #[trigger] s[traversal_order(s, root)[p]].deps[k],
{
    assert(Set::<int>::empty() =~= Seq::<int>::empty().to_set().union(Set::<int>::empty()));
    lemma_dfs_node_props(s, root, Set::empty(), Seq::empty(), Set::empty());
    let fwd = dfs_node(s, root, Set::empty()).0;
    let order = traversal_order(s, root);
    assert(order == fwd.reverse());
    assert(Seq::<int>::empty() + fwd =~= fwd);
    assert(ids_distinct(fwd));
    assert(deps_come_before(s, fwd));
    let n = fwd.len() as int;
    assert(fwd.last() == root);
    assert(order[0] == fwd[n - 1]);
    assert(ids_distinct(order)) by {
        assert forall|p: int, q: int| 0 <= p < q < order.len()
            implies order[p] != order[q] by {
            assert(order[p] == fwd[n - 1 - p]);
            assert(order[q] == fwd[n - 1 - q]);
            assert(fwd[n - 1 - q] != fwd[n - 1 - p]);
        }
    }
    assert forall|p: int| 0 <= p < order.len()
        implies 0 <= #[trigger] order[p] < s.len() by {
        assert(order[p] == fwd[n - 1 - p]);
        assert(0 <= fwd[n - 1 - p] <= root);
    }
    assert(order.to_set().contains(root)) by {
        assert(order[0] == root);
    }
    assert forall|p: int, k: int|
        0 <= p < order.len() && 0 <= k < s[order[p]].deps.len()
        implies exists|q: int| p < q < order.len()
            && order[q] == #[trigger] s[order[p]].deps[k] by {
        assert(order[p] == fwd[n - 1 - p]);
        let pp = n - 1 - p;
        assert(fwd.subrange(0, pp).contains(s[fwd[pp]].deps[k]));
        let qq = choose|qq: int| 0 <= qq < pp && fwd.subrange(0, pp)[qq] == s[fwd[pp]].deps[k];
        assert(fwd[qq] == s[fwd[pp]].deps[k]);
        assert(order[n - 1 - qq] == fwd[qq]);
        assert(p < n - 1 - qq < n);
    }
    assert(deps_closed(s, order.to_set())) by {
        assert forall|i: int, k: int|
            order.to_set().contains(i) && 0 <= i < s.len() && 0 <= k < s[i].deps.len()
            implies order.to_set().contains(#[trigger] s[i].deps[k]) by {
            let p = choose|p: int| 0 <= p < order.len() && order[p] == i;
            assert(s[order[p]].deps[k] == s[i].deps[k]);
            assert(exists|q: int| p < q < order.len() && order[q] == s[i].deps[k]);
            let q = choose|q: int| p < q < order.len() && order[q] == s[i].deps[k];
            assert(order.contains(order[q]));
        }
    }
    assert(!Set::<int>::empty().contains(root));
    assert(order.len() > 0);
    assert(order[0] == root);
    assert forall|p: int, k: int|
        0 <= p < traversal_order(s, root).len()
            && 0 <= k < s[traversal_order(s, root)[p]].deps.len()
        implies exists|q: int| p < q < traversal_order(s, root).len()
            && traversal_order(s, root)[q]
                == #[trigger] s[traversal_order(s, root)[p]].deps[k] by {
        assert(traversal_order(s, root) == order);
        assert(s[order[p]].deps[k] == s[traversal_order(s, root)[p]].deps[k]);
        assert(exists|q: int| p < q < order.len() && order[q] == s[order[p]].deps[k]);
        let q = choose|q: int| p < q < order.len() && order[q] == s[order[p]].deps[k];
        assert(p < q < traversal_order(s, root).len()
            && traversal_order(s, root)[q] == s[traversal_order(s, root)[p]].deps[k]);
    }
    assert forall|i: int| traversal_order(s, root).to_set().contains(i)
        implies reachable(s, root, i) by {
        let p = choose|p: int| 0 <= p < order.len() && order[p] == i;
        assert(order[p] == fwd[n - 1 - p]);
        assert(reachable(s, root, fwd[n - 1 - p]));
    }
    assert forall|i: int| reachable(s, root, i)
        implies traversal_order(s, root).to_set().contains(i) by {
        assert(order.to_set().contains(root) && deps_closed(s, order.to_set()));
        assert(order.to_set().contains(i));
        assert(order == traversal_order(s, root));
    }
}

/// The recursive step of the scheduler: visit the dependencies of `id`
/// first, then append `id` itself, skipping anything already marked.
fn visit(g: &Graph, id: usize, visited: &mut Vec<bool>, topo: &mut Vec<Value>)
    requires
        g.wf(),
        id < g@.len(),
        old(visited)@.len() == g@.len(),
    ensures
        final(visited)@.len() == g@.len(),
        ({
            let r = dfs_node(g@, id as int, vis_set(old(visited)@));
            ids_of(final(topo)@) == ids_of(old(topo)@) + r.0
                && vis_set(final(visited)@) == r.1
        }),
    decreases id,
{
    if !visited[id] {
        visited[id] = true;
        proof {
            assert(vis_set(visited@) =~= vis_set(old(visited)@).insert(id as int));
        }
        let ghost vis1 = vis_set(old(visited)@).insert(id as int);
        let n = deps_len_of(g, id);
        let mut k: usize = 0;
        proof {
            assert(g@[id as int].deps.take(0) =~= Seq::<int>::empty());
            assert(ids_of(topo@) + Seq::<int>::empty() =~= ids_of(topo@));
        }
        while k < n
            invariant
                g.wf(),
                id < g@.len(),
                n == g@[id as int].deps.len(),
                visited@.len() == g@.len(),
                k <= n,
                ({
                    let r = dfs_list(g@, id as int, g@[id as int].deps.take(k as int), vis1);
                    ids_of(topo@) == ids_of(old(topo)@) + r.0
                        && vis_set(visited@) == r.1
                }),
            decreases n - k,
        {
            let ghost taken = g@[id as int].deps.take(k as int);
            let ghost r_before = dfs_list(g@, id as int, taken, vis1);
            let c = dep_of(g, id, k);
            proof {
                assert(node_wf(g@[id as int], id as int));
                assert(g@[id as int].deps[k as int] < id as int);
            }
            visit(g, c, visited, topo);
            proof {
                lemma_dfs_list_snoc(g@, id as int, taken, c as int, vis1);
                assert(g@[id as int].deps.take(k as int + 1) =~= taken.push(c as int));
                let r1 = dfs_node(g@, c as int, r_before.1);
                assert((ids_of(old(topo)@) + r_before.0) + r1.0
                    =~= ids_of(old(topo)@) + (r_before.0 + r1.0));
            }
            k += 1;
        }
        topo.push(Value { id });
        proof {
            assert(g@[id as int].deps.take(n as int) =~= g@[id as int].deps);
            let r = dfs_list(g@, id as int, g@[id as int].deps, vis1);
            assert(ids_of(topo@) =~= (ids_of(old(topo)@) + r.0).push(id as int));
            assert((ids_of(old(topo)@) + r.0).push(id as int)
                =~= ids_of(old(topo)@) + r.0.push(id as int));
        }
    } else {
        proof {
            assert(ids_of(topo@) =~= ids_of(old(topo)@) + Seq::<int>::empty());
        }
    }
}

/// How many dependencies node `id` records.
fn deps_len_of(g: &Graph, id: usize) -> (n: usize)
    requires
        id < g@.len(),
    ensures
        n == g@[id as int].deps.len(),
{
    g.nodes[id].deps.len()
}

/// The index of dependency `k` of node `id`.
fn dep_of(g: &Graph, id: usize, k: usize) -> (c: usize)
    requires
        id < g@.len(),
        k < g@[id as int].deps.len(),
    ensures
        c as int == g@[id as int].deps[k as int],
{
    g.nodes[id].deps[k].id
}

/// Pushing a well-formed node keeps the graph well formed.
proof fn lemma_wf_push(s0: Seq<NodeSpec>, s1: Seq<NodeSpec>)
    requires
        s1.len() == s0.len() + 1,
        forall|i: int| 0 <= i < s0.len() ==> s1[i] == s0[i],
        node_wf(s1[s0.len() as int], s0.len() as int),
    ensures
        wf_seq(s0) ==> wf_seq(s1),
{
    if wf_seq(s0) {
        assert forall|i: int| 0 <= i < s1.len() implies node_wf(#[trigger] s1[i], i) by {
            if i < s0.len() {
                assert(node_wf(s0[i], i));
            }
        }
    }
}

/// Replacing a node's scalar or gradient, with its operation and
/// dependencies kept, keeps the graph well formed.
proof fn lemma_wf_update(s0: Seq<NodeSpec>, s1: Seq<NodeSpec>, j: int)
    requires
        0 <= j < s0.len(),
        s1.len() == s0.len(),
        forall|i: int| 0 <= i < s0.len() && i != j ==> s1[i] == s0[i],
        s1[j].op == s0[j].op,
        s1[j].deps == s0[j].deps,
    ensures
        wf_seq(s0) ==> wf_seq(s1),
{
    if wf_seq(s0) {
        assert forall|i: int| 0 <= i < s1.len() implies node_wf(#[trigger] s1[i], i) by {
            assert(node_wf(s0[i], i));
        }
    }
}

} // verus!
