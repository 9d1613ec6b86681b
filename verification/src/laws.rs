//! The laws of the engine, proved once and for all.
//!
//! The backward pass is only meaningful if the order it walks is sound:
//! the root first, no node twice, and every operand of an ordered node
//! strictly later in the sequence, so a node's own gradient is complete
//! before it is pushed down. This module proves those facts about
//! [`topo_order`], and the per-operation gradient laws about
//! [`backward_model`].

use crate::fixed::FX_ONE;
use crate::fixed::fx_mul;
use crate::fixed::fx_sub;
use crate::fixed::fx_tanh;
use crate::fixed::lemma_fx_mul_one;
use crate::fixed::lemma_fx_tanh_range;
use crate::graph::Node;
use crate::graph::Op;
use crate::graph::backward_model;
use crate::graph::dfs;
use crate::graph::dfs_list;
use crate::graph::graph_wf;
use crate::graph::node_wf;
use crate::graph::op_operands;
use crate::graph::propagate;
use crate::graph::seed;
use crate::graph::step;
use crate::graph::topo_order;
use crate::graph::with_op;
use vstd::arithmetic::div_mod::lemma_div_of0;
use vstd::prelude::*;

verus! {

/// `x` occurs in `ord` strictly after position `k`.
pub open spec fn appears_after(ord: Seq<int>, x: int, k: int) -> bool {
    exists|m: int| k < m < ord.len() && #[trigger] ord[m] == x
}

/// Every operand of every ordered node occurs strictly later in the order.
pub open spec fn operands_follow(s: Seq<Node>, ord: Seq<int>) -> bool {
    forall|k: int, j: int|
        0 <= k < ord.len() && 0 <= j < op_operands(s[ord[k]].op).len() ==> appears_after(
            ord,
            #[trigger] op_operands(s[ord[k]].op)[j],
            k,
        )
}

/// The invariant the depth-first traversal maintains over its threaded
/// state: ordered nodes are visited, visited nodes are in bounds, the
/// order has no duplicates and already satisfies [`operands_follow`].
spec fn dfs_inv(s: Seq<Node>, vis: Set<int>, ord: Seq<int>) -> bool {
    &&& forall|k: int| 0 <= k < ord.len() ==> vis.contains(#[trigger] ord[k])
    &&& forall|x: int| vis.contains(x) ==> 0 <= x < s.len()
    &&& ord.no_duplicates()
    &&& operands_follow(s, ord)
}

proof fn lemma_cons_facts(x: int, t: Seq<int>)
    ensures
        (seq![x] + t).len() == t.len() + 1,
        (seq![x] + t)[0] == x,
        forall|m: int| 0 <= m < t.len() ==> (seq![x] + t)[m + 1] == #[trigger] t[m],
        (seq![x] + t).contains(x),
        forall|y: int| #[trigger] t.contains(y) ==> (seq![x] + t).contains(y),
        forall|y: int| #[trigger] (seq![x] + t).contains(y) ==> y == x || t.contains(y),
{
    let c = seq![x] + t;
    assert(c[0] == x);
    assert(c.contains(x));
    assert forall|y: int| #[trigger] t.contains(y) implies c.contains(y) by {
        let m = choose|m: int| 0 <= m < t.len() && t[m] == y;
        assert(c[m + 1] == y);
    }
    assert forall|y: int| #[trigger] c.contains(y) implies y == x || t.contains(y) by {
        let m = choose|m: int| 0 <= m < c.len() && c[m] == y;
        if m > 0 {
            assert(t[m - 1] == y);
        }
    }
}

proof fn lemma_dfs_correct(s: Seq<Node>, i: int, vis: Set<int>, ord: Seq<int>)
    requires
        graph_wf(s),
        0 <= i < s.len(),
        dfs_inv(s, vis, ord),
        forall|x: int| vis.contains(x) && !ord.contains(x) ==> x > i,
    ensures
        ({
            let r = dfs(s, i, vis, ord);
            &&& dfs_inv(s, r.0, r.1)
            &&& forall|x: int| vis.contains(x) ==> r.0.contains(x)
            &&& r.0.contains(i)
            &&& r.1.contains(i)
            &&& forall|x: int| #[trigger] ord.contains(x) ==> r.1.contains(x)
            &&& forall|x: int|
                #[trigger] r.1.contains(x) && !ord.contains(x) ==> !vis.contains(x)
            &&& forall|x: int|
                #[trigger] r.0.contains(x) && !vis.contains(x) ==> r.1.contains(x)
        }),
    decreases i, 1int, 0int,
{
    if vis.contains(i) {
        assert(ord.contains(i));
    } else {
        let vis1 = vis.insert(i);
        let ops = op_operands(s[i].op);
        assert(node_wf(s[i], i));
        lemma_dfs_list_correct(s, ops, i, vis1, ord);
        let r = dfs_list(s, ops, i, vis1, ord);
        let o2 = seq![i] + r.1;
        lemma_cons_facts(i, r.1);
        // The node itself is not among what the children ordered.
        assert(!r.1.contains(i)) by {
            if r.1.contains(i) {
                if ord.contains(i) {
                    assert(vis.contains(i));
                } else {
                    assert(!vis1.contains(i));
                }
            }
        }
        // No duplicates after prepending the node.
        assert(o2.no_duplicates()) by {
            assert forall|k1: int, k2: int|
                0 <= k1 < o2.len() && 0 <= k2 < o2.len() && k1 != k2 implies o2[k1]
                != o2[k2] by {
                if k1 > 0 && k2 > 0 {
                    assert(o2[k1] == r.1[k1 - 1] && o2[k2] == r.1[k2 - 1]);
                } else if k1 == 0 && k2 > 0 {
                    assert(o2[k2] == r.1[k2 - 1]);
                    assert(r.1.contains(r.1[k2 - 1]));
                } else if k2 == 0 && k1 > 0 {
                    assert(o2[k1] == r.1[k1 - 1]);
                    assert(r.1.contains(r.1[k1 - 1]));
                }
            }
        }
        // Operands still follow their nodes after prepending.
        assert(operands_follow(s, o2)) by {
            assert forall|k: int, j: int|
                0 <= k < o2.len() && 0 <= j < op_operands(s[o2[k]].op).len() implies appears_after(
                o2,
                op_operands(s[o2[k]].op)[j],
                k,
            ) by {
                if k == 0 {
                    let x = op_operands(s[i].op)[j];
                    assert(r.1.contains(x));
                    let m = choose|m: int| 0 <= m < r.1.len() && r.1[m] == x;
                    assert(o2[m + 1] == x);
                } else {
                    assert(o2[k] == r.1[k - 1]);
                    let x = op_operands(s[r.1[k - 1]].op)[j];
                    assert(appears_after(r.1, x, k - 1));
                    let m = choose|m: int| k - 1 < m < r.1.len() && r.1[m] == x;
                    assert(o2[m + 1] == x);
                }
            }
        }
        assert forall|x: int| #[trigger] o2.contains(x) && !ord.contains(x) implies !vis.contains(
            x,
        ) by {
            if x == i {
            } else {
                assert(r.1.contains(x));
                assert(!vis1.contains(x));
            }
        }
        assert forall|x: int| #[trigger] r.0.contains(x) && !vis.contains(x) implies o2.contains(
            x,
        ) by {
            if x == i {
            } else {
                assert(!vis1.contains(x));
                assert(r.1.contains(x));
            }
        }
        assert forall|k: int| 0 <= k < o2.len() implies r.0.contains(#[trigger] o2[k]) by {
            if k == 0 {
                assert(vis1.contains(i));
            } else {
                assert(o2[k] == r.1[k - 1]);
            }
        }
        assert forall|x: int| vis.contains(x) implies r.0.contains(x) by {
            assert(vis1.contains(x));
        }
        assert forall|x: int| #[trigger] ord.contains(x) implies o2.contains(x) by {
            assert(r.1.contains(x));
        }
        assert(r.0.contains(i)) by {
            assert(vis1.contains(i));
        }
        assert(o2.contains(i));
        assert(dfs(s, i, vis, ord) == (r.0, o2));
    }
}

proof fn lemma_dfs_list_correct(s: Seq<Node>, ops: Seq<int>, i: int, vis: Set<int>, ord: Seq<int>)
    requires
        graph_wf(s),
        0 <= i < s.len(),
        dfs_inv(s, vis, ord),
        forall|x: int| vis.contains(x) && !ord.contains(x) ==> x >= i,
        forall|k: int| 0 <= k < ops.len() ==> 0 <= #[trigger] ops[k] < i,
    ensures
        ({
            let r = dfs_list(s, ops, i, vis, ord);
            &&& dfs_inv(s, r.0, r.1)
            &&& forall|x: int| vis.contains(x) ==> r.0.contains(x)
            &&& forall|k: int| 0 <= k < ops.len() ==> r.1.contains(#[trigger] ops[k])
            &&& forall|x: int| #[trigger] ord.contains(x) ==> r.1.contains(x)
            &&& forall|x: int|
                #[trigger] r.1.contains(x) && !ord.contains(x) ==> !vis.contains(x)
            &&& forall|x: int|
                #[trigger] r.0.contains(x) && !vis.contains(x) ==> r.1.contains(x)
        }),
    decreases i, 0int, ops.len(),
{
    if ops.len() == 0 {
    } else {
        let r = dfs_list(s, ops, i, vis, ord);
        assert(0 <= ops[0] < i);
        lemma_dfs_correct(s, ops[0], vis, ord);
        let r0 = dfs(s, ops[0], vis, ord);
        // The rest of the list starts from the child's final state.
        assert forall|x: int| r0.0.contains(x) && !r0.1.contains(x) implies x >= i by {
            if vis.contains(x) {
                if ord.contains(x) {
                    assert(r0.1.contains(x));
                } else {
                }
            } else {
                assert(r0.1.contains(x));
            }
        }
        assert forall|k: int| 0 <= k < ops.drop_first().len() implies 0 <= #[trigger] ops.drop_first()[k]
            < i by {
            assert(ops.drop_first()[k] == ops[k + 1]);
        }
        lemma_dfs_list_correct(s, ops.drop_first(), i, r0.0, r0.1);
        let rr = dfs_list(s, ops.drop_first(), i, r0.0, r0.1);
        assert(r == rr);
        // Every operand of the list ends up ordered.
        assert forall|k: int| 0 <= k < ops.len() implies r.1.contains(#[trigger] ops[k]) by {
            if k == 0 {
                assert(r0.1.contains(ops[0]));
            } else {
                assert(ops.drop_first()[k - 1] == ops[k]);
                assert(rr.1.contains(ops.drop_first()[k - 1]));
            }
        }
        // New order entries were unvisited at entry.
        assert forall|x: int| #[trigger] r.1.contains(x) && !ord.contains(x) implies !vis.contains(
            x,
        ) by {
            if r0.1.contains(x) {
            } else {
                assert(!r0.0.contains(x));
            }
        }
        // Newly visited nodes got ordered.
        assert forall|x: int| #[trigger] r.0.contains(x) && !vis.contains(x) implies r.1.contains(
            x,
        ) by {
            if r0.0.contains(x) {
                assert(r0.1.contains(x));
            } else {
            }
        }
    }
}

/// Topological validity and deduplication: the order rooted at a valid
/// node starts with that node, stays in bounds, repeats nothing, and
/// places every operand of an ordered node strictly after it — so when the
/// backward pass walks the order front to back, a node's own gradient is
/// complete before the node pushes it to its operands.
pub proof fn lemma_topological_order_valid(s: Seq<Node>, root: int)
    requires
        graph_wf(s),
        0 <= root < s.len(),
    ensures
        ({
            let ord = topo_order(s, root);
            &&& ord.len() > 0
            &&& ord[0] == root
            &&& forall|k: int| 0 <= k < ord.len() ==> 0 <= #[trigger] ord[k] < s.len()
            &&& ord.no_duplicates()
            &&& operands_follow(s, ord)
        }),
{
    lemma_dfs_correct(s, root, Set::empty(), Seq::empty());
    let r = dfs(s, root, Set::empty(), Seq::empty());
    let ord = topo_order(s, root);
    assert(ord == r.1);
    assert forall|k: int| 0 <= k < ord.len() implies 0 <= #[trigger] ord[k] < s.len() by {
        assert(r.0.contains(ord[k]));
    }
    let rl = dfs_list(
        s,
        op_operands(s[root].op),
        root,
        Set::empty().insert(root),
        Seq::<int>::empty(),
    );
    assert(ord == seq![root] + rl.1);
}

proof fn lemma_step_structure(s: Seq<Node>, i: int)
    requires
        graph_wf(s),
        0 <= i < s.len(),
    ensures
        step(s, i).len() == s.len(),
        forall|j: int|
            0 <= j < s.len() ==> (#[trigger] step(s, i)[j]).op == s[j].op && step(s, i)[j].value
                == s[j].value,
        forall|j: int|
            0 <= j < s.len() && !op_operands(s[i].op).contains(j) ==> (#[trigger] step(s, i)[j]).grad
                == s[j].grad,
{
    assert(node_wf(s[i], i));
    let ops = op_operands(s[i].op);
    match s[i].op {
        Op::Leaf => {},
        Op::Add(a, b) => {
            assert(ops[0] == a as int && ops[1] == b as int);
            assert(ops.contains(a as int) && ops.contains(b as int));
        },
        Op::Sub(a, b) => {
            assert(ops[0] == a as int && ops[1] == b as int);
            assert(ops.contains(a as int) && ops.contains(b as int));
        },
        Op::Mul(a, b) => {
            assert(ops[0] == a as int && ops[1] == b as int);
            assert(ops.contains(a as int) && ops.contains(b as int));
        },
        Op::Tanh(a) => {
            assert(ops[0] == a as int);
            assert(ops.contains(a as int));
        },
    }
}

proof fn lemma_propagate_structure(s: Seq<Node>, ord: Seq<int>)
    requires
        graph_wf(s),
        forall|k: int| 0 <= k < ord.len() ==> 0 <= #[trigger] ord[k] < s.len(),
    ensures
        propagate(s, ord).len() == s.len(),
        forall|j: int|
            0 <= j < s.len() ==> (#[trigger] propagate(s, ord)[j]).op == s[j].op && propagate(
                s,
                ord,
            )[j].value == s[j].value,
        graph_wf(propagate(s, ord)),
    decreases ord.len(),
{
    if ord.len() == 0 {
    } else {
        let s1 = step(s, ord[0]);
        lemma_step_structure(s, ord[0]);
        assert(graph_wf(s1)) by {
            assert forall|j: int| 0 <= j < s1.len() implies node_wf(#[trigger] s1[j], j) by {
                assert(node_wf(s[j], j));
                assert(s1[j].op == s[j].op);
            }
        }
        assert forall|k: int| 0 <= k < ord.drop_first().len() implies 0
            <= #[trigger] ord.drop_first()[k] < s1.len() by {
            assert(ord.drop_first()[k] == ord[k + 1]);
        }
        lemma_propagate_structure(s1, ord.drop_first());
    }
}

proof fn lemma_propagate_frame(s: Seq<Node>, ord: Seq<int>, j: int)
    requires
        graph_wf(s),
        forall|k: int| 0 <= k < ord.len() ==> 0 <= #[trigger] ord[k] < s.len(),
        0 <= j < s.len(),
        forall|k: int|
            0 <= k < ord.len() ==> !op_operands(s[#[trigger] ord[k]].op).contains(j),
    ensures
        propagate(s, ord)[j].grad == s[j].grad,
    decreases ord.len(),
{
    if ord.len() == 0 {
    } else {
        let s1 = step(s, ord[0]);
        lemma_step_structure(s, ord[0]);
        assert(graph_wf(s1)) by {
            assert forall|k: int| 0 <= k < s1.len() implies node_wf(#[trigger] s1[k], k) by {
                assert(node_wf(s[k], k));
                assert(s1[k].op == s[k].op);
            }
        }
        assert forall|k: int| 0 <= k < ord.drop_first().len() implies 0
            <= #[trigger] ord.drop_first()[k] < s1.len() by {
            assert(ord.drop_first()[k] == ord[k + 1]);
        }
        assert forall|k: int| 0 <= k < ord.drop_first().len() implies !op_operands(
            s1[#[trigger] ord.drop_first()[k]].op,
        ).contains(j) by {
            assert(ord.drop_first()[k] == ord[k + 1]);
            assert(s1[ord[k + 1]].op == s[ord[k + 1]].op);
        }
        lemma_propagate_frame(s1, ord.drop_first(), j);
    }
}

/// The backward pass rewrites gradients only: every node keeps its
/// operation and its value, and the arena keeps its length.
pub proof fn lemma_backward_structure(s: Seq<Node>, root: int)
    requires
        graph_wf(s),
        0 <= root < s.len(),
    ensures
        backward_model(s, root).len() == s.len(),
        forall|j: int|
            0 <= j < s.len() ==> (#[trigger] backward_model(s, root)[j]).op == s[j].op
                && backward_model(s, root)[j].value == s[j].value,
{
    let s0 = seed(s, root);
    lemma_topological_order_valid(s, root);
    assert(graph_wf(s0)) by {
        assert forall|k: int| 0 <= k < s0.len() implies node_wf(#[trigger] s0[k], k) by {
            assert(node_wf(s[k], k));
            assert(s0[k].op == s[k].op);
        }
    }
    lemma_propagate_structure(s0, topo_order(s, root));
}

/// A node the topological order does not visit keeps its gradient through
/// the backward pass: only the subgraph reachable from the root
/// accumulates anything.
pub proof fn lemma_backward_frame(s: Seq<Node>, root: int, j: int)
    requires
        graph_wf(s),
        0 <= root < s.len(),
        0 <= j < s.len(),
        !topo_order(s, root).contains(j),
    ensures
        backward_model(s, root)[j].grad == s[j].grad,
{
    let ord = topo_order(s, root);
    let s0 = seed(s, root);
    lemma_topological_order_valid(s, root);
    assert(ord.contains(root)) by {
        assert(ord[0] == root);
    }
    assert(j != root);
    assert(graph_wf(s0)) by {
        assert forall|k: int| 0 <= k < s0.len() implies node_wf(#[trigger] s0[k], k) by {
            assert(node_wf(s[k], k));
            assert(s0[k].op == s[k].op);
        }
    }
    assert forall|k: int| 0 <= k < ord.len() implies #[trigger] ord[k] != j && !op_operands(
        s0[ord[k]].op,
    ).contains(j) by {
        assert(ord.contains(ord[k]));
        assert(s0[ord[k]].op == s[ord[k]].op);
        if op_operands(s[ord[k]].op).contains(j) {
            let jj = choose|jj: int|
                0 <= jj < op_operands(s[ord[k]].op).len() && op_operands(s[ord[k]].op)[jj] == j;
            assert(appears_after(ord, op_operands(s[ord[k]].op)[jj], k));
            let m = choose|m: int| k < m < ord.len() && ord[m] == j;
            assert(ord.contains(ord[m]));
        }
    }
    lemma_propagate_frame(s0, ord, j);
}

proof fn lemma_topo_binary_leaves(s2: Seq<Node>, n: int, a: int, b: int)
    requires
        s2.len() == n + 1,
        0 <= a < n,
        0 <= b < n,
        a != b,
        s2[a].op is Leaf,
        s2[b].op is Leaf,
        op_operands(s2[n].op) == seq![a, b],
    ensures
        topo_order(s2, n) == seq![n, b, a],
{
    reveal_with_fuel(dfs, 4);
    reveal_with_fuel(dfs_list, 5);
    let v1 = Set::<int>::empty().insert(n);
    let e = Seq::<int>::empty();
    let ra = dfs(s2, a, v1, e);
    assert(op_operands(s2[a].op) =~= e);
    assert(ra.0 == v1.insert(a) && ra.1 =~= seq![a]) by {
        assert(!v1.contains(a));
        assert(dfs_list(s2, op_operands(s2[a].op), a, v1.insert(a), e) == (v1.insert(a), e));
    }
    let rb = dfs(s2, b, ra.0, ra.1);
    assert(op_operands(s2[b].op) =~= e);
    assert(rb.0 == ra.0.insert(b) && rb.1 =~= seq![b, a]) by {
        assert(!ra.0.contains(b));
        assert(dfs_list(s2, op_operands(s2[b].op), b, ra.0.insert(b), ra.1) == (
            ra.0.insert(b),
            ra.1,
        ));
        assert(seq![b] + seq![a] =~= seq![b, a]);
    }
    assert(seq![a, b].drop_first() =~= seq![b]);
    assert(seq![b].drop_first() =~= e);
    assert(dfs_list(s2, seq![a, b], n, v1, e) == rb);
    assert(!Set::<int>::empty().contains(n));
    assert(topo_order(s2, n) =~= seq![n] + rb.1);
    assert(seq![n] + seq![b, a] =~= seq![n, b, a]);
}

proof fn lemma_topo_unary_leaf(s2: Seq<Node>, n: int, a: int)
    requires
        s2.len() == n + 1,
        0 <= a < n,
        s2[a].op is Leaf,
        op_operands(s2[n].op) == seq![a],
    ensures
        topo_order(s2, n) == seq![n, a],
{
    reveal_with_fuel(dfs, 4);
    reveal_with_fuel(dfs_list, 5);
    let v1 = Set::<int>::empty().insert(n);
    let e = Seq::<int>::empty();
    let ra = dfs(s2, a, v1, e);
    assert(op_operands(s2[a].op) =~= e);
    assert(ra.0 == v1.insert(a) && ra.1 =~= seq![a]) by {
        assert(!v1.contains(a));
        assert(dfs_list(s2, op_operands(s2[a].op), a, v1.insert(a), e) == (v1.insert(a), e));
    }
    assert(seq![a].drop_first() =~= e);
    assert(dfs_list(s2, seq![a], n, v1, e) == ra);
    assert(!Set::<int>::empty().contains(n));
    assert(topo_order(s2, n) =~= seq![n] + ra.1);
    assert(seq![n] + seq![a] =~= seq![n, a]);
}

proof fn lemma_topo_binary_same(s2: Seq<Node>, n: int, a: int)
    requires
        s2.len() == n + 1,
        0 <= a < n,
        s2[a].op is Leaf,
        op_operands(s2[n].op) == seq![a, a],
    ensures
        topo_order(s2, n) == seq![n, a],
{
    reveal_with_fuel(dfs, 4);
    reveal_with_fuel(dfs_list, 6);
    let v1 = Set::<int>::empty().insert(n);
    let e = Seq::<int>::empty();
    let ra = dfs(s2, a, v1, e);
    assert(op_operands(s2[a].op) =~= e);
    assert(ra.0 == v1.insert(a) && ra.1 =~= seq![a]) by {
        assert(!v1.contains(a));
        assert(dfs_list(s2, op_operands(s2[a].op), a, v1.insert(a), e) == (v1.insert(a), e));
    }
    // The second visit of `a` finds it already visited and changes nothing.
    let rb = dfs(s2, a, ra.0, ra.1);
    assert(ra.0.contains(a));
    assert(rb == ra);
    assert(seq![a, a].drop_first() =~= seq![a]);
    assert(seq![a].drop_first() =~= e);
    assert(dfs_list(s2, seq![a, a], n, v1, e) == ra);
    assert(!Set::<int>::empty().contains(n));
    assert(topo_order(s2, n) =~= seq![n] + ra.1);
    assert(seq![n] + seq![a] =~= seq![n, a]);
}

/// Additivity: for `c = a + b` over distinct leaves with clean gradients,
/// one backward pass from `c` leaves `d c / d a == 1` and `d c / d b == 1`
/// in the gradient accumulators.
pub proof fn lemma_additivity(s: Seq<Node>, a: usize, b: usize)
    requires
        graph_wf(s),
        (a as int) < s.len(),
        (b as int) < s.len(),
        a != b,
        s[a as int].op is Leaf,
        s[b as int].op is Leaf,
        forall|j: int| 0 <= j < s.len() ==> (#[trigger] s[j]).grad == 0,
    ensures
        backward_model(with_op(s, Op::Add(a, b)), s.len() as int)[a as int].grad == FX_ONE,
        backward_model(with_op(s, Op::Add(a, b)), s.len() as int)[b as int].grad == FX_ONE,
{
    let ai = a as int;
    let bi = b as int;
    let s2 = with_op(s, Op::Add(a, b));
    let n = s.len() as int;
    assert(s2[ai] == s[ai] && s2[bi] == s[bi]);
    assert(op_operands(s2[n].op) =~= seq![ai, bi]);
    lemma_topo_binary_leaves(s2, n, ai, bi);
    let s3 = seed(s2, n);
    let s4 = step(s3, n);
    assert(s3[n].grad == FX_ONE && s3[ai].grad == 0 && s3[bi].grad == 0);
    assert(s4[ai].grad == FX_ONE && s4[bi].grad == FX_ONE && s4[ai].op == s[ai].op && s4[bi].op
        == s[bi].op);
    assert(step(s4, bi) == s4);
    assert(step(s4, ai) == s4);
    reveal_with_fuel(propagate, 5);
    assert(seq![n, bi, ai].drop_first() =~= seq![bi, ai]);
    assert(seq![bi, ai].drop_first() =~= seq![ai]);
    assert(seq![ai].drop_first() =~= Seq::<int>::empty());
    assert(backward_model(s2, n) == s4);
}

/// The product rule: for `c = a * b` over distinct leaves with clean
/// gradients, one backward pass from `c` leaves `d c / d a == b.value` and
/// `d c / d b == a.value` in the gradient accumulators.
pub proof fn lemma_product_rule(s: Seq<Node>, a: usize, b: usize)
    requires
        graph_wf(s),
        (a as int) < s.len(),
        (b as int) < s.len(),
        a != b,
        s[a as int].op is Leaf,
        s[b as int].op is Leaf,
        forall|j: int| 0 <= j < s.len() ==> (#[trigger] s[j]).grad == 0,
    ensures
        backward_model(with_op(s, Op::Mul(a, b)), s.len() as int)[a as int].grad == s[b as int].value,
        backward_model(with_op(s, Op::Mul(a, b)), s.len() as int)[b as int].grad == s[a as int].value,
{
    let ai = a as int;
    let bi = b as int;
    let s2 = with_op(s, Op::Mul(a, b));
    let n = s.len() as int;
    assert(s2[ai] == s[ai] && s2[bi] == s[bi]);
    assert(op_operands(s2[n].op) =~= seq![ai, bi]);
    lemma_topo_binary_leaves(s2, n, ai, bi);
    let s3 = seed(s2, n);
    let s4 = step(s3, n);
    assert(s3[n].grad == FX_ONE && s3[ai].grad == 0 && s3[bi].grad == 0);
    lemma_fx_mul_one(s[ai].value as int);
    lemma_fx_mul_one(s[bi].value as int);
    assert(s4[ai].grad == s[bi].value && s4[bi].grad == s[ai].value && s4[ai].op == s[ai].op
        && s4[bi].op == s[bi].op);
    assert(step(s4, bi) == s4);
    assert(step(s4, ai) == s4);
    reveal_with_fuel(propagate, 5);
    assert(seq![n, bi, ai].drop_first() =~= seq![bi, ai]);
    assert(seq![bi, ai].drop_first() =~= seq![ai]);
    assert(seq![ai].drop_first() =~= Seq::<int>::empty());
    assert(backward_model(s2, n) == s4);
}

/// The tanh rule: for `c = tanh(a)` over a leaf with clean gradients, the
/// new node's value is the fixed-point tanh of the leaf, and one backward
/// pass from `c` leaves `d c / d a == 1 - c.value^2` in the accumulator.
pub proof fn lemma_tanh_derivative(s: Seq<Node>, a: usize)
    requires
        graph_wf(s),
        (a as int) < s.len(),
        s[a as int].op is Leaf,
        forall|j: int| 0 <= j < s.len() ==> (#[trigger] s[j]).grad == 0,
    ensures
        with_op(s, Op::Tanh(a))[s.len() as int].value as int == fx_tanh(s[a as int].value as int),
        ({
            let t = fx_tanh(s[a as int].value as int);
            backward_model(with_op(s, Op::Tanh(a)), s.len() as int)[a as int].grad as int == fx_sub(
                FX_ONE as int,
                fx_mul(t, t),
            )
        }),
{
    let ai = a as int;
    let s2 = with_op(s, Op::Tanh(a));
    let n = s.len() as int;
    let t = fx_tanh(s[ai].value as int);
    lemma_fx_tanh_range(s[ai].value as int);
    assert(s2[ai] == s[ai]);
    assert(s2[n].value as int == t);
    assert(op_operands(s2[n].op) =~= seq![ai]);
    lemma_topo_unary_leaf(s2, n, ai);
    let s3 = seed(s2, n);
    let s4 = step(s3, n);
    assert(s3[n].grad == FX_ONE && s3[ai].grad == 0 && s3[n].value as int == t);
    let local = fx_sub(FX_ONE as int, fx_mul(t, t));
    lemma_fx_mul_one(local);
    assert(s4[ai].grad as int == local && s4[ai].op == s[ai].op);
    assert(step(s4, ai) == s4);
    reveal_with_fuel(propagate, 4);
    assert(seq![n, ai].drop_first() =~= seq![ai]);
    assert(seq![ai].drop_first() =~= Seq::<int>::empty());
    assert(backward_model(s2, n) == s4);
}

/// At zero the tanh rule is exact: `tanh(0) == 0` and the leaf's gradient
/// comes out as exactly 1, since `1 - 0^2 == 1`.
pub proof fn lemma_tanh_at_zero(s: Seq<Node>, a: usize)
    requires
        graph_wf(s),
        (a as int) < s.len(),
        s[a as int].op is Leaf,
        s[a as int].value == 0,
        forall|j: int| 0 <= j < s.len() ==> (#[trigger] s[j]).grad == 0,
    ensures
        with_op(s, Op::Tanh(a))[s.len() as int].value == 0,
        backward_model(with_op(s, Op::Tanh(a)), s.len() as int)[a as int].grad == FX_ONE,
{
    lemma_tanh_derivative(s, a);
    let one = FX_ONE as int;
    assert(fx_tanh(0) == 0) by {
        lemma_div_of0(15 * one * one);
        assert(0 * (15 * one * one + 0 * 0) == 0);
    }
    assert(fx_mul(0, 0) == 0) by {
        lemma_div_of0(one);
        assert(0 * 0 == 0);
    }
    assert(fx_sub(one, 0) == one);
}

/// Shared subexpressions accumulate: for `c = a * a` over a leaf with
/// clean gradients, both partials land on the same leaf, so one backward
/// pass from `c` leaves `d c / d a == 2 * a.value` (when that sum does not
/// saturate).
pub proof fn lemma_shared_operand(s: Seq<Node>, a: usize)
    requires
        graph_wf(s),
        (a as int) < s.len(),
        s[a as int].op is Leaf,
        forall|j: int| 0 <= j < s.len() ==> (#[trigger] s[j]).grad == 0,
        i64::MIN as int <= 2 * (s[a as int].value as int) <= i64::MAX as int,
    ensures
        backward_model(with_op(s, Op::Mul(a, a)), s.len() as int)[a as int].grad as int == 2 * (
        s[a as int].value as int),
{
    let ai = a as int;
    let s2 = with_op(s, Op::Mul(a, a));
    let n = s.len() as int;
    assert(s2[ai] == s[ai]);
    assert(op_operands(s2[n].op) =~= seq![ai, ai]);
    lemma_topo_binary_same(s2, n, ai);
    let s3 = seed(s2, n);
    let s4 = step(s3, n);
    assert(s3[n].grad == FX_ONE && s3[ai].grad == 0);
    lemma_fx_mul_one(s[ai].value as int);
    assert(s4[ai].grad as int == 2 * (s[ai].value as int) && s4[ai].op == s[ai].op);
    assert(step(s4, ai) == s4);
    reveal_with_fuel(propagate, 4);
    assert(seq![n, ai].drop_first() =~= seq![ai]);
    assert(seq![ai].drop_first() =~= Seq::<int>::empty());
    assert(backward_model(s2, n) == s4);
}

/// The seed survives the pass: the root's gradient reads exactly 1
/// afterwards — the derivative of the root with respect to itself — since
/// in a well-formed graph the root is never an operand of anything the
/// order visits.
pub proof fn lemma_backward_root_gradient(s: Seq<Node>, root: int)
    requires
        graph_wf(s),
        0 <= root < s.len(),
    ensures
        backward_model(s, root)[root].grad == FX_ONE,
{
    let ord = topo_order(s, root);
    let s0 = seed(s, root);
    lemma_topological_order_valid(s, root);
    assert(graph_wf(s0)) by {
        assert forall|k: int| 0 <= k < s0.len() implies node_wf(#[trigger] s0[k], k) by {
            assert(node_wf(s[k], k));
            assert(s0[k].op == s[k].op);
        }
    }
    assert forall|k: int| 0 <= k < ord.len() implies !op_operands(
        s0[#[trigger] ord[k]].op,
    ).contains(root) by {
        assert(s0[ord[k]].op == s[ord[k]].op);
        if op_operands(s[ord[k]].op).contains(root) {
            let jj = choose|jj: int|
                0 <= jj < op_operands(s[ord[k]].op).len() && op_operands(s[ord[k]].op)[jj]
                    == root;
            assert(appears_after(ord, op_operands(s[ord[k]].op)[jj], k));
            let m = choose|m: int| k < m < ord.len() && ord[m] == root;
            // `root` already stands at the front, so a second occurrence
            // would be a duplicate.
            assert(ord[0] == root && m > 0);
        }
    }
    lemma_propagate_frame(s0, ord, root);
}

/// Determinism: what the backward pass makes of an arena is a mathematical
/// function of the arena's structure and scalars alone, so repeating the
/// construction and the pass over equal graphs yields bit-equal values and
/// gradients.
pub proof fn lemma_backward_deterministic(s1: Seq<Node>, s2: Seq<Node>, root: int)
    requires
        s1 == s2,
    ensures
        backward_model(s1, root) == backward_model(s2, root),
{
}

} // verus!
