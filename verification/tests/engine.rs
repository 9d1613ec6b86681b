use scalargrad::fixed::FX_ONE;
use scalargrad::graph::Graph;
use scalargrad::graph::GraphError;
use scalargrad::graph::NodeHandle;
use scalargrad::graph::Op;

#[test]
fn it_works() {
    let mut g = Graph::new();
    let v1 = g.leaf(FX_ONE / 2);
    let v2 = g.leaf(3 * FX_ONE / 10);
    let v3 = g.add(v1, v2).unwrap();
    let v4 = g.subtract(v3, v2).unwrap();
    let v5 = g.multiply(v4, v2).unwrap();
    let v6 = g.tanh(v5).unwrap();

    g.backward(v6).unwrap();

    let order = g.topological_order(v6).unwrap();
    assert_eq!(order.len(), 6);
    assert_eq!(order[0].index, v6.index);
    for h in &order {
        let n = g.node(*h).unwrap();
        let _label = format!(
            "{} | data={} | grad={} op={}",
            h.index,
            n.value,
            n.grad,
            n.op.name()
        );
    }
    assert_eq!(g.gradient(v6).unwrap(), FX_ONE);
}

#[test]
fn additivity() {
    let mut g = Graph::new();
    let a = g.leaf(7 * FX_ONE);
    let b = g.leaf(-3 * FX_ONE);
    let c = g.add(a, b).unwrap();
    g.backward(c).unwrap();
    assert_eq!(g.gradient(a).unwrap(), FX_ONE);
    assert_eq!(g.gradient(b).unwrap(), FX_ONE);
    assert_eq!(g.value(c).unwrap(), 4 * FX_ONE);
}

#[test]
fn subtraction_gradients() {
    let mut g = Graph::new();
    let a = g.leaf(5 * FX_ONE);
    let b = g.leaf(2 * FX_ONE);
    let c = g.subtract(a, b).unwrap();
    g.backward(c).unwrap();
    assert_eq!(g.value(c).unwrap(), 3 * FX_ONE);
    assert_eq!(g.gradient(a).unwrap(), FX_ONE);
    assert_eq!(g.gradient(b).unwrap(), -FX_ONE);
}

#[test]
fn product_rule() {
    let mut g = Graph::new();
    let a = g.leaf(2 * FX_ONE);
    let b = g.leaf(3 * FX_ONE);
    let c = g.multiply(a, b).unwrap();
    g.backward(c).unwrap();
    assert_eq!(g.value(c).unwrap(), 6 * FX_ONE);
    assert_eq!(g.gradient(a).unwrap(), 3 * FX_ONE);
    assert_eq!(g.gradient(b).unwrap(), 2 * FX_ONE);
}

#[test]
fn tanh_at_zero() {
    let mut g = Graph::new();
    let a = g.leaf(0);
    let c = g.tanh(a).unwrap();
    assert_eq!(g.value(c).unwrap(), 0);
    g.backward(c).unwrap();
    assert_eq!(g.gradient(a).unwrap(), FX_ONE);
}

#[test]
fn diamond_graph() {
    let mut g = Graph::new();
    let a = g.leaf(3 * FX_ONE);
    let b = g.multiply(a, a).unwrap();
    g.backward(b).unwrap();
    assert_eq!(g.gradient(a).unwrap(), 6 * FX_ONE);
}

#[test]
fn dedup_in_traversal() {
    let mut g = Graph::new();
    let a = g.leaf(3 * FX_ONE);
    let b = g.multiply(a, a).unwrap();
    let order = g.topological_order(b).unwrap();
    assert_eq!(order.len(), 2);
    assert_eq!(order[0].index, b.index);
    assert_eq!(order[1].index, a.index);
}

#[test]
fn leaf_root_orders_alone() {
    let mut g = Graph::new();
    let a = g.leaf(FX_ONE);
    let order = g.topological_order(a).unwrap();
    assert_eq!(order.len(), 1);
    assert_eq!(order[0].index, a.index);
}

#[test]
fn topological_order_respects_operands() {
    let mut g = Graph::new();
    let x = g.leaf(FX_ONE / 4);
    let y = g.leaf(FX_ONE / 8);
    let p = g.multiply(x, y).unwrap();
    let s = g.add(p, x).unwrap();
    let t = g.tanh(s).unwrap();
    let order = g.topological_order(t).unwrap();

    // The root comes first; nothing repeats.
    assert_eq!(order[0].index, t.index);
    for i in 0..order.len() {
        for j in (i + 1)..order.len() {
            assert_ne!(order[i].index, order[j].index);
        }
    }
    // Each node's operands sit strictly later in the order.
    let position = |idx: usize| order.iter().position(|h| h.index == idx).unwrap();
    for h in &order {
        let n = g.node(*h).unwrap();
        let operands: Vec<usize> = match n.op {
            Op::Leaf => vec![],
            Op::Add(a, b) | Op::Sub(a, b) | Op::Mul(a, b) => vec![a, b],
            Op::Tanh(a) => vec![a],
        };
        for o in operands {
            assert!(position(o) > position(h.index));
        }
    }
}

#[test]
fn determinism() {
    let build = || {
        let mut g = Graph::new();
        let x = g.leaf(FX_ONE / 3);
        let y = g.leaf(-FX_ONE / 7);
        let p = g.multiply(x, y).unwrap();
        let s = g.add(p, x).unwrap();
        let d = g.subtract(s, y).unwrap();
        let t = g.tanh(d).unwrap();
        g.backward(t).unwrap();
        let mut out: Vec<(i64, i64)> = Vec::new();
        for i in 0..g.node_count() {
            let h = NodeHandle { index: i };
            out.push((g.value(h).unwrap(), g.gradient(h).unwrap()));
        }
        out
    };
    assert_eq!(build(), build());
}

#[test]
fn backward_accumulates_without_reset() {
    let mut g = Graph::new();
    let a = g.leaf(2 * FX_ONE);
    let b = g.leaf(5 * FX_ONE);
    let c = g.add(a, b).unwrap();
    g.backward(c).unwrap();
    g.backward(c).unwrap();
    // The seed overwrites the root, but operand gradients accumulate.
    assert_eq!(g.gradient(a).unwrap(), 2 * FX_ONE);
    assert_eq!(g.gradient(b).unwrap(), 2 * FX_ONE);
}

#[test]
fn zero_gradients_resets() {
    let mut g = Graph::new();
    let a = g.leaf(2 * FX_ONE);
    let b = g.leaf(5 * FX_ONE);
    let c = g.multiply(a, b).unwrap();
    g.backward(c).unwrap();
    g.zero_gradients();
    assert_eq!(g.gradient(a).unwrap(), 0);
    assert_eq!(g.gradient(b).unwrap(), 0);
    assert_eq!(g.gradient(c).unwrap(), 0);
    // Values survive the reset, and a fresh pass matches the first.
    assert_eq!(g.value(c).unwrap(), 10 * FX_ONE);
    g.backward(c).unwrap();
    assert_eq!(g.gradient(a).unwrap(), 5 * FX_ONE);
    assert_eq!(g.gradient(b).unwrap(), 2 * FX_ONE);
}

#[test]
fn invalid_handles_are_rejected() {
    let mut g = Graph::new();
    let a = g.leaf(FX_ONE);
    let bad = NodeHandle { index: 17 };
    assert_eq!(g.value(bad).unwrap_err(), GraphError::InvalidHandle);
    assert_eq!(g.gradient(bad).unwrap_err(), GraphError::InvalidHandle);
    assert_eq!(g.node(bad).unwrap_err(), GraphError::InvalidHandle);
    assert_eq!(g.add(a, bad).unwrap_err(), GraphError::InvalidHandle);
    assert_eq!(g.subtract(bad, a).unwrap_err(), GraphError::InvalidHandle);
    assert_eq!(g.multiply(bad, bad).unwrap_err(), GraphError::InvalidHandle);
    assert_eq!(g.tanh(bad).unwrap_err(), GraphError::InvalidHandle);
    assert_eq!(g.topological_order(bad).unwrap_err(), GraphError::InvalidHandle);
    assert_eq!(g.backward(bad).unwrap_err(), GraphError::InvalidHandle);
    // The failed calls left the graph alone.
    assert_eq!(g.node_count(), 1);
    assert_eq!(g.gradient(a).unwrap(), 0);
}

#[test]
fn op_names() {
    let mut g = Graph::new();
    let a = g.leaf(FX_ONE);
    let b = g.leaf(FX_ONE);
    let c = g.add(a, b).unwrap();
    let d = g.subtract(c, a).unwrap();
    let e = g.multiply(d, b).unwrap();
    let f = g.tanh(e).unwrap();
    assert_eq!(g.node(a).unwrap().op.name(), "Leaf");
    assert_eq!(g.node(c).unwrap().op.name(), "Add");
    assert_eq!(g.node(d).unwrap().op.name(), "Sub");
    assert_eq!(g.node(e).unwrap().op.name(), "Mul");
    assert_eq!(g.node(f).unwrap().op.name(), "Tanh");
}
