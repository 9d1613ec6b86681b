//! The computation graph: an arena of scalar nodes.
//!
//! Nodes live in a vector; a handle is a position in that vector. Every node
//! records the operation that produced it, and the operands of a node always
//! sit at strictly smaller positions, so the graph is acyclic by
//! construction. A node's value is fixed when it is created; its gradient
//! accumulator starts at zero and is filled in by [`Graph::backward`].

use crate::fixed::FX_ONE;
use crate::fixed::fx_add;
use crate::fixed::fx_mul;
use crate::fixed::fx_neg;
use crate::fixed::fx_sub;
use crate::fixed::fx_tanh;
use crate::fixed::scalar_add;
use crate::fixed::scalar_mul;
use crate::fixed::scalar_neg;
use crate::fixed::scalar_sub;
use crate::fixed::scalar_tanh;
use vstd::prelude::*;

verus! {

/// A handle to one node of a [`Graph`]: its position in the arena.
#[derive(Clone, Copy, Debug, PartialEq, Eq, Structural)]
pub struct NodeHandle {
    pub index: usize,
}

/// How a node was derived: a raw input, or an operation over earlier nodes,
/// named by their arena positions.
#[derive(Clone, Copy, Debug, PartialEq, Eq, Structural)]
pub enum Op {
    Leaf,
    Add(usize, usize),
    Sub(usize, usize),
    Mul(usize, usize),
    Tanh(usize),
}

impl Op {
    /// The operation's display name, for graph renderings.
    pub fn name(&self) -> (r: &'static str)
        ensures
            self is Leaf ==> r@ == "Leaf"@,
            self is Add ==> r@ == "Add"@,
            self is Sub ==> r@ == "Sub"@,
            self is Mul ==> r@ == "Mul"@,
            self is Tanh ==> r@ == "Tanh"@,
    {
        match self {
            Op::Leaf => "Leaf",
            Op::Add(_, _) => "Add",
            Op::Sub(_, _) => "Sub",
            Op::Mul(_, _) => "Mul",
            Op::Tanh(_) => "Tanh",
        }
    }
}

/// One arena record: the operation that made the node, the scalar it holds,
/// and its gradient accumulator.
#[derive(Clone, Copy, Debug, PartialEq, Eq, Structural)]
pub struct Node {
    pub op: Op,
    pub value: i64,
    pub grad: i64,
}

/// The one way to misuse the graph: a handle that does not point at a node.
#[derive(Clone, Copy, Debug, PartialEq, Eq, Structural)]
pub enum GraphError {
    InvalidHandle,
}

/// The operands an operation reads, left to right.
pub open spec fn op_operands(op: Op) -> Seq<int> {
    match op {
        Op::Leaf => seq![],
        Op::Add(a, b) => seq![a as int, b as int],
        Op::Sub(a, b) => seq![a as int, b as int],
        Op::Mul(a, b) => seq![a as int, b as int],
        Op::Tanh(a) => seq![a as int],
    }
}

/// A node is well formed at position `i` when all its operands sit strictly
/// before it.
pub open spec fn node_wf(n: Node, i: int) -> bool {
    forall|k: int|
        0 <= k < op_operands(n.op).len() ==> 0 <= #[trigger] op_operands(n.op)[k] < i
}

/// Every node's operands sit strictly before it: the arena is a DAG.
pub open spec fn graph_wf(s: Seq<Node>) -> bool {
    forall|i: int| 0 <= i < s.len() ==> node_wf(#[trigger] s[i], i)
}

/// The scalar a new node derived by `op` would hold.
pub open spec fn op_value(s: Seq<Node>, op: Op) -> int {
    match op {
        Op::Leaf => 0,
        Op::Add(a, b) => fx_add(s[a as int].value as int, s[b as int].value as int),
        Op::Sub(a, b) => fx_sub(s[a as int].value as int, s[b as int].value as int),
        Op::Mul(a, b) => fx_mul(s[a as int].value as int, s[b as int].value as int),
        Op::Tanh(a) => fx_tanh(s[a as int].value as int),
    }
}

/// The arena after appending a node derived by `op`, gradient zero.
pub open spec fn with_op(s: Seq<Node>, op: Op) -> Seq<Node> {
    s.push(Node { op, value: op_value(s, op) as i64, grad: 0 })
}

proof fn lemma_wf_push(s: Seq<Node>, n: Node)
    requires
        graph_wf(s),
        node_wf(n, s.len() as int),
    ensures
        graph_wf(s.push(n)),
{
    assert forall|i: int| 0 <= i < s.push(n).len() implies node_wf(#[trigger] s.push(n)[i], i) by {
        if i < s.len() {
            assert(s.push(n)[i] == s[i]);
        } else {
            assert(s.push(n)[i] == n);
        }
    }
}

/// One depth-first visit of node `i`, threading the visited set and the
/// order built so far. A node not seen before is marked visited, its
/// operands are visited left to right, and the node itself is then pushed
/// to the front of the order, so a node always stands before its operands
/// in the finished sequence.
pub open spec fn dfs(s: Seq<Node>, i: int, vis: Set<int>, ord: Seq<int>) -> (Set<int>, Seq<int>)
    decreases i, 1int, 0int,
{
    if vis.contains(i) {
        (vis, ord)
    } else {
        let r = dfs_list(s, op_operands(s[i].op), i, vis.insert(i), ord);
        (r.0, seq![i] + r.1)
    }
}

/// Visit each position of `ops` in turn, threading state. Positions outside
/// `[0, i)` are skipped, which never happens on a well-formed graph.
pub open spec fn dfs_list(s: Seq<Node>, ops: Seq<int>, i: int, vis: Set<int>, ord: Seq<int>) -> (
    Set<int>,
    Seq<int>,
)
    decreases i, 0int, ops.len(),
{
    if ops.len() == 0 {
        (vis, ord)
    } else {
        let r = if 0 <= ops[0] < i {
            dfs(s, ops[0], vis, ord)
        } else {
            (vis, ord)
        };
        dfs_list(s, ops.drop_first(), i, r.0, r.1)
    }
}

/// The topological order rooted at `root`: the root first, every node before
/// its operands, each reachable node exactly once.
pub open spec fn topo_order(s: Seq<Node>, root: int) -> Seq<int> {
    dfs(s, root, Set::empty(), Seq::empty()).1
}

/// The arena with the root's gradient seeded to 1: the derivative of the
/// root with respect to itself.
pub open spec fn seed(s: Seq<Node>, root: int) -> Seq<Node> {
    s.update(root, Node { op: s[root].op, value: s[root].value, grad: FX_ONE })
}

/// The arena with only the gradient of position `j` replaced.
pub open spec fn with_grad(s: Seq<Node>, j: int, g: int) -> Seq<Node> {
    s.update(j, Node { op: s[j].op, value: s[j].value, grad: g as i64 })
}

/// Push node `i`'s gradient to its operands by the local rule of its
/// operation: both operands of a sum receive the gradient unchanged, the
/// subtrahend receives it negated, each factor of a product receives it
/// scaled by the other factor's value, and the operand of a tanh receives
/// it scaled by `1 - t^2` where `t` is the tanh node's own value.
pub open spec fn step(s: Seq<Node>, i: int) -> Seq<Node> {
    let gi = s[i].grad as int;
    match s[i].op {
        Op::Leaf => s,
        Op::Add(a, b) => {
            let s1 = with_grad(s, a as int, fx_add(s[a as int].grad as int, gi));
            with_grad(s1, b as int, fx_add(s1[b as int].grad as int, gi))
        },
        Op::Sub(a, b) => {
            let s1 = with_grad(s, a as int, fx_add(s[a as int].grad as int, gi));
            with_grad(s1, b as int, fx_add(s1[b as int].grad as int, fx_neg(gi)))
        },
        Op::Mul(a, b) => {
            let s1 = with_grad(
                s,
                a as int,
                fx_add(s[a as int].grad as int, fx_mul(gi, s[b as int].value as int)),
            );
            with_grad(
                s1,
                b as int,
                fx_add(s1[b as int].grad as int, fx_mul(gi, s[a as int].value as int)),
            )
        },
        Op::Tanh(a) => {
            let t = s[i].value as int;
            let local = fx_sub(FX_ONE as int, fx_mul(t, t));
            with_grad(s, a as int, fx_add(s[a as int].grad as int, fx_mul(gi, local)))
        },
    }
}

/// Apply [`step`] to each position of `ord`, front to back.
pub open spec fn propagate(s: Seq<Node>, ord: Seq<int>) -> Seq<Node>
    decreases ord.len(),
{
    if ord.len() == 0 {
        s
    } else {
        propagate(step(s, ord[0]), ord.drop_first())
    }
}

/// What one backward pass makes of the arena: seed the root's gradient to
/// 1, then walk the topological order front to back, each node pushing its
/// accumulated gradient to its operands before they are processed.
pub open spec fn backward_model(s: Seq<Node>, root: int) -> Seq<Node> {
    propagate(seed(s, root), topo_order(s, root))
}

/// The arena with every gradient accumulator reset to zero.
pub open spec fn with_zero_grads(s: Seq<Node>) -> Seq<Node> {
    Seq::new(s.len(), |j: int| Node { op: s[j].op, value: s[j].value, grad: 0 })
}

proof fn lemma_propagate_append(s: Seq<Node>, o1: Seq<int>, o2: Seq<int>)
    ensures
        propagate(s, o1 + o2) == propagate(propagate(s, o1), o2),
    decreases o1.len(),
{
    if o1.len() == 0 {
        assert(o1 + o2 =~= o2);
    } else {
        assert((o1 + o2).drop_first() =~= o1.drop_first() + o2);
        assert((o1 + o2)[0] == o1[0]);
        lemma_propagate_append(step(s, o1[0]), o1.drop_first(), o2);
    }
}

proof fn lemma_dfs_bounds(s: Seq<Node>, i: int, vis: Set<int>, ord: Seq<int>)
    requires
        graph_wf(s),
        0 <= i < s.len(),
        forall|k: int| 0 <= k < ord.len() ==> 0 <= #[trigger] ord[k] < s.len(),
    ensures
        ({
            let r = dfs(s, i, vis, ord);
            forall|k: int| 0 <= k < r.1.len() ==> 0 <= #[trigger] r.1[k] < s.len()
        }),
    decreases i, 1int, 0int,
{
    if vis.contains(i) {
    } else {
        lemma_dfs_list_bounds(s, op_operands(s[i].op), i, vis.insert(i), ord);
        let r = dfs_list(s, op_operands(s[i].op), i, vis.insert(i), ord);
        assert forall|k: int| 0 <= k < (seq![i] + r.1).len() implies 0 <= #[trigger] (seq![i]
            + r.1)[k] < s.len() by {
            if k > 0 {
                assert((seq![i] + r.1)[k] == r.1[k - 1]);
            }
        }
    }
}

proof fn lemma_dfs_list_bounds(s: Seq<Node>, ops: Seq<int>, i: int, vis: Set<int>, ord: Seq<int>)
    requires
        graph_wf(s),
        0 <= i < s.len(),
        forall|k: int| 0 <= k < ord.len() ==> 0 <= #[trigger] ord[k] < s.len(),
    ensures
        ({
            let r = dfs_list(s, ops, i, vis, ord);
            forall|k: int| 0 <= k < r.1.len() ==> 0 <= #[trigger] r.1[k] < s.len()
        }),
    decreases i, 0int, ops.len(),
{
    if ops.len() == 0 {
    } else {
        let r = dfs_list(s, ops, i, vis, ord);
        if 0 <= ops[0] < i {
            lemma_dfs_bounds(s, ops[0], vis, ord);
            let r0 = dfs(s, ops[0], vis, ord);
            lemma_dfs_list_bounds(s, ops.drop_first(), i, r0.0, r0.1);
            assert(r == dfs_list(s, ops.drop_first(), i, r0.0, r0.1));
        } else {
            lemma_dfs_list_bounds(s, ops.drop_first(), i, vis, ord);
            assert(r == dfs_list(s, ops.drop_first(), i, vis, ord));
        }
    }
}

/// The visited set abstracted from its vector of marks.
pub open spec fn vis_set(v: Seq<bool>) -> Set<int> {
    Set::new(|j: int| 0 <= j < v.len() && v[j])
}

/// A sequence of arena positions, as mathematical integers.
pub open spec fn ord_ints(o: Seq<usize>) -> Seq<int> {
    o.map_values(|u: usize| u as int)
}

/// A sequence of handles, as mathematical integers.
pub open spec fn handle_ints(o: Seq<NodeHandle>) -> Seq<int> {
    o.map_values(|h: NodeHandle| h.index as int)
}

/// A scalar computation graph.
pub struct Graph {
    nodes: Vec<Node>,
}

impl View for Graph {
    type V = Seq<Node>;

    closed spec fn view(&self) -> Seq<Node> {
        self.nodes@
    }
}

impl Graph {
    /// The arena is a DAG: every operand sits before its dependent.
    pub open spec fn wf(&self) -> bool {
        graph_wf(self@)
    }

    /// An empty graph.
    pub fn new() -> (g: Graph)
        ensures
            g@ == Seq::<Node>::empty(),
            g.wf(),
    {
        Graph { nodes: Vec::new() }
    }

    /// How many nodes the graph holds.
    pub fn node_count(&self) -> (n: usize)
        ensures
            n == self@.len(),
    {
        self.nodes.len()
    }

    /// Create a leaf node holding `value`. Total: any scalar is accepted.
    pub fn leaf(&mut self, value: i64) -> (h: NodeHandle)
        requires
            old(self).wf(),
        ensures
            final(self).wf(),
            final(self)@ == old(self)@.push(Node { op: Op::Leaf, value: value, grad: 0 }),
            h.index == old(self)@.len(),
    {
        let h = NodeHandle { index: self.nodes.len() };
        let n = Node { op: Op::Leaf, value: value, grad: 0 };
        proof {
            lemma_wf_push(self@, n);
        }
        self.nodes.push(n);
        h
    }

    /// Read a node's scalar value.
    pub fn value(&self, n: NodeHandle) -> (r: Result<i64, GraphError>)
        ensures
            n.index < self@.len() ==> r == Ok::<i64, GraphError>(self@[n.index as int].value),
            n.index >= self@.len() ==> r == Err::<i64, GraphError>(GraphError::InvalidHandle),
    {
        if n.index < self.nodes.len() {
            Ok(self.nodes[n.index].value)
        } else {
            Err(GraphError::InvalidHandle)
        }
    }

    /// Read a node's accumulated gradient.
    pub fn gradient(&self, n: NodeHandle) -> (r: Result<i64, GraphError>)
        ensures
            n.index < self@.len() ==> r == Ok::<i64, GraphError>(self@[n.index as int].grad),
            n.index >= self@.len() ==> r == Err::<i64, GraphError>(GraphError::InvalidHandle),
    {
        if n.index < self.nodes.len() {
            Ok(self.nodes[n.index].grad)
        } else {
            Err(GraphError::InvalidHandle)
        }
    }

    /// Read a whole node record.
    pub fn node(&self, n: NodeHandle) -> (r: Result<Node, GraphError>)
        ensures
            n.index < self@.len() ==> r == Ok::<Node, GraphError>(self@[n.index as int]),
            n.index >= self@.len() ==> r == Err::<Node, GraphError>(GraphError::InvalidHandle),
    {
        if n.index < self.nodes.len() {
            Ok(self.nodes[n.index])
        } else {
            Err(GraphError::InvalidHandle)
        }
    }

    /// The depth-first visit behind the topological sort, mirroring [`dfs`].
    fn dfs_visit(&self, i: usize, visited: &mut Vec<bool>, order: &mut Vec<usize>)
        requires
            self.wf(),
            i < self@.len(),
            old(visited)@.len() == self@.len(),
        ensures
            final(visited)@.len() == self@.len(),
            ({
                let r = dfs(self@, i as int, vis_set(old(visited)@), ord_ints(old(order)@));
                vis_set(final(visited)@) == r.0 && ord_ints(final(order)@) == r.1
            }),
        decreases i,
    {
        let ghost vis0 = vis_set(visited@);
        let ghost ord0 = ord_ints(order@);
        if !visited[i] {
            visited.set(i, true);
            proof {
                assert(vis_set(visited@) =~= vis0.insert(i as int));
            }
            let ghost vis1 = vis_set(visited@);
            let ghost ops = op_operands(self@[i as int].op);
            proof {
                assert(node_wf(self@[i as int], i as int));
            }
            match self.nodes[i].op {
                Op::Leaf => {
                    proof {
                        assert(dfs_list(self@, ops, i as int, vis1, ord0) == (vis1, ord0));
                    }
                },
                Op::Add(a, b) => {
                    proof {
                        assert(ops[0] == a as int && ops[1] == b as int);
                    }
                    self.dfs_visit(a, visited, order);
                    self.dfs_visit(b, visited, order);
                    proof {
                        reveal_with_fuel(dfs_list, 4);
                        let r1 = dfs(self@, a as int, vis1, ord0);
                        assert(ops.drop_first() =~= seq![b as int]);
                        assert(ops.drop_first().drop_first() =~= Seq::<int>::empty());
                        assert(dfs_list(self@, ops, i as int, vis1, ord0) == dfs(
                            self@,
                            b as int,
                            r1.0,
                            r1.1,
                        ));
                    }
                },
                Op::Sub(a, b) => {
                    proof {
                        assert(ops[0] == a as int && ops[1] == b as int);
                    }
                    self.dfs_visit(a, visited, order);
                    self.dfs_visit(b, visited, order);
                    proof {
                        reveal_with_fuel(dfs_list, 4);
                        let r1 = dfs(self@, a as int, vis1, ord0);
                        assert(ops.drop_first() =~= seq![b as int]);
                        assert(ops.drop_first().drop_first() =~= Seq::<int>::empty());
                        assert(dfs_list(self@, ops, i as int, vis1, ord0) == dfs(
                            self@,
                            b as int,
                            r1.0,
                            r1.1,
                        ));
                    }
                },
                Op::Mul(a, b) => {
                    proof {
                        assert(ops[0] == a as int && ops[1] == b as int);
                    }
                    self.dfs_visit(a, visited, order);
                    self.dfs_visit(b, visited, order);
                    proof {
                        reveal_with_fuel(dfs_list, 4);
                        let r1 = dfs(self@, a as int, vis1, ord0);
                        assert(ops.drop_first() =~= seq![b as int]);
                        assert(ops.drop_first().drop_first() =~= Seq::<int>::empty());
                        assert(dfs_list(self@, ops, i as int, vis1, ord0) == dfs(
                            self@,
                            b as int,
                            r1.0,
                            r1.1,
                        ));
                    }
                },
                Op::Tanh(a) => {
                    proof {
                        assert(ops[0] == a as int);
                    }
                    self.dfs_visit(a, visited, order);
                    proof {
                        reveal_with_fuel(dfs_list, 3);
                        assert(ops.drop_first() =~= Seq::<int>::empty());
                        assert(dfs_list(self@, ops, i as int, vis1, ord0) == dfs(
                            self@,
                            a as int,
                            vis1,
                            ord0,
                        ));
                    }
                },
            }
            let ghost ordc = ord_ints(order@);
            order.insert(0, i);
            proof {
                assert(ord_ints(order@) =~= seq![i as int] + ordc);
            }
        }
    }

    /// The topological order as raw arena positions.
    fn topo_indices(&self, root: usize) -> (o: Vec<usize>)
        requires
            self.wf(),
            root < self@.len(),
        ensures
            ord_ints(o@) == topo_order(self@, root as int),
    {
        let n = self.nodes.len();
        let mut visited: Vec<bool> = Vec::new();
        while visited.len() < n
            invariant
                visited@.len() <= n,
                forall|j: int| 0 <= j < visited@.len() ==> !visited@[j],
            decreases n - visited.len(),
        {
            visited.push(false);
        }
        let mut order: Vec<usize> = Vec::new();
        proof {
            assert(vis_set(visited@) =~= Set::<int>::empty());
            assert(ord_ints(order@) =~= Seq::<int>::empty());
        }
        self.dfs_visit(root, &mut visited, &mut order);
        order
    }

    /// The dependency order rooted at `root`: the root first, every node
    /// before its operands, each node reachable from the root exactly once.
    /// Fails only on a dangling handle.
    pub fn topological_order(&self, root: NodeHandle) -> (r: Result<Vec<NodeHandle>, GraphError>)
        requires
            self.wf(),
        ensures
            root.index < self@.len() ==> r is Ok && handle_ints(r->Ok_0@) == topo_order(
                self@,
                root.index as int,
            ),
            root.index >= self@.len() ==> r == Err::<Vec<NodeHandle>, GraphError>(
                GraphError::InvalidHandle,
            ),
    {
        if root.index >= self.nodes.len() {
            return Err(GraphError::InvalidHandle);
        }
        let order = self.topo_indices(root.index);
        let mut handles: Vec<NodeHandle> = Vec::new();
        let mut k: usize = 0;
        while k < order.len()
            invariant
                k <= order@.len(),
                handles@.len() == k,
                forall|j: int| 0 <= j < k ==> #[trigger] handles@[j].index == order@[j],
            decreases order@.len() - k,
        {
            handles.push(NodeHandle { index: order[k] });
            k += 1;
        }
        proof {
            assert(handle_ints(handles@) =~= ord_ints(order@));
        }
        Ok(handles)
    }

    /// Run one backward pass from `root`: seed the root's gradient to 1,
    /// then accumulate each node's gradient into its operands in
    /// topological order. Gradients add to whatever they already hold, so a
    /// second pass without [`Graph::zero_gradients`] accumulates across
    /// runs. Fails only on a dangling handle, leaving the graph unchanged.
    pub fn backward(&mut self, root: NodeHandle) -> (r: Result<(), GraphError>)
        requires
            old(self).wf(),
        ensures
            final(self).wf(),
            final(self)@.len() == old(self)@.len(),
            forall|j: int|
                0 <= j < old(self)@.len() ==> (#[trigger] final(self)@[j]).op == old(self)@[j].op
                    && final(self)@[j].value == old(self)@[j].value,
            root.index < old(self)@.len() ==> r == Ok::<(), GraphError>(()) && final(self)@
                == backward_model(old(self)@, root.index as int),
            root.index >= old(self)@.len() ==> r == Err::<(), GraphError>(
                GraphError::InvalidHandle,
            ) && final(self)@ == old(self)@,
    {
        if root.index >= self.nodes.len() {
            return Err(GraphError::InvalidHandle);
        }
        let order = self.topo_indices(root.index);
        let ghost ordi = ord_ints(order@);
        proof {
            lemma_dfs_bounds(self@, root.index as int, Set::empty(), Seq::empty());
        }
        let rootn = self.nodes[root.index];
        self.nodes.set(root.index, Node { op: rootn.op, value: rootn.value, grad: FX_ONE });
        let ghost s0 = seed(old(self)@, root.index as int);
        proof {
            assert(self@ =~= s0);
        }
        let mut k: usize = 0;
        while k < order.len()
            invariant
                k <= ordi.len(),
                ord_ints(order@) == ordi,
                order@.len() == ordi.len(),
                forall|j: int| 0 <= j < ordi.len() ==> 0 <= #[trigger] ordi[j] < s0.len(),
                graph_wf(s0),
                self@ == propagate(s0, ordi.take(k as int)),
                self@.len() == s0.len(),
                forall|j: int|
                    0 <= j < s0.len() ==> (#[trigger] self@[j]).op == s0[j].op && self@[j].value
                        == s0[j].value,
            decreases ordi.len() - k,
        {
            let ghost prev = self@;
            let i = order[k];
            proof {
                assert(ordi[k as int] == i as int);
            }
            let node = self.nodes[i];
            let gi = node.grad;
            match node.op {
                Op::Leaf => {
                    proof {
                        assert(step(prev, i as int) == prev);
                    }
                },
                Op::Add(a, b) => {
                    proof {
                        assert(node_wf(s0[i as int], i as int));
                        assert(op_operands(s0[i as int].op)[0] == a as int);
                        assert(op_operands(s0[i as int].op)[1] == b as int);
                    }
                    let ga = scalar_add(self.nodes[a].grad, gi);
                    let na = self.nodes[a];
                    self.nodes.set(a, Node { op: na.op, value: na.value, grad: ga });
                    let gb = scalar_add(self.nodes[b].grad, gi);
                    let nb = self.nodes[b];
                    self.nodes.set(b, Node { op: nb.op, value: nb.value, grad: gb });
                    proof {
                        assert(self@ =~= step(prev, i as int));
                    }
                },
                Op::Sub(a, b) => {
                    proof {
                        assert(node_wf(s0[i as int], i as int));
                        assert(op_operands(s0[i as int].op)[0] == a as int);
                        assert(op_operands(s0[i as int].op)[1] == b as int);
                    }
                    let ga = scalar_add(self.nodes[a].grad, gi);
                    let na = self.nodes[a];
                    self.nodes.set(a, Node { op: na.op, value: na.value, grad: ga });
                    let gb = scalar_add(self.nodes[b].grad, scalar_neg(gi));
                    let nb = self.nodes[b];
                    self.nodes.set(b, Node { op: nb.op, value: nb.value, grad: gb });
                    proof {
                        assert(self@ =~= step(prev, i as int));
                    }
                },
                Op::Mul(a, b) => {
                    proof {
                        assert(node_wf(s0[i as int], i as int));
                        assert(op_operands(s0[i as int].op)[0] == a as int);
                        assert(op_operands(s0[i as int].op)[1] == b as int);
                    }
                    let va = self.nodes[a].value;
                    let vb = self.nodes[b].value;
                    let ga = scalar_add(self.nodes[a].grad, scalar_mul(gi, vb));
                    let na = self.nodes[a];
                    self.nodes.set(a, Node { op: na.op, value: na.value, grad: ga });
                    let gb = scalar_add(self.nodes[b].grad, scalar_mul(gi, va));
                    let nb = self.nodes[b];
                    self.nodes.set(b, Node { op: nb.op, value: nb.value, grad: gb });
                    proof {
                        assert(self@ =~= step(prev, i as int));
                    }
                },
                Op::Tanh(a) => {
                    proof {
                        assert(node_wf(s0[i as int], i as int));
                        assert(op_operands(s0[i as int].op)[0] == a as int);
                    }
                    let t = node.value;
                    let local = scalar_sub(FX_ONE, scalar_mul(t, t));
                    let ga = scalar_add(self.nodes[a].grad, scalar_mul(gi, local));
                    let na = self.nodes[a];
                    self.nodes.set(a, Node { op: na.op, value: na.value, grad: ga });
                    proof {
                        assert(self@ =~= step(prev, i as int));
                    }
                },
            }
            proof {
                reveal_with_fuel(propagate, 3);
                assert(ordi.take(k as int + 1) =~= ordi.take(k as int) + seq![ordi[k as int]]);
                lemma_propagate_append(s0, ordi.take(k as int), seq![ordi[k as int]]);
                assert(seq![ordi[k as int]].drop_first() =~= Seq::<int>::empty());
                assert(propagate(prev, seq![ordi[k as int]]) == step(prev, ordi[k as int]));
            }
            k += 1;
        }
        proof {
            assert(ordi.take(ordi.len() as int) =~= ordi);
            assert(self@ == backward_model(old(self)@, root.index as int));
            assert forall|j: int| 0 <= j < self@.len() implies node_wf(#[trigger] self@[j], j) by {
                assert(node_wf(s0[j], j));
                assert(self@[j].op == s0[j].op);
            }
        }
        Ok(())
    }

    /// Reset every gradient accumulator to zero, leaving operations and
    /// values untouched, so a fresh backward pass starts from a clean
    /// slate.
    pub fn zero_gradients(&mut self)
        requires
            old(self).wf(),
        ensures
            final(self).wf(),
            final(self)@ == with_zero_grads(old(self)@),
    {
        let mut k: usize = 0;
        while k < self.nodes.len()
            invariant
                k <= self@.len(),
                self@.len() == old(self)@.len(),
                forall|j: int|
                    0 <= j < self@.len() ==> (#[trigger] self@[j]).op == old(self)@[j].op
                        && self@[j].value == old(self)@[j].value,
                forall|j: int| 0 <= j < k ==> (#[trigger] self@[j]).grad == 0,
            decreases self@.len() - k,
        {
            let n = self.nodes[k];
            self.nodes.set(k, Node { op: n.op, value: n.value, grad: 0 });
            k += 1;
        }
        proof {
            assert(self@ =~= with_zero_grads(old(self)@));
            assert forall|j: int| 0 <= j < self@.len() implies node_wf(#[trigger] self@[j], j) by {
                assert(node_wf(old(self)@[j], j));
                assert(self@[j].op == old(self)@[j].op);
            }
        }
    }

    /// Append the sum of two nodes. Fails only on a dangling handle.
    pub fn add(&mut self, a: NodeHandle, b: NodeHandle) -> (r: Result<NodeHandle, GraphError>)
        requires
            old(self).wf(),
        ensures
            final(self).wf(),
            a.index < old(self)@.len() && b.index < old(self)@.len() ==> {
                &&& final(self)@ == with_op(old(self)@, Op::Add(a.index, b.index))
                &&& r == Ok::<NodeHandle, GraphError>(NodeHandle { index: old(self)@.len() as usize })
            },
            !(a.index < old(self)@.len() && b.index < old(self)@.len()) ==> {
                &&& final(self)@ == old(self)@
                &&& r == Err::<NodeHandle, GraphError>(GraphError::InvalidHandle)
            },
    {
        if a.index < self.nodes.len() && b.index < self.nodes.len() {
            let v: i64 = scalar_add(self.nodes[a.index].value, self.nodes[b.index].value);
            let n = Node { op: Op::Add(a.index, b.index), value: v, grad: 0 };
            let h = NodeHandle { index: self.nodes.len() };
            proof {
                lemma_wf_push(self@, n);
            }
            self.nodes.push(n);
            Ok(h)
        } else {
            Err(GraphError::InvalidHandle)
        }
    }

    /// Append the difference of two nodes. Fails only on a dangling handle.
    pub fn subtract(&mut self, a: NodeHandle, b: NodeHandle) -> (r: Result<
        NodeHandle,
        GraphError,
    >)
        requires
            old(self).wf(),
        ensures
            final(self).wf(),
            a.index < old(self)@.len() && b.index < old(self)@.len() ==> {
                &&& final(self)@ == with_op(old(self)@, Op::Sub(a.index, b.index))
                &&& r == Ok::<NodeHandle, GraphError>(NodeHandle { index: old(self)@.len() as usize })
            },
            !(a.index < old(self)@.len() && b.index < old(self)@.len()) ==> {
                &&& final(self)@ == old(self)@
                &&& r == Err::<NodeHandle, GraphError>(GraphError::InvalidHandle)
            },
    {
        if a.index < self.nodes.len() && b.index < self.nodes.len() {
            let v: i64 = scalar_sub(self.nodes[a.index].value, self.nodes[b.index].value);
            let n = Node { op: Op::Sub(a.index, b.index), value: v, grad: 0 };
            let h = NodeHandle { index: self.nodes.len() };
            proof {
                lemma_wf_push(self@, n);
            }
            self.nodes.push(n);
            Ok(h)
        } else {
            Err(GraphError::InvalidHandle)
        }
    }

    /// Append the product of two nodes. Fails only on a dangling handle.
    pub fn multiply(&mut self, a: NodeHandle, b: NodeHandle) -> (r: Result<
        NodeHandle,
        GraphError,
    >)
        requires
            old(self).wf(),
        ensures
            final(self).wf(),
            a.index < old(self)@.len() && b.index < old(self)@.len() ==> {
                &&& final(self)@ == with_op(old(self)@, Op::Mul(a.index, b.index))
                &&& r == Ok::<NodeHandle, GraphError>(NodeHandle { index: old(self)@.len() as usize })
            },
            !(a.index < old(self)@.len() && b.index < old(self)@.len()) ==> {
                &&& final(self)@ == old(self)@
                &&& r == Err::<NodeHandle, GraphError>(GraphError::InvalidHandle)
            },
    {
        if a.index < self.nodes.len() && b.index < self.nodes.len() {
            let v: i64 = scalar_mul(self.nodes[a.index].value, self.nodes[b.index].value);
            let n = Node { op: Op::Mul(a.index, b.index), value: v, grad: 0 };
            let h = NodeHandle { index: self.nodes.len() };
            proof {
                lemma_wf_push(self@, n);
            }
            self.nodes.push(n);
            Ok(h)
        } else {
            Err(GraphError::InvalidHandle)
        }
    }

    /// Append the hyperbolic tangent of a node. Fails only on a dangling
    /// handle.
    pub fn tanh(&mut self, a: NodeHandle) -> (r: Result<NodeHandle, GraphError>)
        requires
            old(self).wf(),
        ensures
            final(self).wf(),
            a.index < old(self)@.len() ==> {
                &&& final(self)@ == with_op(old(self)@, Op::Tanh(a.index))
                &&& r == Ok::<NodeHandle, GraphError>(NodeHandle { index: old(self)@.len() as usize })
            },
            a.index >= old(self)@.len() ==> {
                &&& final(self)@ == old(self)@
                &&& r == Err::<NodeHandle, GraphError>(GraphError::InvalidHandle)
            },
    {
        if a.index < self.nodes.len() {
            let v: i64 = scalar_tanh(self.nodes[a.index].value);
            let n = Node { op: Op::Tanh(a.index), value: v, grad: 0 };
            let h = NodeHandle { index: self.nodes.len() };
            proof {
                lemma_wf_push(self@, n);
            }
            self.nodes.push(n);
            Ok(h)
        } else {
            Err(GraphError::InvalidHandle)
        }
    }
}

} // verus!
