//! The order of the backward pass.
//!
//! A depth-first walk from the terminal node lists every node it reaches
//! after that node's operands, the left operand's part before the right's.
//! The backward pass follows this list from its end, so that a node is
//! processed once all the nodes that use it have been processed.
use crate::graph::ids;
use crate::graph::operands;
use crate::graph::well_formed;
use crate::graph::Graph;
use crate::graph::Node;
use crate::graph::Value;
use vstd::prelude::*;

verus! {

/// The walk from node `n`, continuing the list `out`: nothing if `n` is
/// listed already; else the walks from its operands, left to right, and then
/// `n` itself.
pub open spec fn visit(nodes: Seq<Node>, n: int, out: Seq<int>) -> Seq<int>
    decreases n,
    when well_formed(nodes) && 0 <= n < nodes.len()
{
    if out.contains(n) {
        out
    } else {
        let ops = operands(nodes[n].operation);
        let first = if ops.len() >= 1 {
            visit(nodes, ops[0], out)
        } else {
            out
        };
        let second = if ops.len() >= 2 {
            visit(nodes, ops[1], first)
        } else {
            first
        };
        second.push(n)
    }
}

/// The nodes that `root` depends on, operands before the nodes that use them.
pub open spec fn post_order(nodes: Seq<Node>, root: int) -> Seq<int> {
    visit(nodes, root, Seq::empty())
}

/// The order of the backward pass from `root`: `root` first, and every node
/// before its operands.
pub open spec fn topo_order(nodes: Seq<Node>, root: int) -> Seq<int> {
    post_order(nodes, root).reverse()
}

/// Node `user` has node `operand` as one of its operands.
pub open spec fn consumes(nodes: Seq<Node>, user: int, operand: int) -> bool {
    operands(nodes[user].operation).contains(operand)
}

/// Node `to` is `from` itself or can be reached from it by going from a node
/// to one of its operands, any number of times.
pub open spec fn reachable(nodes: Seq<Node>, from: int, to: int) -> bool
    decreases from,
    when well_formed(nodes) && 0 <= from < nodes.len()
{
    let ops = operands(nodes[from].operation);
    ||| from == to
    ||| ops.len() >= 1 && reachable(nodes, ops[0], to)
    ||| ops.len() >= 2 && reachable(nodes, ops[1], to)
}

/// `value` stands in `list` before position `end`.
pub open spec fn precedes(list: Seq<int>, value: int, end: int) -> bool {
    exists|j: int| 0 <= j < end && j < list.len() && list[j] == value
}

/// `list` names nodes of the graph, none twice, and each after all of its
/// operands.
pub open spec fn post_ordered(nodes: Seq<Node>, list: Seq<int>) -> bool {
    &&& forall|i: int| 0 <= i < list.len() ==> 0 <= #[trigger] list[i] < nodes.len()
    &&& list.no_duplicates()
    &&& forall|i: int, k: int|
        0 <= i < list.len() && 0 <= k < operands(nodes[list[i]].operation).len() ==> precedes(
            list,
            #[trigger] operands(nodes[list[i]].operation)[k],
            i,
        )
}

/// No node has more than two operands.
pub proof fn lemma_operands_len(operation: Option<crate::graph::Operation>)
    ensures
        operands(operation).len() <= 2,
{
}

/// A node reaches only itself and nodes recorded before it.
pub proof fn lemma_reachable_below(nodes: Seq<Node>, from: int, to: int)
    requires
        well_formed(nodes),
        0 <= from < nodes.len(),
        reachable(nodes, from, to),
    ensures
        0 <= to <= from,
    decreases from,
{
    let ops = operands(nodes[from].operation);
    if from != to {
        if ops.len() >= 1 && reachable(nodes, ops[0], to) {
            lemma_reachable_below(nodes, ops[0], to);
        } else {
            lemma_operands_len(nodes[from].operation);
            lemma_reachable_below(nodes, ops[1], to);
        }
    }
}

/// Whatever an operand reaches, its consumer reaches too.
pub proof fn lemma_reachable_step(nodes: Seq<Node>, from: int, k: int, to: int)
    requires
        well_formed(nodes),
        0 <= from < nodes.len(),
        0 <= k < operands(nodes[from].operation).len(),
        reachable(nodes, operands(nodes[from].operation)[k], to),
    ensures
        reachable(nodes, from, to),
{
    lemma_operands_len(nodes[from].operation);
}

/// What a node reaches, it reaches through each node on the way: an operand
/// of a reachable node is reachable.
pub proof fn lemma_reachable_chain(nodes: Seq<Node>, from: int, through: int, k: int)
    requires
        well_formed(nodes),
        0 <= from < nodes.len(),
        reachable(nodes, from, through),
        0 <= through < nodes.len(),
        0 <= k < operands(nodes[through].operation).len(),
    ensures
        reachable(nodes, from, operands(nodes[through].operation)[k]),
    decreases from,
{
    let target = operands(nodes[through].operation)[k];
    let ops = operands(nodes[from].operation);
    lemma_operands_len(nodes[from].operation);
    assert(0 <= target < through);
    if from == through {
        assert(reachable(nodes, target, target));
        lemma_reachable_step(nodes, from, k, target);
    } else if ops.len() >= 1 && reachable(nodes, ops[0], through) {
        assert(0 <= ops[0] < from);
        lemma_reachable_chain(nodes, ops[0], through, k);
    } else {
        assert(0 <= ops[1] < from);
        lemma_reachable_chain(nodes, ops[1], through, k);
    }
}

/// The walk from `n` keeps what was listed, lists `n`, adds only nodes that
/// `n` reaches, and keeps the list in post-order.
pub proof fn lemma_visit(nodes: Seq<Node>, n: int, out: Seq<int>)
    requires
        well_formed(nodes),
        0 <= n < nodes.len(),
        post_ordered(nodes, out),
    ensures
        post_ordered(nodes, visit(nodes, n, out)),
        out.is_prefix_of(visit(nodes, n, out)),
        visit(nodes, n, out).contains(n),
        !out.contains(n) ==> visit(nodes, n, out).last() == n,
        forall|i: int|
            out.len() <= i < visit(nodes, n, out).len() ==> reachable(
                nodes,
                n,
                #[trigger] visit(nodes, n, out)[i],
            ),
    decreases n,
{
    let result = visit(nodes, n, out);
    if !out.contains(n) {
        let ops = operands(nodes[n].operation);
        lemma_operands_len(nodes[n].operation);
        let first = if ops.len() >= 1 {
            visit(nodes, ops[0], out)
        } else {
            out
        };
        let second = if ops.len() >= 2 {
            visit(nodes, ops[1], first)
        } else {
            first
        };
        if ops.len() >= 1 {
            assert(0 <= ops[0] < n);
            lemma_visit(nodes, ops[0], out);
        }
        if ops.len() >= 2 {
            assert(0 <= ops[1] < n);
            lemma_visit(nodes, ops[1], first);
        }
        assert(result == second.push(n));
        assert(out.is_prefix_of(first));
        assert(first.is_prefix_of(second));
        // What the operands' walks added is reachable from `n`.
        assert forall|i: int| out.len() <= i < second.len() implies reachable(
            nodes,
            n,
            #[trigger] second[i],
        ) && second[i] < n by {
            if i < first.len() {
                assert(first[i] == second[i]);
                lemma_reachable_step(nodes, n, 0, second[i]);
                lemma_reachable_below(nodes, ops[0], second[i]);
            } else {
                lemma_reachable_step(nodes, n, 1, second[i]);
                lemma_reachable_below(nodes, ops[1], second[i]);
            }
        }
        assert forall|i: int| 0 <= i < second.len() implies #[trigger] second[i] != n by {
            if i < out.len() {
                assert(second[i] == first[i]);
                assert(first[i] == out[i]);
            }
        }
        assert(result.no_duplicates());
        assert forall|i: int, k: int|
            0 <= i < result.len() && 0 <= k < operands(
                nodes[result[i]].operation,
            ).len() implies precedes(
            result,
            #[trigger] operands(nodes[result[i]].operation)[k],
            i,
        ) by {
            let operand = operands(nodes[result[i]].operation)[k];
            if i < second.len() {
                assert(result[i] == second[i]);
                assert(precedes(second, operands(nodes[second[i]].operation)[k], i));
                let j = choose|j: int| 0 <= j < i && j < second.len() && second[j] == operand;
                assert(result[j] == operand);
            } else {
                if k == 0 {
                    assert(first.contains(operand));
                    let j = choose|j: int| 0 <= j < first.len() && first[j] == operand;
                    assert(second[j] == first[j]);
                    assert(result[j] == operand);
                } else {
                    assert(second.contains(operand));
                    let j = choose|j: int| 0 <= j < second.len() && second[j] == operand;
                    assert(result[j] == operand);
                }
            }
        }
        assert(result[result.len() - 1] == n);
        assert(result.contains(n));
        assert(out.is_prefix_of(result));
        assert forall|i: int| out.len() <= i < result.len() implies reachable(
            nodes,
            n,
            #[trigger] result[i],
        ) by {
            if i < second.len() {
                assert(result[i] == second[i]);
            }
        }
    }
}

/// A post-ordered list that holds a node holds all that the node reaches.
pub proof fn lemma_post_ordered_closed(nodes: Seq<Node>, list: Seq<int>, from: int, to: int)
    requires
        well_formed(nodes),
        post_ordered(nodes, list),
        list.contains(from),
        0 <= from < nodes.len(),
        reachable(nodes, from, to),
    ensures
        list.contains(to),
    decreases from,
{
    if from != to {
        let ops = operands(nodes[from].operation);
        lemma_operands_len(nodes[from].operation);
        let k: int = if ops.len() >= 1 && reachable(nodes, ops[0], to) {
            0
        } else {
            1
        };
        let i = choose|i: int| 0 <= i < list.len() && list[i] == from;
        assert(precedes(list, operands(nodes[list[i]].operation)[k], i));
        lemma_post_ordered_closed(nodes, list, ops[k], to);
    }
}

/// The order of the backward pass is total and respects dependencies: it
/// holds exactly the nodes that the terminal node reaches, each of them once;
/// the terminal node comes first; and no node stands before a node that uses
/// it as an operand.
pub proof fn lemma_topo_order(nodes: Seq<Node>, root: int)
    requires
        well_formed(nodes),
        0 <= root < nodes.len(),
    ensures
        topo_order(nodes, root).no_duplicates(),
        forall|v: int| topo_order(nodes, root).contains(v) <==> reachable(nodes, root, v),
        topo_order(nodes, root).len() > 0,
        topo_order(nodes, root)[0] == root,
        forall|i: int, j: int|
            0 <= i < topo_order(nodes, root).len() && 0 <= j < topo_order(nodes, root).len()
                && consumes(nodes, #[trigger] topo_order(nodes, root)[i], #[trigger] topo_order(nodes, root)[j])
                ==> i < j,
{
    let post = post_order(nodes, root);
    let order = topo_order(nodes, root);
    let empty = Seq::<int>::empty();
    assert(post_ordered(nodes, empty));
    lemma_visit(nodes, root, empty);
    let len = post.len() as int;
    assert(len > 0);
    assert(order.len() == len);
    assert forall|i: int| 0 <= i < len implies #[trigger] order[i] == post[len - 1 - i] by {}
    assert(order.no_duplicates());
    assert forall|v: int| order.contains(v) <==> reachable(nodes, root, v) by {
        if order.contains(v) {
            let i = choose|i: int| 0 <= i < order.len() && order[i] == v;
            assert(post[len - 1 - i] == v);
        }
        if reachable(nodes, root, v) {
            lemma_post_ordered_closed(nodes, post, root, v);
            let i = choose|i: int| 0 <= i < post.len() && post[i] == v;
            assert(order[len - 1 - i] == v);
        }
    }
    assert forall|i: int, j: int|
        0 <= i < order.len() && 0 <= j < order.len() && consumes(
            nodes,
            #[trigger] order[i],
            #[trigger] order[j],
        ) implies i < j by {
        let user = len - 1 - i;
        let ops = operands(nodes[post[user]].operation);
        let k = choose|k: int| 0 <= k < ops.len() && ops[k] == order[j];
        assert(precedes(post, operands(nodes[post[user]].operation)[k], user));
        let at = choose|at: int| 0 <= at < user && at < post.len() && post[at] == ops[k];
        assert(post[len - 1 - j] == post[at]);
    }
}

/// One entry of the work stack of the walk: a node that is still to be
/// entered, or one whose operands are on the stack above it and that is
/// listed once they are done.
#[derive(Clone, Copy)]
struct Frame {
    node: usize,
    emit: bool,
}

/// The list after the work that one frame stands for.
spec fn step(nodes: Seq<Node>, frame: Frame, out: Seq<int>) -> Seq<int> {
    if frame.emit {
        out.push(frame.node as int)
    } else {
        visit(nodes, frame.node as int, out)
    }
}

/// The list after all the work on the stack, done from the top down.
spec fn drain(nodes: Seq<Node>, stack: Seq<Frame>, out: Seq<int>) -> Seq<int>
    decreases stack.len(),
{
    if stack.len() == 0 {
        out
    } else {
        drain(nodes, stack.drop_last(), step(nodes, stack.last(), out))
    }
}

/// Node `v` waits on the stack to be listed.
spec fn pending(stack: Seq<Frame>, v: int) -> bool {
    exists|j: int| 0 <= j < stack.len() && (#[trigger] stack[j]).emit && stack[j].node == v
}

/// The number of nodes that the walk has not entered yet.
spec fn unmarked(visited: Seq<bool>) -> nat
    decreases visited.len(),
{
    if visited.len() == 0 {
        0
    } else {
        unmarked(visited.drop_last()) + if visited.last() {
            0nat
        } else {
            1nat
        }
    }
}

proof fn lemma_mark(visited: Seq<bool>, i: int)
    requires
        0 <= i < visited.len(),
        !visited[i],
    ensures
        unmarked(visited.update(i, true)) + 1 == unmarked(visited),
    decreases visited.len(),
{
    let marked = visited.update(i, true);
    if i == visited.len() - 1 {
        assert(marked.drop_last() =~= visited.drop_last());
    } else {
        assert(marked.drop_last() =~= visited.drop_last().update(i, true));
        lemma_mark(visited.drop_last(), i);
    }
}

proof fn lemma_drain_push(nodes: Seq<Node>, stack: Seq<Frame>, frame: Frame, out: Seq<int>)
    ensures
        drain(nodes, stack.push(frame), out) == drain(nodes, stack, step(nodes, frame, out)),
{
    assert(stack.push(frame).drop_last() =~= stack);
}

proof fn lemma_ids_push(handles: Seq<Value>, value: Value)
    ensures
        ids(handles.push(value)) == ids(handles).push(value@),
{
    assert(ids(handles.push(value)) =~= ids(handles).push(value@));
}

impl Value {
    /// The order in which the backward pass from this node processes the
    /// nodes: this node first, and every node before its operands. The walk
    /// keeps its own stack, so a deep expression costs memory and no call
    /// depth.
    pub fn toposort(&self, graph: &Graph) -> (order: Vec<Value>)
        requires
            graph.wf(),
            graph.owns(*self),
        ensures
            ids(order@) == topo_order(graph@, self@),
    {
        let count = graph.len();
        let mut visited: Vec<bool> = Vec::new();
        while visited.len() < count
            invariant
                visited.len() <= count,
                forall|v: int| 0 <= v < visited.len() ==> !visited[v],
            decreases count - visited.len(),
        {
            visited.push(false);
        }
        let mut traversal: Vec<Value> = Vec::new();
        let mut stack: Vec<Frame> = Vec::new();
        stack.push(Frame { node: self.index, emit: false });
        proof {
            assert(ids(traversal@) =~= Seq::<int>::empty());
            lemma_drain_push(
                graph@,
                Seq::<Frame>::empty(),
                Frame { node: self.index, emit: false },
                ids(traversal@),
            );
            assert(stack@ =~= Seq::<Frame>::empty().push(Frame { node: self.index, emit: false }));
            assert forall|v: int| 0 <= v < count implies !pending(stack@, v) && !ids(
                traversal@,
            ).contains(v) by {}
        }
        while stack.len() > 0
            invariant
                graph.wf(),
                count == graph@.len(),
                visited.len() == count,
                forall|j: int| 0 <= j < stack.len() ==> (#[trigger] stack[j]).node < count,
                drain(graph@, stack@, ids(traversal@)) == post_order(graph@, self@),
                forall|v: int|
                    0 <= v < count ==> (#[trigger] visited[v] <==> ids(traversal@).contains(v)
                        || pending(stack@, v)),
                forall|j: int, k: int|
                    0 <= j < k < stack.len() && (#[trigger] stack[j]).emit ==> (
                    #[trigger] stack[k]).node < stack[j].node,
            decreases unmarked(visited@), stack.len(),
        {
            let ghost before = stack@;
            let ghost out = ids(traversal@);
            let ghost marks = visited@;
            let top = stack.pop().unwrap();
            let ghost rest = stack@;
            proof {
                assert(before =~= rest.push(top));
                lemma_drain_push(graph@, rest, top, out);
            }
            if top.emit {
                traversal.push(Value { index: top.node });
                proof {
                    lemma_ids_push(traversal@.drop_last(), Value { index: top.node });
                    assert(traversal@.drop_last().push(Value { index: top.node }) =~= traversal@);
                    let listed = ids(traversal@);
                    assert(listed == out.push(top.node as int));
                    assert(pending(before, top.node as int)) by {
                        assert(before[rest.len() as int].emit);
                    }
                    assert forall|v: int| 0 <= v < count implies (#[trigger] visited[v]
                        <==> listed.contains(v) || pending(rest, v)) by {
                        if listed.contains(v) && v != top.node {
                            let i = choose|i: int| 0 <= i < listed.len() && listed[i] == v;
                            assert(out[i] == v);
                        }
                        if out.contains(v) {
                            let i = choose|i: int| 0 <= i < out.len() && out[i] == v;
                            assert(listed[i] == v);
                        }
                        if v == top.node {
                            assert(listed[out.len() as int] == v);
                        }
                        if pending(before, v) && v != top.node {
                            let j = choose|j: int|
                                0 <= j < before.len() && (#[trigger] before[j]).emit
                                    && before[j].node == v;
                            assert(rest[j].emit && rest[j].node == v);
                        }
                        if pending(rest, v) {
                            let j = choose|j: int|
                                0 <= j < rest.len() && (#[trigger] rest[j]).emit && rest[j].node
                                    == v;
                            assert(before[j].emit && before[j].node == v);
                        }
                    }
                    assert forall|j: int, k: int|
                        0 <= j < k < rest.len() && (#[trigger] rest[j]).emit implies (
                    #[trigger] rest[k]).node < rest[j].node by {
                        assert(before[j].emit);
                        assert(before[k].node < before[j].node);
                    }
                }
            } else if visited[top.node] {
                proof {
                    let n = top.node as int;
                    assert(before[rest.len() as int] == top);
                    if pending(before, n) {
                        let j = choose|j: int|
                            0 <= j < before.len() && (#[trigger] before[j]).emit && before[j].node
                                == n;
                        assert(before[rest.len() as int].node < before[j].node);
                    }
                    assert(out.contains(n));
                    assert forall|v: int| 0 <= v < count implies (#[trigger] visited[v]
                        <==> out.contains(v) || pending(rest, v)) by {
                        if pending(before, v) {
                            let j = choose|j: int|
                                0 <= j < before.len() && (#[trigger] before[j]).emit
                                    && before[j].node == v;
                            assert(rest[j].emit && rest[j].node == v);
                        }
                        if pending(rest, v) {
                            let j = choose|j: int|
                                0 <= j < rest.len() && (#[trigger] rest[j]).emit && rest[j].node
                                    == v;
                            assert(before[j].emit && before[j].node == v);
                        }
                    }
                    assert forall|j: int, k: int|
                        0 <= j < k < rest.len() && (#[trigger] rest[j]).emit implies (
                    #[trigger] rest[k]).node < rest[j].node by {
                        assert(before[j].emit);
                        assert(before[k].node < before[j].node);
                    }
                }
            } else {
                let node = Value { index: top.node };
                let operation = graph.operation(node);
                visited.set(top.node, true);
                stack.push(Frame { node: top.node, emit: true });
                let ghost n = top.node as int;
                let ghost ops = operands(operation);
                proof {
                    lemma_mark(marks, n);
                    lemma_operands_len(operation);
                    assert(before[rest.len() as int] == top);
                    assert(!out.contains(n)) by {
                        assert(!marks[n]);
                    }
                    assert forall|k: int| 0 <= k < ops.len() implies 0 <= #[trigger] ops[k]
                        < n by {
                        assert(0 <= operands(graph@[n].operation)[k] < n);
                    }
                }
                let ghost first = if ops.len() >= 1 {
                    visit(graph@, ops[0], out)
                } else {
                    out
                };
                let ghost second = if ops.len() >= 2 {
                    visit(graph@, ops[1], first)
                } else {
                    first
                };
                let ghost emit = rest.push(Frame { node: top.node, emit: true });
                proof {
                    assert(visit(graph@, n, out) == second.push(n));
                    lemma_drain_push(graph@, rest, Frame { node: top.node, emit: true }, second);
                    assert(drain(graph@, emit, second) == post_order(graph@, self@));
                }
                match operation {
                    Some(op) => {
                        let (lhs, rhs) = op.inputs();
                        match rhs {
                            Some(rhs) => {
                                stack.push(Frame { node: rhs.index, emit: false });
                                stack.push(Frame { node: lhs.index, emit: false });
                                proof {
                                    assert(ops =~= seq![lhs@, rhs@]);
                                    let right = Frame { node: rhs.index, emit: false };
                                    let left = Frame { node: lhs.index, emit: false };
                                    lemma_drain_push(graph@, emit, right, first);
                                    lemma_drain_push(graph@, emit.push(right), left, out);
                                    assert(stack@ == emit.push(right).push(left));
                                }
                            },
                            None => {
                                stack.push(Frame { node: lhs.index, emit: false });
                                proof {
                                    assert(ops =~= seq![lhs@]);
                                    let only = Frame { node: lhs.index, emit: false };
                                    lemma_drain_push(graph@, emit, only, out);
                                    assert(stack@ == emit.push(only));
                                }
                            },
                        }
                    },
                    None => {
                        proof {
                            assert(ops =~= Seq::<int>::empty());
                            assert(stack@ == emit);
                        }
                    },
                }
                proof {
                    let after = stack@;
                    let base = rest.len() as int;
                    assert(after.len() == base + 1 + ops.len());
                    assert(after[base] == Frame { node: top.node, emit: true });
                    assert forall|j: int| 0 <= j < base implies #[trigger] after[j] == rest[j] by {}
                    assert forall|j: int| base < j < after.len() implies !(#[trigger] after[j]).emit
                        && 0 <= after[j].node < n by {}
                    assert forall|j: int| 0 <= j < base implies #[trigger] rest[j] == before[j] by {}
                    assert forall|v: int| 0 <= v < count implies (#[trigger] visited[v]
                        <==> out.contains(v) || pending(after, v)) by {
                        if v == n {
                            assert(after[base].emit && after[base].node == v);
                        } else {
                            assert(visited[v] == marks[v]);
                            if pending(before, v) {
                                let j = choose|j: int|
                                    0 <= j < before.len() && (#[trigger] before[j]).emit
                                        && before[j].node == v;
                                assert(after[j].emit && after[j].node == v);
                            }
                            if pending(after, v) {
                                let j = choose|j: int|
                                    0 <= j < after.len() && (#[trigger] after[j]).emit
                                        && after[j].node == v;
                                assert(j < base);
                                assert(before[j].emit && before[j].node == v);
                            }
                        }
                    }
                    assert forall|j: int, k: int|
                        0 <= j < k < after.len() && (#[trigger] after[j]).emit implies (
                    #[trigger] after[k]).node < after[j].node by {
                        if j < base {
                            assert(before[j].emit);
                            assert(before[base].node < before[j].node);
                            if k < base {
                                assert(before[k].node < before[j].node);
                            }
                        }
                    }
                    assert forall|j: int| 0 <= j < after.len() implies (#[trigger] after[j]).node
                        < count by {
                        if j < base {
                            assert(before[j].node < count);
                        }
                    }
                }
            }
        }
        let mut order: Vec<Value> = Vec::new();
        let mut left = traversal.len();
        while left > 0
            invariant
                left <= traversal.len(),
                order.len() == traversal.len() - left,
                forall|i: int|
                    0 <= i < order.len() ==> #[trigger] order[i] == traversal[traversal.len() - 1
                        - i],
            decreases left,
        {
            left -= 1;
            order.push(traversal[left]);
        }
        proof {
            assert(ids(order@) =~= ids(traversal@).reverse());
        }
        order
    }
}

} // verus!
