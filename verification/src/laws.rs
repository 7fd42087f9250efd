//! What the backward pass computes on the smallest expressions: one operation
//! applied to leaves that have received no gradient yet.
use crate::gradient::apply_rule;
use crate::gradient::backward_pass;
use crate::gradient::lemma_apply_rule_shape;
use crate::gradient::propagate;
use crate::gradient::propagate_all;
use crate::gradient::seed;
use crate::graph::applied;
use crate::graph::operands;
use crate::graph::lemma_push_well_formed;
use crate::graph::well_formed;
use crate::graph::Node;
use crate::graph::Operation;
use crate::graph::Value;
use crate::order::lemma_operands_len;
use crate::order::post_order;
use crate::order::topo_order;
use crate::order::visit;
use crate::scalar::lemma_wrap_scalar;
use crate::scalar::wrap;
use vstd::prelude::*;

verus! {

/// `value` names a leaf of the graph whose gradient is zero.
pub open spec fn fresh_leaf(nodes: Seq<Node>, value: Value) -> bool {
    &&& value@ < nodes.len()
    &&& nodes[value@].operation is None
    &&& nodes[value@].grad == 0
}

/// The walk from a leaf that is not listed yet lists the leaf and nothing
/// else.
proof fn lemma_visit_leaf(nodes: Seq<Node>, n: int, out: Seq<int>)
    requires
        well_formed(nodes),
        0 <= n < nodes.len(),
        nodes[n].operation is None,
        !out.contains(n),
    ensures
        visit(nodes, n, out) == out.push(n),
{
}

/// The backward pass from an operation on leaves applies the rule of that
/// operation, once, to the seeded graph.
proof fn lemma_backward_over_leaves(nodes: Seq<Node>, operation: Operation)
    requires
        well_formed(nodes),
        forall|k: int|
            0 <= k < operands(Some(operation)).len() ==> 0 <= (#[trigger] operands(
                Some(operation),
            )[k]) < nodes.len() && nodes[operands(Some(operation))[k]].operation is None,
    ensures
        well_formed(nodes.push(applied(nodes, operation))),
        backward_pass(nodes.push(applied(nodes, operation)), nodes.len() as int) == apply_rule(
            seed(nodes.push(applied(nodes, operation)), nodes.len() as int),
            operation,
            1,
        ),
{
    let graph = nodes.push(applied(nodes, operation));
    let root = nodes.len() as int;
    let ops = operands(Some(operation));
    let empty = Seq::<int>::empty();
    lemma_push_well_formed(nodes, applied(nodes, operation));
    lemma_operands_len(Some(operation));
    assert(graph[root].operation == Some(operation));
    assert(0 <= ops[0] < nodes.len() && nodes[ops[0]].operation is None);
    assert(graph[ops[0]] == nodes[ops[0]]);
    lemma_visit_leaf(graph, ops[0], empty);
    let first = empty.push(ops[0]);
    assert(visit(graph, ops[0], empty) == first);
    let second = if ops.len() == 2 {
        visit(graph, ops[1], first)
    } else {
        first
    };
    if ops.len() == 2 {
        assert(0 <= ops[1] < nodes.len() && nodes[ops[1]].operation is None);
        assert(graph[ops[1]] == nodes[ops[1]]);
        if ops[1] == ops[0] {
            assert(first[0] == ops[1]);
            assert(first.contains(ops[1]));
            assert(second == first);
        } else {
            lemma_visit_leaf(graph, ops[1], first);
        }
    }
    let post = post_order(graph, root);
    assert(!empty.contains(root));
    assert(post == second.push(root));
    let order = topo_order(graph, root);
    assert(order.len() == post.len());
    assert(order[0] == root);
    assert forall|i: int| 1 <= i < order.len() implies graph[#[trigger] order[i]].operation
        is None by {
        assert(order[i] == post[post.len() - 1 - i]);
    }
    let seeded = seed(graph, root);
    let pushed = apply_rule(seeded, operation, 1);
    assert(seeded[root].operation == Some(operation));
    assert(propagate(seeded, root) == pushed);
    lemma_apply_rule_shape(seeded, operation, 1);
    lemma_leaves_pass_nothing(pushed, order.drop_first());
}

/// Leaves pass no gradient on.
proof fn lemma_leaves_pass_nothing(nodes: Seq<Node>, order: Seq<int>)
    requires
        forall|i: int| 0 <= i < order.len() ==> nodes[#[trigger] order[i]].operation is None,
    ensures
        propagate_all(nodes, order) == nodes,
    decreases order.len(),
{
    if order.len() > 0 {
        assert(nodes[order[0]].operation is None);
        assert forall|i: int| 0 <= i < order.drop_first().len() implies nodes[
        #[trigger] order.drop_first()[i]].operation is None by {
            assert(order.drop_first()[i] == order[i + 1]);
        }
        lemma_leaves_pass_nothing(nodes, order.drop_first());
    }
}

/// A sum has the sum of the two values, and the backward pass from it gives
/// each of two distinct fresh leaves the gradient one.
pub proof fn lemma_sum_gradients(nodes: Seq<Node>, a: Value, b: Value)
    requires
        well_formed(nodes),
        fresh_leaf(nodes, a),
        fresh_leaf(nodes, b),
        a != b,
    ensures
        ({
            let sum = nodes.len() as int;
            let graph = nodes.push(applied(nodes, Operation::Addition(a, b)));
            let after = backward_pass(graph, sum);
            &&& graph[sum].data == wrap(nodes[a@].data + nodes[b@].data)
            &&& after[a@].grad == 1
            &&& after[b@].grad == 1
            &&& after[sum].grad == 1
        }),
{
    lemma_backward_over_leaves(nodes, Operation::Addition(a, b));
    lemma_wrap_scalar(1);
}

/// A sum of a fresh leaf with itself gives the leaf the gradient two: both
/// uses count.
pub proof fn lemma_double_gradient(nodes: Seq<Node>, a: Value)
    requires
        well_formed(nodes),
        fresh_leaf(nodes, a),
    ensures
        ({
            let sum = nodes.len() as int;
            let graph = nodes.push(applied(nodes, Operation::Addition(a, a)));
            let after = backward_pass(graph, sum);
            &&& graph[sum].data == wrap(2 * nodes[a@].data)
            &&& after[a@].grad == 2
            &&& after[sum].grad == 1
        }),
{
    lemma_backward_over_leaves(nodes, Operation::Addition(a, a));
    lemma_wrap_scalar(1);
    lemma_wrap_scalar(2);
}

/// A difference has the difference of the two values, and the backward pass
/// from it gives the left of two distinct fresh leaves the gradient one and
/// the right one the gradient minus one.
pub proof fn lemma_difference_gradients(nodes: Seq<Node>, a: Value, b: Value)
    requires
        well_formed(nodes),
        fresh_leaf(nodes, a),
        fresh_leaf(nodes, b),
        a != b,
    ensures
        ({
            let difference = nodes.len() as int;
            let graph = nodes.push(applied(nodes, Operation::Subtraction(a, b)));
            let after = backward_pass(graph, difference);
            &&& graph[difference].data == wrap(nodes[a@].data - nodes[b@].data)
            &&& after[a@].grad == 1
            &&& after[b@].grad == -1
            &&& after[difference].grad == 1
        }),
{
    lemma_backward_over_leaves(nodes, Operation::Subtraction(a, b));
    lemma_wrap_scalar(1);
    lemma_wrap_scalar(-1i64);
}

/// A product has the product of the two values, and the backward pass from
/// it gives each of two distinct fresh leaves the value of the other as its
/// gradient.
pub proof fn lemma_product_gradients(nodes: Seq<Node>, a: Value, b: Value)
    requires
        well_formed(nodes),
        fresh_leaf(nodes, a),
        fresh_leaf(nodes, b),
        a != b,
    ensures
        ({
            let product = nodes.len() as int;
            let graph = nodes.push(applied(nodes, Operation::Multiplication(a, b)));
            let after = backward_pass(graph, product);
            &&& graph[product].data == wrap(nodes[a@].data * nodes[b@].data)
            &&& after[a@].grad == nodes[b@].data
            &&& after[b@].grad == nodes[a@].data
            &&& after[product].grad == 1
        }),
{
    lemma_backward_over_leaves(nodes, Operation::Multiplication(a, b));
    lemma_wrap_scalar(nodes[a@].data);
    lemma_wrap_scalar(nodes[b@].data);
    assert(1 * nodes[a@].data == nodes[a@].data);
    assert(1 * nodes[b@].data == nodes[b@].data);
}

} // verus!
