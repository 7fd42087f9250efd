//! The backward pass: the gradient rule of each operation, and the walk that
//! applies the rules in dependency order.
//!
//! Every rule adds to the gradients of the operands and overwrites none, so a
//! node that is used more than once, or twice by one operation, collects the
//! contribution of every use.
use crate::graph::ids;
use crate::graph::lemma_same_shape_well_formed;
use crate::graph::operands;
use crate::graph::operands_below;
use crate::graph::same_shape;
use crate::graph::well_formed;
use crate::graph::with_grad;
use crate::graph::Graph;
use crate::graph::Node;
use crate::graph::Operation;
use crate::graph::Value;
use crate::order::consumes;
use crate::order::lemma_topo_order;
use crate::order::reachable;
use crate::order::lemma_reachable_below;
use crate::order::lemma_reachable_chain;
use crate::order::topo_order;
use crate::scalar::congruent;
use crate::scalar::lemma_congruent_add;
use crate::scalar::lemma_congruent_mul;
use crate::scalar::lemma_wrap_congruent;
use crate::scalar::lemma_wrap_eq;
use crate::scalar::lemma_wrap_scalar;
use crate::scalar::lemma_wrapping_add;
use crate::scalar::lemma_wrapping_mul;
use crate::scalar::lemma_wrapping_sub;
use crate::scalar::wrap;
use crate::scalar::wrapping_powi;
use vstd::arithmetic::power::pow;
use vstd::prelude::*;

verus! {

/// The graph after `delta` was added to the gradient of node `target`.
pub open spec fn accumulate(nodes: Seq<Node>, target: int, delta: int) -> Seq<Node> {
    nodes.update(target, with_grad(nodes[target], wrap(nodes[target].grad + delta)))
}

/// What a power with the given base and exponent passes on of the gradient
/// `grad`: `grad * exponent * base^(exponent - 1)`, and nothing where the
/// exponent is zero.
pub open spec fn power_rule(grad: int, base: int, exponent: nat) -> int {
    if exponent == 0 {
        0
    } else {
        grad * exponent * pow(base, (exponent - 1) as nat)
    }
}

/// The graph after `operation` has passed the gradient `grad` of its result
/// on to its operands: first to the left operand, then to the right one.
pub open spec fn apply_rule(nodes: Seq<Node>, operation: Operation, grad: i64) -> Seq<Node> {
    match operation {
        Operation::Addition(lhs, rhs) => accumulate(accumulate(nodes, lhs@, grad as int), rhs@, grad as int),
        Operation::Subtraction(lhs, rhs) => accumulate(accumulate(nodes, lhs@, grad as int), rhs@, -grad),
        Operation::Multiplication(lhs, rhs) => accumulate(
            accumulate(nodes, lhs@, grad * nodes[rhs@].data),
            rhs@,
            grad * nodes[lhs@].data,
        ),
        Operation::Exponentiation(base, exponent) => accumulate(
            nodes,
            base@,
            power_rule(grad as int, nodes[base@].data as int, exponent as nat),
        ),
        Operation::Negation(operand) => accumulate(nodes, operand@, -grad),
    }
}

/// The graph after node `n` has passed its gradient on; a leaf passes nothing.
pub open spec fn propagate(nodes: Seq<Node>, n: int) -> Seq<Node> {
    match nodes[n].operation {
        Some(operation) => apply_rule(nodes, operation, nodes[n].grad),
        None => nodes,
    }
}

/// The graph after the nodes of `order` have passed their gradients on, one
/// after the other.
pub open spec fn propagate_all(nodes: Seq<Node>, order: Seq<int>) -> Seq<Node>
    decreases order.len(),
{
    if order.len() == 0 {
        nodes
    } else {
        propagate_all(propagate(nodes, order[0]), order.drop_first())
    }
}

/// The graph with the gradient of `root` set to one.
pub open spec fn seed(nodes: Seq<Node>, root: int) -> Seq<Node> {
    nodes.update(root, with_grad(nodes[root], 1))
}

/// The graph after a backward pass from `root`: the gradient of `root` is set
/// to one, then every node that `root` reaches passes its gradient on, each
/// after all the nodes that use it.
pub open spec fn backward_pass(nodes: Seq<Node>, root: int) -> Seq<Node> {
    propagate_all(seed(nodes, root), topo_order(nodes, root))
}

/// Adding congruent amounts gives the same gradient.
pub proof fn lemma_accumulate_congruent(nodes: Seq<Node>, target: int, d1: int, d2: int)
    requires
        congruent(d1, d2),
    ensures
        accumulate(nodes, target, d1) == accumulate(nodes, target, d2),
{
    let g = nodes[target].grad as int;
    lemma_congruent_add(g, d1, g, d2);
    lemma_wrap_eq(g + d1, g + d2);
}

/// A gradient rule changes gradients only.
pub proof fn lemma_apply_rule_shape(nodes: Seq<Node>, operation: Operation, grad: i64)
    requires
        operands_below(Some(operation), nodes.len() as int),
    ensures
        same_shape(nodes, apply_rule(nodes, operation, grad)),
{
    let ops = operands(Some(operation));
    assert(0 <= ops[0] < nodes.len());
    if ops.len() == 2 {
        assert(0 <= ops[1] < nodes.len());
    }
}

/// Nodes that pass their gradients on change the gradients of their operands
/// only.
pub proof fn lemma_propagate_all_frame(nodes: Seq<Node>, order: Seq<int>, v: int)
    requires
        well_formed(nodes),
        0 <= v < nodes.len(),
        forall|i: int| 0 <= i < order.len() ==> 0 <= #[trigger] order[i] < nodes.len(),
        forall|i: int| 0 <= i < order.len() ==> !consumes(nodes, #[trigger] order[i], v),
    ensures
        propagate_all(nodes, order)[v].grad == nodes[v].grad,
        same_shape(nodes, propagate_all(nodes, order)),
    decreases order.len(),
{
    if order.len() > 0 {
        let n = order[0];
        let next = propagate(nodes, n);
        let rest = order.drop_first();
        assert(!consumes(nodes, n, v));
        assert(same_shape(nodes, next) && next[v].grad == nodes[v].grad) by {
            match nodes[n].operation {
                Some(operation) => {
                    let ops = operands(Some(operation));
                    assert forall|k: int| 0 <= k < ops.len() implies 0 <= #[trigger] ops[k]
                        < nodes.len() && ops[k] != v by {
                        assert(0 <= operands(nodes[n].operation)[k] < n);
                    }
                    assert(operands_below(Some(operation), nodes.len() as int));
                    lemma_apply_rule_shape(nodes, operation, nodes[n].grad);
                    assert(ops[0] != v);
                    if ops.len() == 2 {
                        assert(ops[1] != v);
                    }
                },
                None => {},
            }
        }
        lemma_same_shape_well_formed(nodes, next);
        assert forall|i: int| 0 <= i < rest.len() implies 0 <= #[trigger] rest[i] < next.len()
            && !consumes(next, rest[i], v) by {
            assert(rest[i] == order[i + 1]);
            assert(!consumes(nodes, order[i + 1], v));
        }
        lemma_propagate_all_frame(next, rest, v);
    }
}

/// The backward pass leaves the terminal node with the gradient one, and
/// changes the gradient of no node that the terminal node does not depend on.
pub proof fn lemma_backward_frame(nodes: Seq<Node>, root: int, v: int)
    requires
        well_formed(nodes),
        0 <= root < nodes.len(),
        0 <= v < nodes.len(),
        v == root || !reachable(nodes, root, v),
    ensures
        backward_pass(nodes, root)[v].grad == if v == root {
            1
        } else {
            nodes[v].grad
        },
{
    let order = topo_order(nodes, root);
    let seeded = seed(nodes, root);
    lemma_topo_order(nodes, root);
    assert(same_shape(nodes, seeded));
    lemma_same_shape_well_formed(nodes, seeded);
    assert forall|i: int| 0 <= i < order.len() implies 0 <= #[trigger] order[i] < seeded.len()
        && !consumes(seeded, order[i], v) by {
        assert(order.contains(order[i]));
        lemma_reachable_below(nodes, root, order[i]);
        if consumes(nodes, order[i], v) {
            let ops = operands(nodes[order[i]].operation);
            let k = choose|k: int| 0 <= k < ops.len() && ops[k] == v;
            assert(0 <= operands(nodes[order[i]].operation)[k] < order[i]);
            lemma_reachable_chain(nodes, root, order[i], k);
        }
    }
    lemma_propagate_all_frame(seeded, order, v);
}

impl Value {
    /// Adds `delta` to the gradient of the node.
    fn accumulate_grad(&self, graph: &mut Graph, delta: i64)
        requires
            old(graph).owns(*self),
        ensures
            final(graph)@ == accumulate(old(graph)@, self@, delta as int),
    {
        let grad = self.grad(graph);
        proof {
            lemma_wrapping_add(grad, delta);
        }
        self.set_grad(graph, grad.wrapping_add(delta));
    }
}

impl Operation {
    /// Passes the gradient `grad` of this operation's result on to its
    /// operands. Each operand is read and written in turn, so an operand that
    /// occurs twice receives both contributions.
    pub fn calculate_gradients(&self, graph: &mut Graph, grad: i64)
        requires
            operands_below(Some(*self), old(graph)@.len() as int),
        ensures
            final(graph)@ == apply_rule(old(graph)@, *self, grad),
    {
        let ghost before = graph@;
        let ghost ops = operands(Some(*self));
        proof {
            assert(0 <= ops[0] < before.len());
            if ops.len() == 2 {
                assert(0 <= ops[1] < before.len());
            }
        }
        match *self {
            Operation::Addition(lhs, rhs) => {
                lhs.accumulate_grad(graph, grad);
                rhs.accumulate_grad(graph, grad);
            },
            Operation::Subtraction(lhs, rhs) => {
                lhs.accumulate_grad(graph, grad);
                let ghost middle = graph@;
                let negated = 0i64.wrapping_sub(grad);
                rhs.accumulate_grad(graph, negated);
                proof {
                    lemma_wrapping_sub(0, grad);
                    lemma_wrap_congruent(-grad);
                    lemma_accumulate_congruent(middle, rhs@, negated as int, -grad);
                }
            },
            Operation::Multiplication(lhs, rhs) => {
                let left = lhs.data(graph);
                let right = rhs.data(graph);
                lhs.accumulate_grad(graph, grad.wrapping_mul(right));
                let ghost middle = graph@;
                rhs.accumulate_grad(graph, grad.wrapping_mul(left));
                proof {
                    lemma_wrapping_mul(grad, right);
                    lemma_wrapping_mul(grad, left);
                    lemma_wrap_congruent(grad * right);
                    lemma_wrap_congruent(grad * left);
                    lemma_accumulate_congruent(
                        before,
                        lhs@,
                        grad.wrapping_mul(right) as int,
                        grad * right,
                    );
                    lemma_accumulate_congruent(
                        middle,
                        rhs@,
                        grad.wrapping_mul(left) as int,
                        grad * left,
                    );
                }
            },
            Operation::Exponentiation(base, exponent) => {
                if exponent > 0 {
                    let x = base.data(graph);
                    let factor = grad.wrapping_mul(exponent as i64);
                    let power = wrapping_powi(x, exponent - 1);
                    let delta = factor.wrapping_mul(power);
                    base.accumulate_grad(graph, delta);
                    proof {
                        let p = pow(x as int, (exponent - 1) as nat);
                        lemma_wrapping_mul(grad, exponent as i64);
                        lemma_wrapping_mul(factor, power);
                        lemma_wrap_congruent(grad * exponent);
                        lemma_wrap_congruent(p);
                        lemma_congruent_mul(factor as int, power as int, grad * exponent, p);
                        lemma_wrap_congruent(factor * power);
                        lemma_accumulate_congruent(before, base@, delta as int, grad * exponent * p);
                    }
                } else {
                    proof {
                        lemma_wrap_scalar(before[base@].grad);
                        assert(accumulate(before, base@, 0) =~= before);
                    }
                }
            },
            Operation::Negation(operand) => {
                let negated = 0i64.wrapping_sub(grad);
                operand.accumulate_grad(graph, negated);
                proof {
                    lemma_wrapping_sub(0, grad);
                    lemma_wrap_congruent(-grad);
                    lemma_accumulate_congruent(before, operand@, negated as int, -grad);
                }
            },
        }
    }
}

impl Value {
    /// Runs the backward pass from this node. Its gradient is set to one;
    /// then each node that it depends on, once all the nodes that use it are
    /// done, adds its share to the gradients of its operands. Values and
    /// operations stay as they are, and so do the gradients of nodes that
    /// this node does not depend on.
    pub fn backward(&self, graph: &mut Graph)
        requires
            old(graph).wf(),
            old(graph).owns(*self),
        ensures
            final(graph)@ == backward_pass(old(graph)@, self@),
            same_shape(old(graph)@, final(graph)@),
            final(graph).wf(),
    {
        let ghost initial = graph@;
        let order = self.toposort(graph);
        self.set_grad(graph, 1);
        proof {
            lemma_topo_order(initial, self@);
            assert forall|i: int| 0 <= i < order.len() implies 0 <= #[trigger] ids(order@)[i]
                < initial.len() by {
                assert(topo_order(initial, self@).contains(ids(order@)[i]));
                lemma_reachable_below(initial, self@, ids(order@)[i]);
            }
            assert(ids(order@).skip(0) =~= ids(order@));
            assert(same_shape(initial, graph@));
        }
        let mut done: usize = 0;
        while done < order.len()
            invariant
                done <= order.len(),
                well_formed(initial),
                same_shape(initial, graph@),
                forall|i: int| 0 <= i < order.len() ==> 0 <= #[trigger] ids(order@)[i] < initial.len(),
                propagate_all(graph@, ids(order@).skip(done as int)) == backward_pass(
                    initial,
                    self@,
                ),
            decreases order.len() - done,
        {
            let node = order[done];
            let ghost before = graph@;
            let ghost rest = ids(order@).skip(done as int);
            proof {
                assert(rest[0] == node@);
                assert(rest.drop_first() =~= ids(order@).skip(done + 1));
                assert(0 <= ids(order@)[done as int] < initial.len());
                assert(before[node@].operation == initial[node@].operation);
            }
            match graph.operation(node) {
                Some(operation) => {
                    proof {
                        assert(operands_below(Some(operation), before.len() as int)) by {
                            assert forall|k: int|
                                0 <= k < operands(Some(operation)).len() implies 0 <= (
                            #[trigger] operands(Some(operation))[k]) < before.len() by {
                                assert(0 <= operands(initial[node@].operation)[k] < node@);
                            }
                        }
                        lemma_apply_rule_shape(before, operation, before[node@].grad);
                    }
                    let grad = node.grad(graph);
                    operation.calculate_gradients(graph, grad);
                },
                None => {},
            }
            proof {
                assert(graph@ == propagate(before, node@));
            }
            done += 1;
        }
        proof {
            assert(ids(order@).skip(done as int).len() == 0);
            lemma_same_shape_well_formed(initial, graph@);
        }
    }
}

} // verus!
