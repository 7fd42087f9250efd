//! What the backward pass computes: the derivative of the terminal node by
//! every node that it depends on.
//!
//! The derivative is stated by the chain rule. The derivative of the
//! terminal node by itself is one; its derivative by another node is the sum,
//! over the nodes that use that node, of the derivative by the user times the
//! slope of the user's operation in that operand.
use crate::gradient::accumulate;
use crate::gradient::backward_pass;
use crate::gradient::lemma_apply_rule_shape;
use crate::gradient::power_rule;
use crate::gradient::propagate;
use crate::gradient::propagate_all;
use crate::gradient::seed;
use crate::graph::lemma_same_shape_well_formed;
use crate::graph::operands;
use crate::graph::operands_below;
use crate::graph::same_shape;
use crate::graph::well_formed;
use crate::graph::Node;
use crate::graph::Operation;
use crate::order::consumes;
use crate::order::lemma_reachable_below;
use crate::order::lemma_reachable_chain;
use crate::order::lemma_topo_order;
use crate::order::precedes;
use crate::order::reachable;
use crate::order::topo_order;
use crate::scalar::congruent;
use crate::scalar::lemma_congruent_add;
use crate::scalar::lemma_congruent_mul;
use crate::scalar::lemma_wrap_congruent;
use crate::scalar::lemma_wrap_eq;
use crate::scalar::lemma_wrap_scalar;
use crate::scalar::wrap;
use vstd::arithmetic::power::pow;
use vstd::prelude::*;

verus! {

/// The slope of a power in its base: `exponent * base^(exponent - 1)`, and
/// zero where the exponent is zero.
pub open spec fn power_slope(base: int, exponent: nat) -> int {
    if exponent == 0 {
        0
    } else {
        exponent * pow(base, (exponent - 1) as nat)
    }
}

/// The slope of the value of node `user` in the value of node `v`, all other
/// operands held fixed: zero unless `v` is an operand of `user`; an operand
/// that occurs twice counts twice.
pub open spec fn local_slope(nodes: Seq<Node>, user: int, v: int) -> int {
    match nodes[user].operation {
        Some(Operation::Addition(lhs, rhs)) => (if lhs@ == v {
            1int
        } else {
            0
        }) + (if rhs@ == v {
            1int
        } else {
            0
        }),
        Some(Operation::Subtraction(lhs, rhs)) => (if lhs@ == v {
            1int
        } else {
            0
        }) - (if rhs@ == v {
            1int
        } else {
            0
        }),
        Some(Operation::Multiplication(lhs, rhs)) => (if lhs@ == v {
            nodes[rhs@].data as int
        } else {
            0
        }) + (if rhs@ == v {
            nodes[lhs@].data as int
        } else {
            0
        }),
        Some(Operation::Exponentiation(base, exponent)) => if base@ == v {
            power_slope(nodes[base@].data as int, exponent as nat)
        } else {
            0
        },
        Some(Operation::Negation(operand)) => if operand@ == v {
            -1
        } else {
            0
        },
        None => 0,
    }
}

/// The derivative of the value of node `root` by the value of node `v`.
pub open spec fn adjoint(nodes: Seq<Node>, root: int, v: int) -> int
    decreases root - v, root - v + 1,
{
    if v < 0 || v > root {
        0
    } else if v == root {
        1
    } else {
        adjoint_sum(nodes, root, v, root)
    }
}

/// The part of the derivative of `root` by `v` that passes through the users
/// of `v` up to node `hi`.
pub open spec fn adjoint_sum(nodes: Seq<Node>, root: int, v: int, hi: int) -> int
    decreases root - v, hi - v,
{
    if hi <= v || hi > root || v < 0 {
        0
    } else {
        adjoint_sum(nodes, root, v, hi - 1) + adjoint(nodes, root, hi) * local_slope(nodes, hi, v)
    }
}

/// The part of the derivative of `root` by `v` that the first `done` nodes
/// of `order` have passed on, among the users of `v` up to node `hi`.
spec fn collected(nodes: Seq<Node>, root: int, order: Seq<int>, done: int, v: int, hi: int) -> int
    decreases hi - v,
{
    if hi <= v || hi > root || v < 0 {
        0
    } else {
        collected(nodes, root, order, done, v, hi - 1) + if precedes(order, hi, done) {
            adjoint(nodes, root, hi) * local_slope(nodes, hi, v)
        } else {
            0
        }
    }
}

/// The gradients after the first `done` nodes of the order have passed
/// theirs on: each reachable node holds its seed and what its users among
/// those nodes have passed to it.
spec fn in_progress(initial: Seq<Node>, root: int, current: Seq<Node>, done: int) -> bool {
    forall|v: int|
        0 <= v <= root && reachable(initial, root, v) ==> congruent(
            (#[trigger] current[v]).grad as int,
            adjoint_seed(root, v) + collected(
                initial,
                root,
                topo_order(initial, root),
                done,
                v,
                root,
            ),
        )
}

/// The gradient that the pass starts from: one at the terminal node.
spec fn adjoint_seed(root: int, v: int) -> int {
    if v == root {
        1
    } else {
        0
    }
}

/// A node has a slope only in its operands.
pub proof fn lemma_slope_needs_operand(nodes: Seq<Node>, user: int, v: int)
    requires
        local_slope(nodes, user, v) != 0,
    ensures
        consumes(nodes, user, v),
{
    let ops = operands(nodes[user].operation);
    match nodes[user].operation {
        Some(Operation::Addition(lhs, rhs)) => {
            assert(ops[0] == lhs@ && ops[1] == rhs@);
        },
        Some(Operation::Subtraction(lhs, rhs)) => {
            assert(ops[0] == lhs@ && ops[1] == rhs@);
        },
        Some(Operation::Multiplication(lhs, rhs)) => {
            assert(ops[0] == lhs@ && ops[1] == rhs@);
        },
        Some(Operation::Exponentiation(base, _)) => {
            assert(ops[0] == base@);
        },
        Some(Operation::Negation(operand)) => {
            assert(ops[0] == operand@);
        },
        None => {},
    }
}

/// Slopes depend on values and operations only, not on gradients.
proof fn lemma_slope_same_shape(before: Seq<Node>, after: Seq<Node>, user: int, v: int)
    requires
        well_formed(before),
        same_shape(before, after),
        0 <= user < before.len(),
    ensures
        local_slope(after, user, v) == local_slope(before, user, v),
{
    let ops = operands(before[user].operation);
    assert(after[user].operation == before[user].operation);
    if ops.len() >= 1 {
        assert(0 <= ops[0] < user);
        assert(after[ops[0]].data == before[ops[0]].data);
    }
    if ops.len() >= 2 {
        assert(0 <= ops[1] < user);
        assert(after[ops[1]].data == before[ops[1]].data);
    }
}

/// A gradient rule adds to each gradient the incoming gradient times the
/// slope of the operation in that node.
proof fn lemma_rule_adds_slope(nodes: Seq<Node>, n: int, v: int)
    requires
        well_formed(nodes),
        0 <= n < nodes.len(),
        0 <= v < nodes.len(),
    ensures
        congruent(
            propagate(nodes, n)[v].grad as int,
            nodes[v].grad + nodes[n].grad * local_slope(nodes, n, v),
        ),
{
    let g = nodes[n].grad as int;
    let old = nodes[v].grad as int;
    let ops = operands(nodes[n].operation);
    if ops.len() >= 1 {
        assert(0 <= ops[0] < n);
    }
    if ops.len() >= 2 {
        assert(0 <= ops[1] < n);
    }
    match nodes[n].operation {
        Some(Operation::Addition(lhs, rhs)) => {
            assert(ops[0] == lhs@ && ops[1] == rhs@);
            lemma_two_steps(nodes, lhs@, rhs@, g, g, v);
            assert(g * local_slope(nodes, n, v) == (if lhs@ == v {
                g
            } else {
                0
            }) + (if rhs@ == v {
                g
            } else {
                0
            })) by (nonlinear_arith)
                requires
                    local_slope(nodes, n, v) == (if lhs@ == v {
                        1int
                    } else {
                        0
                    }) + (if rhs@ == v {
                        1int
                    } else {
                        0
                    }),
            ;
        },
        Some(Operation::Subtraction(lhs, rhs)) => {
            assert(ops[0] == lhs@ && ops[1] == rhs@);
            lemma_two_steps(nodes, lhs@, rhs@, g, -g, v);
            assert(g * local_slope(nodes, n, v) == (if lhs@ == v {
                g
            } else {
                0
            }) + (if rhs@ == v {
                -g
            } else {
                0
            })) by (nonlinear_arith)
                requires
                    local_slope(nodes, n, v) == (if lhs@ == v {
                        1int
                    } else {
                        0
                    }) - (if rhs@ == v {
                        1int
                    } else {
                        0
                    }),
            ;
        },
        Some(Operation::Multiplication(lhs, rhs)) => {
            assert(ops[0] == lhs@ && ops[1] == rhs@);
            let left = nodes[lhs@].data as int;
            let right = nodes[rhs@].data as int;
            lemma_two_steps(nodes, lhs@, rhs@, g * right, g * left, v);
            assert(g * local_slope(nodes, n, v) == (if lhs@ == v {
                g * right
            } else {
                0
            }) + (if rhs@ == v {
                g * left
            } else {
                0
            })) by (nonlinear_arith)
                requires
                    local_slope(nodes, n, v) == (if lhs@ == v {
                        right
                    } else {
                        0
                    }) + (if rhs@ == v {
                        left
                    } else {
                        0
                    }),
            ;
        },
        Some(Operation::Exponentiation(base, exponent)) => {
            assert(ops[0] == base@);
            let x = nodes[base@].data as int;
            let e = exponent as nat;
            lemma_one_step(nodes, base@, power_rule(g, x, e), v);
            assert(power_rule(g, x, e) == g * power_slope(x, e)) by {
                if e > 0 {
                    let p = pow(x, (e - 1) as nat);
                    assert(g * e * p == g * (e * p)) by (nonlinear_arith);
                } else {
                    assert(g * 0 == 0);
                }
            }
            if base@ != v {
                assert(g * 0 == 0);
            }
        },
        Some(Operation::Negation(operand)) => {
            assert(ops[0] == operand@);
            lemma_one_step(nodes, operand@, -g, v);
            if operand@ == v {
                assert(g * (-1) == -g);
            } else {
                assert(g * 0 == 0);
            }
        },
        None => {
            assert(g * 0 == 0);
        },
    }
}

/// The gradient of `v` after `delta` was added to the gradient of `target`.
proof fn lemma_one_step(nodes: Seq<Node>, target: int, delta: int, v: int)
    requires
        0 <= target < nodes.len(),
        0 <= v < nodes.len(),
    ensures
        congruent(
            accumulate(nodes, target, delta)[v].grad as int,
            nodes[v].grad + if target == v {
                delta
            } else {
                0
            },
        ),
{
    if target == v {
        lemma_wrap_congruent(nodes[v].grad + delta);
    }
}

/// The gradient of `v` after two additions, to `first` and then to `second`.
proof fn lemma_two_steps(nodes: Seq<Node>, first: int, second: int, d1: int, d2: int, v: int)
    requires
        0 <= first < nodes.len(),
        0 <= second < nodes.len(),
        0 <= v < nodes.len(),
    ensures
        congruent(
            accumulate(
                accumulate(nodes, first, d1),
                second,
                d2,
            )[v].grad as int,
            nodes[v].grad + (if first == v {
                d1
            } else {
                0
            }) + (if second == v {
                d2
            } else {
                0
            }),
        ),
{
    let middle = accumulate(nodes, first, d1);
    let a1: int = if first == v {
        d1
    } else {
        0
    };
    let a2: int = if second == v {
        d2
    } else {
        0
    };
    lemma_one_step(nodes, first, d1, v);
    lemma_one_step(middle, second, d2, v);
    lemma_congruent_add(middle[v].grad as int, a2, nodes[v].grad + a1, a2);
}

/// Before any node has passed its gradient on, nothing is collected.
proof fn lemma_collected_nothing(nodes: Seq<Node>, root: int, order: Seq<int>, v: int, hi: int)
    ensures
        collected(nodes, root, order, 0, v, hi) == 0,
    decreases hi - v,
{
    if !(hi <= v || hi > root || v < 0) {
        lemma_collected_nothing(nodes, root, order, v, hi - 1);
    }
}

/// What is collected is the whole sum once every user that counts has
/// passed its gradient on.
proof fn lemma_collected_all(
    nodes: Seq<Node>,
    root: int,
    order: Seq<int>,
    done: int,
    v: int,
    hi: int,
)
    requires
        forall|c: int|
            v < c <= hi && !precedes(order, c, done) ==> #[trigger] adjoint(nodes, root, c)
                * local_slope(nodes, c, v) == 0,
    ensures
        collected(nodes, root, order, done, v, hi) == adjoint_sum(nodes, root, v, hi),
    decreases hi - v,
{
    if !(hi <= v || hi > root || v < 0) {
        lemma_collected_all(nodes, root, order, done, v, hi - 1);
        if !precedes(order, hi, done) {
            assert(adjoint(nodes, root, hi) * local_slope(nodes, hi, v) == 0);
        }
    }
}

/// One more node of the order adds its own term to what is collected.
proof fn lemma_collected_next(
    nodes: Seq<Node>,
    root: int,
    order: Seq<int>,
    done: int,
    v: int,
    hi: int,
)
    requires
        0 <= done < order.len(),
        order.no_duplicates(),
        hi <= root,
    ensures
        collected(nodes, root, order, done + 1, v, hi) == collected(
            nodes,
            root,
            order,
            done,
            v,
            hi,
        ) + if 0 <= v < order[done] <= hi && order[done] <= root {
            adjoint(nodes, root, order[done]) * local_slope(nodes, order[done], v)
        } else {
            0
        },
    decreases hi - v,
{
    if !(hi <= v || hi > root || v < 0) {
        lemma_collected_next(nodes, root, order, done, v, hi - 1);
        if hi == order[done] {
            assert(precedes(order, hi, done + 1));
            if precedes(order, hi, done) {
                let j = choose|j: int| 0 <= j < done && j < order.len() && order[j] == hi;
                assert(order[j] == order[done]);
            }
        } else {
            if precedes(order, hi, done + 1) {
                let j = choose|j: int| 0 <= j < done + 1 && j < order.len() && order[j] == hi;
                assert(j < done);
                assert(precedes(order, hi, done));
            }
            if precedes(order, hi, done) {
                let j = choose|j: int| 0 <= j < done && j < order.len() && order[j] == hi;
                assert(0 <= j < done + 1 && order[j] == hi);
                assert(precedes(order, hi, done + 1));
            }
        }
    }
}

/// The terminal node has no derivative by a node that it does not depend on.
pub proof fn lemma_adjoint_unreachable(nodes: Seq<Node>, root: int, v: int)
    requires
        well_formed(nodes),
        0 <= root < nodes.len(),
        0 <= v <= root,
        !reachable(nodes, root, v),
    ensures
        adjoint(nodes, root, v) == 0,
    decreases root - v, root - v + 1,
{
    assert(v != root);
    lemma_adjoint_sum_unreachable(nodes, root, v, root);
}

proof fn lemma_adjoint_sum_unreachable(nodes: Seq<Node>, root: int, v: int, hi: int)
    requires
        well_formed(nodes),
        0 <= root < nodes.len(),
        0 <= v < root,
        hi <= root,
        !reachable(nodes, root, v),
    ensures
        adjoint_sum(nodes, root, v, hi) == 0,
    decreases root - v, hi - v,
{
    if !(hi <= v || hi > root || v < 0) {
        lemma_adjoint_sum_unreachable(nodes, root, v, hi - 1);
        if local_slope(nodes, hi, v) != 0 {
            lemma_slope_needs_operand(nodes, hi, v);
            let ops = operands(nodes[hi].operation);
            let k = choose|k: int| 0 <= k < ops.len() && ops[k] == v;
            if reachable(nodes, root, hi) {
                lemma_reachable_chain(nodes, root, hi, k);
            }
            lemma_adjoint_unreachable(nodes, root, hi);
            assert(0 * local_slope(nodes, hi, v) == 0);
        } else {
            assert(adjoint(nodes, root, hi) * 0 == 0);
        }
    }
}

/// The rest of the pass, from a state in which the first `done` nodes have
/// passed their gradients on, ends with the derivative at every node that
/// the terminal node depends on.
proof fn lemma_pass(initial: Seq<Node>, root: int, current: Seq<Node>, done: int)
    requires
        well_formed(initial),
        0 <= root < initial.len(),
        same_shape(initial, current),
        0 <= done <= topo_order(initial, root).len(),
        in_progress(initial, root, current, done),
    ensures
        forall|v: int|
            0 <= v <= root && reachable(initial, root, v) ==> (#[trigger] propagate_all(
                current,
                topo_order(initial, root).skip(done),
            )[v]).grad == wrap(adjoint(initial, root, v)),
    decreases topo_order(initial, root).len() - done,
{
    let order = topo_order(initial, root);
    lemma_topo_order(initial, root);
    lemma_same_shape_well_formed(initial, current);
    if done == order.len() {
        assert(propagate_all(current, order.skip(done)) == current);
        assert forall|v: int| 0 <= v <= root && reachable(initial, root, v) implies (
        #[trigger] current[v]).grad == wrap(adjoint(initial, root, v)) by {
            lemma_sum_when_all_done(initial, root, v);
            lemma_wrap_eq(current[v].grad as int, adjoint(initial, root, v));
            lemma_wrap_scalar(current[v].grad);
        }
    } else {
        let n = order[done];
        assert(order.contains(n));
        lemma_reachable_below(initial, root, n);
        let g = current[n].grad as int;
        let next = propagate(current, n);
        // The node holds its derivative when its turn comes.
        assert(congruent(g, adjoint(initial, root, n))) by {
            if n != root {
                assert forall|c: int| n < c <= root && !precedes(order, c, done) implies (
                #[trigger] adjoint(initial, root, c)) * local_slope(initial, c, n) == 0 by {
                    lemma_late_user_counts_nothing(initial, root, done, c);
                }
                lemma_collected_all(initial, root, order, done, n, root);
            }
        }
        // Its rule keeps the shape and adds its term to each gradient.
        assert(same_shape(current, next)) by {
            match current[n].operation {
                Some(operation) => {
                    assert(operands_below(Some(operation), current.len() as int)) by {
                        assert forall|k: int|
                            0 <= k < operands(Some(operation)).len() implies 0 <= (
                        #[trigger] operands(Some(operation))[k]) < current.len() by {
                            assert(0 <= operands(current[n].operation)[k] < n);
                        }
                    }
                    lemma_apply_rule_shape(current, operation, current[n].grad);
                },
                None => {},
            }
        }
        assert(same_shape(initial, next));
        assert forall|v: int| 0 <= v <= root && reachable(initial, root, v) implies congruent(
            (#[trigger] next[v]).grad as int,
            adjoint_seed(root, v) + collected(initial, root, order, done + 1, v, root),
        ) by {
            let slope = local_slope(initial, n, v);
            let term = adjoint(initial, root, n) * slope;
            let so_far = adjoint_seed(root, v) + collected(initial, root, order, done, v, root);
            lemma_rule_adds_slope(current, n, v);
            lemma_slope_same_shape(initial, current, n, v);
            lemma_congruent_mul(g, slope, adjoint(initial, root, n), slope);
            assert(congruent(current[v].grad as int, so_far));
            lemma_congruent_add(current[v].grad as int, g * slope, so_far, term);
            lemma_collected_next(initial, root, order, done, v, root);
            if !(v < n) {
                if slope != 0 {
                    lemma_slope_needs_operand(initial, n, v);
                    let ops = operands(initial[n].operation);
                    let k = choose|k: int| 0 <= k < ops.len() && ops[k] == v;
                    assert(0 <= operands(initial[n].operation)[k] < n);
                }
                assert(adjoint(initial, root, n) * 0 == 0);
            }
        }
        assert(in_progress(initial, root, next, done + 1));
        lemma_pass(initial, root, next, done + 1);
        assert(order.skip(done)[0] == n);
        assert(order.skip(done).drop_first() =~= order.skip(done + 1));
    }
}

/// A user whose turn has not come counts nothing for the node at `done`:
/// either the terminal node does not depend on that user, or it is no user.
proof fn lemma_late_user_counts_nothing(initial: Seq<Node>, root: int, done: int, c: int)
    requires
        well_formed(initial),
        0 <= root < initial.len(),
        0 <= done < topo_order(initial, root).len(),
        topo_order(initial, root)[done] < c <= root,
        !precedes(topo_order(initial, root), c, done),
    ensures
        adjoint(initial, root, c) * local_slope(initial, c, topo_order(initial, root)[done]) == 0,
{
    let order = topo_order(initial, root);
    let n = order[done];
    lemma_topo_order(initial, root);
    assert(order.contains(n));
    lemma_reachable_below(initial, root, n);
    if !reachable(initial, root, c) {
        lemma_adjoint_unreachable(initial, root, c);
        assert(0 * local_slope(initial, c, n) == 0);
    } else {
        assert(order.contains(c));
        let j = choose|j: int| 0 <= j < order.len() && order[j] == c;
        if j < done {
            assert(precedes(order, c, done));
        }
        if local_slope(initial, c, n) != 0 {
            lemma_slope_needs_operand(initial, c, n);
            assert(consumes(initial, order[j], order[done]));
        }
        assert(adjoint(initial, root, c) * 0 == 0);
    }
}

/// Once the whole order is done, a node that the terminal node depends on
/// has collected its derivative.
proof fn lemma_sum_when_all_done(initial: Seq<Node>, root: int, v: int)
    requires
        well_formed(initial),
        0 <= root < initial.len(),
        0 <= v <= root,
        reachable(initial, root, v),
    ensures
        adjoint_seed(root, v) + collected(
            initial,
            root,
            topo_order(initial, root),
            topo_order(initial, root).len() as int,
            v,
            root,
        ) == adjoint(initial, root, v),
{
    let order = topo_order(initial, root);
    let done = order.len() as int;
    lemma_topo_order(initial, root);
    assert forall|c: int| v < c <= root && !precedes(order, c, done) implies (#[trigger] adjoint(
        initial,
        root,
        c,
    )) * local_slope(initial, c, v) == 0 by {
        if reachable(initial, root, c) {
            assert(order.contains(c));
            let j = choose|j: int| 0 <= j < order.len() && order[j] == c;
            assert(precedes(order, c, done));
        } else {
            lemma_adjoint_unreachable(initial, root, c);
            assert(0 * local_slope(initial, c, v) == 0);
        }
    }
    lemma_collected_all(initial, root, order, done, v, root);
}

/// The backward pass computes derivatives. Where the nodes that the terminal
/// node depends on hold no gradient beforehand, each of them holds
/// afterwards the derivative of the terminal node by it, as a scalar.
pub proof fn lemma_backward_computes_derivatives(nodes: Seq<Node>, root: int, v: int)
    requires
        well_formed(nodes),
        0 <= root < nodes.len(),
        forall|u: int| 0 <= u < root && reachable(nodes, root, u) ==> (#[trigger] nodes[u]).grad == 0,
        reachable(nodes, root, v),
    ensures
        backward_pass(nodes, root)[v].grad == wrap(adjoint(nodes, root, v)),
{
    let seeded = seed(nodes, root);
    let order = topo_order(nodes, root);
    lemma_reachable_below(nodes, root, v);
    assert(same_shape(nodes, seeded));
    assert forall|u: int| 0 <= u <= root && reachable(nodes, root, u) implies congruent(
        (#[trigger] seeded[u]).grad as int,
        adjoint_seed(root, u) + collected(nodes, root, order, 0, u, root),
    ) by {
        lemma_collected_nothing(nodes, root, order, u, root);
        if u != root {
            assert(nodes[u].grad == 0);
        }
    }
    lemma_pass(nodes, root, seeded, 0);
    assert(order.skip(0) =~= order);
    assert(propagate_all(seeded, order.skip(0))[v].grad == wrap(adjoint(nodes, root, v)));
}

} // verus!
