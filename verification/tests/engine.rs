use autodiff::Graph;
use autodiff::Value;

#[test]
fn test_value_reuse() {
    let mut g = Graph::new();
    let a = Value::from_val(&mut g, 1);
    let b = a.clone().add(&mut g, a.clone());
    b.backward(&mut g);

    assert_eq!(a.grad(&g), 2);
    assert_eq!(b.grad(&g), 1);
}

#[test]
fn test_add() {
    let mut g = Graph::new();
    let a = Value::from_val(&mut g, 1);
    let b = Value::from_val(&mut g, 2);
    let c = a.clone().add(&mut g, b.clone());
    c.backward(&mut g);

    assert_eq!(c.data(&g), 3);
    assert_eq!(a.grad(&g), 1);
    assert_eq!(b.grad(&g), 1);
    assert_eq!(c.grad(&g), 1);
}

#[test]
fn test_sub() {
    let mut g = Graph::new();
    let a = Value::from_val(&mut g, 1);
    let b = Value::from_val(&mut g, 2);
    let c = a.clone().sub(&mut g, b.clone());
    c.backward(&mut g);

    assert_eq!(c.data(&g), -1);
    assert_eq!(a.grad(&g), 1);
    assert_eq!(b.grad(&g), -1);
    assert_eq!(c.grad(&g), 1);
}

#[test]
fn test_mul() {
    let mut g = Graph::new();
    let a = Value::from_val(&mut g, 11);
    let b = Value::from_val(&mut g, 12);
    let c = a.clone().mul(&mut g, b.clone());
    c.backward(&mut g);

    assert_eq!(c.data(&g), 132);
    assert_eq!(a.grad(&g), 12);
    assert_eq!(b.grad(&g), 11);
    assert_eq!(c.grad(&g), 1);
}

#[test]
fn test_powi_positive_exp() {
    let mut g = Graph::new();
    let x = Value::from_val(&mut g, 3);
    // y = 4 * x^5
    let four = Value::from_val(&mut g, 4);
    let power = x.clone().powi(&mut g, 5);
    let y = four.mul(&mut g, power);
    y.backward(&mut g);

    assert_eq!(y.data(&g), 972);
    assert_eq!(y.grad(&g), 1);
    // dy/dx = 20x^4
    assert_eq!(x.grad(&g), 4 * 5 * x.data(&g).pow(4));
    assert_eq!(x.grad(&g), 1620);
}

#[test]
fn test_powi_zero_exp() {
    let mut g = Graph::new();
    let x = Value::from_val(&mut g, 3);
    // y = x^0
    let y = x.clone().powi(&mut g, 0);
    y.backward(&mut g);

    assert_eq!(y.data(&g), 1);
    assert_eq!(y.grad(&g), 1);
    assert_eq!(x.grad(&g), 0);
}

#[test]
fn leaf_starts_without_gradient_or_operation() {
    let mut g = Graph::new();
    assert_eq!(g.len(), 0);
    let a = Value::from_val(&mut g, -7);
    assert_eq!(g.len(), 1);
    assert_eq!(a.data(&g), -7);
    assert_eq!(a.grad(&g), 0);
    assert_eq!(g.operation(a), None);
    assert!(g.contains(a));
    assert!(!g.contains(Value { index: 1 }));
}

#[test]
fn reading_twice_gives_the_same() {
    let mut g = Graph::new();
    let a = Value::from_val(&mut g, 5);
    let b = a.mul(&mut g, a);
    b.backward(&mut g);
    assert_eq!(a.data(&g), a.data(&g));
    assert_eq!(a.grad(&g), a.grad(&g));
    assert_eq!(b.data(&g), 25);
    assert_eq!(b.data(&g), 25);
    assert_eq!(a.grad(&g), 10);
    assert_eq!(a.grad(&g), 10);
}

#[test]
fn set_grad_is_seen_through_every_handle() {
    let mut g = Graph::new();
    let a = Value::from_val(&mut g, 5);
    let alias = a;
    a.set_grad(&mut g, 42);
    assert_eq!(alias.grad(&g), 42);
    assert_eq!(a.data(&g), 5);
    alias.set_grad(&mut g, -3);
    assert_eq!(a.grad(&g), -3);
}

#[test]
fn handles_are_equal_when_they_name_one_node() {
    let mut g = Graph::new();
    let a = Value::from_val(&mut g, 5);
    let b = Value::from_val(&mut g, 5);
    assert_eq!(a, a.clone());
    assert_ne!(a, b);
}

#[test]
fn operators_record_their_operands() {
    let mut g = Graph::new();
    let a = Value::from_val(&mut g, 6);
    let b = Value::from_val(&mut g, 4);
    let s = a.add(&mut g, b);
    let d = a.sub(&mut g, b);
    let p = a.mul(&mut g, b);
    let e = a.powi(&mut g, 3);
    let n = a.neg(&mut g);
    assert_eq!(s.data(&g), 10);
    assert_eq!(d.data(&g), 2);
    assert_eq!(p.data(&g), 24);
    assert_eq!(e.data(&g), 216);
    assert_eq!(n.data(&g), -6);
    assert_eq!(g.operation(s), Some(autodiff::Operation::Addition(a, b)));
    assert_eq!(g.operation(d), Some(autodiff::Operation::Subtraction(a, b)));
    assert_eq!(g.operation(p), Some(autodiff::Operation::Multiplication(a, b)));
    assert_eq!(g.operation(e), Some(autodiff::Operation::Exponentiation(a, 3)));
    assert_eq!(g.operation(n), Some(autodiff::Operation::Negation(a)));
    assert_eq!(autodiff::Operation::Addition(a, b).inputs(), (a, Some(b)));
    assert_eq!(autodiff::Operation::Exponentiation(a, 3).inputs(), (a, None));
    for v in [s, d, p, e, n] {
        assert_eq!(v.grad(&g), 0);
    }
}

#[test]
fn negation_flips_the_gradient() {
    let mut g = Graph::new();
    let a = Value::from_val(&mut g, 9);
    let n = a.neg(&mut g);
    n.backward(&mut g);
    assert_eq!(n.data(&g), -9);
    assert_eq!(n.grad(&g), 1);
    assert_eq!(a.grad(&g), -1);
}

#[test]
fn subtraction_as_sum_with_negation() {
    let mut g = Graph::new();
    let a = Value::from_val(&mut g, 1);
    let b = Value::from_val(&mut g, 2);
    let n = b.neg(&mut g);
    let c = a.add(&mut g, n);
    c.backward(&mut g);
    assert_eq!(c.data(&g), -1);
    assert_eq!(a.grad(&g), 1);
    assert_eq!(b.grad(&g), -1);
}

#[test]
fn square_by_multiplication_accumulates() {
    let mut g = Graph::new();
    let x = Value::from_val(&mut g, 7);
    let y = x.mul(&mut g, x);
    y.backward(&mut g);
    assert_eq!(y.data(&g), 49);
    assert_eq!(x.grad(&g), 14);
}

#[test]
fn difference_with_itself_cancels() {
    let mut g = Graph::new();
    let x = Value::from_val(&mut g, 7);
    let y = x.sub(&mut g, x);
    y.backward(&mut g);
    assert_eq!(y.data(&g), 0);
    assert_eq!(x.grad(&g), 0);
}

#[test]
fn shared_operand_collects_every_path() {
    // f = (x * y) + (x ^ 2): df/dx = y + 2x, df/dy = x
    let mut g = Graph::new();
    let x = Value::from_val(&mut g, 3);
    let y = Value::from_val(&mut g, 5);
    let xy = x.mul(&mut g, y);
    let xx = x.powi(&mut g, 2);
    let f = xy.add(&mut g, xx);
    f.backward(&mut g);
    assert_eq!(f.data(&g), 24);
    assert_eq!(x.grad(&g), 11);
    assert_eq!(y.grad(&g), 3);
    assert_eq!(xy.grad(&g), 1);
    assert_eq!(xx.grad(&g), 1);
    assert_eq!(f.grad(&g), 1);
}

#[test]
fn diamond_waits_for_both_consumers() {
    // s = a + a; p = s * s; q = p - s: dq/ds = 2s - 1, dq/da = 2 (2s - 1)
    let mut g = Graph::new();
    let a = Value::from_val(&mut g, 2);
    let s = a.add(&mut g, a);
    let p = s.mul(&mut g, s);
    let q = p.sub(&mut g, s);
    q.backward(&mut g);
    assert_eq!(q.data(&g), 12);
    assert_eq!(p.grad(&g), 1);
    assert_eq!(s.grad(&g), 7);
    assert_eq!(a.grad(&g), 14);
}

#[test]
fn backward_leaves_unrelated_nodes_alone() {
    let mut g = Graph::new();
    let a = Value::from_val(&mut g, 2);
    let b = Value::from_val(&mut g, 3);
    let other = Value::from_val(&mut g, 4);
    other.set_grad(&mut g, 99);
    let c = a.mul(&mut g, b);
    let later = c.add(&mut g, other);
    c.backward(&mut g);
    assert_eq!(other.grad(&g), 99);
    assert_eq!(later.grad(&g), 0);
    assert_eq!(a.grad(&g), 3);
    assert_eq!(b.grad(&g), 2);
    assert_eq!(a.data(&g), 2);
    assert_eq!(later.data(&g), 10);
    assert_eq!(g.len(), 5);
}

#[test]
fn second_backward_adds_to_what_is_there() {
    let mut g = Graph::new();
    let a = Value::from_val(&mut g, 2);
    let b = Value::from_val(&mut g, 3);
    let c = a.mul(&mut g, b);
    c.backward(&mut g);
    c.backward(&mut g);
    assert_eq!(c.grad(&g), 1);
    assert_eq!(a.grad(&g), 6);
    assert_eq!(b.grad(&g), 4);
}

#[test]
fn backward_from_a_leaf_seeds_it() {
    let mut g = Graph::new();
    let a = Value::from_val(&mut g, 2);
    a.backward(&mut g);
    assert_eq!(a.grad(&g), 1);
    assert_eq!(a.toposort(&g), vec![a]);
}

#[test]
fn power_rule_values() {
    let mut g = Graph::new();
    let x = Value::from_val(&mut g, -2);
    let one = x.powi(&mut g, 1);
    let cube = x.powi(&mut g, 3);
    one.backward(&mut g);
    assert_eq!(one.data(&g), -2);
    assert_eq!(x.grad(&g), 1);
    x.set_grad(&mut g, 0);
    cube.backward(&mut g);
    assert_eq!(cube.data(&g), -8);
    assert_eq!(x.grad(&g), 12);
}

#[test]
fn arithmetic_wraps() {
    let mut g = Graph::new();
    let top = Value::from_val(&mut g, i64::MAX);
    let one = Value::from_val(&mut g, 1);
    let two = Value::from_val(&mut g, 2);
    let bottom = Value::from_val(&mut g, i64::MIN);
    let s = top.add(&mut g, one);
    let d = bottom.sub(&mut g, one);
    let p = top.mul(&mut g, two);
    let n = bottom.neg(&mut g);
    let e = two.powi(&mut g, 64);
    let f = two.powi(&mut g, 63);
    assert_eq!(s.data(&g), i64::MIN);
    assert_eq!(d.data(&g), i64::MAX);
    assert_eq!(p.data(&g), -2);
    assert_eq!(n.data(&g), i64::MIN);
    assert_eq!(e.data(&g), 0);
    assert_eq!(f.data(&g), i64::MIN);
    p.backward(&mut g);
    assert_eq!(top.grad(&g), 2);
    assert_eq!(two.grad(&g), i64::MAX);
}
