use autodiff::scalar::wrapping_powi;
use autodiff::Graph;
use autodiff::Operation;
use autodiff::Value;

fn position(order: &[Value], value: Value) -> usize {
    let found: Vec<usize> = (0..order.len()).filter(|&i| order[i] == value).collect();
    assert_eq!(found.len(), 1);
    found[0]
}

#[test]
fn order_of_a_sum_is_result_right_left() {
    let mut g = Graph::new();
    let a = Value::from_val(&mut g, 1);
    let b = Value::from_val(&mut g, 2);
    let c = a.add(&mut g, b);
    assert_eq!(c.toposort(&g), vec![c, b, a]);
}

#[test]
fn order_lists_a_reused_operand_once() {
    let mut g = Graph::new();
    let a = Value::from_val(&mut g, 1);
    let b = a.add(&mut g, a);
    assert_eq!(b.toposort(&g), vec![b, a]);
}

#[test]
fn order_of_a_power_is_result_then_base() {
    let mut g = Graph::new();
    let x = Value::from_val(&mut g, 3);
    let four = Value::from_val(&mut g, 4);
    let p = x.powi(&mut g, 5);
    let y = four.mul(&mut g, p);
    assert_eq!(y.toposort(&g), vec![y, p, x, four]);
}

#[test]
fn order_of_a_diamond_puts_consumers_first() {
    let mut g = Graph::new();
    let a = Value::from_val(&mut g, 2);
    let unused = Value::from_val(&mut g, 8);
    let s = a.add(&mut g, a);
    let p = s.mul(&mut g, s);
    let n = s.neg(&mut g);
    let q = p.sub(&mut g, n);
    let beyond = q.add(&mut g, unused);
    let order = q.toposort(&g);
    assert_eq!(order, vec![q, n, p, s, a]);
    assert!(!order.contains(&unused));
    assert!(!order.contains(&beyond));
    for &node in order.iter() {
        if let Some(operation) = g.operation(node) {
            let (first, second) = operation.inputs();
            assert!(position(&order, node) < position(&order, first));
            if let Some(second) = second {
                assert!(position(&order, node) < position(&order, second));
            }
        }
    }
    assert_eq!(g.operation(q), Some(Operation::Subtraction(p, n)));
}

#[test]
fn order_does_not_depend_on_gradients() {
    let mut g = Graph::new();
    let a = Value::from_val(&mut g, 2);
    let b = Value::from_val(&mut g, 3);
    let c = a.sub(&mut g, b);
    let before = c.toposort(&g);
    c.backward(&mut g);
    assert_eq!(c.toposort(&g), before);
}

#[test]
fn deep_chain_is_walked_without_recursion() {
    let mut g = Graph::new();
    let x = Value::from_val(&mut g, 1);
    let mut last = x;
    let links: usize = 200_000;
    for _ in 0..links {
        last = last.add(&mut g, x);
    }
    let order = last.toposort(&g);
    assert_eq!(order.len(), links + 1);
    assert_eq!(order[0], last);
    assert_eq!(order[links], x);
    last.backward(&mut g);
    assert_eq!(last.data(&g), 200_001);
    assert_eq!(x.grad(&g), 200_001);
}

#[test]
fn powers_modulo_two_to_the_sixty_four() {
    assert_eq!(wrapping_powi(3, 0), 1);
    assert_eq!(wrapping_powi(0, 0), 1);
    assert_eq!(wrapping_powi(3, 1), 3);
    assert_eq!(wrapping_powi(3, 5), 243);
    assert_eq!(wrapping_powi(-3, 3), -27);
    assert_eq!(wrapping_powi(2, 62), 1 << 62);
    assert_eq!(wrapping_powi(2, 63), i64::MIN);
    assert_eq!(wrapping_powi(2, 64), 0);
    assert_eq!(wrapping_powi(-1, u32::MAX), -1);
    assert_eq!(wrapping_powi(3, 41), 3i64.wrapping_pow(41));
    assert_eq!(wrapping_powi(-7, 1000), (-7i64).wrapping_pow(1000));
}

#[test]
fn power_rule_with_a_large_exponent() {
    let mut g = Graph::new();
    let x = Value::from_val(&mut g, 3);
    let y = x.powi(&mut g, u32::MAX);
    y.backward(&mut g);
    assert_eq!(y.data(&g), 3i64.wrapping_pow(u32::MAX));
    assert_eq!(
        x.grad(&g),
        (u32::MAX as i64).wrapping_mul(3i64.wrapping_pow(u32::MAX - 1))
    );
}
