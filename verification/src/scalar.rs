//! Scalar arithmetic: 64-bit integers modulo 2^64.
//!
//! Contracts elsewhere in the crate speak of mathematical integers and apply
//! [`wrap`] once, at the point where a result is stored.
use vstd::arithmetic::div_mod::lemma_add_mod_noop;
use vstd::arithmetic::div_mod::lemma_mod_multiples_vanish;
use vstd::arithmetic::div_mod::lemma_mod_twice;
use vstd::arithmetic::div_mod::lemma_mul_mod_noop_general;
use vstd::arithmetic::div_mod::lemma_small_mod;
use vstd::arithmetic::power::lemma_pow0;
use vstd::arithmetic::power::lemma_pow1;
use vstd::arithmetic::power::lemma_pow_adds;
use vstd::arithmetic::power::lemma_pow_mod_noop;
use vstd::arithmetic::power::lemma_pow_multiplies;
use vstd::arithmetic::power::pow;
use vstd::prelude::*;

verus! {

/// The number of distinct scalars, 2^64.
pub open spec fn modulus() -> int {
    0x1_0000_0000_0000_0000
}

/// The scalar that represents the integer `x`: the one member of the `i64`
/// range that differs from `x` by a multiple of 2^64.
pub open spec fn wrap(x: int) -> i64 {
    let r = x % modulus();
    if r > i64::MAX {
        (r - modulus()) as i64
    } else {
        r as i64
    }
}

/// Two integers that are represented by the same scalar.
pub open spec fn congruent(x: int, y: int) -> bool {
    x % modulus() == y % modulus()
}

/// A scalar represents itself.
pub proof fn lemma_wrap_scalar(x: i64)
    ensures
        wrap(x as int) == x,
{
    if x >= 0 {
        lemma_small_mod(x as nat, modulus() as nat);
    } else {
        lemma_small_mod((x + modulus()) as nat, modulus() as nat);
        assert((x as int) % modulus() == x + modulus()) by {
            lemma_mod_multiples_vanish(1, x as int, modulus());
        }
    }
}

/// `wrap(x)` and `x` differ by a multiple of 2^64.
pub proof fn lemma_wrap_congruent(x: int)
    ensures
        congruent(wrap(x) as int, x),
{
    let r = x % modulus();
    if r > i64::MAX {
        lemma_mod_multiples_vanish(-1, r, modulus());
        lemma_mod_twice(x, modulus());
    } else {
        lemma_mod_twice(x, modulus());
    }
}

/// Congruent integers are represented by the same scalar, and only those.
pub proof fn lemma_wrap_eq(x: int, y: int)
    ensures
        wrap(x) == wrap(y) <==> congruent(x, y),
{
    lemma_wrap_congruent(x);
    lemma_wrap_congruent(y);
}

/// Congruence is kept by addition.
pub proof fn lemma_congruent_add(x1: int, y1: int, x2: int, y2: int)
    requires
        congruent(x1, x2),
        congruent(y1, y2),
    ensures
        congruent(x1 + y1, x2 + y2),
{
    lemma_add_mod_noop(x1, y1, modulus());
    lemma_add_mod_noop(x2, y2, modulus());
}

/// Congruence is kept by multiplication.
pub proof fn lemma_congruent_mul(x1: int, y1: int, x2: int, y2: int)
    requires
        congruent(x1, x2),
        congruent(y1, y2),
    ensures
        congruent(x1 * y1, x2 * y2),
{
    lemma_mul_mod_noop_general(x1, y1, modulus());
    lemma_mul_mod_noop_general(x2, y2, modulus());
}

/// Congruence is kept by raising to a power.
pub proof fn lemma_congruent_pow(x1: int, x2: int, e: nat)
    requires
        congruent(x1, x2),
    ensures
        congruent(pow(x1, e), pow(x2, e)),
{
    lemma_pow_mod_noop(x1, e, modulus());
    lemma_pow_mod_noop(x2, e, modulus());
}

/// `i64::wrapping_add` computes the scalar of the sum.
pub proof fn lemma_wrapping_add(x: i64, y: i64)
    ensures
        vstd::wrapping::i64_specs::wrapping_add(x, y) == wrap(x + y),
{
    let s = x + y;
    if s > i64::MAX {
        lemma_wrap_scalar((s - modulus()) as i64);
        lemma_mod_multiples_vanish(-1, s, modulus());
    } else if s < i64::MIN {
        lemma_wrap_scalar((s + modulus()) as i64);
        lemma_mod_multiples_vanish(1, s, modulus());
    } else {
        lemma_wrap_scalar(s as i64);
    }
}

/// `i64::wrapping_sub` computes the scalar of the difference.
pub proof fn lemma_wrapping_sub(x: i64, y: i64)
    ensures
        vstd::wrapping::i64_specs::wrapping_sub(x, y) == wrap(x - y),
{
    let s = x - y;
    if s > i64::MAX {
        lemma_wrap_scalar((s - modulus()) as i64);
        lemma_mod_multiples_vanish(-1, s, modulus());
    } else if s < i64::MIN {
        lemma_wrap_scalar((s + modulus()) as i64);
        lemma_mod_multiples_vanish(1, s, modulus());
    } else {
        lemma_wrap_scalar(s as i64);
    }
}

/// `i64::wrapping_mul` computes the scalar of the product.
pub proof fn lemma_wrapping_mul(x: i64, y: i64)
    ensures
        vstd::wrapping::i64_specs::wrapping_mul(x, y) == wrap(x * y),
{
}

/// One round of exponentiation by squaring keeps `acc * cur^rem` in its
/// congruence class.
proof fn lemma_square_step(acc: int, cur: int, rem: nat)
    requires
        rem > 0,
    ensures
        congruent(
            (if rem % 2 == 1 {
                wrap(acc * cur) as int
            } else {
                acc
            }) * pow(wrap(cur * cur) as int, rem / 2),
            acc * pow(cur, rem),
        ),
{
    let half = rem / 2;
    lemma_wrap_congruent(cur * cur);
    lemma_congruent_pow(wrap(cur * cur) as int, cur * cur, half);
    assert(pow(cur * cur, half) == pow(cur, 2 * half)) by {
        lemma_pow_multiplies(cur, 2, half);
        lemma_pow_adds(cur, 1, 1);
        lemma_pow1(cur);
    }
    if rem % 2 == 1 {
        lemma_wrap_congruent(acc * cur);
        lemma_congruent_mul(
            wrap(acc * cur) as int,
            pow(wrap(cur * cur) as int, half),
            acc * cur,
            pow(cur, 2 * half),
        );
        assert(acc * cur * pow(cur, 2 * half) == acc * pow(cur, rem)) by {
            lemma_pow_adds(cur, 1, 2 * half);
            lemma_pow1(cur);
            assert(acc * cur * pow(cur, 2 * half) == acc * (cur * pow(cur, 2 * half)))
                by (nonlinear_arith);
        }
    } else {
        lemma_congruent_mul(acc, pow(wrap(cur * cur) as int, half), acc, pow(cur, 2 * half));
    }
}

/// Raises `base` to the power `exp` modulo 2^64, by repeated squaring.
pub fn wrapping_powi(base: i64, exp: u32) -> (result: i64)
    ensures
        result == wrap(pow(base as int, exp as nat)),
{
    let mut acc: i64 = 1;
    let mut cur: i64 = base;
    let mut rem: u32 = exp;
    proof {
        assert(1 * pow(base as int, exp as nat) == pow(base as int, exp as nat));
    }
    while rem > 0
        invariant
            congruent(acc * pow(cur as int, rem as nat), pow(base as int, exp as nat)),
        decreases rem,
    {
        proof {
            lemma_square_step(acc as int, cur as int, rem as nat);
            lemma_wrapping_mul(acc, cur);
            lemma_wrapping_mul(cur, cur);
        }
        if rem % 2 == 1 {
            acc = acc.wrapping_mul(cur);
        }
        cur = cur.wrapping_mul(cur);
        rem = rem / 2;
    }
    proof {
        lemma_pow0(cur as int);
        assert(acc * 1 == acc);
        lemma_wrap_eq(acc as int, pow(base as int, exp as nat));
        lemma_wrap_scalar(acc);
    }
    acc
}

} // verus!
