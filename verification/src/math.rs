use vstd::prelude::*;

verus! {

use vstd::arithmetic::div_mod::{
    lemma_fundamental_div_mod, lemma_fundamental_div_mod_converse_div,
    lemma_fundamental_div_mod_converse_mod, lemma_div_is_ordered,
    lemma_div_is_ordered_by_denominator, lemma_div_denominator, lemma_div_pos_is_pos,
};
use vstd::arithmetic::mul::lemma_mul_inequality;
use crate::errors::MarketError;

/// Rounding direction of a scaled division. It is threaded explicitly through
/// every call site: systematically rounding in the protocol's favor on both
/// the buy and the sell leg is what prevents value leakage from rounding.
#[derive(Clone, Copy, Debug, PartialEq, Eq, Structural)]
pub enum Rounding {
    Down,
    Up,
}

/// `x / d` rounded down (`up == false`) or up (`up == true`), for `x >= 0`
/// and `d > 0`.
pub open spec fn rnd_div(x: int, d: int, up: bool) -> int {
    if up && x % d != 0 {
        x / d + 1
    } else {
        x / d
    }
}

/// Basic bounds of a rounded division.
pub proof fn lemma_rnd_div_basics(x: int, d: int, up: bool)
    requires
        0 <= x,
        0 < d,
    ensures
        0 <= rnd_div(x, d, up),
        x / d <= rnd_div(x, d, up) <= x / d + 1,
        rnd_div(x, d, false) * d <= x,
        up ==> rnd_div(x, d, up) * d >= x,
        rnd_div(x, d, up) <= x,
{
    lemma_fundamental_div_mod(x, d);
    assert(0 <= x % d < d);
    assert(x / d >= 0) by (nonlinear_arith)
        requires
            0 <= x,
            0 < d,
    ;
    assert((x / d) * d <= x && (x / d + 1) * d >= x) by (nonlinear_arith)
        requires
            x == d * (x / d) + x % d,
            0 <= x % d < d,
    ;
    assert(rnd_div(x, d, up) <= x) by (nonlinear_arith)
        requires
            x == d * (x / d) + x % d,
            0 <= x % d < d,
            0 <= x / d,
            rnd_div(x, d, up) <= x / d + 1,
            rnd_div(x, d, up) == x / d || x % d != 0,
    ;
    assert((x / d) * d == d * (x / d)) by (nonlinear_arith);
}

/// A rounded division is monotone in its numerator.
pub proof fn lemma_rnd_div_mono(x1: int, x2: int, d: int, up: bool)
    requires
        0 <= x1 <= x2,
        0 < d,
    ensures
        rnd_div(x1, d, up) <= rnd_div(x2, d, up),
{
    lemma_div_is_ordered(x1, x2, d);
    if up && x1 % d != 0 {
        lemma_fundamental_div_mod(x1, d);
        lemma_fundamental_div_mod(x2, d);
        if x1 / d == x2 / d {
            assert(x2 % d >= x1 % d);
        }
    }
}

/// An exact multiple divides back exactly, whatever the rounding.
pub proof fn lemma_rnd_div_exact(a: int, d: int, up: bool)
    requires
        0 <= a,
        0 < d,
    ensures
        rnd_div(a * d, d, up) == a,
{
    lemma_fundamental_div_mod_converse_div(a * d, d, a, 0);
    lemma_fundamental_div_mod_converse_mod(a * d, d, a, 0);
}

/// A product of non-negative factors is bounded by the product of bounds.
pub proof fn lemma_mul_le(x: int, y: int, bx: int, by: int)
    by (nonlinear_arith)
    requires
        0 <= x <= bx,
        0 <= y <= by,
    ensures
        x * y <= bx * by,
{
}

/// One base-2^32 long-division step: folds `limb` (the next 32 bits of the
/// wide numerator) into quotient `q` and partial remainder `rem`.
fn muldiv_step(a: u128, limb: u128, d: u128, q: u128, rem: u128) -> (r: Option<(u128, u128)>)
    requires
        a < 0x1_0000_0000_0000_0000u128,
        limb < 0x1_0000_0000u128,
        0 < d < 0x8000_0000_0000_0000_0000_0000u128,
        rem < d,
    ensures
        match r {
            Some(p) => p.1 < d && p.0 * d + p.1 == (q * d + rem) * 0x1_0000_0000 + a * limb,
            None => (q * d + rem) * 0x1_0000_0000 + a * limb >= (u128::MAX + 1) * d,
        },
{
    proof {
        assert(rem * 0x1_0000_0000 < 0x8000_0000_0000_0000_0000_0000u128 * 0x1_0000_0000)
            by (nonlinear_arith)
            requires
                rem < 0x8000_0000_0000_0000_0000_0000u128,
        ;
        assert(a * limb < 0x1_0000_0000_0000_0000u128 * 0x1_0000_0000) by (nonlinear_arith)
            requires
                a < 0x1_0000_0000_0000_0000u128,
                limb < 0x1_0000_0000u128,
                0 <= a,
                0 <= limb,
        ;
    }
    let t = rem * 0x1_0000_0000u128 + a * limb;
    let qi = t / d;
    let rem2 = t % d;
    proof {
        lemma_fundamental_div_mod(t as int, d as int);
    }
    match q.checked_mul(0x1_0000_0000u128) {
        None => {
            proof {
                assert((q * d + rem) * 0x1_0000_0000 + a * limb >= (u128::MAX + 1) * d)
                    by (nonlinear_arith)
                    requires
                        q * 0x1_0000_0000u128 > u128::MAX,
                        0 <= rem,
                        0 <= a * limb,
                        0 < d,
                ;
            }
            None
        },
        Some(qs) => {
            match qs.checked_add(qi) {
                None => {
                    proof {
                        assert((q * d + rem) * 0x1_0000_0000 + a * limb >= (u128::MAX + 1) * d)
                            by (nonlinear_arith)
                            requires
                                qs == q * 0x1_0000_0000u128,
                                qs + qi > u128::MAX,
                                t == rem * 0x1_0000_0000u128 + a * limb,
                                t == d * qi + rem2,
                                0 <= rem2 < d,
                                0 < d,
                                0 <= qi,
                                0 <= qs,
                        ;
                    }
                    None
                },
                Some(q2) => {
                    proof {
                        assert(q2 * d + rem2 == (q * d + rem) * 0x1_0000_0000 + a * limb)
                            by (nonlinear_arith)
                            requires
                                q2 == q * 0x1_0000_0000u128 + qi,
                                t == rem * 0x1_0000_0000u128 + a * limb,
                                t == d * qi + rem2,
                        ;
                    }
                    Some((q2, rem2))
                },
            }
        },
    }
}

/// `a * b / denominator` with the given rounding, computed through a 256-bit
/// wide intermediate so the product cannot overflow. `None` when the
/// denominator is zero or the rounded quotient does not fit in a `u128`.
pub fn mul_div(a: u128, b: u128, denominator: u128, rounding: Rounding) -> (r: Option<u128>)
    requires
        a < 0x1_0000_0000_0000_0000u128,
        denominator < 0x8000_0000_0000_0000_0000_0000u128,
    ensures
        match r {
            Some(q) => denominator != 0 && q == rnd_div(
                a as int * b as int,
                denominator as int,
                rounding == Rounding::Up,
            ),
            None => denominator == 0 || rnd_div(
                a as int * b as int,
                denominator as int,
                rounding == Rounding::Up,
            ) > u128::MAX,
        },
{
    if denominator == 0 {
        return None;
    }
    let d = denominator;
    let b3 = b / 0x1_0000_0000_0000_0000_0000_0000u128;
    let b2 = (b / 0x1_0000_0000_0000_0000u128) % 0x1_0000_0000u128;
    let b1 = (b / 0x1_0000_0000u128) % 0x1_0000_0000u128;
    let b0 = b % 0x1_0000_0000u128;
    proof {
        lemma_limb_decomposition(b);
    }
    let ghost v3 = a as int * b3 as int;
    let ghost v2 = v3 * 0x1_0000_0000 + a as int * b2 as int;
    let ghost v1 = v2 * 0x1_0000_0000 + a as int * b1 as int;
    let ghost v0 = v1 * 0x1_0000_0000 + a as int * b0 as int;
    proof {
        assert(v0 == a as int * b as int) by (nonlinear_arith)
            requires
                b == ((b3 * 0x1_0000_0000u128 + b2) * 0x1_0000_0000u128 + b1) * 0x1_0000_0000u128
                    + b0,
                v3 == a as int * b3 as int,
                v2 == v3 * 0x1_0000_0000 + a as int * b2 as int,
                v1 == v2 * 0x1_0000_0000 + a as int * b1 as int,
                v0 == v1 * 0x1_0000_0000 + a as int * b0 as int,
        ;
        assert(v3 <= v2 <= v1 <= v0) by (nonlinear_arith)
            requires
                0 <= a,
                0 <= b2 && 0 <= b1 && 0 <= b0,
                0 <= v3,
                v2 == v3 * 0x1_0000_0000 + a as int * b2 as int,
                v1 == v2 * 0x1_0000_0000 + a as int * b1 as int,
                v0 == v1 * 0x1_0000_0000 + a as int * b0 as int,
        ;
    }
    let s3 = match muldiv_step(a, b3, d, 0, 0) {
        Some(s) => s,
        None => {
            proof {
                lemma_quotient_overflows(v3, v0, d as int);
            }
            return None;
        },
    };
    let s2 = match muldiv_step(a, b2, d, s3.0, s3.1) {
        Some(s) => s,
        None => {
            proof {
                lemma_quotient_overflows(v2, v0, d as int);
            }
            return None;
        },
    };
    let s1 = match muldiv_step(a, b1, d, s2.0, s2.1) {
        Some(s) => s,
        None => {
            proof {
                lemma_quotient_overflows(v1, v0, d as int);
            }
            return None;
        },
    };
    let s0 = match muldiv_step(a, b0, d, s1.0, s1.1) {
        Some(s) => s,
        None => {
            proof {
                lemma_quotient_overflows(v0, v0, d as int);
            }
            return None;
        },
    };
    let (q, rem) = s0;
    proof {
        lemma_fundamental_div_mod_converse_div(v0, d as int, q as int, rem as int);
        lemma_fundamental_div_mod_converse_mod(v0, d as int, q as int, rem as int);
    }
    match rounding {
        Rounding::Down => Some(q),
        Rounding::Up => {
            if rem == 0 {
                Some(q)
            } else {
                q.checked_add(1)
            }
        },
    }
}

/// A `u128` split into four 32-bit limbs, most significant first.
proof fn lemma_limb_decomposition(b: u128)
    ensures
        b == (((b / 0x1_0000_0000_0000_0000_0000_0000u128) * 0x1_0000_0000u128 + (b
            / 0x1_0000_0000_0000_0000u128) % 0x1_0000_0000u128) * 0x1_0000_0000u128 + (b
            / 0x1_0000_0000u128) % 0x1_0000_0000u128) * 0x1_0000_0000u128 + b % 0x1_0000_0000u128,
        b / 0x1_0000_0000_0000_0000_0000_0000u128 < 0x1_0000_0000u128,
{
    let b_int = b as int;
    let b3 = b_int / 0x1_0000_0000_0000_0000_0000_0000int;
    let b2 = (b_int / 0x1_0000_0000_0000_0000int) % 0x1_0000_0000int;
    let b1 = (b_int / 0x1_0000_0000int) % 0x1_0000_0000int;
    let b0 = b_int % 0x1_0000_0000int;
    lemma_fundamental_div_mod(b_int, 0x1_0000_0000int);
    lemma_div_denominator(b_int, 0x1_0000_0000int, 0x1_0000_0000int);
    assert(0x1_0000_0000int * 0x1_0000_0000int == 0x1_0000_0000_0000_0000int);
    assert((b_int / 0x1_0000_0000int) / 0x1_0000_0000int == b_int / 0x1_0000_0000_0000_0000int);
    lemma_fundamental_div_mod(b_int / 0x1_0000_0000int, 0x1_0000_0000int);
    lemma_div_denominator(b_int, 0x1_0000_0000_0000_0000int, 0x1_0000_0000int);
    assert(0x1_0000_0000_0000_0000int * 0x1_0000_0000int
        == 0x1_0000_0000_0000_0000_0000_0000int);
    assert((b_int / 0x1_0000_0000_0000_0000int) / 0x1_0000_0000int == b3);
    lemma_fundamental_div_mod(b_int / 0x1_0000_0000_0000_0000int, 0x1_0000_0000int);
    assert(b_int / 0x1_0000_0000_0000_0000int == 0x1_0000_0000int * b3 + b2);
    assert(b_int / 0x1_0000_0000int == 0x1_0000_0000int * (b_int / 0x1_0000_0000_0000_0000int)
        + b1);
    assert(b_int == 0x1_0000_0000int * (b_int / 0x1_0000_0000int) + b0);
    lemma_div_pos_is_pos(b_int, 0x1_0000_0000_0000_0000_0000_0000int);
    lemma_fundamental_div_mod(b_int, 0x1_0000_0000_0000_0000_0000_0000int);
    if b3 >= 0x1_0000_0000int {
        lemma_mul_inequality(0x1_0000_0000int, b3, 0x1_0000_0000_0000_0000_0000_0000int);
        assert(false);
    }
}

/// When a partial quotient already exceeds `u128::MAX`, so does the final one.
proof fn lemma_quotient_overflows(v_part: int, v_full: int, d: int)
    requires
        0 < d,
        v_part <= v_full,
        v_part >= (u128::MAX + 1) * d,
    ensures
        rnd_div(v_full, d, false) > u128::MAX,
        rnd_div(v_full, d, true) > u128::MAX,
{
    lemma_fundamental_div_mod_converse_div((u128::MAX + 1) * d, d, u128::MAX + 1, 0);
    lemma_div_is_ordered((u128::MAX + 1) * d, v_full, d);
    assert(v_full / d >= u128::MAX + 1);
}

/// `a / denominator` with the given rounding, converted to a `u64`. Fails
/// with a math error when the denominator is zero or the rounded quotient
/// does not fit in a `u64`.
pub fn div(a: u128, denominator: u128, rounding: Rounding) -> (r: Result<u64, MarketError>)
    ensures
        match r {
            Ok(q) => denominator != 0 && q == rnd_div(
                a as int,
                denominator as int,
                rounding == Rounding::Up,
            ),
            Err(e) => e == MarketError::MathError && (denominator == 0 || rnd_div(
                a as int,
                denominator as int,
                rounding == Rounding::Up,
            ) > u64::MAX),
        },
{
    if denominator == 0 {
        return Err(MarketError::MathError);
    }
    let mut q = a / denominator;
    let rem = a % denominator;
    proof {
        lemma_fundamental_div_mod(a as int, denominator as int);
        if rem != 0 {
            lemma_div_is_ordered_by_denominator(a as int, 2, denominator as int);
        }
    }
    if matches!(rounding, Rounding::Up) && rem != 0 {
        q = q + 1;
    }
    if q > u64::MAX as u128 {
        Err(MarketError::MathError)
    } else {
        Ok(q as u64)
    }
}

/// `10^exponent`.
pub open spec fn pow10(e: nat) -> int
    decreases e,
{
    if e == 0 {
        1
    } else {
        10 * pow10((e - 1) as nat)
    }
}

/// Powers of ten are positive and monotone in the exponent.
pub proof fn lemma_pow10_monotone(e1: nat, e2: nat)
    requires
        e1 <= e2,
    ensures
        1 <= pow10(e1) <= pow10(e2),
    decreases e2,
{
    if e1 == e2 {
        if e2 > 0 {
            lemma_pow10_monotone((e1 - 1) as nat, (e2 - 1) as nat);
        }
    } else {
        lemma_pow10_monotone(e1, (e2 - 1) as nat);
    }
}

/// `10^e`, or `None` when it does not fit in a `u128`.
pub fn pow10_checked(e: u8) -> (r: Option<u128>)
    ensures
        match r {
            Some(p) => p == pow10(e as nat),
            None => pow10(e as nat) > u128::MAX,
        },
{
    let mut acc: u128 = 1;
    let mut i: u8 = 0;
    while i < e
        invariant
            i <= e,
            acc == pow10(i as nat),
        decreases e - i,
    {
        match acc.checked_mul(10) {
            None => {
                proof {
                    assert(pow10((i + 1) as nat) == 10 * pow10(i as nat));
                    lemma_pow10_monotone((i + 1) as nat, e as nat);
                }
                return None;
            },
            Some(n) => {
                acc = n;
            },
        }
        i = i + 1;
    }
    Some(acc)
}

} // verus!
