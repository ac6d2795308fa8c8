//! Exact integer arithmetic on amounts: proportional shares, basis-point
//! fees and truncating quotients, none of which can overflow.

use vstd::prelude::*;
use vstd::arithmetic::div_mod::{
    lemma_div_is_ordered, lemma_div_multiples_vanish, lemma_fundamental_div_mod,
    lemma_fundamental_div_mod_converse,
};

verus! {

/// One hundred percent, in basis points.
pub const BPS_DENOMINATOR: u128 = 10000;

/// `a * b / c`, rounded down.
pub open spec fn mul_div(a: int, b: int, c: int) -> int {
    (a * b) / c
}

/// The protocol fee on `amount` at `fee_bps` basis points, rounded down.
pub open spec fn protocol_fee(amount: int, fee_bps: int) -> int {
    (amount * fee_bps) / 10000
}

/// The part of `locked` collateral owed to a contribution of `investment`
/// toward `requested`, rounded down.
pub open spec fn collateral_share(investment: int, locked: int, requested: int) -> int {
    (investment * locked) / requested
}

/// The interest on `principal` at `rate_bps` basis points, charged once
/// and rounded down.
pub open spec fn flat_interest(principal: int, rate_bps: int) -> int {
    (principal * rate_bps) / 10000
}

/// The size of `x`, whatever its sign.
pub open spec fn magnitude(x: int) -> int {
    if x < 0 {
        -x
    } else {
        x
    }
}

/// The quotient of `a` by `b`, rounded toward zero.
pub open spec fn trunc_div(a: int, b: int) -> int {
    if (a < 0) == (b < 0) {
        magnitude(a) / magnitude(b)
    } else {
        -(magnitude(a) / magnitude(b))
    }
}

/// Rounding down each part gives no more than rounding down the whole.
pub proof fn lemma_floor_sum(x: int, y: int, d: int)
    requires
        0 <= x,
        0 <= y,
        0 < d,
    ensures
        x / d + y / d <= (x + y) / d,
{
    lemma_fundamental_div_mod(x, d);
    lemma_fundamental_div_mod(y, d);
    let whole = x / d + y / d;
    assert(d * whole == d * (x / d) + d * (y / d)) by (nonlinear_arith)
        requires
            whole == x / d + y / d,
    ;
    assert(0 <= x % d && 0 <= y % d) by (nonlinear_arith)
        requires
            0 < d,
    ;
    lemma_div_is_ordered(d * whole, x + y, d);
    lemma_div_multiples_vanish(whole, d);
}

/// A share of the collateral is no more than the collateral, as long as
/// the investment is within the requested amount.
pub proof fn lemma_share_bounds(investment: int, locked: int, requested: int)
    requires
        0 <= investment <= requested,
        0 < requested,
        0 <= locked,
    ensures
        0 <= collateral_share(investment, locked, requested) <= locked,
{
    assert(0 <= investment * locked <= requested * locked) by (nonlinear_arith)
        requires
            0 <= investment <= requested,
            0 <= locked,
    ;
    lemma_div_is_ordered(investment * locked, requested * locked, requested);
    lemma_div_is_ordered(0, investment * locked, requested);
    lemma_div_multiples_vanish(locked, requested);
}

/// A quotient of `a * m` by `c` is no more than `m` when `a` is no more
/// than `c`.
proof fn lemma_quotient_bound(q: int, r: int, a: int, c: int, m: int)
    by (nonlinear_arith)
    requires
        q * c + r == a * m,
        0 <= r,
        0 <= a <= c,
        0 < c,
        0 <= m,
    ensures
        q <= m,
{
}

/// Two divisions by `c` add up to a division of the sum, with or without
/// a carry from the remainders.
proof fn lemma_combine(q1: int, r1: int, q2: int, r2: int, a: int, c: int, m1: int, m2: int)
    by (nonlinear_arith)
    requires
        q1 * c + r1 == a * m1,
        q2 * c + r2 == a * m2,
    ensures
        (q1 + q2) * c + (r1 + r2) == a * (m1 + m2),
        (q1 + q2 + 1) * c + (r1 + r2 - c) == a * (m1 + m2),
{
}

/// Taking the lowest bit off `n` moves it into `low` at twice the weight.
proof fn lemma_halves(n: int, half: int, bit: int, weight: int, low: int)
    by (nonlinear_arith)
    requires
        n == 2 * half + bit,
    ensures
        bit == 0 ==> n * weight + low == half * (2 * weight) + low,
        bit == 1 ==> n * weight + low == half * (2 * weight) + (low + weight),
{
}

/// The interest at a rate of `whole` times a hundred percent and `part`
/// basis points is the sum of the two.
proof fn lemma_interest_split(principal: int, rate: int, whole: int, part: int)
    requires
        0 <= principal,
        0 <= part < 10000,
        0 <= whole,
        rate == whole * 10000 + part,
    ensures
        flat_interest(principal, rate) == principal * whole + mul_div(part, principal, 10000),
{
    let x = part * principal;
    assert(0 <= x) by (nonlinear_arith)
        requires
            0 <= part,
            0 <= principal,
            x == part * principal,
    ;
    let q = x / 10000;
    let r = x % 10000;
    assert(principal * rate == (principal * whole + q) * 10000 + r) by (nonlinear_arith)
        requires
            rate == whole * 10000 + part,
            x == part * principal,
            x == q * 10000 + r,
    ;
    lemma_fundamental_div_mod_converse(principal * rate, 10000, principal * whole + q, r);
}

/// Computes `a * b / c` rounded down without forming the product, so that
/// the result is exact for every `b` as long as `a` does not exceed `c`.
pub fn mul_div_floor(a: u128, b: u128, c: u128) -> (q: u128)
    requires
        0 < c,
        a <= c,
    ensures
        q == mul_div(a as int, b as int, c as int),
        q <= b,
{
    // `b` is taken apart from its lowest bit upward. `low` is the part
    // taken so far and `weight` the value of the next bit; `quot` and `rem`
    // divide `a * low` by `c`, and `step_q` and `step_r` divide `a * weight`.
    let mut n: u128 = b;
    let mut quot: u128 = 0;
    let mut rem: u128 = 0;
    let mut step_q: u128 = if a == c { 1 } else { 0 };
    let mut step_r: u128 = if a == c { 0 } else { a };
    let ghost mut weight: int = 1;
    let ghost mut low: int = 0;
    while n > 0
        invariant
            0 < c,
            a <= c,
            weight >= 1,
            0 <= low < weight,
            b == n * weight + low,
            quot * c + rem == a * low,
            rem < c,
            n > 0 ==> step_q * c + step_r == a * weight,
            n > 0 ==> step_r < c,
        decreases n,
    {
        let bit: u128 = n % 2;
        let half: u128 = n / 2;
        proof {
            lemma_quotient_bound(step_q as int, step_r as int, a as int, c as int, weight);
            lemma_combine(
                quot as int,
                rem as int,
                step_q as int,
                step_r as int,
                a as int,
                c as int,
                low,
                weight,
            );
            lemma_combine(
                step_q as int,
                step_r as int,
                step_q as int,
                step_r as int,
                a as int,
                c as int,
                weight,
                weight,
            );
            lemma_halves(n as int, half as int, bit as int, weight, low);
            assert(n * weight >= weight) by (nonlinear_arith)
                requires
                    n >= 1,
                    weight >= 1,
            ;
            if half > 0 {
                assert(n * weight >= 2 * weight) by (nonlinear_arith)
                    requires
                        n >= 2,
                        weight >= 1,
                ;
            }
        }
        if bit == 1 {
            proof {
                if rem >= c - step_r {
                    lemma_quotient_bound(
                        quot + step_q + 1,
                        rem + step_r - c,
                        a as int,
                        c as int,
                        low + weight,
                    );
                } else {
                    lemma_quotient_bound(
                        quot + step_q,
                        rem + step_r,
                        a as int,
                        c as int,
                        low + weight,
                    );
                }
            }
            if rem >= c - step_r {
                rem = rem - (c - step_r);
                quot = quot + step_q + 1;
            } else {
                rem = rem + step_r;
                quot = quot + step_q;
            }
            proof {
                low = low + weight;
            }
        }
        if half > 0 {
            proof {
                if step_r >= c - step_r {
                    lemma_quotient_bound(
                        step_q + step_q + 1,
                        step_r + step_r - c,
                        a as int,
                        c as int,
                        weight + weight,
                    );
                } else {
                    lemma_quotient_bound(
                        step_q + step_q,
                        step_r + step_r,
                        a as int,
                        c as int,
                        weight + weight,
                    );
                }
            }
            if step_r >= c - step_r {
                step_r = step_r - (c - step_r);
                step_q = step_q + step_q + 1;
            } else {
                step_r = step_r + step_r;
                step_q = step_q + step_q;
            }
        }
        proof {
            weight = 2 * weight;
        }
        n = half;
    }
    proof {
        lemma_fundamental_div_mod_converse(a * b, c as int, quot as int, rem as int);
        lemma_quotient_bound(quot as int, rem as int, a as int, c as int, b as int);
    }
    quot
}

/// Computes the protocol fee on a positive or zero `amount`.
pub fn fee_on(amount: i128, fee_bps: u32) -> (fee: i128)
    requires
        0 <= amount,
        fee_bps <= 10000,
    ensures
        fee == protocol_fee(amount as int, fee_bps as int),
        0 <= fee <= amount,
{
    proof {
        assert((amount as int) * (fee_bps as int) == (fee_bps as int) * (amount as int))
            by (nonlinear_arith);
    }
    let fee: u128 = mul_div_floor(fee_bps as u128, amount as u128, BPS_DENOMINATOR);
    fee as i128
}

/// Computes an investor's share of locked collateral.
pub fn share_on(investment: i128, locked: i128, requested: i128) -> (share: i128)
    requires
        0 <= investment <= requested,
        0 < requested,
        0 <= locked,
    ensures
        share == collateral_share(investment as int, locked as int, requested as int),
        0 <= share <= locked,
{
    let share: u128 = mul_div_floor(investment as u128, locked as u128, requested as u128);
    share as i128
}

/// Computes the flat interest on a principal, or `None` when it exceeds
/// what an amount can hold.
pub fn interest_on(principal: i128, rate_bps: u32) -> (interest: Option<i128>)
    requires
        0 <= principal,
    ensures
        match interest {
            Some(value) => value == flat_interest(principal as int, rate_bps as int),
            None => flat_interest(principal as int, rate_bps as int) > i128::MAX,
        },
{
    let whole: u128 = (rate_bps / 10000) as u128;
    let part: u128 = (rate_bps % 10000) as u128;
    let base: u128 = principal as u128;
    let rest: u128 = mul_div_floor(part, base, BPS_DENOMINATOR);
    proof {
        lemma_interest_split(principal as int, rate_bps as int, whole as int, part as int);
        assert(0 <= base * whole) by (nonlinear_arith)
            requires
                0 <= base,
                0 <= whole,
        ;
    }
    match base.checked_mul(whole) {
        Some(bulk) => match bulk.checked_add(rest) {
            Some(total) => if total <= i128::MAX as u128 {
                Some(total as i128)
            } else {
                None
            },
            None => None,
        },
        None => None,
    }
}

/// The magnitude of `x` as an unsigned number; exact for `i128::MIN` too.
fn magnitude_of(x: i128) -> (m: u128)
    ensures
        m == magnitude(x as int),
{
    if x >= 0 {
        x as u128
    } else {
        let shifted: i128 = -(x + 1);
        shifted as u128 + 1
    }
}

/// Divides rounding toward zero.
pub fn quotient(a: i128, b: i128) -> (q: i128)
    requires
        b != 0,
        !(a == i128::MIN && b == -1),
    ensures
        q == trunc_div(a as int, b as int),
{
    // The magnitudes are divided, which rounds toward zero, and the sign
    // is put back.
    let ma: u128 = magnitude_of(a);
    let mb: u128 = magnitude_of(b);
    let m: u128 = ma / mb;
    proof {
        assert(m <= ma) by (nonlinear_arith)
            requires
                m == ma / mb,
                mb >= 1,
        ;
        if mb >= 2 {
            assert(2 * m <= ma) by (nonlinear_arith)
                requires
                    m == ma / mb,
                    mb >= 2,
            ;
        }
    }
    if (a < 0) == (b < 0) {
        m as i128
    } else if m == 0 {
        0
    } else {
        let below: u128 = m - 1;
        -(below as i128) - 1
    }
}

} // verus!
