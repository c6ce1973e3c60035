//! Integer helpers for fee arithmetic: exact rational rates and rounding up.
use vstd::prelude::*;

use crate::types::Rate;

verus! {

/// The smaller of two amounts.
pub fn min(a: i128, b: i128) -> (r: i128)
    ensures
        r == if a < b { a } else { b },
{
    if a < b {
        a
    } else {
        b
    }
}

/// `n / d` rounded up, for `n >= 0` and `d > 0`.
pub open spec fn ceil_div(n: int, d: int) -> int {
    (n + d - 1) / d
}

/// Division rounded up: the least integer `r` with `r * d >= n`.
pub fn roundup(n: u128, d: u128) -> (r: u128)
    requires
        d > 0,
    ensures
        r == ceil_div(n as int, d as int),
{
    let q = n / d;
    let m = n % d;
    proof {
        vstd::arithmetic::div_mod::lemma_fundamental_div_mod(n as int, d as int);
    }
    if m == 0 {
        assert(ceil_div(n as int, d as int) == q) by (nonlinear_arith)
            requires n == d * q + m, m == 0, d > 0;
        q
    } else {
        assert(q < u128::MAX) by (nonlinear_arith)
            requires n == d * q + m, 0 < m < d, n <= u128::MAX;
        assert(ceil_div(n as int, d as int) == q + 1) by (nonlinear_arith)
            requires n == d * q + m, 0 < m < d;
        q + 1
    }
}

/// The share of a fee at `rate` on `base` that falls to a sender of `amount` out
/// of `sum` sent, rounded up: `ceil(base * rate * amount / sum)`, and nothing
/// when nothing was sent.
pub open spec fn fee_share(base: int, rate: Rate, amount: int, sum: int) -> int {
    if sum <= 0 {
        0
    } else {
        ceil_div(base * rate.numerator * amount, rate.denominator * sum)
    }
}

proof fn lemma_ceil_div_shift(a: int, z: int, d: int)
    requires
        d > 0,
        z >= 0,
    ensures
        ceil_div(a * d + z, d) == a + ceil_div(z, d),
{
    vstd::arithmetic::div_mod::lemma_hoist_over_denominator(z + d - 1, a, d as nat);
    assert(a * d == d * a) by (nonlinear_arith);
}

proof fn lemma_ceil_div_le(n: int, d: int, x: int)
    requires
        d > 0,
        0 <= n <= x * d,
    ensures
        0 <= ceil_div(n, d) <= x,
{
    vstd::arithmetic::div_mod::lemma_div_is_ordered(n + d - 1, x * d + d - 1, d);
    vstd::arithmetic::div_mod::lemma_div_is_ordered(0, n + d - 1, d);
    lemma_ceil_div_shift(x, 0, d);
    assert(ceil_div(0, d) == 0) by {
        vstd::arithmetic::div_mod::lemma_basic_div(d - 1, d);
    }
    vstd::arithmetic::div_mod::lemma_div_by_self(d);
}

/// `x * y` divided by `c`: the quotient and the remainder, found without
/// forming the product `x * y`, which need not fit in 128 bits.
pub fn mul_div(x: u128, y: u128, c: u128) -> (r: (u128, u128))
    requires
        0 < c <= 0x8000_0000_0000_0000_0000_0000_0000_0000u128,
        x <= c,
    ensures
        r.0 * c + r.1 == x * y,
        r.1 < c,
{
    // With w running through the powers of two and y == yy * w + done:
    // x * done == q * c + acc and x * w == qk * c + xk.
    let mut q: u128 = 0;
    let mut acc: u128 = 0;
    let mut qk: u128 = x / c;
    let mut xk: u128 = x % c;
    let mut yy: u128 = y;
    let ghost mut w: int = 1;
    let ghost mut done: int = 0;
    proof {
        vstd::arithmetic::div_mod::lemma_fundamental_div_mod(x as int, c as int);
        assert(qk * c + xk == x * w) by (nonlinear_arith)
            requires x == c * qk + xk, w == 1;
    }
    while yy > 0
        invariant
            0 < c <= 0x8000_0000_0000_0000_0000_0000_0000_0000u128,
            x <= c,
            w >= 1,
            0 <= done,
            y == yy * w + done,
            q * c + acc == x * done,
            acc < c,
            qk * c + xk == x * w,
            xk < c,
            yy > 0 ==> w <= y,
        decreases yy,
    {
        let ghost q0 = q;
        let ghost acc0 = acc;
        let ghost qk0 = qk;
        let ghost xk0 = xk;
        let ghost yy0 = yy;
        let ghost w0 = w;
        let ghost done0 = done;
        let bit = yy % 2;
        if bit == 1 {
            let s = acc + xk;
            if s >= c {
                assert(q + qk + 1 <= y) by (nonlinear_arith)
                    requires
                        q * c + acc == x * done,
                        qk * c + xk == x * w,
                        x <= c,
                        c > 0,
                        acc + xk >= c,
                        y == yy * w + done,
                        yy >= 1,
                        w >= 1,
                ;
                acc = s - c;
                q = q + qk + 1;
                assert(q * c + acc == q0 * c + acc0 + qk0 * c + xk0) by (nonlinear_arith)
                    requires q == q0 + qk0 + 1, acc == acc0 + xk0 - c;
            } else {
                assert(q + qk <= y) by (nonlinear_arith)
                    requires
                        q * c + acc == x * done,
                        qk * c + xk == x * w,
                        x <= c,
                        c > 0,
                        acc >= 0,
                        xk >= 0,
                        y == yy * w + done,
                        yy >= 1,
                        w >= 1,
                ;
                acc = s;
                q = q + qk;
                assert(q * c + acc == q0 * c + acc0 + qk0 * c + xk0) by (nonlinear_arith)
                    requires q == q0 + qk0, acc == acc0 + xk0;
            }
            proof {
                done = done + w;
                assert(q * c + acc == x * done) by (nonlinear_arith)
                    requires
                        q * c + acc == q0 * c + acc0 + qk0 * c + xk0,
                        q0 * c + acc0 == x * done0,
                        qk0 * c + xk0 == x * w0,
                        done == done0 + w0,
                ;
            }
        }
        yy = yy / 2;
        assert(y == yy * (2 * w0) + done) by (nonlinear_arith)
            requires
                y == yy0 * w0 + done0,
                yy0 == 2 * yy + bit,
                done == done0 + bit * w0,
        ;
        if yy > 0 {
            assert(2 * qk + 1 <= 0xffff_ffff_ffff_ffff_ffff_ffff_ffff_ffffu128) by (nonlinear_arith)
                requires
                    qk * c + xk == x * w,
                    x <= c,
                    c > 0,
                    xk >= 0,
                    y == yy * (2 * w) + done,
                    yy >= 1,
                    done >= 0,
                    y <= 0xffff_ffff_ffff_ffff_ffff_ffff_ffff_ffffu128,
            ;
            let t = 2 * xk;
            if t >= c {
                xk = t - c;
                qk = 2 * qk + 1;
                assert(qk * c + xk == 2 * (qk0 * c + xk0)) by (nonlinear_arith)
                    requires qk == 2 * qk0 + 1, xk == 2 * xk0 - c;
            } else {
                xk = t;
                qk = 2 * qk;
                assert(qk * c + xk == 2 * (qk0 * c + xk0)) by (nonlinear_arith)
                    requires qk == 2 * qk0, xk == 2 * xk0;
            }
            proof {
                w = 2 * w;
                assert(x * w == 2 * (x * w0)) by (nonlinear_arith)
                    requires w == 2 * w0;
                assert(w <= y) by (nonlinear_arith)
                    requires
                        y == yy * w + done,
                        yy >= 1,
                        done >= 0,
                        w >= 0,
                ;
            }
        }
    }
    (q, acc)
}

/// `ceil(z / d)` for `0 <= z < 2 * d`.
proof fn lemma_ceil_div_small(z: int, d: int)
    requires
        d > 0,
        0 <= z < 2 * d,
    ensures
        ceil_div(z, d) == if z == 0 {
            0int
        } else if z <= d {
            1int
        } else {
            2int
        },
{
    if z == 0 {
        vstd::arithmetic::div_mod::lemma_fundamental_div_mod_converse(d - 1, d, 0, d - 1);
    } else if z <= d {
        vstd::arithmetic::div_mod::lemma_fundamental_div_mod_converse(z + d - 1, d, 1, z - 1);
    } else {
        vstd::arithmetic::div_mod::lemma_fundamental_div_mod_converse(z + d - 1, d, 2, z - 1 - d);
    }
}

/// With `0 <= r < s`, `q * s + r` is at most `k * s` exactly when `q`, rounded
/// up by the remainder, is at most `k`.
proof fn lemma_compare_scaled(q: int, r: int, s: int, k: int)
    requires
        s > 0,
        0 <= r < s,
        q >= 0,
    ensures
        (q * s + r <= k * s) == ((if r == 0 { q } else { q + 1 }) <= k),
{
    if q < k {
        assert(q * s + r < k * s) by (nonlinear_arith)
            requires q < k, 0 <= r < s, s > 0;
        if r > 0 {
            assert(q + 1 <= k);
        }
    } else {
        assert(q * s >= k * s) by (nonlinear_arith)
            requires q >= k, s > 0;
        if r > 0 {
            assert(q * s + r > k * s);
        } else if q > k {
            assert(q * s > k * s) by (nonlinear_arith)
                requires q > k, s > 0;
        }
    }
}

/// The fee at `rate` on `total_amount` owed by a sender of `amount` out of the
/// `non_issuer_input_sum` that all fee-paying senders send.
pub fn evaluate_rate(amount: i128, rate: Rate, total_amount: i128, non_issuer_input_sum: i128) -> (r:
    i128)
    requires
        rate.wf(),
        0 <= amount <= non_issuer_input_sum,
        0 <= total_amount <= non_issuer_input_sum,
    ensures
        r == fee_share(total_amount as int, rate, amount as int, non_issuer_input_sum as int),
        0 <= r <= amount,
{
    if non_issuer_input_sum == 0 {
        return 0;
    }
    let s = non_issuer_input_sum as u128;
    let base = total_amount as u128;
    let x = amount as u128;
    let num = rate.numerator as u128;
    let den = rate.denominator as u128;
    // base * amount == q * s + rem
    let (q, rem) = mul_div(x, base, s);
    proof {
        assert(q <= base) by (nonlinear_arith)
            requires q * s + rem == x * base, rem >= 0, x <= s, s > 0, q >= 0;
    }
    // q * rate == a + b / den
    let qd = q / den;
    let qm = q % den;
    proof {
        vstd::arithmetic::div_mod::lemma_fundamental_div_mod(q as int, den as int);
        assert(qm * num <= 0xffff_ffffu128 * 0xffff_ffffu128) by (nonlinear_arith)
            requires qm < den, den <= 0xffff_ffffu128, num <= 0xffff_ffffu128;
        assert(qd * num <= q) by (nonlinear_arith)
            requires q == den * qd + qm, qm >= 0, num <= den, qd >= 0;
    }
    let e = (qm * num) / den;
    let b = (qm * num) % den;
    proof {
        vstd::arithmetic::div_mod::lemma_fundamental_div_mod((qm * num) as int, den as int);
        assert(q * num == (qd * num + e) * den + b) by (nonlinear_arith)
            requires q == den * qd + qm, qm * num == den * e + b;
        assert(qd * num + e <= q) by (nonlinear_arith)
            requires q * num == (qd * num + e) * den + b, b >= 0, num <= den, den > 0, q >= 0;
    }
    let a = qd * num + e;
    // rem * rate's numerator == q2 * s + r2
    let (q2, r2) = mul_div(rem, num, s);
    proof {
        assert(q2 <= num) by (nonlinear_arith)
            requires q2 * s + r2 == rem * num, r2 >= 0, rem < s, s > 0, q2 >= 0, num >= 0;
    }
    let up = if r2 == 0 { q2 } else { q2 + 1 };
    let extra: u128 = if b == 0 && q2 == 0 && r2 == 0 {
        0
    } else if up <= den - b {
        1
    } else {
        2
    };
    proof {
        let n = (base * num * x) as int;
        let dd = den * s;
        let z = b * s + rem * num;
        assert(dd > 0) by (nonlinear_arith)
            requires den > 0, s > 0, dd == den * s;
        assert(n == a * dd + z) by (nonlinear_arith)
            requires
                n == base * num * x,
                x * base == q * s + rem,
                q * num == a * den + b,
                dd == den * s,
                z == b * s + rem * num,
        ;
        assert(0 <= z < 2 * dd) by (nonlinear_arith)
            requires
                z == b * s + rem * num,
                0 <= b < den,
                0 <= rem < s,
                0 <= num <= den,
                dd == den * s,
        ;
        lemma_ceil_div_shift(a as int, z, dd);
        lemma_ceil_div_small(z, dd);
        assert(z == (b + q2) * s + r2) by (nonlinear_arith)
            requires z == b * s + rem * num, rem * num == q2 * s + r2;
        assert((z == 0) == (b == 0 && q2 == 0 && r2 == 0)) by (nonlinear_arith)
            requires z == (b + q2) * s + r2, b >= 0, q2 >= 0, r2 >= 0, s > 0;
        lemma_compare_scaled(q2 as int, r2 as int, s as int, den - b);
        assert((z <= dd) == (q2 * s + r2 <= (den - b) * s)) by (nonlinear_arith)
            requires z == (b + q2) * s + r2, dd == den * s;
        assert(n <= (x as int) * dd) by (nonlinear_arith)
            requires n == base * num * x, base <= s, num <= den, dd == den * s, x >= 0;
        assert(n >= 0) by (nonlinear_arith)
            requires n == base * num * x, base >= 0, num >= 0, x >= 0;
        lemma_ceil_div_le(n, dd, x as int);
    }
    (a + extra) as i128
}

} // verus!
