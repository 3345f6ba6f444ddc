//! The upper bound on the entropy, cleared of logarithms.
//!
//! The proof compares every count, made `k` times as large, with the total
//! `n`, which is the mean of the enlarged counts: the function that sends `d`
//! to `d^d` lies above its tangent at `n`, and over all counts the slopes
//! cancel.

use crate::laws::{
    lemma_counts_are_shares, lemma_counts_sum_to_total, product_of_self_powers, sum_of_counts,
};
use crate::table::enumerates;
use vstd::arithmetic::power::{
    lemma_pow_adds, lemma_pow_distributes, lemma_pow_multiplies, lemma_pow_positive, pow,
};
use vstd::multiset::Multiset;
use vstd::prelude::*;

verus! {

/// `x` to the power `x`.
spec fn self_power(x: int) -> int {
    pow(x, x as nat)
}

/// Bernoulli's inequality, cleared of fractions: `(1 - 1/y)^x >= 1 - x/y`.
proof fn lemma_bernoulli(y: int, x: nat)
    requires
        y >= 1,
        x <= y,
    ensures
        pow(y - 1, x) * y >= pow(y, x) * (y - x),
    decreases x,
{
    reveal(pow);
    if x > 0 {
        let a = pow(y - 1, (x - 1) as nat);
        let b = pow(y, (x - 1) as nat);
        lemma_bernoulli(y, (x - 1) as nat);
        lemma_pow_positive(y, (x - 1) as nat);
        assert(((y - 1) * a) * y >= (y * b) * (y - x)) by (nonlinear_arith)
            requires
                a * y >= b * (y - x + 1),
                y >= 1,
                b > 0,
                x >= 1,
        {
            assert((y - 1) * (a * y) >= (y - 1) * (b * (y - x + 1)));
            assert((y - 1) * (b * (y - x + 1)) == b * (y * y - x * y + x - 1));
            assert((y * b) * (y - x) == b * (y * y - x * y));
        }
    }
}

/// The step from `x^x` to `(x+1)^(x+1)` grows with `x`.
proof fn lemma_steps_grow(x: int)
    requires
        x >= 1,
    ensures
        self_power(x + 2) * self_power(x) >= self_power(x + 1) * self_power(x + 1),
{
    let e = x as nat;
    let a = pow(x, e);
    let b = pow(x + 2, e);
    let c = pow(x + 1, e);
    let p = (x + 1) * (x + 1);
    let q = (x + 2) * (x + 2);
    lemma_pow_positive(x, e);
    lemma_pow_positive(x + 2, e);
    lemma_pow_positive(x + 1, e);
    assert(p - 1 == x * (x + 2)) by (nonlinear_arith)
        requires
            p == (x + 1) * (x + 1),
    ;
    assert(p - x == x * x + x + 1) by (nonlinear_arith)
        requires
            p == (x + 1) * (x + 1),
    ;
    assert(p >= 1 && x <= p) by (nonlinear_arith)
        requires
            p == (x + 1) * (x + 1),
            x >= 1,
    ;
    lemma_bernoulli(p, e);
    lemma_pow_distributes(x, x + 2, e);
    lemma_pow_distributes(x + 1, x + 1, e);
    assert(pow(p - 1, e) == a * b);
    assert(pow(p, e) == c * c);
    // (x+2)^(x+2) = (x+2)^x * (x+2)^2 and likewise for x+1.
    lemma_pow_adds(x + 2, e, 2);
    lemma_pow_adds(x + 1, e, 1);
    assert(pow(x + 2, 2) == q) by {
        reveal_with_fuel(pow, 3);
    }
    assert(pow(x + 1, 1) == x + 1) by {
        reveal_with_fuel(pow, 2);
    }
    assert(self_power(x + 2) == b * q);
    assert(self_power(x + 1) == c * (x + 1));
    let u = a * b;
    let v = c * c;
    assert(u > 0 && v > 0) by (nonlinear_arith)
        requires
            u == a * b,
            v == c * c,
            a > 0,
            b > 0,
            c > 0,
    ;
    assert(u * q >= v * p) by (nonlinear_arith)
        requires
            u * p >= v * (x * x + x + 1),
            p == (x + 1) * (x + 1),
            q == (x + 2) * (x + 2),
            v > 0,
            u > 0,
            x >= 1,
    {
        assert((u * p) * q >= (v * (x * x + x + 1)) * q);
        assert((x * x + x + 1) * q >= p * p);
        assert(v * ((x * x + x + 1) * q) >= v * (p * p));
        assert((u * q) * p >= (v * p) * p);
    }
    assert((b * q) * a >= (c * (x + 1)) * (c * (x + 1))) by (nonlinear_arith)
        requires
            u * q >= v * p,
            u == a * b,
            v == c * c,
            p == (x + 1) * (x + 1),
    ;
}

/// Cancelling a positive factor keeps the order.
proof fn lemma_cancel(p: int, r: int, q: int)
    requires
        q > 0,
        p * q >= r * q,
    ensures
        p >= r,
{
    assert(p >= r) by (nonlinear_arith)
        requires
            q > 0,
            p * q >= r * q,
    ;
}

/// From `n` upwards, no step from `x^x` to `(x+1)^(x+1)` is smaller than the
/// step at `n`.
proof fn lemma_steps_above(n: int, x: int)
    requires
        1 <= n <= x,
    ensures
        self_power(x + 1) * self_power(n) >= self_power(n + 1) * self_power(x),
    decreases x - n,
{
    if x > n {
        let w = x - 1;
        lemma_steps_above(n, w);
        lemma_steps_grow(w);
        let big = self_power(w + 2);
        let mid = self_power(w + 1);
        let low = self_power(w);
        let q = self_power(n);
        let p = self_power(n + 1);
        lemma_pow_positive(w, w as nat);
        lemma_pow_positive(w + 1, (w + 1) as nat);
        lemma_pow_positive(n, n as nat);
        assert((big * q) * low >= (p * mid) * low) by (nonlinear_arith)
            requires
                big * low >= mid * mid,
                mid * q >= p * low,
                mid > 0,
                low > 0,
                q > 0,
        {
            assert((big * low) * q >= (mid * mid) * q);
            assert(mid * (mid * q) >= mid * (p * low));
        }
        lemma_cancel(big * q, p * mid, low);
    }
}

/// Up to `n`, no step from `x^x` to `(x+1)^(x+1)` is larger than the step at
/// `n`.
proof fn lemma_steps_below(n: int, x: int)
    requires
        1 <= x <= n,
    ensures
        self_power(x + 1) * self_power(n) <= self_power(n + 1) * self_power(x),
    decreases n - x,
{
    if x < n {
        let w = x + 1;
        lemma_steps_below(n, w);
        lemma_steps_grow(x);
        let big = self_power(x + 2);
        let mid = self_power(x + 1);
        let low = self_power(x);
        let q = self_power(n);
        let p = self_power(n + 1);
        lemma_pow_positive(x + 2, (x + 2) as nat);
        lemma_pow_positive(x + 1, (x + 1) as nat);
        lemma_pow_positive(n + 1, (n + 1) as nat);
        assert((p * low) * big >= (mid * q) * big) by (nonlinear_arith)
            requires
                big * low >= mid * mid,
                big * q <= p * mid,
                mid > 0,
                big > 0,
                p > 0,
        {
            assert(p * (big * low) >= p * (mid * mid));
            assert(mid * (big * q) <= mid * (p * mid));
        }
        lemma_cancel(p * low, mid * q, big);
    }
}

/// How far `d` lies above `n`; zero if it does not.
spec fn above(d: int, n: int) -> nat {
    if d > n {
        (d - n) as nat
    } else {
        0
    }
}

/// The tangent bound on `d^d` at `n`: with the step at `n` as its slope, the
/// line through `n^n` stays below `d^d` on both sides of `n`. Here the step
/// is the quotient of `(n+1)^(n+1)` and `n^n`, and the inequality is cleared
/// of fractions.
proof fn lemma_tangent(n: int, d: int)
    requires
        1 <= n,
        1 <= d,
    ensures
        self_power(d) * pow(self_power(n), above(d, n)) * pow(self_power(n + 1), above(n, d))
            >= self_power(n) * pow(self_power(n + 1), above(d, n)) * pow(
            self_power(n),
            above(n, d),
        ),
    decreases above(d, n) + above(n, d),
{
    let q = self_power(n);
    let p = self_power(n + 1);
    lemma_pow_positive(n, n as nat);
    lemma_pow_positive(n + 1, (n + 1) as nat);
    reveal(pow);
    if d == n {
        assert(pow(q, 0) == 1 && pow(p, 0) == 1);
    } else if d > n {
        let e = above(d - 1, n);
        assert(above(d, n) == e + 1);
        assert(above(n, d) == 0 && above(n, d - 1) == 0);
        assert(pow(q, 0) == 1 && pow(p, 0) == 1);
        lemma_tangent(n, d - 1);
        lemma_steps_above(n, d - 1);
        let qe = pow(q, e);
        let pe = pow(p, e);
        lemma_pow_positive(q, e);
        lemma_pow_positive(p, e);
        let s = self_power(d);
        let t = self_power(d - 1);
        assert(pow(q, e + 1) == q * qe);
        assert(pow(p, e + 1) == p * pe);
        assert(s * (q * qe) >= q * (p * pe)) by (nonlinear_arith)
            requires
                t * qe >= q * pe,
                s * q >= p * t,
                qe > 0,
                p > 0,
        {
            assert((s * q) * qe >= (p * t) * qe);
            assert(p * (t * qe) >= p * (q * pe));
        }
        assert(s * (q * qe) * 1 >= q * (p * pe) * 1);
    } else {
        let e = above(n, d + 1);
        assert(above(n, d) == e + 1);
        assert(above(d, n) == 0 && above(d + 1, n) == 0);
        assert(pow(q, 0) == 1 && pow(p, 0) == 1);
        lemma_tangent(n, d + 1);
        lemma_steps_below(n, d);
        let qe = pow(q, e);
        let pe = pow(p, e);
        lemma_pow_positive(q, e);
        lemma_pow_positive(p, e);
        let s = self_power(d);
        let t = self_power(d + 1);
        assert(pow(q, e + 1) == q * qe);
        assert(pow(p, e + 1) == p * pe);
        assert(s * (p * pe) >= q * (q * qe)) by (nonlinear_arith)
            requires
                t * pe >= q * qe,
                t * q <= p * s,
                pe > 0,
                q > 0,
        {
            assert((p * s) * pe >= (t * q) * pe);
            assert(q * (t * pe) >= q * (q * qe));
        }
        assert(s * 1 * (p * pe) >= q * 1 * (q * qe));
    }
}

/// The product of the self-powers of the counts, each count made `k` times
/// as large.
spec fn scaled_product(pairs: Seq<(u64, u64)>, k: int) -> int
    decreases pairs.len(),
{
    if pairs.len() == 0 {
        1
    } else {
        scaled_product(pairs.drop_last(), k) * self_power(k * pairs.last().1)
    }
}

/// By how much the scaled counts that lie above `n` do so, in all.
spec fn excess(pairs: Seq<(u64, u64)>, k: int, n: int) -> nat
    decreases pairs.len(),
{
    if pairs.len() == 0 {
        0
    } else {
        excess(pairs.drop_last(), k, n) + above(k * pairs.last().1, n)
    }
}

/// By how much the scaled counts that lie below `n` do so, in all.
spec fn deficit(pairs: Seq<(u64, u64)>, k: int, n: int) -> nat
    decreases pairs.len(),
{
    if pairs.len() == 0 {
        0
    } else {
        deficit(pairs.drop_last(), k, n) + above(n, k * pairs.last().1)
    }
}

/// Excess and deficit differ by the distance of the scaled total from
/// `n` times the number of counts.
proof fn lemma_balance(pairs: Seq<(u64, u64)>, k: int, n: int)
    ensures
        excess(pairs, k, n) - deficit(pairs, k, n) == k * sum_of_counts(pairs) - n * pairs.len(),
    decreases pairs.len(),
{
    if pairs.len() > 0 {
        let shorter = pairs.drop_last();
        let c = pairs.last().1 as int;
        lemma_balance(shorter, k, n);
        let total = sum_of_counts(shorter) as int;
        let len = shorter.len() as int;
        assert(k * (total + c) - n * (len + 1) == (k * total - n * len) + (k * c - n))
            by (nonlinear_arith);
        assert(above(k * c, n) - above(n, k * c) == k * c - n);
        assert(sum_of_counts(pairs) == total + c);
        assert(pairs.len() == len + 1);
    } else {
        assert(k * 0 == 0 && n * 0 == 0);
    }
}

/// The tangent bounds of all scaled counts, multiplied together.
proof fn lemma_tangents(pairs: Seq<(u64, u64)>, k: int, n: int)
    requires
        k >= 1,
        n >= 1,
        forall|i: int| 0 <= i < pairs.len() ==> (#[trigger] pairs[i]).1 >= 1,
    ensures
        scaled_product(pairs, k) * pow(self_power(n), excess(pairs, k, n)) * pow(
            self_power(n + 1),
            deficit(pairs, k, n),
        ) >= pow(self_power(n), pairs.len()) * pow(self_power(n + 1), excess(pairs, k, n)) * pow(
            self_power(n),
            deficit(pairs, k, n),
        ),
    decreases pairs.len(),
{
    let q = self_power(n);
    let p = self_power(n + 1);
    lemma_pow_positive(n, n as nat);
    lemma_pow_positive(n + 1, (n + 1) as nat);
    if pairs.len() == 0 {
        reveal(pow);
    } else {
        let shorter = pairs.drop_last();
        let c = pairs.last().1 as int;
        assert(pairs[pairs.len() - 1].1 >= 1);
        assert forall|i: int| 0 <= i < shorter.len() implies (#[trigger] shorter[i]).1 >= 1 by {
            assert(shorter[i] == pairs[i]);
        }
        let d = k * c;
        assert(d >= 1) by (nonlinear_arith)
            requires
                d == k * c,
                k >= 1,
                c >= 1,
        ;
        lemma_tangents(shorter, k, n);
        lemma_tangent(n, d);
        let e0 = excess(shorter, k, n);
        let f0 = deficit(shorter, k, n);
        let u = above(d, n);
        let v = above(n, d);
        lemma_pow_adds(q, e0, u);
        lemma_pow_adds(p, f0, v);
        lemma_pow_adds(q, shorter.len(), 1);
        lemma_pow_adds(p, e0, u);
        lemma_pow_adds(q, f0, v);
        assert(pow(q, 1) == q) by {
            reveal_with_fuel(pow, 2);
        }
        lemma_pow_positive(q, shorter.len());
        lemma_pow_positive(p, e0);
        lemma_pow_positive(q, f0);
        lemma_pow_positive(p, u);
        lemma_pow_positive(q, v);
        let a1 = scaled_product(shorter, k);
        let a2 = pow(q, e0);
        let a3 = pow(p, f0);
        let b1 = pow(q, shorter.len());
        let b2 = pow(p, e0);
        let b3 = pow(q, f0);
        let s = self_power(d);
        let qu = pow(q, u);
        let pv = pow(p, v);
        let pu = pow(p, u);
        let qv = pow(q, v);
        let left0 = a1 * a2 * a3;
        let right0 = b1 * b2 * b3;
        let left1 = s * qu * pv;
        let right1 = q * pu * qv;
        assert(right0 > 0) by (nonlinear_arith)
            requires
                right0 == b1 * b2 * b3,
                b1 > 0,
                b2 > 0,
                b3 > 0,
        ;
        assert(right1 > 0) by (nonlinear_arith)
            requires
                right1 == q * pu * qv,
                q > 0,
                pu > 0,
                qv > 0,
        ;
        assert(left0 * left1 >= right0 * right1) by (nonlinear_arith)
            requires
                left0 >= right0,
                left1 >= right1,
                right0 > 0,
                right1 > 0,
        ;
        assert((a1 * s) * (a2 * qu) * (a3 * pv) == left0 * left1) by (nonlinear_arith)
            requires
                left0 == a1 * a2 * a3,
                left1 == s * qu * pv,
        ;
        assert((b1 * q) * (b2 * pu) * (b3 * qv) == right0 * right1) by (nonlinear_arith)
            requires
                right0 == b1 * b2 * b3,
                right1 == q * pu * qv,
        ;
    }
}

/// The scaled product is a `k`-th power: that of `k` to the sum of the
/// counts, times the product of their self-powers.
proof fn lemma_scaled_product(pairs: Seq<(u64, u64)>, k: int)
    requires
        k >= 1,
    ensures
        scaled_product(pairs, k) == pow(
            pow(k, sum_of_counts(pairs)) * product_of_self_powers(pairs),
            k as nat,
        ),
    decreases pairs.len(),
{
    if pairs.len() == 0 {
        reveal(pow);
        vstd::arithmetic::power::lemma1_pow(k as nat);
    } else {
        let shorter = pairs.drop_last();
        let c = pairs.last().1;
        lemma_scaled_product(shorter, k);
        let d = k * c;
        assert(d >= 0 && d == c * k) by (nonlinear_arith)
            requires
                d == k * c,
                k >= 1,
                c >= 0,
        ;
        // (kc)^(kc) = ((kc)^c)^k = (k^c * c^c)^k
        lemma_pow_multiplies(d, c as nat, k as nat);
        assert((c as nat) * (k as nat) == d as nat);
        lemma_pow_distributes(k, c as int, c as nat);
        let root0 = pow(k, sum_of_counts(shorter)) * product_of_self_powers(shorter);
        let root1 = pow(k, c as nat) * pow(c as int, c as nat);
        assert(self_power(d) == pow(root1, k as nat));
        lemma_pow_distributes(root0, root1, k as nat);
        lemma_pow_adds(k, sum_of_counts(shorter), c as nat);
        let k0 = pow(k, sum_of_counts(shorter));
        let r0 = product_of_self_powers(shorter);
        let k1 = pow(k, c as nat);
        let r1 = pow(c as int, c as nat);
        assert(root0 * root1 == (k0 * k1) * (r0 * r1)) by (nonlinear_arith)
            requires
                root0 == k0 * r0,
                root1 == k1 * r1,
        ;
    }
}

/// Raising to a positive power keeps the strict order of positive bases.
proof fn lemma_pow_base_strict(a: int, b: int, e: nat)
    requires
        0 < a < b,
        e >= 1,
    ensures
        0 < pow(a, e) < pow(b, e),
    decreases e,
{
    reveal(pow);
    if e == 1 {
        assert(pow(a, 0) == 1 && pow(b, 0) == 1);
    } else {
        lemma_pow_base_strict(a, b, (e - 1) as nat);
        let x = pow(a, (e - 1) as nat);
        let y = pow(b, (e - 1) as nat);
        assert(0 < a * x < b * y) by (nonlinear_arith)
            requires
                0 < a < b,
                0 < x < y,
        ;
    }
}

/// With `n` symbols recorded, `k` of them distinct, `n^n` is at most `k^n`
/// times the product of the self-powers of the counts. This is the upper
/// bound on the entropy, cleared of logarithms: the quotient of `n^n` and the
/// product, which is two to the power `n` times the entropy, is at most
/// `k^n`, two to the power `n` times the binary logarithm of `k`.
pub proof fn lemma_total_power_at_most_distinct_power_times_product(
    pairs: Seq<(u64, u64)>,
    m: Multiset<u64>,
)
    requires
        enumerates(pairs, m),
    ensures
        pow(m.len() as int, m.len()) <= pow(pairs.len() as int, m.len()) * product_of_self_powers(
            pairs,
        ),
{
    let k = pairs.len() as int;
    let n = m.len() as int;
    lemma_counts_are_shares(pairs, m);
    lemma_counts_sum_to_total(pairs, m);
    if k == 0 {
        reveal(pow);
    } else {
        assert(pairs[0].1 >= 1);
        assert(n >= 1);
        let q = self_power(n);
        let p = self_power(n + 1);
        lemma_tangents(pairs, k, n);
        lemma_balance(pairs, k, n);
        lemma_scaled_product(pairs, k);
        let e = excess(pairs, k, n);
        assert(k * n - n * k == 0) by (nonlinear_arith);
        assert(deficit(pairs, k, n) == e);
        lemma_pow_positive(n, n as nat);
        lemma_pow_positive(n + 1, (n + 1) as nat);
        lemma_pow_positive(q, e);
        lemma_pow_positive(p, e);
        let qe = pow(q, e);
        let pe = pow(p, e);
        let whole = scaled_product(pairs, k);
        let floor = pow(q, k as nat);
        assert(whole * (qe * pe) >= floor * (qe * pe)) by (nonlinear_arith)
            requires
                whole * qe * pe >= floor * pe * qe,
        ;
        assert(qe * pe > 0) by (nonlinear_arith)
            requires
                qe > 0,
                pe > 0,
        ;
        lemma_cancel(whole, floor, qe * pe);
        let root = pow(k, n as nat) * product_of_self_powers(pairs);
        assert(pow(root, k as nat) >= pow(q, k as nat));
        if root < q {
            crate::laws::lemma_product_at_most_total_power(pairs, m);
            lemma_pow_positive(k, n as nat);
            assert(root > 0) by (nonlinear_arith)
                requires
                    root == pow(k, n as nat) * product_of_self_powers(pairs),
                    pow(k, n as nat) > 0,
                    product_of_self_powers(pairs) > 0,
            ;
            lemma_pow_base_strict(root, q, k as nat);
        }
    }
}

} // verus!
