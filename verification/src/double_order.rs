//! Operations on doubles keep the order of their operands.
use crate::binary64::{decoded, from_int, half_even, has_exponent, law_nearest_is_normalized, lemma_below_stays_below, lemma_nearest, lemma_next_unit, nearest, over, plus, scaled_den, scaled_num, times, Double, FINITE_LIMIT, MANT_LIMIT, MANT_MIN};
use vstd::arithmetic::power2::{lemma2_to64, lemma_pow2_adds, lemma_pow2_pos, lemma_pow2_unfold, pow2};
use vstd::prelude::*;

verus! {

/// One double is no greater than another, both being normalized.
pub open spec fn no_greater(a: Double, b: Double) -> bool {
    ||| a.mant == 0
    ||| b.mant > 0 && (a.exp < b.exp || (a.exp == b.exp && a.mant <= b.mant))
}

/// Rounding to an integer keeps the order of quotients.
proof fn lemma_half_even_monotone(p1: int, q1: int, p2: int, q2: int)
    requires
        q1 > 0,
        q2 > 0,
        p1 >= 0,
        p2 >= 0,
        p1 * q2 <= p2 * q1,
    ensures
        half_even(p1, q1) <= half_even(p2, q2),
{
    let (l1, r1) = (p1 / q1, p1 % q1);
    let (l2, r2) = (p2 / q2, p2 % q2);
    let (h1, h2) = (half_even(p1, q1), half_even(p2, q2));
    assert(p1 == l1 * q1 + r1 && 0 <= r1 < q1) by (nonlinear_arith)
        requires
            q1 > 0,
            l1 == p1 / q1,
            r1 == p1 % q1,
    ;
    assert(p2 == l2 * q2 + r2 && 0 <= r2 < q2) by (nonlinear_arith)
        requires
            q2 > 0,
            l2 == p2 / q2,
            r2 == p2 % q2,
    ;
    if h1 > h2 {
        // Twice the first quotient is at least `2 * h1 - 1`, with equality only at a tie that
        // made `h1` even; twice the second is at most `2 * h2 + 1`, likewise.
        assert(2 * p1 >= (2 * h1 - 1) * q1 && (2 * p1 == (2 * h1 - 1) * q1 ==> h1 % 2 == 0)) by {
            assert((2 * h1 - 1) * q1 == 2 * (h1 * q1) - q1) by (nonlinear_arith);
            if h1 == l1 {
                assert(h1 * q1 == l1 * q1);
            } else {
                assert(h1 * q1 == l1 * q1 + q1) by (nonlinear_arith)
                    requires
                        h1 == l1 + 1,
                ;
            }
        }
        assert(2 * p2 <= (2 * h2 + 1) * q2 && (2 * p2 == (2 * h2 + 1) * q2 ==> h2 % 2 == 0)) by {
            assert((2 * h2 + 1) * q2 == 2 * (h2 * q2) + q2) by (nonlinear_arith);
            if h2 == l2 {
                assert(h2 * q2 == l2 * q2);
            } else {
                assert(h2 * q2 == l2 * q2 + q2) by (nonlinear_arith)
                    requires
                        h2 == l2 + 1,
                ;
            }
        }
        let (x, y) = (2 * h1 - 1, 2 * h2 + 1);
        assert(x >= y);
        assert((2 * p1) * q2 >= (x * q1) * q2) by (nonlinear_arith)
            requires
                2 * p1 >= x * q1,
                q2 > 0,
        ;
        assert((2 * p2) * q1 <= (y * q2) * q1) by (nonlinear_arith)
            requires
                2 * p2 <= y * q2,
                q1 > 0,
        ;
        assert((x * q1) * q2 >= (y * q2) * q1) by (nonlinear_arith)
            requires
                x >= y,
                q1 > 0,
                q2 > 0,
        ;
        assert((2 * p1) * q2 == 2 * (p1 * q2) && (2 * p2) * q1 == 2 * (p2 * q1))
            by (nonlinear_arith);
        // So all of these are equal.
        assert(2 * p1 == x * q1) by (nonlinear_arith)
            requires
                (2 * p1) * q2 == (x * q1) * q2,
                q2 > 0,
        ;
        assert(2 * p2 == y * q2) by (nonlinear_arith)
            requires
                (2 * p2) * q1 == (y * q2) * q1,
                q1 > 0,
        ;
        assert(x == y) by (nonlinear_arith)
            requires
                (x * q1) * q2 == (y * q2) * q1,
                x >= y,
                q1 > 0,
                q2 > 0,
        ;
        assert(h1 == h2 + 1);
        assert(h1 % 2 == 0 && h2 % 2 == 0);
    }
}

proof fn lemma_scaled_positive(n: int, d: int, e: int)
    requires
        n >= 0,
        d > 0,
    ensures
        scaled_num(n, e) >= 0,
        n > 0 ==> scaled_num(n, e) > 0,
        scaled_den(d, e) > 0,
{
    if e >= 0 {
        lemma_pow2_pos(e as nat);
        let w = pow2(e as nat) as int;
        assert(d * w > 0) by (nonlinear_arith)
            requires
                d > 0,
                w > 0,
        ;
    } else {
        lemma_pow2_pos((-e) as nat);
        let w = pow2((-e) as nat) as int;
        assert(n * w >= 0 && (n > 0 ==> n * w > 0)) by (nonlinear_arith)
            requires
                n >= 0,
                w > 0,
        ;
    }
}

/// Scaling keeps the order of quotients.
proof fn lemma_scaled_ordered(n1: int, d1: int, n2: int, d2: int, e: int)
    requires
        n1 * d2 <= n2 * d1,
    ensures
        scaled_num(n1, e) * scaled_den(d2, e) <= scaled_num(n2, e) * scaled_den(d1, e),
{
    if e >= 0 {
        lemma_pow2_pos(e as nat);
        let w = pow2(e as nat) as int;
        assert(n1 * (d2 * w) <= n2 * (d1 * w)) by (nonlinear_arith)
            requires
                n1 * d2 <= n2 * d1,
                w > 0,
        ;
    } else {
        lemma_pow2_pos((-e) as nat);
        let w = pow2((-e) as nat) as int;
        assert((n1 * w) * d2 <= (n2 * w) * d1) by (nonlinear_arith)
            requires
                n1 * d2 <= n2 * d1,
                w > 0,
        ;
    }
}

proof fn lemma_exponents_ordered(n1: int, d1: int, n2: int, d2: int, e1: int, e2: int)
    requires
        n1 > 0,
        n2 > 0,
        d1 > 0,
        d2 > 0,
        n1 * d2 <= n2 * d1,
        has_exponent(n1, d1, e1),
        has_exponent(n2, d2, e2),
    ensures
        e1 <= e2,
{
    if e2 < e1 {
        lemma_below_stays_below(n2, d2, e2, e1);
        lemma_scaled_ordered(n1, d1, n2, d2, e1);
        lemma_scaled_positive(n1, d1, e1);
        lemma_scaled_positive(n2, d2, e1);
        let (p1, q1) = (scaled_num(n1, e1), scaled_den(d1, e1));
        let (p2, q2) = (scaled_num(n2, e1), scaled_den(d2, e1));
        let m = MANT_MIN as int;
        assert(p1 * q2 >= (m * q1) * q2) by (nonlinear_arith)
            requires
                p1 >= m * q1,
                q2 > 0,
        ;
        assert(p2 * q1 < (m * q2) * q1) by (nonlinear_arith)
            requires
                p2 < m * q2,
                q1 > 0,
        ;
        assert((m * q1) * q2 == (m * q2) * q1) by (nonlinear_arith);
    }
}

/// The double nearest to a quotient is no greater than the one nearest to a greater quotient.
pub proof fn law_nearest_is_monotone(n1: int, d1: int, n2: int, d2: int)
    requires
        n1 >= 0,
        n2 >= 0,
        d1 > 0,
        d2 > 0,
        n1 * d2 <= n2 * d1,
    ensures
        no_greater(nearest(n1, d1), nearest(n2, d2)),
{
    if n1 > 0 {
        assert(n2 > 0) by (nonlinear_arith)
            requires
                n1 * d2 <= n2 * d1,
                n1 > 0,
                d1 > 0,
                d2 > 0,
                n2 >= 0,
        ;
        law_nearest_is_normalized(n1, d1);
        law_nearest_is_normalized(n2, d2);
        let e1 = choose|e: int| has_exponent(n1, d1, e);
        let e2 = choose|e: int| has_exponent(n2, d2, e);
        lemma_nearest(n1, d1, e1);
        lemma_nearest(n2, d2, e2);
        lemma_exponents_ordered(n1, d1, n2, d2, e1, e2);
        if e1 == e2 {
            lemma_scaled_ordered(n1, d1, n2, d2, e1);
            lemma_scaled_positive(n1, d1, e1);
            lemma_scaled_positive(n2, d2, e1);
            lemma_half_even_monotone(
                scaled_num(n1, e1),
                scaled_den(d1, e1),
                scaled_num(n2, e1),
                scaled_den(d2, e1),
            );
        }
    }
}

/// Twice a quotient has the same significand.
proof fn lemma_nearest_doubled(n: int, d: int)
    requires
        n >= 0,
        d > 0,
    ensures
        nearest(2 * n, d) == nearest(n, d).shifted(1),
{
    if n > 0 {
        law_nearest_is_normalized(n, d);
        let e = choose|e: int| has_exponent(n, d, e);
        lemma_nearest(n, d, e);
        lemma_next_unit(n, d, e);
        lemma_scaled_positive(n, d, e);
        lemma_scaled_positive(2 * n, d, e + 1);
        let (p, q) = (scaled_num(n, e), scaled_den(d, e));
        let (p2, q2) = (scaled_num(2 * n, e + 1), scaled_den(d, e + 1));
        assert(p2 == 2 * scaled_num(n, e + 1)) by {
            if e + 1 < 0 {
                let w = pow2((-(e + 1)) as nat) as int;
                assert((2 * n) * w == 2 * (n * w)) by (nonlinear_arith);
            }
        }
        assert(p2 * q == p * q2) by {
            if e >= 0 {
                assert(p2 == 2 * p && q2 == 2 * q);
                assert((2 * p) * q == p * (2 * q)) by (nonlinear_arith);
            } else {
                assert(p2 == p && q2 == q);
            }
        }
        let (lo, hi) = (MANT_MIN as int, MANT_LIMIT as int);
        assert(lo * q2 <= p2 < hi * q2) by {
            if e >= 0 {
                assert(lo * (2 * q) == 2 * (lo * q) && hi * (2 * q) == 2 * (hi * q))
                    by (nonlinear_arith);
            }
        }
        assert(has_exponent(2 * n, d, e + 1));
        lemma_nearest(2 * n, d, e + 1);
        lemma_half_even_monotone(p, q, p2, q2);
        lemma_half_even_monotone(p2, q2, p, q);
    }
}

/// A quotient times a power of two has the same significand.
proof fn lemma_nearest_shifted(n: int, d: int, k: nat)
    requires
        n >= 0,
        d > 0,
    ensures
        n * pow2(k) >= 0,
        nearest(n * pow2(k), d) == nearest(n, d).shifted(k as int),
    decreases k,
{
    lemma_pow2_pos(k);
    let w = pow2(k) as int;
    assert(n * w >= 0) by (nonlinear_arith)
        requires
            n >= 0,
            w > 0,
    ;
    if k == 0 {
        lemma2_to64();
        assert(n * w == n) by (nonlinear_arith)
            requires
                w == 1,
        ;
        if n > 0 {
            law_nearest_is_normalized(n, d);
        }
    } else {
        let j = (k - 1) as nat;
        let v = pow2(j) as int;
        lemma_nearest_shifted(n, d, j);
        lemma_pow2_unfold(k);
        lemma_nearest_doubled(n * v, d);
        assert(2 * (n * v) == n * w) by (nonlinear_arith)
            requires
                w == 2 * v,
        ;
    }
}

/// Shifting by the same power keeps the order.
proof fn lemma_shifted_ordered(a: Double, b: Double, by: int)
    requires
        no_greater(a, b),
    ensures
        no_greater(a.shifted(by), b.shifted(by)),
{
}

/// A double that is no greater, and that is a normalized one, has a significand that is no
/// greater when both are brought to the smaller exponent.
proof fn lemma_aligned(a: Double, b: Double)
    requires
        no_greater(a, b),
        a.normalized(),
        b.normalized(),
        a.mant > 0,
    ensures
        a.exp <= b.exp,
        a.mant <= b.mant * pow2((b.exp - a.exp) as nat),
{
    let k = (b.exp - a.exp) as nat;
    let w = pow2(k) as int;
    let m = b.mant;
    if k == 0 {
        lemma2_to64();
        assert(m * w == m) by (nonlinear_arith)
            requires
                w == 1,
        ;
    } else {
        lemma_pow2_unfold(k);
        lemma_pow2_pos((k - 1) as nat);
        assert(m * w >= 2 * m) by (nonlinear_arith)
            requires
                w >= 2,
                m > 0,
        ;
    }
}

/// The order of two doubles is the order of their significands at a common exponent.
proof fn lemma_aligned_at(a: Double, b: Double, s: int)
    requires
        no_greater(a, b),
        a.normalized(),
        b.normalized(),
        s <= a.exp,
        s <= b.exp,
    ensures
        0 <= a.mant * pow2((a.exp - s) as nat) <= b.mant * pow2((b.exp - s) as nat),
{
    let u = pow2((a.exp - s) as nat) as int;
    let v = pow2((b.exp - s) as nat) as int;
    lemma_pow2_pos((a.exp - s) as nat);
    lemma_pow2_pos((b.exp - s) as nat);
    let (m, n) = (a.mant, b.mant);
    if m == 0 {
        assert(0 * u == 0 && n * v >= 0) by (nonlinear_arith)
            requires
                n >= 0,
                v > 0,
        ;
    } else {
        lemma_aligned(a, b);
        let w = pow2((b.exp - a.exp) as nat) as int;
        lemma_pow2_adds((b.exp - a.exp) as nat, (a.exp - s) as nat);
        assert(0 <= m * u <= n * v) by (nonlinear_arith)
            requires
                0 < m <= n * w,
                v == w * u,
                u > 0,
        ;
    }
}

/// A quotient of doubles grows with its numerator.
pub proof fn law_over_is_monotone(a: Double, b: Double, c: Double)
    requires
        no_greater(a, b),
        a.normalized(),
        b.normalized(),
        c.mant > 0,
    ensures
        no_greater(over(a, c), over(b, c)),
{
    if a.mant > 0 {
        lemma_aligned(a, b);
        let k = (b.exp - a.exp) as nat;
        let w = pow2(k) as int;
        let (m, n, d) = (a.mant, b.mant, c.mant);
        lemma_nearest_shifted(n, d, k);
        assert(m * d <= (n * w) * d) by (nonlinear_arith)
            requires
                m <= n * w,
                d > 0,
        ;
        law_nearest_is_monotone(m, d, n * w, d);
        lemma_shifted_ordered(nearest(m, d), nearest(n * w, d), a.exp - c.exp);
    }
}

/// A product of doubles grows with its first factor.
pub proof fn law_times_is_monotone(a: Double, b: Double, c: Double)
    requires
        no_greater(a, b),
        a.normalized(),
        b.normalized(),
        c.normalized(),
    ensures
        no_greater(times(a, c), times(b, c)),
        no_greater(times(c, a), times(c, b)),
{
    let (m, n, d) = (a.mant, b.mant, c.mant);
    assert(m * d == d * m && n * d == d * n) by (nonlinear_arith);
    if m == 0 || d == 0 {
        assert(m * d == 0) by (nonlinear_arith)
            requires
                m == 0 || d == 0,
        ;
    } else {
        lemma_aligned(a, b);
        let k = (b.exp - a.exp) as nat;
        let w = pow2(k) as int;
        assert(m * d >= 0 && n * d >= 0) by (nonlinear_arith)
            requires
                m >= 0,
                n >= 0,
                d >= 0,
        ;
        lemma_nearest_shifted(n * d, 1, k);
        assert(m * d <= (n * d) * w) by (nonlinear_arith)
            requires
                m <= n * w,
                d > 0,
        ;
        law_nearest_is_monotone(m * d, 1, (n * d) * w, 1);
        lemma_shifted_ordered(nearest(m * d, 1), nearest((n * d) * w, 1), a.exp + c.exp);
    }
}

/// A significand is its own nearest double.
proof fn lemma_nearest_exact(m: int)
    requires
        MANT_MIN <= m < MANT_LIMIT,
    ensures
        nearest(m, 1) == (Double { mant: m, exp: 0 }),
{
    lemma2_to64();
    assert(has_exponent(m, 1, 0));
    lemma_nearest(m, 1, 0);
    assert(m / 1 == m && m % 1 == 0);
}

/// A sum of doubles is the exact sum of their significands at a common exponent, rounded.
proof fn lemma_plus_at(a: Double, b: Double, s: int)
    requires
        a.normalized(),
        b.normalized(),
        a.mant > 0,
        s <= a.exp,
        s <= b.exp,
    ensures
        plus(a, b) == nearest(
            a.mant * pow2((a.exp - s) as nat) + b.mant * pow2((b.exp - s) as nat),
            1,
        ).shifted(s),
{
    let u = pow2((a.exp - s) as nat) as int;
    let v = pow2((b.exp - s) as nat) as int;
    let (m, n) = (a.mant, b.mant);
    if n == 0 {
        assert(0 * v == 0) by (nonlinear_arith);
        lemma_nearest_shifted(m, 1, (a.exp - s) as nat);
        lemma_nearest_exact(m);
    } else {
        let low = if a.exp >= b.exp {
            b.exp
        } else {
            a.exp
        };
        let k = (low - s) as nat;
        let w = pow2(k) as int;
        let exact = if a.exp >= b.exp {
            m * pow2((a.exp - b.exp) as nat) + n
        } else {
            m + n * pow2((b.exp - a.exp) as nat)
        };
        assert(exact >= 0 && exact * w == m * u + n * v) by {
            if a.exp >= b.exp {
                let g = pow2((a.exp - b.exp) as nat) as int;
                lemma_pow2_adds((a.exp - b.exp) as nat, k);
                lemma_pow2_pos((a.exp - b.exp) as nat);
                assert(m * g + n >= 0 && (m * g + n) * w == m * u + n * v) by (nonlinear_arith)
                    requires
                        u == g * w,
                        v == w,
                        m >= 0,
                        n >= 0,
                        g >= 0,
                ;
            } else {
                let g = pow2((b.exp - a.exp) as nat) as int;
                lemma_pow2_adds((b.exp - a.exp) as nat, k);
                lemma_pow2_pos((b.exp - a.exp) as nat);
                assert(m + n * g >= 0 && (m + n * g) * w == m * u + n * v) by (nonlinear_arith)
                    requires
                        v == g * w,
                        u == w,
                        m >= 0,
                        n >= 0,
                        g >= 0,
                ;
            }
        }
        lemma_nearest_shifted(exact, 1, k);
    }
}

/// A sum of doubles grows with its second term.
pub proof fn law_plus_is_monotone(a: Double, b: Double, c: Double)
    requires
        no_greater(b, c),
        a.normalized(),
        b.normalized(),
        c.normalized(),
    ensures
        no_greater(plus(a, b), plus(a, c)),
{
    if a.mant > 0 {
        let s = if a.exp <= b.exp && a.exp <= c.exp {
            a.exp
        } else if b.exp <= c.exp {
            b.exp
        } else {
            c.exp
        };
        lemma_plus_at(a, b, s);
        lemma_plus_at(a, c, s);
        lemma_aligned_at(b, c, s);
        let m = a.mant;
        let u = pow2((a.exp - s) as nat) as int;
        lemma_pow2_pos((a.exp - s) as nat);
        assert(m * u >= 0) by (nonlinear_arith)
            requires
                m >= 0,
                u > 0,
        ;
        let p = m * u + b.mant * pow2((b.exp - s) as nat);
        let q = m * u + c.mant * pow2((c.exp - s) as nat);
        law_nearest_is_monotone(p, 1, q, 1);
        lemma_shifted_ordered(nearest(p, 1), nearest(q, 1), s);
    }
}

/// The integers next to a double, in terms of its significand at an exponent `s` of at most zero.
proof fn lemma_rounded_at(x: Double, s: int)
    requires
        x.mant >= 0,
        s <= x.exp,
        s <= 0,
    ensures
        ({
            let n = x.mant * pow2((x.exp - s) as nat);
            let d = pow2((-s) as nat) as int;
            &&& d > 0
            &&& x.floor() * d <= n < (x.floor() + 1) * d
            &&& (x.ceil() - 1) * d < n <= x.ceil() * d
            &&& (2 * x.round() - 1) * d <= 2 * n < (2 * x.round() + 1) * d
        }),
{
    let m = x.mant;
    let n = m * pow2((x.exp - s) as nat);
    let d = pow2((-s) as nat) as int;
    lemma_pow2_pos((-s) as nat);
    if x.exp >= 0 {
        let u = pow2(x.exp as nat) as int;
        lemma_pow2_adds(x.exp as nat, (-s) as nat);
        let f = m * u;
        assert(m * (u * d) == f * d) by (nonlinear_arith)
            requires
                f == m * u,
        ;
        assert((f + 1) * d == f * d + d && (f - 1) * d == f * d - d) by (nonlinear_arith);
        assert((2 * f - 1) * d == 2 * (f * d) - d && (2 * f + 1) * d == 2 * (f * d) + d)
            by (nonlinear_arith);
    } else {
        let unit = pow2((-x.exp) as nat) as int;
        let g = pow2((x.exp - s) as nat) as int;
        lemma_pow2_pos((-x.exp) as nat);
        lemma_pow2_pos((x.exp - s) as nat);
        lemma_pow2_adds((-x.exp) as nat, (x.exp - s) as nat);
        let (f, c, r) = (x.floor(), x.ceil(), x.round());
        let (q, rest) = (m / unit, m % unit);
        assert(m == q * unit + rest && 0 <= rest < unit) by (nonlinear_arith)
            requires
                unit > 0,
                q == m / unit,
                rest == m % unit,
        ;
        assert(f * d <= m * g < (f + 1) * d) by (nonlinear_arith)
            requires
                f == q,
                m == q * unit + rest,
                0 <= rest < unit,
                d == unit * g,
                g > 0,
        ;
        if rest == 0 {
            assert((c - 1) * d < m * g <= c * d) by (nonlinear_arith)
                requires
                    c == q,
                    m == q * unit,
                    d == unit * g,
                    d > 0,
            ;
        } else {
            assert((c - 1) * d < m * g <= c * d) by (nonlinear_arith)
                requires
                    c == q + 1,
                    m == q * unit + rest,
                    0 < rest < unit,
                    d == unit * g,
                    g > 0,
            ;
        }
        if 2 * rest < unit {
            assert((2 * r - 1) * d <= 2 * (m * g) < (2 * r + 1) * d) by (nonlinear_arith)
                requires
                    r == q,
                    m == q * unit + rest,
                    0 <= 2 * rest < unit,
                    d == unit * g,
                    g > 0,
            ;
        } else {
            assert((2 * r - 1) * d <= 2 * (m * g) < (2 * r + 1) * d) by (nonlinear_arith)
                requires
                    r == q + 1,
                    m == q * unit + rest,
                    rest < unit <= 2 * rest,
                    d == unit * g,
                    g > 0,
            ;
        }
    }
}

/// Turning a double into an integer keeps the order, whichever way it is rounded.
pub proof fn law_rounding_is_monotone(a: Double, b: Double)
    requires
        no_greater(a, b),
        a.normalized(),
        b.normalized(),
    ensures
        a.floor() <= b.floor(),
        a.ceil() <= b.ceil(),
        a.round() <= b.round(),
{
    let low = if a.exp <= b.exp {
        a.exp
    } else {
        b.exp
    };
    let s = if low <= 0 {
        low
    } else {
        0
    };
    lemma_rounded_at(a, s);
    lemma_rounded_at(b, s);
    lemma_aligned_at(a, b, s);
    let d = pow2((-s) as nat) as int;
    let p = a.mant * pow2((a.exp - s) as nat);
    let q = b.mant * pow2((b.exp - s) as nat);
    let (f1, c1, r1) = (a.floor(), a.ceil(), a.round());
    let (f2, c2, r2) = (b.floor(), b.ceil(), b.round());
    assert(f1 <= f2) by (nonlinear_arith)
        requires
            f1 * d <= p <= q < (f2 + 1) * d,
            d > 0,
    ;
    assert(c1 <= c2) by (nonlinear_arith)
        requires
            (c1 - 1) * d < p <= q <= c2 * d,
            d > 0,
    ;
    assert(r1 <= r2) by (nonlinear_arith)
        requires
            (2 * r1 - 1) * d <= 2 * p <= 2 * q < (2 * r2 + 1) * d,
            d > 0,
    ;
}

/// What the operations give is normalized.
pub proof fn law_results_are_normalized(a: Double, b: Double)
    requires
        a.normalized(),
        b.normalized(),
    ensures
        times(a, b).normalized(),
        b.mant > 0 ==> over(a, b).normalized(),
        plus(a, b).normalized(),
{
    let (m, n) = (a.mant, b.mant);
    assert(m * n >= 0) by (nonlinear_arith)
        requires
            m >= 0,
            n >= 0,
    ;
    if m * n > 0 {
        law_nearest_is_normalized(m * n, 1);
    }
    if m > 0 && n > 0 {
        law_nearest_is_normalized(m, n);
        let s = if a.exp <= b.exp {
            a.exp
        } else {
            b.exp
        };
        lemma_plus_at(a, b, s);
        let u = pow2((a.exp - s) as nat) as int;
        let v = pow2((b.exp - s) as nat) as int;
        lemma_pow2_pos((a.exp - s) as nat);
        lemma_pow2_pos((b.exp - s) as nat);
        assert(m * u + n * v > 0) by (nonlinear_arith)
            requires
                m > 0,
                n > 0,
                u > 0,
                v > 0,
        ;
        law_nearest_is_normalized(m * u + n * v, 1);
    }
}

/// Converting a number to a double keeps the order.
pub proof fn law_conversion_is_monotone(m: int, n: int)
    requires
        0 <= m <= n,
    ensures
        no_greater(from_int(m), from_int(n)),
        from_int(m).normalized(),
        from_int(n).normalized(),
        n > 0 ==> from_int(n).mant > 0,
{
    law_nearest_is_monotone(m, 1, n, 1);
    if m > 0 {
        law_nearest_is_normalized(m, 1);
    }
    if n > 0 {
        law_nearest_is_normalized(n, 1);
    }
}

/// A bit pattern of a finite number that is not negative stands for a normalized double.
pub proof fn law_decoded_is_normalized(bits: u64)
    requires
        bits < FINITE_LIMIT,
    ensures
        decoded(bits).normalized(),
        bits > 0 ==> decoded(bits).mant > 0,
{
    if bits < MANT_MIN {
        law_conversion_is_monotone(0, bits as int);
    }
}

} // verus!
