//! What doubles stand for, and how near the results of operations on them come to the exact
//! ones.
use crate::binary64::{decoded, from_int, half_even, has_exponent, law_nearest_is_normalized, lemma_nearest, nearest, over, plus, saturated, scaled_den, scaled_num, times, Double, MANT_LIMIT, MANT_MIN};
use vstd::arithmetic::power2::{lemma2_to64, lemma2_to64_rest, lemma_pow2_pos, lemma_pow2_unfold, pow2};
use vstd::prelude::*;

verus! {

/// Two to a power that may be negative.
pub open spec fn two_to(e: int) -> real {
    if e >= 0 {
        pow2(e as nat) as real
    } else {
        1real / (pow2((-e) as nat) as real)
    }
}

/// The number that a double stands for.
pub open spec fn value(x: Double) -> real {
    (x.mant as real) * two_to(x.exp)
}

/// Two numbers differ by at most a relative `2^-53`, half a unit of the last place of a double.
pub open spec fn within(x: real, y: real) -> bool {
    &&& 9007199254740992real * (x - y) <= y
    &&& 9007199254740992real * (y - x) <= y
}

/// Taking integers as reals keeps products.
pub proof fn lemma_real_product(a: int, b: int)
    ensures
        (a * b) as real == (a as real) * (b as real),
{
    assert((a * b) as real == (a as real) * (b as real)) by (nonlinear_arith);
}

pub proof fn lemma_two_to_positive(e: int)
    ensures
        two_to(e) > 0real,
{
    if e >= 0 {
        lemma_pow2_pos(e as nat);
    } else {
        lemma_pow2_pos((-e) as nat);
        let w = pow2((-e) as nat) as real;
        assert(1real / w > 0real) by (nonlinear_arith)
            requires
                w > 0real,
        ;
    }
}

pub proof fn lemma_two_to_zero()
    ensures
        two_to(0) == 1real,
{
    lemma2_to64();
}

pub proof fn lemma_two_to_next(e: int)
    ensures
        two_to(e + 1) == 2real * two_to(e),
{
    if e >= 0 {
        lemma_pow2_unfold((e + 1) as nat);
    } else {
        lemma_pow2_pos((-e) as nat);
        lemma_pow2_unfold((-e) as nat);
        let w = pow2((-e - 1) as nat) as real;
        lemma_pow2_pos((-e - 1) as nat);
        assert(1real / w == 2real * (1real / (2real * w))) by (nonlinear_arith)
            requires
                w > 0real,
        ;
        assert(-(e + 1) == -e - 1);
        if e == -1 {
            lemma2_to64();
            assert(1real / w == 1real) by (nonlinear_arith)
                requires
                    w == 1real,
            ;
        }
    }
}

pub proof fn lemma_two_to_adds(a: int, b: int)
    ensures
        two_to(a + b) == two_to(a) * two_to(b),
    decreases if b >= 0 {
        b
    } else {
        -b
    },
{
    let (x, y) = (two_to(a), two_to(b));
    if b == 0 {
        lemma2_to64();
        assert(x * 1real == x) by (nonlinear_arith);
    } else if b > 0 {
        lemma_two_to_adds(a, b - 1);
        lemma_two_to_next(a + b - 1);
        lemma_two_to_next(b - 1);
        let z = two_to(b - 1);
        assert(2real * (x * z) == x * (2real * z)) by (nonlinear_arith);
    } else {
        lemma_two_to_adds(a, b + 1);
        lemma_two_to_next(a + b);
        lemma_two_to_next(b);
        let s = two_to(a + b);
        assert(s == x * y) by (nonlinear_arith)
            requires
                2real * s == x * (2real * y),
        ;
    }
}

/// Shifting multiplies by a power of two.
pub proof fn lemma_value_shifted(x: Double, by: int)
    ensures
        value(x.shifted(by)) == value(x) * two_to(by),
{
    let m = x.mant as real;
    let (u, v) = (two_to(x.exp), two_to(by));
    if x.mant == 0 {
        let w = two_to(0);
        assert(0real * w == 0real && (0real * u) * v == 0real) by (nonlinear_arith);
    } else {
        lemma_two_to_adds(x.exp, by);
        assert(m * (u * v) == (m * u) * v) by (nonlinear_arith);
    }
}

proof fn lemma_scaled(n: int, d: int, e: int)
    requires
        d > 0,
    ensures
        scaled_den(d, e) > 0,
        (scaled_num(n, e) as real) / (scaled_den(d, e) as real) * two_to(e) == (n as real) / (
        d as real),
{
    let (x, y) = (n as real, d as real);
    if e >= 0 {
        lemma_pow2_pos(e as nat);
        let w = pow2(e as nat) as int;
        let v = w as real;
        assert(d * w > 0) by (nonlinear_arith)
            requires
                d > 0,
                w > 0,
        ;
        lemma_real_product(d, w);
        assert(x / (y * v) * v == x / y) by (nonlinear_arith)
            requires
                y > 0real,
                v > 0real,
        ;
    } else {
        lemma_pow2_pos((-e) as nat);
        let w = pow2((-e) as nat) as int;
        let v = w as real;
        lemma_real_product(n, w);
        assert((x * v) / y * (1real / v) == x / y) by (nonlinear_arith)
            requires
                y > 0real,
                v > 0real,
        ;
    }
}

/// The double nearest to a quotient differs from it by at most half a unit of its last place.
pub proof fn law_nearest_is_close(n: int, d: int)
    requires
        n >= 0,
        d > 0,
    ensures
        within(value(nearest(n, d)), (n as real) / (d as real)),
{
    let exact = (n as real) / (d as real);
    if n == 0 {
        let (y, t) = (d as real, two_to(0));
        assert(0real / y == 0real && 0real * t == 0real) by (nonlinear_arith)
            requires
                y > 0real,
        ;
    } else {
        law_nearest_is_normalized(n, d);
        let e = choose|e: int| has_exponent(n, d, e);
        lemma_nearest(n, d, e);
        let (p, q) = (scaled_num(n, e), scaled_den(d, e));
        lemma_scaled(n, d, e);
        let m = half_even(p, q);
        let (low, rest) = (p / q, p % q);
        assert(p == low * q + rest && 0 <= rest < q) by (nonlinear_arith)
            requires
                q > 0,
                low == p / q,
                rest == p % q,
        ;
        let u = 0x20_0000_0000_0000int;
        let off = m * q - p;
        assert(-p <= u * off <= p) by {
            assert(-q <= 2 * off <= q) by {
                if m == low {
                    assert(m * q == low * q);
                } else {
                    assert(m * q == low * q + q) by (nonlinear_arith)
                        requires
                            m == low + 1,
                    ;
                }
            }
            assert(2 * 0x10_0000_0000_0000 * off <= p && -p <= 2 * 0x10_0000_0000_0000 * off);
        }
        // The value is `m * 2^e` whether or not rounding carried into another binade.
        let t = two_to(e);
        lemma_two_to_positive(e);
        assert(value(nearest(n, d)) == (m as real) * t) by {
            if m == MANT_LIMIT {
                lemma_two_to_next(e);
                let half = MANT_MIN as real;
                assert(half * (2real * t) == (2real * half) * t) by (nonlinear_arith);
            }
        }
        let (pr, qr, mr) = (p as real, q as real, m as real);
        lemma_real_product(m, q);
        let f = pr / qr;
        let d = mr - f;
        assert(d * qr == off as real) by (nonlinear_arith)
            requires
                d == mr - f,
                f == pr / qr,
                qr > 0real,
                off as real == mr * qr - pr,
        ;
        assert(pr == f * qr) by (nonlinear_arith)
            requires
                f == pr / qr,
                qr > 0real,
        ;
        assert((9007199254740992real * d) * qr == 9007199254740992real * (d * qr)) by (nonlinear_arith);
        assert((-9007199254740992real * d) * qr == -9007199254740992real * (d * qr)) by (nonlinear_arith);
        lemma_at_most_unscaled(9007199254740992real * d, f, qr);
        lemma_at_most_unscaled(-9007199254740992real * d, f, qr);
        lemma_ordered_products(9007199254740992real * d, f, t);
        lemma_ordered_products(-9007199254740992real * d, f, t);
        assert(d * t == mr * t - f * t) by (nonlinear_arith)
            requires
                d == mr - f,
        ;
        assert((9007199254740992real * d) * t == 9007199254740992real * (d * t)) by (nonlinear_arith);
        assert((-9007199254740992real * d) * t == -9007199254740992real * (d * t)) by (nonlinear_arith);
    }
}

/// An order of products with a positive number is that of the other factors.
pub proof fn lemma_at_most_unscaled(a: real, b: real, c: real)
    requires
        a * c <= b * c,
        c > 0real,
    ensures
        a <= b,
{
    assert(a <= b) by (nonlinear_arith)
        requires
            a * c <= b * c,
            c > 0real,
    ;
}

/// A number of the machine stays as it is when it is converted, and what lies outside of its
/// range becomes the number at the end.
pub proof fn law_conversion_stops_at_the_ends(n: int)
    ensures
        0 <= n <= usize::MAX ==> saturated(n) == n,
        n < 0 ==> saturated(n) == 0,
        n > usize::MAX ==> saturated(n) == usize::MAX,
{
}

/// A quotient that a double can hold is held exactly.
pub proof fn law_representable_is_exact(n: int, d: int, k: int, e: int)
    requires
        n >= 0,
        d > 0,
        0 <= k < 0x20_0000_0000_0000,
        (n as real) / (d as real) == (k as real) * two_to(e),
    ensures
        value(nearest(n, d)) == (n as real) / (d as real),
{
    let exact = (n as real) / (d as real);
    if n == 0 {
        let (y, t) = (d as real, two_to(0));
        assert(0real / y == 0real && 0real * t == 0real) by (nonlinear_arith)
            requires
                y > 0real,
        ;
    } else {
        law_nearest_is_normalized(n, d);
        let f = choose|e: int| has_exponent(n, d, e);
        lemma_nearest(n, d, f);
        let (p, q) = (scaled_num(n, f), scaled_den(d, f));
        lemma_scaled(n, d, f);
        lemma_two_to_adds(e - f, f);
        lemma_two_to_positive(f);
        let (pr, qr, kr) = (p as real, q as real, k as real);
        let (t, u) = (two_to(f), two_to(e - f));
        assert(two_to(e) == u * t);
        let j = kr * u;
        assert(pr / qr == j) by (nonlinear_arith)
            requires
                pr / qr * t == kr * (u * t),
                j == kr * u,
                t > 0real,
        ;
        assert(pr == j * qr) by (nonlinear_arith)
            requires
                pr / qr == j,
                qr > 0real,
        ;
        lemma_real_product(0x10_0000_0000_0000, q);
        let half = 0x10_0000_0000_0000int as real;
        assert(half <= j) by (nonlinear_arith)
            requires
                half * qr <= pr,
                pr == j * qr,
                qr > 0real,
        ;
        if e < f {
            // Twice the significand would not fit.
            lemma_two_to_at_most(e - f, -1);
            lemma_two_to_next(-1);
            lemma2_to64();
            let h = two_to(-1);
            assert(2real * h == 1real);
            assert(2real * j <= kr) by (nonlinear_arith)
                requires
                    j == kr * u,
                    u <= h,
                    2real * h == 1real,
                    kr >= 0real,
            ;
        }
        let whole = k * pow2((e - f) as nat);
        lemma_real_product(k, pow2((e - f) as nat) as int);
        lemma_real_product(whole, q);
        assert(p == whole * q);
        assert(p / q == whole && p % q == 0) by (nonlinear_arith)
            requires
                p == whole * q,
                q > 0,
        ;
        assert(half_even(p, q) == whole);
        assert((whole as real) * t == exact);
        if whole == MANT_LIMIT {
            lemma_two_to_next(f);
            let low = MANT_MIN as real;
            assert(low * (2real * t) == (2real * low) * t) by (nonlinear_arith);
        }
    }
}

proof fn lemma_two_to_at_most(a: int, b: int)
    requires
        a <= b,
    ensures
        two_to(a) <= two_to(b),
    decreases b - a,
{
    if a < b {
        lemma_two_to_at_most(a, b - 1);
        lemma_two_to_next(b - 1);
        lemma_two_to_positive(b - 1);
    }
}

/// An integer of at most 53 bits becomes a double without loss; a larger one is rounded.
pub proof fn law_conversion_is_close(n: int)
    requires
        n >= 0,
    ensures
        within(value(from_int(n)), n as real),
        n < 0x20_0000_0000_0000 ==> value(from_int(n)) == n as real,
{
    let x = n as real;
    assert(x / 1real == x && x * 1real == x) by (nonlinear_arith);
    law_nearest_is_close(n, 1);
    if n < 0x20_0000_0000_0000 {
        lemma2_to64();
        law_representable_is_exact(n, 1, n, 0);
    }
}

/// A rounded product differs from the exact one by a relative `2^-53` at most, and not at all
/// where a double can hold it.
pub proof fn law_times_is_close(a: Double, b: Double, k: int, e: int)
    requires
        a.mant >= 0,
        b.mant >= 0,
    ensures
        within(value(times(a, b)), value(a) * value(b)),
        0 <= k < 0x20_0000_0000_0000 && value(a) * value(b) == (k as real) * two_to(e) ==> value(
            times(a, b),
        ) == value(a) * value(b),
{
    let n = a.mant * b.mant;
    assert(n >= 0) by (nonlinear_arith)
        requires
            n == a.mant * b.mant,
            a.mant >= 0,
            b.mant >= 0,
    ;
    law_nearest_is_close(n, 1);
    lemma_value_shifted(nearest(n, 1), a.exp + b.exp);
    lemma_two_to_adds(a.exp, b.exp);
    lemma_two_to_positive(a.exp + b.exp);
    lemma_real_product(a.mant, b.mant);
    let (x, y, s, t) = (a.mant as real, b.mant as real, two_to(a.exp), two_to(b.exp));
    let z = n as real;
    assert(z / 1real == z) by (nonlinear_arith);
    assert(z * (s * t) == (x * s) * (y * t)) by (nonlinear_arith)
        requires
            z == x * y,
    ;
    lemma_within_scaled(value(nearest(n, 1)), z, s * t);
    if 0 <= k < 0x20_0000_0000_0000 && value(a) * value(b) == (k as real) * two_to(e) {
        let by = a.exp + b.exp;
        lemma_exact_unscaled(z, two_to(by), k, e, by);
        law_representable_is_exact(n, 1, k, e - by);
    }
}

/// A rounded quotient differs from the exact one by a relative `2^-53` at most, and not at all
/// where a double can hold it.
pub proof fn law_over_is_close(a: Double, b: Double, k: int, e: int)
    requires
        a.mant >= 0,
        b.mant > 0,
    ensures
        within(value(over(a, b)), value(a) / value(b)),
        0 <= k < 0x20_0000_0000_0000 && value(a) / value(b) == (k as real) * two_to(e) ==> value(
            over(a, b),
        ) == value(a) / value(b),
{
    law_nearest_is_close(a.mant, b.mant);
    let by = a.exp - b.exp;
    lemma_value_shifted(nearest(a.mant, b.mant), by);
    lemma_two_to_adds(by, b.exp);
    lemma_two_to_positive(by);
    lemma_two_to_positive(b.exp);
    let (x, y, t, w) = (a.mant as real, b.mant as real, two_to(b.exp), two_to(by));
    assert(x / y * w == (x * (w * t)) / (y * t)) by (nonlinear_arith)
        requires
            y > 0real,
            t > 0real,
    ;
    lemma_within_scaled(value(nearest(a.mant, b.mant)), x / y, w);
    if 0 <= k < 0x20_0000_0000_0000 && value(a) / value(b) == (k as real) * two_to(e) {
        lemma_exact_unscaled(x / y, w, k, e, by);
        law_representable_is_exact(a.mant, b.mant, k, e - by);
    }
}

proof fn lemma_within_scaled(x: real, y: real, t: real)
    requires
        within(x, y),
        t > 0real,
    ensures
        within(x * t, y * t),
{
    let (d, e) = (9007199254740992real * (x - y), 9007199254740992real * (y - x));
    lemma_ordered_products(d, y, t);
    lemma_ordered_products(e, y, t);
    assert(d * t == 9007199254740992real * (x * t - y * t)) by (nonlinear_arith)
        requires
            d == 9007199254740992real * (x - y),
    ;
    assert(e * t == 9007199254740992real * (y * t - x * t)) by (nonlinear_arith)
        requires
            e == 9007199254740992real * (y - x),
    ;
}

/// Multiplying by a number that is not negative keeps an order.
pub proof fn lemma_ordered_products(a: real, b: real, c: real)
    requires
        a <= b,
        0real <= c,
    ensures
        a * c <= b * c,
        c * a <= c * b,
{
    assert(a * c <= b * c && c * a <= c * b) by (nonlinear_arith)
        requires
            a <= b,
            0real <= c,
    ;
}

proof fn lemma_exact_unscaled(x: real, w: real, k: int, e: int, by: int)
    requires
        w == two_to(by),
        x * w == (k as real) * two_to(e),
    ensures
        x == (k as real) * two_to(e - by),
{
    lemma_two_to_adds(e - by, by);
    lemma_two_to_positive(by);
    let (z, u) = (k as real, two_to(e - by));
    assert(x == z * u) by (nonlinear_arith)
        requires
            x * w == z * (u * w),
            w > 0real,
    ;
}

/// A rounded sum differs from the exact one by a relative `2^-53` at most.
pub proof fn law_plus_is_close(a: Double, b: Double)
    requires
        a.mant >= 0,
        b.mant >= 0,
    ensures
        within(value(plus(a, b)), value(a) + value(b)),
{
    let (x, y, s, t) = (a.mant as real, b.mant as real, two_to(a.exp), two_to(b.exp));
    lemma_two_to_positive(a.exp);
    lemma_two_to_positive(b.exp);
    assert(x * s >= 0real && y * t >= 0real) by (nonlinear_arith)
        requires
            x >= 0real,
            y >= 0real,
            s > 0real,
            t > 0real,
    ;
    if a.mant == 0 || b.mant == 0 {
        assert(a.mant == 0 ==> x * s == 0real) by (nonlinear_arith)
            requires
                a.mant == 0 ==> x == 0real,
        ;
        assert(b.mant == 0 ==> y * t == 0real) by (nonlinear_arith)
            requires
                b.mant == 0 ==> y == 0real,
        ;
    } else if a.exp >= b.exp {
        let w = pow2((a.exp - b.exp) as nat) as int;
        lemma_pow2_pos((a.exp - b.exp) as nat);
        lemma_two_to_adds(a.exp - b.exp, b.exp);
        lemma_real_product(a.mant, w);
        let v = w as real;
        let n = a.mant * w + b.mant;
        assert(n >= 0) by (nonlinear_arith)
            requires
                n == a.mant * w + b.mant,
                a.mant >= 0,
                b.mant >= 0,
                w > 0,
        ;
        let z = n as real;
        assert(z / 1real == z) by (nonlinear_arith);
        assert(z * t == x * (v * t) + y * t) by (nonlinear_arith)
            requires
                z == x * v + y,
        ;
        law_nearest_is_close(n, 1);
        lemma_value_shifted(nearest(n, 1), b.exp);
        lemma_within_scaled(value(nearest(n, 1)), z, t);
    } else {
        let w = pow2((b.exp - a.exp) as nat) as int;
        lemma_pow2_pos((b.exp - a.exp) as nat);
        lemma_two_to_adds(b.exp - a.exp, a.exp);
        lemma_real_product(b.mant, w);
        let v = w as real;
        let n = a.mant + b.mant * w;
        assert(n >= 0) by (nonlinear_arith)
            requires
                n == a.mant + b.mant * w,
                a.mant >= 0,
                b.mant >= 0,
                w > 0,
        ;
        let z = n as real;
        assert(z / 1real == z) by (nonlinear_arith);
        assert(z * s == x * s + y * (v * s)) by (nonlinear_arith)
            requires
                z == x + y * v,
        ;
        law_nearest_is_close(n, 1);
        lemma_value_shifted(nearest(n, 1), a.exp);
        lemma_within_scaled(value(nearest(n, 1)), z, s);
    }
}

/// The floor, the ceiling and the nearest integer of a double are those of the number that it
/// stands for.
pub proof fn law_rounding_is_exact(x: Double)
    requires
        x.mant >= 0,
    ensures
        x.floor() as real <= value(x) < (x.floor() + 1) as real,
        ((x.ceil() - 1) as real) < value(x) <= x.ceil() as real,
        (2 * x.round() - 1) as real <= 2real * value(x) < (2 * x.round() + 1) as real,
{
    let m = x.mant as real;
    if x.exp >= 0 {
        lemma_real_product(x.mant, pow2(x.exp as nat) as int);
    } else {
        let w = pow2((-x.exp) as nat) as int;
        lemma_pow2_pos((-x.exp) as nat);
        let (low, rest) = (x.mant / w, x.mant % w);
        assert(x.mant == low * w + rest && 0 <= rest < w) by (nonlinear_arith)
            requires
                w > 0,
                low == x.mant / w,
                rest == x.mant % w,
        ;
        lemma_real_product(low, w);
        let (v, l, r) = (w as real, low as real, rest as real);
        let f = r / v;
        assert(m * (1real / v) == l + f) by (nonlinear_arith)
            requires
                m == l * v + r,
                f == r / v,
                v > 0real,
        ;
        assert(0real <= f < 1real && (rest == 0 ==> f == 0real) && (rest > 0 ==> f > 0real))
            by (nonlinear_arith)
            requires
                f == r / v,
                v > 0real,
                0real <= r < v,
                rest == 0 ==> r == 0real,
                rest > 0 ==> r > 0real,
        ;
        assert((2 * rest < w ==> 2real * f < 1real) && (2 * rest >= w ==> 2real * f >= 1real))
            by (nonlinear_arith)
            requires
                f == r / v,
                v > 0real,
                2 * rest < w ==> 2real * r < v,
                2 * rest >= w ==> 2real * r >= v,
        ;
    }
}

/// A product with a quotient of doubles is the exact one up to a relative `3 * 2^-53`.
pub proof fn law_product_with_quotient_is_close(a: Double, b: Double, c: Double)
    requires
        a.mant >= 0,
        b.mant >= 0,
        c.mant > 0,
    ensures
        ({
            let x = value(times(a, over(b, c)));
            let exact = value(a) * value(b) / value(c);
            &&& 0real <= exact
            &&& 9007199254740992real * (x - exact) <= 3real * exact
            &&& 9007199254740992real * (exact - x) <= 3real * exact
        }),
{
    let ratio = over(b, c);
    law_over_is_close(b, c, -1, 0);
    lemma_over_sign(b, c);
    law_times_is_close(a, ratio, -1, 0);
    lemma_value_sign(a);
    lemma_value_sign(b);
    lemma_value_sign(c);
    let (q, p, w) = (value(a), value(b), value(c));
    let (e, r) = (p / w, value(ratio));
    assert(0real <= e) by (nonlinear_arith)
        requires
            e == p / w,
            p >= 0real,
            w > 0real,
    ;
    lemma_ordered_products(0real, e, q);
    lemma_ordered_products(9007199254740992real * (r - e), e, q);
    lemma_ordered_products(9007199254740992real * (e - r), e, q);
    assert(q * (9007199254740992real * (r - e)) == 9007199254740992real * (q * r - q * e))
        by (nonlinear_arith);
    assert(q * (9007199254740992real * (e - r)) == 9007199254740992real * (q * e - q * r))
        by (nonlinear_arith);
    assert(q * e == (q * p) / w) by (nonlinear_arith)
        requires
            e == p / w,
            w > 0real,
    ;
    assert(q * 0real == 0real);
}

pub proof fn lemma_value_sign(x: Double)
    requires
        x.mant >= 0,
    ensures
        value(x) >= 0real,
        x.mant > 0 ==> value(x) > 0real,
{
    lemma_two_to_positive(x.exp);
    let (m, t) = (x.mant as real, two_to(x.exp));
    assert(m * t >= 0real && (m > 0real ==> m * t > 0real)) by (nonlinear_arith)
        requires
            m >= 0real,
            t > 0real,
    ;
}

/// A share of a quantity, computed in doubles as the quantity times a quotient, is the exact
/// share up to a relative `3 * 2^-53`.
pub proof fn law_share_is_close(quantity: int, part: int, whole: int)
    requires
        0 <= quantity < 0x20_0000_0000_0000,
        0 <= part < 0x20_0000_0000_0000,
        0 < whole < 0x20_0000_0000_0000,
    ensures
        ({
            let x = value(times(from_int(quantity), over(from_int(part), from_int(whole))));
            let exact = ((quantity * part) as real) / (whole as real);
            &&& 0real <= exact
            &&& 9007199254740992real * (x - exact) <= 3real * exact
            &&& 9007199254740992real * (exact - x) <= 3real * exact
        }),
{
    lemma_from_int_sign(quantity);
    lemma_from_int_sign(part);
    lemma_from_int_sign(whole);
    law_conversion_is_close(quantity);
    law_conversion_is_close(part);
    law_conversion_is_close(whole);
    lemma_real_product(quantity, part);
    law_product_with_quotient_is_close(from_int(quantity), from_int(part), from_int(whole));
}

/// The bit patterns of the doubles that are not negative stand for ever greater numbers.
pub proof fn law_bit_patterns_are_ordered(a: u64, b: u64)
    requires
        a < b < 0x7FF0_0000_0000_0000,
    ensures
        0real <= value(decoded(a)),
        value(decoded(a)) < value(decoded(b)),
    decreases b - a,
{
    lemma_next_pattern((b - 1) as u64);
    if a < b - 1 {
        law_bit_patterns_are_ordered(a, (b - 1) as u64);
    } else {
        lemma_decoded_value(a);
        lemma_value_sign(decoded(a));
    }
}

proof fn lemma_next_pattern(a: u64)
    requires
        a + 1 < 0x7FF0_0000_0000_0000,
    ensures
        value(decoded(a)) < value(decoded((a + 1) as u64)),
{
    let b = (a + 1) as u64;
    lemma_decoded_value(a);
    lemma_decoded_value(b);
    let (i, j) = (a / 0x10_0000_0000_0000, b / 0x10_0000_0000_0000);
    if i == j {
        let t = two_to(if i == 0 { -1074 } else { i - 1075 });
        lemma_two_to_positive(if i == 0 { -1074 } else { i - 1075 });
        let (x, y) = (decoded_units(a) as real, decoded_units(b) as real);
        assert(x * t < y * t) by (nonlinear_arith)
            requires
                x < y,
                t > 0real,
        ;
    } else {
        let t = two_to(if i == 0 { -1074 } else { i - 1075 });
        lemma_two_to_positive(if i == 0 { -1074 } else { i - 1075 });
        if i > 0 {
            lemma_two_to_next(i - 1075);
        }
        let (x, y) = (decoded_units(a) as real, decoded_units(b) as real);
        assert(y == 4503599627370496real);
        assert(x * t < 9007199254740992real * t) by (nonlinear_arith)
            requires
                x < 9007199254740992real,
                t > 0real,
        ;
        assert(i == 0 ==> x * t < 4503599627370496real * t) by (nonlinear_arith)
            requires
                i == 0 ==> x < 4503599627370496real,
                t > 0real,
        ;
        if i > 0 {
            assert(y * (2real * t) == 9007199254740992real * t) by (nonlinear_arith)
                requires
                    y == 4503599627370496real,
            ;
        }
    }
}

/// The significand of a bit pattern.
spec fn decoded_units(bits: u64) -> int {
    if bits < 0x10_0000_0000_0000 {
        bits as int
    } else {
        0x10_0000_0000_0000 + bits % 0x10_0000_0000_0000
    }
}

proof fn lemma_decoded_value(bits: u64)
    requires
        bits < 0x7FF0_0000_0000_0000,
    ensures
        value(decoded(bits)) == (decoded_units(bits) as real) * two_to(
            if bits / 0x10_0000_0000_0000 == 0 {
                -1074
            } else {
                bits / 0x10_0000_0000_0000 - 1075
            },
        ),
        decoded(bits).mant >= 0,
        bits > 0 ==> decoded(bits).mant > 0,
{
    if bits < 0x10_0000_0000_0000 {
        law_conversion_is_close(bits as int);
        lemma_from_int_sign(bits as int);
        lemma_value_shifted(from_int(bits as int), -1074);
    }
}

/// What a bit pattern stands for: zero for zero, one for the pattern of one, twice as much for a
/// pattern whose exponent is greater by one, and between two such exponents equal steps.
pub proof fn law_bit_patterns_stand_for_numbers(bits: u64)
    requires
        bits + 0x10_0000_0000_0000 < 0x7FF0_0000_0000_0000,
    ensures
        value(decoded(0)) == 0real,
        value(decoded(0x3FF0_0000_0000_0000)) == 1real,
        bits >= 0x10_0000_0000_0000 ==> value(decoded((bits + 0x10_0000_0000_0000) as u64)) == 2real
            * value(decoded(bits)),
        ({
            let first = (bits - bits % 0x10_0000_0000_0000) as u64;
            let next = (first + 0x10_0000_0000_0000) as u64;
            4503599627370496real * (value(decoded(bits)) - value(decoded(first))) == ((bits
                - first) as real) * (value(decoded(next)) - value(decoded(first)))
        }),
{
    let unit = 0x10_0000_0000_0000int;
    let first = (bits - bits % 0x10_0000_0000_0000) as u64;
    let next = (first + 0x10_0000_0000_0000) as u64;
    lemma_decoded_value(0);
    let z = two_to(-1074);
    assert(0real * z == 0real) by (nonlinear_arith);
    lemma_decoded_value(0x3FF0_0000_0000_0000);
    lemma_two_to_adds(-52, 52);
    lemma2_to64();
    lemma2_to64_rest();
    let (down, up) = (two_to(-52), two_to(52));
    assert(up == 4503599627370496real);
    assert(4503599627370496real * down == 1real) by (nonlinear_arith)
        requires
            down * up == 1real,
            up == 4503599627370496real,
    ;
    lemma_decoded_value(bits);
    lemma_decoded_value(first);
    lemma_decoded_value(next);
    let e = bits / 0x10_0000_0000_0000;
    let t = two_to(if e == 0 { -1074 } else { e - 1075 });
    if e > 0 {
        lemma_two_to_next(e - 1075);
        lemma_decoded_value((bits + 0x10_0000_0000_0000) as u64);
        let m = decoded_units(bits) as real;
        assert(m * (2real * t) == 2real * (m * t)) by (nonlinear_arith);
    }
    let k = (bits - first) as real;
    assert(first / 0x10_0000_0000_0000 == e && next / 0x10_0000_0000_0000 == e + 1);
    assert(first % 0x10_0000_0000_0000 == 0 && next % 0x10_0000_0000_0000 == 0);
    let half = 4503599627370496real;
    if e > 0 {
        assert(decoded_units(bits) as real == half + k);
        assert(half * ((half + k) * t - half * t) == k * (half * (2real * t) - half * t))
            by (nonlinear_arith);
    } else {
        assert(decoded_units(bits) as real == k);
        assert(half * (k * t - 0real * t) == k * (half * t - 0real * t)) by (nonlinear_arith);
    }
}

proof fn lemma_from_int_sign(n: int)
    requires
        n >= 0,
    ensures
        from_int(n).mant >= 0,
        n > 0 ==> from_int(n).mant > 0,
{
    if n > 0 {
        law_nearest_is_normalized(n, 1);
    }
}

proof fn lemma_over_sign(a: Double, b: Double)
    requires
        a.mant >= 0,
        b.mant > 0,
    ensures
        over(a, b).mant >= 0,
{
    if a.mant > 0 {
        law_nearest_is_normalized(a.mant, b.mant);
    }
}

/// The ceiling of a quotient of two integers of at most 53 bits is the exact one: the smallest
/// integer whose product with the divisor is no smaller than the dividend.
pub proof fn law_ceiling_of_quotient(n: int, d: int)
    requires
        0 <= n < 0x20_0000_0000_0000,
        0 < d < 0x20_0000_0000_0000,
    ensures
        d * (over(from_int(n), from_int(d)).ceil() - 1) < n,
        n <= d * over(from_int(n), from_int(d)).ceil(),
{
    lemma_from_int_sign(n);
    lemma_from_int_sign(d);
    law_conversion_is_close(n);
    law_conversion_is_close(d);
    lemma_ceiling_of_doubles(from_int(n), from_int(d), n, d);
}

/// The same where the two integers are the values of doubles.
pub proof fn lemma_ceiling_of_doubles(a: Double, b: Double, n: int, d: int)
    requires
        a.mant >= 0,
        b.mant > 0,
        value(a) == n as real,
        value(b) == d as real,
        0 <= n < 0x20_0000_0000_0000,
        0 < d,
    ensures
        d * (over(a, b).ceil() - 1) < n,
        n <= d * over(a, b).ceil(),
{
    let x = over(a, b);
    let c = x.ceil();
    // The exact ceiling.
    let m = (n + d - 1) / d;
    assert(d * (m - 1) < n <= d * m && 0 <= m <= n) by (nonlinear_arith)
        requires
            m == (n + d - 1) / d,
            d > 0,
            n >= 0,
    ;
    lemma2_to64();
    let mr = m as real;
    assert(mr * 1real == mr);
    law_over_is_close(a, b, m, 0);
    lemma_over_sign(a, b);
    law_rounding_is_exact(x);
    let (p, q, v) = (n as real, d as real, value(x));
    let e = p / q;
    assert(p == e * q) by (nonlinear_arith)
        requires
            e == p / q,
            q > 0real,
    ;
    lemma_real_product(d, m);
    lemma_real_product(d, m - 1);
    if n == d * m {
        assert(e == mr) by (nonlinear_arith)
            requires
                p == e * q,
                p == q * mr,
                q > 0real,
        ;
        assert(v == mr);
        assert(c == m);
    } else {
        // A distance of one part of the divisor at least is more than rounding bridges.
        let g = 1real / q;
        assert(g * q == 1real && g > 0real) by (nonlinear_arith)
            requires
                g == 1real / q,
                q > 0real,
        ;
        assert((mr - g - e) * q == q * mr - 1real - p) by (nonlinear_arith)
            requires
                p == e * q,
                g * q == 1real,
        ;
        assert(0real * q == 0real);
        lemma_at_most_unscaled(0real, mr - g - e, q);
        assert((e - (mr - 1real) - g) * q == p - q * (mr - 1real) - 1real) by (nonlinear_arith)
            requires
                p == e * q,
                g * q == 1real,
        ;
        lemma_at_most_unscaled(0real, e - (mr - 1real) - g, q);
        // The error is below that distance.
        assert((9007199254740992real * g - e) * q == 9007199254740992real - p) by (nonlinear_arith)
            requires
                p == e * q,
                g * q == 1real,
        ;
        assert(e < 9007199254740992real * g) by (nonlinear_arith)
            requires
                (9007199254740992real * g - e) * q == 9007199254740992real - p,
                p < 9007199254740992real,
                q > 0real,
        ;
        assert(v < mr && mr - 1real < v);
        assert(c == m);
    }
}

} // verus!
