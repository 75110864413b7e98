//! Double-precision arithmetic on non-negative numbers, carried out in integers.
//!
//! A double is a significand of 53 bits times a power of two. Every operation
//! gives the double that is nearest to the exact result, a tie going to the even
//! significand, which is what IEEE 754 asks of the hardware. The exponent is not
//! bounded: no shared quantity of an index build comes near the range of a double.
use vstd::arithmetic::power2::{lemma2_to64, lemma2_to64_rest, lemma_pow2_adds, lemma_pow2_pos, lemma_pow2_strictly_increases, lemma_pow2_unfold, pow2};
use vstd::arithmetic::div_mod::{lemma_fundamental_div_mod, lemma_mod_bound, lemma_small_mod};
use vstd::arithmetic::mul::{lemma_mul_inequality, lemma_mul_is_commutative, lemma_mul_is_distributive_add_other_way};
use vstd::prelude::*;

verus! {

/// The smallest significand of a normalized double.
pub const MANT_MIN: u64 = 0x10_0000_0000_0000;

/// One past the largest significand of a normalized double.
pub const MANT_LIMIT: u64 = 0x20_0000_0000_0000;

/// The bit patterns from here on stand for infinity, for no number, or for a negative number.
pub const FINITE_LIMIT: u64 = 0x7FF0_0000_0000_0000;

/// The bit pattern of one.
pub const ONE_BITS: u64 = 0x3FF0_0000_0000_0000;

/// The bit pattern of negative zero. Those above it belong to negative numbers, or to none.
pub const NEGATIVE_ZERO: u64 = 0x8000_0000_0000_0000;

/// How far the exponents of the operands may lie from zero.
pub const EXP_BOUND: i64 = 0x1_0000;

/// The number `mant * 2^exp`.
pub struct Double {
    pub mant: int,
    pub exp: int,
}

pub open spec fn zero() -> Double {
    Double { mant: 0, exp: 0 }
}

impl Double {
    /// Zero, or a significand of exactly 53 bits.
    pub open spec fn normalized(self) -> bool {
        ||| self == zero()
        ||| MANT_MIN <= self.mant < MANT_LIMIT
    }

    /// This number times `2^by`.
    pub open spec fn shifted(self, by: int) -> Double {
        if self.mant == 0 {
            zero()
        } else {
            Double { mant: self.mant, exp: self.exp + by }
        }
    }

    /// The largest integer that is no larger.
    pub open spec fn floor(self) -> int {
        if self.exp >= 0 {
            self.mant * pow2(self.exp as nat)
        } else {
            self.mant / (pow2((-self.exp) as nat) as int)
        }
    }

    /// The smallest integer that is no smaller.
    pub open spec fn ceil(self) -> int {
        if self.exp >= 0 {
            self.mant * pow2(self.exp as nat)
        } else {
            let unit = pow2((-self.exp) as nat) as int;
            self.mant / unit + if self.mant % unit == 0 {
                0int
            } else {
                1int
            }
        }
    }

    /// The nearest integer, a tie going up.
    pub open spec fn round(self) -> int {
        if self.exp >= 0 {
            self.mant * pow2(self.exp as nat)
        } else {
            let unit = pow2((-self.exp) as nat) as int;
            self.mant / unit + if 2 * (self.mant % unit) < unit {
                0int
            } else {
                1int
            }
        }
    }
}

/// `n / d` in units of `2^e`, as a numerator.
pub open spec fn scaled_num(n: int, e: int) -> int {
    if e >= 0 {
        n
    } else {
        n * pow2((-e) as nat)
    }
}

/// `n / d` in units of `2^e`, as a denominator.
pub open spec fn scaled_den(d: int, e: int) -> int {
    if e >= 0 {
        d * pow2(e as nat)
    } else {
        d
    }
}

/// In units of `2^e` the integer part of `n / d` has exactly 53 bits.
pub open spec fn has_exponent(n: int, d: int, e: int) -> bool {
    MANT_MIN * scaled_den(d, e) <= scaled_num(n, e) < MANT_LIMIT * scaled_den(d, e)
}

/// `p / q` rounded to an integer, a tie going to the even one.
pub open spec fn half_even(p: int, q: int) -> int {
    let low = p / q;
    let rest = p % q;
    if 2 * rest < q || (2 * rest == q && low % 2 == 0) {
        low
    } else {
        low + 1
    }
}

/// The double nearest to `n / d`.
pub open spec fn nearest(n: int, d: int) -> Double {
    if n == 0 {
        zero()
    } else {
        let e = choose|e: int| has_exponent(n, d, e);
        let m = half_even(scaled_num(n, e), scaled_den(d, e));
        if m == MANT_LIMIT {
            Double { mant: MANT_MIN as int, exp: e + 1 }
        } else {
            Double { mant: m, exp: e }
        }
    }
}

pub open spec fn from_int(n: int) -> Double {
    nearest(n, 1)
}

pub open spec fn times(a: Double, b: Double) -> Double {
    nearest(a.mant * b.mant, 1).shifted(a.exp + b.exp)
}

pub open spec fn over(a: Double, b: Double) -> Double {
    nearest(a.mant, b.mant).shifted(a.exp - b.exp)
}

pub open spec fn plus(a: Double, b: Double) -> Double {
    if a.mant == 0 {
        b
    } else if b.mant == 0 {
        a
    } else if a.exp >= b.exp {
        nearest(a.mant * pow2((a.exp - b.exp) as nat) + b.mant, 1).shifted(b.exp)
    } else {
        nearest(a.mant + b.mant * pow2((b.exp - a.exp) as nat), 1).shifted(a.exp)
    }
}

/// The number that a bit pattern below `FINITE_LIMIT` stands for.
pub open spec fn decoded(bits: u64) -> Double {
    if bits < MANT_MIN {
        from_int(bits as int).shifted(-1074)
    } else {
        Double { mant: MANT_MIN + bits % MANT_MIN, exp: bits / MANT_MIN - 1075 }
    }
}

/// An integer as the machine converts it: it stops at zero and at the largest `usize`.
pub open spec fn saturated(n: int) -> int {
    if n < 0 {
        0
    } else if n <= usize::MAX {
        n
    } else {
        usize::MAX as int
    }
}

pub proof fn lemma_next_unit(n: int, d: int, e: int)
    ensures
        e >= 0 ==> scaled_num(n, e + 1) == scaled_num(n, e) && scaled_den(d, e + 1) == 2
            * scaled_den(d, e),
        e < 0 ==> scaled_num(n, e) == 2 * scaled_num(n, e + 1) && scaled_den(d, e + 1)
            == scaled_den(d, e),
{
    if e >= 0 {
        lemma_pow2_unfold((e + 1) as nat);
        let w = pow2(e as nat) as int;
        assert(d * (2 * w) == 2 * (d * w)) by (nonlinear_arith);
    } else {
        lemma_pow2_unfold((-e) as nat);
        lemma2_to64();
        let w = pow2((-(e + 1)) as nat) as int;
        assert(n * (2 * w) == 2 * (n * w)) by (nonlinear_arith);
        lemma_times_one(n);
        lemma_times_one(d);
    }
}

proof fn lemma_unit_times(u: int)
    ensures
        1 * u == u,
{
}

proof fn lemma_times_one(n: int)
    ensures
        n * pow2(0) == n,
{
    lemma2_to64();
    let one = pow2(0) as int;
    assert(n * one == n) by (nonlinear_arith)
        requires
            one == 1,
    ;
}

pub proof fn lemma_below_stays_below(n: int, d: int, e: int, further: int)
    requires
        n > 0,
        d > 0,
        e < further,
        scaled_num(n, e) < MANT_LIMIT * scaled_den(d, e),
    ensures
        scaled_num(n, further) < MANT_MIN * scaled_den(d, further),
    decreases further - e,
{
    lemma_next_unit(n, d, e);
    if e + 1 < further {
        lemma_den_positive(d, e);
        lemma_den_positive(d, e + 1);
        lemma_below_stays_below(n, d, e + 1, further);
    }
}

proof fn lemma_den_positive(d: int, e: int)
    requires
        d > 0,
    ensures
        scaled_den(d, e) > 0,
{
    if e >= 0 {
        lemma_pow2_pos(e as nat);
        let w = pow2(e as nat) as int;
        assert(d * w > 0) by (nonlinear_arith)
            requires
                d > 0,
                w > 0,
        ;
    }
}

/// The exponent of a positive quotient is unique.
proof fn lemma_exponent_unique(n: int, d: int, e: int)
    requires
        n > 0,
        d > 0,
        has_exponent(n, d, e),
    ensures
        e == choose|e: int| has_exponent(n, d, e),
{
    let f = choose|e: int| has_exponent(n, d, e);
    if e < f {
        lemma_below_stays_below(n, d, e, f);
    }
    if f < e {
        lemma_below_stays_below(n, d, f, e);
    }
}

/// Rounding a quotient of 53 bits gives 53 bits, or the first number of 54 bits.
proof fn lemma_half_even_range(p: int, q: int)
    requires
        q > 0,
        MANT_MIN * q <= p < MANT_LIMIT * q,
    ensures
        MANT_MIN <= half_even(p, q) <= MANT_LIMIT,
{
    assert(MANT_MIN <= p / q < MANT_LIMIT) by (nonlinear_arith)
        requires
            q > 0,
            MANT_MIN * q <= p < MANT_LIMIT * q,
    ;
}

/// Rounding a quotient takes a whole number to which no other is nearer, and of two that are
/// equally near the even one.
pub proof fn law_rounding_takes_the_nearest(p: int, q: int, k: int)
    requires
        q > 0,
    ensures
        ({
            let m = half_even(p, q);
            let off = if m * q >= p {
                m * q - p
            } else {
                p - m * q
            };
            let off_other = if k * q >= p {
                k * q - p
            } else {
                p - k * q
            };
            &&& off <= off_other
            &&& k != m && off == off_other ==> m % 2 == 0
        }),
{
    let m = half_even(p, q);
    let (low, rest) = (p / q, p % q);
    lemma_fundamental_div_mod(p, q);
    lemma_mul_is_commutative(q, low);
    assert(0 <= rest < q) by {
        lemma_mod_bound(p, q);
    }
    lemma_mul_is_distributive_add_other_way(q, low, 1);
    lemma_mul_is_distributive_add_other_way(q, m, 1);
    lemma_mul_is_distributive_add_other_way(q, m, -1);
    if k > m {
        lemma_mul_inequality(m + 1, k, q);
    } else if k < m {
        lemma_mul_inequality(k, m - 1, q);
    }
}

fn half_even_u128(p: u128, q: u128) -> (r: u128)
    requires
        0 < q < 0x8000_0000_0000_0000_0000_0000_0000_0000,
        p < 0x8000_0000_0000_0000_0000_0000_0000_0000 || q > 1,
    ensures
        r == half_even(p as int, q as int),
{
    let low: u128 = p / q;
    let rest: u128 = p % q;
    assert(rest < q);
    assert(q > 1 ==> low < 0x8000_0000_0000_0000_0000_0000_0000_0000) by (nonlinear_arith)
        requires
            low == p / q,
            q > 0,
    ;
    assert(q == 1 ==> low == p) by (nonlinear_arith)
        requires
            low == p / q,
    ;
    if 2 * rest < q || (2 * rest == q && low % 2 == 0) {
        low
    } else {
        low + 1
    }
}

/// What rounding gives once the exponent is known.
pub proof fn lemma_nearest(n: int, d: int, e: int)
    requires
        n > 0,
        d > 0,
        has_exponent(n, d, e),
    ensures
        ({
            let m = half_even(scaled_num(n, e), scaled_den(d, e));
            &&& MANT_MIN <= m <= MANT_LIMIT
            &&& nearest(n, d) == if m == MANT_LIMIT {
                Double { mant: MANT_MIN as int, exp: e + 1 }
            } else {
                Double { mant: m, exp: e }
            }
        }),
{
    lemma_exponent_unique(n, d, e);
    lemma_den_positive(d, e);
    lemma_half_even_range(scaled_num(n, e), scaled_den(d, e));
}

/// The exponent of an integer from `2^low` up to `2^high`.
proof fn lemma_exponent_bounds_of_int(n: int, low: nat, high: nat)
    requires
        0 < n,
        pow2(low) <= n < pow2(high),
    ensures
        forall|e: int| #[trigger] has_exponent(n, 1, e) ==> low - 52 <= e <= high - 53,
{
    assert forall|e: int| #[trigger] has_exponent(n, 1, e) implies low - 52 <= e <= high - 53 by {
        lemma2_to64_rest();
        if e >= 0 {
            let w = pow2(e as nat) as int;
            lemma_pow2_adds(52, e as nat);
            lemma_pow2_adds(53, e as nat);
            lemma_pow2_ordered(low, (53 + e) as nat);
            lemma_pow2_ordered((52 + e) as nat, high);
        } else {
            let w = pow2((-e) as nat) as int;
            lemma_times_one(1);
            lemma_pow2_adds(low, (-e) as nat);
            lemma_pow2_adds(high, (-e) as nat);
            lemma_pow2_pos((-e) as nat);
            let (a, b) = (pow2(low) as int, pow2(high) as int);
            assert(a * w <= n * w < b * w) by (nonlinear_arith)
                requires
                    a <= n < b,
                    w > 0,
            ;
            lemma_pow2_ordered((low - e) as nat, 53);
            lemma_pow2_ordered(52, (high - e) as nat);
        }
    }
}

/// Powers of two are in the order of their exponents.
proof fn lemma_pow2_ordered(a: nat, b: nat)
    ensures
        pow2(a) < pow2(b) ==> a < b,
{
    if b < a {
        lemma_pow2_strictly_increases(b, a);
    }
}

/// A double, as its normalized significand and its exponent.
#[derive(Clone, Copy)]
pub struct Binary64 {
    pub mant: u64,
    pub exp: i64,
}

impl View for Binary64 {
    type V = Double;

    open spec fn view(&self) -> Double {
        Double { mant: self.mant as int, exp: self.exp as int }
    }
}

impl Binary64 {
    /// Normalized, with an exponent that leaves room for one more operation.
    pub open spec fn wf(self) -> bool {
        &&& self@.normalized()
        &&& -EXP_BOUND <= self.exp <= EXP_BOUND
    }

    /// The double nearest to an integer.
    pub fn round_u128(n: u128) -> (r: Binary64)
        ensures
            r@ == from_int(n as int),
            r@.normalized(),
            n > 0 ==> r.mant > 0,
            n > 0 ==> has_exponent(n as int, 1, r.exp as int) || has_exponent(
                n as int,
                1,
                r.exp - 1,
            ),
            -52 <= r.exp <= 76,
    {
        if n == 0 {
            return Binary64 { mant: 0, exp: 0 };
        }
        if n < MANT_MIN as u128 {
            let mut m: u128 = n;
            let mut k: i64 = 0;
            proof {
                lemma_times_one(n as int);
            }
            while m < MANT_MIN as u128
                invariant
                    0 < n < MANT_MIN,
                    0 <= k <= 52,
                    m == n * pow2(k as nat),
                    m < MANT_LIMIT,
                    k >= 52 ==> m >= MANT_MIN,
                decreases 52 - k,
            {
                proof {
                    lemma_pow2_unfold((k + 1) as nat);
                    let w = pow2(k as nat) as int;
                    assert(n * (2 * w) == 2 * (n * w)) by (nonlinear_arith);
                    lemma2_to64_rest();
                    let top = pow2(52) as int;
                    assert(n * top >= top) by (nonlinear_arith)
                        requires
                            n > 0,
                            top >= 0,
                    ;
                }
                m = m * 2;
                k = k + 1;
            }
            proof {
                lemma_times_one(1);
                lemma_times_one(n as int);
                lemma_nearest(n as int, 1, -k as int);
            }
            return Binary64 { mant: m as u64, exp: -k };
        }
        let mut unit: u128 = 1;
        let mut k: i64 = 0;
        proof {
            lemma2_to64();
        }
        while n / unit >= MANT_LIMIT as u128
            invariant
                0 <= k <= 75,
                unit == pow2(k as nat),
                unit > 0,
                n >= MANT_MIN * unit,
            decreases 76 - k,
        {
            proof {
                lemma_pow2_unfold((k + 1) as nat);
                lemma2_to64();
                lemma_pow2_adds(64, 11);
                assert(n >= MANT_LIMIT * unit) by (nonlinear_arith)
                    requires
                        n / unit >= MANT_LIMIT,
                        unit > 0,
                ;
            }
            unit = unit * 2;
            k = k + 1;
        }
        proof {
            lemma_unit_times(unit as int);
            assert(n < MANT_LIMIT * unit) by (nonlinear_arith)
                requires
                    n / unit < MANT_LIMIT,
                    unit > 0,
            ;
            lemma_nearest(n as int, 1, k as int);
        }
        Self::rounded(n, unit, k)
    }

    /// `p / q` times `2^exp`, where the integer part of `p / q` has 53 bits.
    fn rounded(p: u128, q: u128, exp: i64) -> (r: Binary64)
        requires
            0 < q,
            MANT_MIN * q <= p < MANT_LIMIT * q,
            -EXP_BOUND <= exp <= EXP_BOUND,
        ensures
            ({
                let m = half_even(p as int, q as int);
                r@ == if m == MANT_LIMIT {
                    Double { mant: MANT_MIN as int, exp: exp + 1 }
                } else {
                    Double { mant: m, exp: exp as int }
                }
            }),
            MANT_MIN <= r.mant < MANT_LIMIT,
    {
        proof {
            lemma_half_even_range(p as int, q as int);
        }
        let m: u128 = half_even_u128(p, q);
        if m == MANT_LIMIT as u128 {
            Binary64 { mant: MANT_MIN, exp: exp + 1 }
        } else {
            Binary64 { mant: m as u64, exp }
        }
    }

    /// The double nearest to an integer.
    pub fn from_usize(n: usize) -> (r: Binary64)
        ensures
            r@ == from_int(n as int),
            r.wf(),
            n > 0 ==> r.mant > 0,
            n > 0 ==> -52 <= r.exp <= 12,
            0 < n < 8 ==> r.exp <= -49,
            n == 1 ==> r.exp <= -51,
    {
        proof {
            if n > 0 {
                lemma2_to64();
                lemma_exponent_bounds_of_int(n as int, 0, 64);
                if n < 8 {
                    lemma_exponent_bounds_of_int(n as int, 0, 3);
                }
                if n == 1 {
                    lemma_exponent_bounds_of_int(n as int, 0, 1);
                }
            }
        }
        Self::round_u128(n as u128)
    }

    /// The double with the given bit pattern.
    pub fn from_bits(bits: u64) -> (r: Binary64)
        requires
            bits < FINITE_LIMIT,
        ensures
            r@ == decoded(bits),
            r.wf(),
            bits > 0 ==> r.mant > 0,
            -1126 <= r.exp <= 971,
    {
        if bits < MANT_MIN {
            let r = Self::round_u128(bits as u128);
            if bits == 0 {
                r
            } else {
                Binary64 { mant: r.mant, exp: r.exp - 1074 }
            }
        } else {
            Binary64 {
                mant: MANT_MIN + bits % MANT_MIN,
                exp: (bits / MANT_MIN) as i64 - 1075,
            }
        }
    }

    /// The product.
    pub fn times(self, other: Binary64) -> (r: Binary64)
        requires
            self.wf(),
            other.wf(),
        ensures
            r@ == times(self@, other@),
            r@.normalized(),
            self.mant > 0 && other.mant > 0 ==> r.mant > 0,
            r.mant > 0 ==> self.exp + other.exp + 52 <= r.exp <= self.exp + other.exp + 54,
    {
        proof {
            let (a, b) = (self.mant as int, other.mant as int);
            assert(0 <= a * b < MANT_LIMIT * MANT_LIMIT) by (nonlinear_arith)
                requires
                    0 <= a < MANT_LIMIT,
                    0 <= b < MANT_LIMIT,
            ;
            if a > 0 && b > 0 {
                assert(a * b >= MANT_MIN * MANT_MIN) by (nonlinear_arith)
                    requires
                        a >= MANT_MIN,
                        b >= MANT_MIN,
                ;
                lemma2_to64();
                lemma2_to64_rest();
                lemma_pow2_adds(52, 52);
                lemma_pow2_adds(53, 53);
                lemma_exponent_bounds_of_int(a * b, 104, 106);
            } else {
                assert(a * b == 0) by (nonlinear_arith)
                    requires
                        a == 0 || b == 0,
                ;
            }
        }
        let r = Self::round_u128(self.mant as u128 * other.mant as u128);
        if r.mant == 0 {
            r
        } else {
            Binary64 { mant: r.mant, exp: r.exp + (self.exp + other.exp) }
        }
    }

    /// The quotient.
    pub fn over(self, other: Binary64) -> (r: Binary64)
        requires
            self.wf(),
            other.wf(),
            other.mant > 0,
        ensures
            r@ == over(self@, other@),
            r@.normalized(),
            self.mant > 0 ==> r.mant > 0,
            r.mant > 0 ==> self.exp - other.exp - 53 <= r.exp <= self.exp - other.exp - 51,
    {
        if self.mant == 0 {
            return Binary64 { mant: 0, exp: 0 };
        }
        proof {
            lemma2_to64_rest();
        }
        let by: i64 = if self.mant >= other.mant {
            52
        } else {
            53
        };
        let unit: u128 = if self.mant >= other.mant {
            MANT_MIN as u128
        } else {
            MANT_LIMIT as u128
        };
        assert(unit == pow2(by as nat));
        let p: u128 = self.mant as u128 * unit;
        let q: u128 = other.mant as u128;
        proof {
            lemma_nearest(self.mant as int, other.mant as int, -by as int);
        }
        let r = Self::rounded(p, q, -by);
        Binary64 { mant: r.mant, exp: r.exp + (self.exp - other.exp) }
    }

    /// The sum of two doubles whose exponents are close enough to align them exactly.
    pub fn plus(self, other: Binary64) -> (r: Binary64)
        requires
            self.wf(),
            other.wf(),
            self.mant > 0 && other.mant > 0 ==> -74 <= self.exp - other.exp <= 74,
        ensures
            r@ == plus(self@, other@),
            r@.normalized(),
            self.mant > 0 || other.mant > 0 ==> r.mant > 0,
            self.mant > 0 && other.mant > 0 ==> (self.exp - 52 <= r.exp || other.exp - 52 <= r.exp),
            self.mant > 0 && other.mant > 0 ==> (r.exp <= self.exp + 76 && r.exp <= other.exp + 76),
    {
        if self.mant == 0 {
            return other;
        }
        if other.mant == 0 {
            return self;
        }
        if self.exp >= other.exp {
            Self::plus_aligned(self, other)
        } else {
            proof {
                let (a, b) = (self.mant as int, other.mant * pow2((other.exp - self.exp) as nat));
                assert(a + b == b + a);
            }
            Self::plus_aligned(other, self)
        }
    }

    fn plus_aligned(large: Binary64, small: Binary64) -> (r: Binary64)
        requires
            large.wf(),
            small.wf(),
            large.mant > 0,
            small.mant > 0,
            0 <= large.exp - small.exp <= 74,
        ensures
            r@ == nearest(
                large.mant * pow2((large.exp - small.exp) as nat) + small.mant,
                1,
            ).shifted(small.exp as int),
            r@.normalized(),
            r.mant > 0,
            small.exp - 52 <= r.exp <= small.exp + 76,
    {
        let by: i64 = large.exp - small.exp;
        let unit: u128 = power_of_two(by);
        proof {
            let (m, u) = (large.mant as int, unit as int);
            assert(m * u <= MANT_LIMIT * 0x400_0000_0000_0000_0000) by (nonlinear_arith)
                requires
                    0 <= m <= MANT_LIMIT,
                    0 <= u <= 0x400_0000_0000_0000_0000,
            ;
            assert(m * u >= 0) by (nonlinear_arith)
                requires
                    0 <= m,
                    0 <= u,
            ;
        }
        let r = Self::round_u128(large.mant as u128 * unit + small.mant as u128);
        Binary64 { mant: r.mant, exp: r.exp + small.exp }
    }

    /// Drops the fraction; too large a number becomes the largest `usize`.
    pub fn floor_to_usize(self) -> (r: usize)
        requires
            self.wf(),
        ensures
            r == saturated(self@.floor()),
    {
        if self.exp >= 0 {
            return self.whole_to_usize();
        }
        let k: i64 = -self.exp;
        if k >= 53 {
            proof {
                lemma_unit_exceeds(k as nat);
                let u = pow2(k as nat) as int;
                assert(self.mant as int / u == 0) by (nonlinear_arith)
                    requires
                        0 <= self.mant < u,
                ;
            }
            return 0;
        }
        let unit: u128 = power_of_two(k);
        let low: u128 = self.mant as u128 / unit;
        saturate(low)
    }

    /// Rounds up; too large a number becomes the largest `usize`.
    pub fn ceil_to_usize(self) -> (r: usize)
        requires
            self.wf(),
        ensures
            r == saturated(self@.ceil()),
    {
        if self.exp >= 0 {
            return self.whole_to_usize();
        }
        let k: i64 = -self.exp;
        if k >= 53 {
            proof {
                lemma_unit_exceeds(k as nat);
                let u = pow2(k as nat) as int;
                lemma_small_mod(self.mant as nat, u as nat);
                assert(self.mant as int / u == 0) by (nonlinear_arith)
                    requires
                        0 <= self.mant < u,
                ;
            }
            return if self.mant == 0 {
                0
            } else {
                1
            };
        }
        let unit: u128 = power_of_two(k);
        let low: u128 = self.mant as u128 / unit;
        if self.mant as u128 % unit == 0 {
            saturate(low)
        } else {
            saturate(low + 1)
        }
    }

    /// Rounds to the nearest integer, a tie going up; too large a number becomes the largest
    /// `usize`.
    pub fn round_to_usize(self) -> (r: usize)
        requires
            self.wf(),
        ensures
            r == saturated(self@.round()),
    {
        if self.exp >= 0 {
            return self.whole_to_usize();
        }
        let k: i64 = -self.exp;
        if k >= 54 {
            proof {
                lemma_unit_exceeds(k as nat);
                let u = pow2(k as nat) as int;
                lemma_small_mod(self.mant as nat, u as nat);
                assert(self.mant as int / u == 0) by (nonlinear_arith)
                    requires
                        0 <= self.mant < u,
                ;
            }
            return 0;
        }
        let unit: u128 = power_of_two(k);
        let low: u128 = self.mant as u128 / unit;
        let rest: u128 = self.mant as u128 % unit;
        if 2 * rest < unit {
            saturate(low)
        } else {
            saturate(low + 1)
        }
    }

    fn whole_to_usize(self) -> (r: usize)
        requires
            self.wf(),
            self.exp >= 0,
        ensures
            r == saturated(self.mant * pow2(self.exp as nat)),
    {
        if self.mant == 0 {
            proof {
                lemma_pow2_pos(0);
            }
            return 0;
        }
        if self.exp >= 64 {
            proof {
                lemma_unit_exceeds(self.exp as nat);
                let (m, u) = (self.mant as int, pow2(self.exp as nat) as int);
                assert(m * u >= u) by (nonlinear_arith)
                    requires
                        m >= 1,
                        u >= 0,
                ;
            }
            return usize::MAX;
        }
        let unit: u128 = power_of_two(self.exp);
        proof {
            let (m, u) = (self.mant as int, unit as int);
            assert(0 <= m * u <= MANT_LIMIT * 0x1_0000_0000_0000_0000) by (nonlinear_arith)
                requires
                    0 <= m <= MANT_LIMIT,
                    0 <= u <= 0x1_0000_0000_0000_0000,
            ;
        }
        saturate(self.mant as u128 * unit)
    }
}

fn saturate(n: u128) -> (r: usize)
    ensures
        r == saturated(n as int),
{
    if n <= usize::MAX as u128 {
        n as usize
    } else {
        usize::MAX
    }
}

/// `2^k`, computed.
fn power_of_two(k: i64) -> (r: u128)
    requires
        0 <= k <= 74,
    ensures
        r == pow2(k as nat),
        0 < r <= 0x400_0000_0000_0000_0000,
        k <= 64 ==> r <= 0x1_0000_0000_0000_0000,
        k <= 54 ==> r <= 0x40_0000_0000_0000,
{
    let mut r: u128 = 1;
    let mut i: i64 = 0;
    proof {
        lemma2_to64();
        lemma2_to64_rest();
        lemma_pow2_adds(64, 10);
        lemma_pow2_pos(k as nat);
        if k < 74 {
            lemma_pow2_strictly_increases(k as nat, 74);
        }
        if k < 64 {
            lemma_pow2_strictly_increases(k as nat, 64);
        }
        if k < 54 {
            lemma_pow2_strictly_increases(k as nat, 54);
        }
    }
    while i < k
        invariant
            0 <= i <= k <= 74,
            r == pow2(i as nat),
            1 <= r <= pow2(k as nat) <= pow2(74),
            pow2(74) == 0x400_0000_0000_0000_0000,
        decreases k - i,
    {
        proof {
            lemma_pow2_unfold((i + 1) as nat);
            if i + 1 < k {
                lemma_pow2_strictly_increases((i + 1) as nat, k as nat);
            }
        }
        r = r * 2;
        i = i + 1;
    }
    r
}

/// A power of two with a large exponent exceeds every significand, and from the 64th on
/// every `usize`.
proof fn lemma_unit_exceeds(k: nat)
    requires
        k >= 53,
    ensures
        pow2(k) >= MANT_LIMIT,
        k >= 54 ==> pow2(k) >= 2 * MANT_LIMIT,
        k >= 64 ==> pow2(k) > usize::MAX,
{
    lemma2_to64();
    lemma2_to64_rest();
    if k > 53 {
        lemma_pow2_strictly_increases(53, k);
    }
    if k > 54 {
        lemma_pow2_strictly_increases(54, k);
    }
    if k > 64 {
        lemma_pow2_strictly_increases(64, k);
    }
}

proof fn lemma_exponent_exists(n: int, d: int, e: int, low: int)
    requires
        n > 0,
        d > 0,
        low <= e,
        scaled_num(n, e) < MANT_LIMIT * scaled_den(d, e),
        scaled_num(n, low) >= MANT_MIN * scaled_den(d, low),
    ensures
        exists|f: int| has_exponent(n, d, f),
    decreases e - low,
{
    if scaled_num(n, e) >= MANT_MIN * scaled_den(d, e) {
        assert(has_exponent(n, d, e));
    } else {
        lemma_next_unit(n, d, e - 1);
        lemma_exponent_exists(n, d, e - 1, low);
    }
}

proof fn lemma_pow2_exceeds(n: nat)
    ensures
        pow2(n) > n,
    decreases n,
{
    lemma2_to64();
    if n > 0 {
        lemma_pow2_exceeds((n - 1) as nat);
        lemma_pow2_unfold(n);
    }
}

/// Every positive quotient has exactly one nearest double, and that is a positive one.
pub proof fn law_nearest_is_normalized(n: int, d: int)
    requires
        n > 0,
        d > 0,
    ensures
        exists|e: int| has_exponent(n, d, e),
        MANT_MIN <= nearest(n, d).mant < MANT_LIMIT,
{
    let high = n;
    let low = -(52 + d);
    lemma_pow2_exceeds(n as nat);
    let w = pow2(n as nat) as int;
    assert(n < MANT_LIMIT * (d * w)) by (nonlinear_arith)
        requires
            0 < n < w,
            d > 0,
            MANT_LIMIT == 0x20_0000_0000_0000u64,
    ;
    lemma_pow2_exceeds(d as nat);
    lemma_pow2_adds(52, d as nat);
    lemma2_to64_rest();
    let u = pow2(d as nat) as int;
    let v = pow2((52 + d) as nat) as int;
    assert(n * v >= MANT_MIN * d) by (nonlinear_arith)
        requires
            n > 0,
            u > d,
            d > 0,
            v == MANT_MIN * u,
            MANT_MIN == 0x10_0000_0000_0000u64,
    ;
    lemma_exponent_exists(n, d, high, low);
    let e = choose|e: int| has_exponent(n, d, e);
    lemma_nearest(n, d, e);
}

/// A positive double rounds up to a positive integer.
pub proof fn law_positive_rounds_up(x: Double)
    requires
        x.mant > 0,
    ensures
        x.ceil() >= 1,
{
    if x.exp >= 0 {
        lemma_pow2_pos(x.exp as nat);
        let w = pow2(x.exp as nat) as int;
        let m = x.mant;
        assert(m * w >= 1) by (nonlinear_arith)
            requires
                m > 0,
                w > 0,
        ;
    } else {
        let unit = pow2((-x.exp) as nat) as int;
        lemma_pow2_pos((-x.exp) as nat);
        let m = x.mant;
        assert(m / unit + (if m % unit == 0 {
            0int
        } else {
            1int
        }) >= 1) by (nonlinear_arith)
            requires
                m > 0,
                unit > 0,
        ;
    }
}

} // verus!
