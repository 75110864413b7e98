//! The order of single-precision numbers, told from their bit patterns.
use vstd::arithmetic::power2::pow2;
use vstd::prelude::*;

verus! {

/// Bit patterns from here on have their sign set.
pub const SIGN: u32 = 0x8000_0000;

/// The bit pattern of positive infinity. Between it and `SIGN` are the patterns of what is no
/// number.
pub const INFINITY: u32 = 0x7F80_0000;

/// The bit pattern of zero.
pub const ZERO: u32 = 0;

/// A pattern stands for no number.
pub open spec fn not_a_number(x: u32) -> bool {
    x % SIGN > INFINITY
}

/// Where a number stands among all numbers; both zeros stand at zero.
pub open spec fn place(x: u32) -> int {
    if x < SIGN {
        x as int
    } else {
        SIGN - x
    }
}

/// The first number is smaller. What is no number is neither smaller nor larger.
pub open spec fn smaller(x: u32, y: u32) -> bool {
    !not_a_number(x) && !not_a_number(y) && place(x) < place(y)
}

/// The first number is no larger.
pub open spec fn no_larger(x: u32, y: u32) -> bool {
    !not_a_number(x) && !not_a_number(y) && place(x) <= place(y)
}

/// Where a pattern stands in the order of all patterns, which puts negative zero before zero
/// and what is no number at the ends.
pub open spec fn total_place(x: u32) -> int {
    if x < SIGN {
        x as int
    } else {
        SIGN - x - 1
    }
}

pub fn is_not_a_number(x: u32) -> (r: bool)
    ensures
        r == not_a_number(x),
{
    x % SIGN > INFINITY
}

fn place_of(x: u32) -> (r: i64)
    ensures
        r == place(x),
{
    if x < SIGN {
        x as i64
    } else {
        SIGN as i64 - x as i64
    }
}

pub fn is_smaller(x: u32, y: u32) -> (r: bool)
    ensures
        r == smaller(x, y),
{
    !is_not_a_number(x) && !is_not_a_number(y) && place_of(x) < place_of(y)
}

pub fn is_no_larger(x: u32, y: u32) -> (r: bool)
    ensures
        r == no_larger(x, y),
{
    !is_not_a_number(x) && !is_not_a_number(y) && place_of(x) <= place_of(y)
}

/// Where a pattern stands in the order of all patterns.
pub fn total_place_of(x: u32) -> (r: i64)
    ensures
        r == total_place(x),
{
    if x < SIGN {
        x as i64
    } else {
        SIGN as i64 - x as i64 - 1
    }
}

/// Numbers are ordered: each is no larger than itself, the order passes on, and of two numbers
/// one is no larger than the other.
pub proof fn law_numbers_are_ordered(x: u32, y: u32, z: u32)
    requires
        !not_a_number(x),
        !not_a_number(y),
        !not_a_number(z),
    ensures
        no_larger(x, x),
        no_larger(x, y) && no_larger(y, z) ==> no_larger(x, z),
        no_larger(x, y) || no_larger(y, x),
        smaller(x, y) <==> !no_larger(y, x),
{
}

/// The order of all patterns tells any two patterns apart, and agrees with the order of
/// numbers.
pub proof fn law_patterns_are_ordered(x: u32, y: u32)
    ensures
        total_place(x) == total_place(y) <==> x == y,
        smaller(x, y) ==> total_place(x) < total_place(y),
        -0x8000_0000 <= total_place(x) < 0x8000_0000,
{
}

/// The size of the number that a pattern without its sign stands for, in units of the smallest
/// number above zero: the fraction, to which each exponent but the lowest adds a leading one and
/// which it then doubles as often as it exceeds one.
pub open spec fn magnitude(x: int) -> int {
    if x < 0x80_0000 {
        x
    } else {
        (0x80_0000 + x % 0x80_0000) * pow2((x / 0x80_0000 - 1) as nat)
    }
}

/// The finite number that a pattern stands for, in units of the smallest number above zero.
pub open spec fn finite_value(x: u32) -> int {
    if x < 0x8000_0000 {
        magnitude(x as int)
    } else {
        -magnitude(x - 0x8000_0000)
    }
}

proof fn lemma_magnitude_grows(x: int)
    requires
        0 <= x,
    ensures
        0 <= magnitude(x) < magnitude(x + 1),
{
    let e = x / 0x80_0000;
    let f = (x + 1) / 0x80_0000;
    vstd::arithmetic::power2::lemma2_to64();
    if x >= 0x80_0000 {
        let w = pow2((e - 1) as nat) as int;
        vstd::arithmetic::power2::lemma_pow2_pos((e - 1) as nat);
        let m = 0x80_0000 + x % 0x80_0000;
        assert(0 <= m * w && m * w + w == (m + 1) * w) by (nonlinear_arith)
            requires
                m >= 0,
                w > 0,
        ;
        if f == e {
            assert((x + 1) % 0x80_0000 == x % 0x80_0000 + 1);
        } else {
            assert(f == e + 1 && (x + 1) % 0x80_0000 == 0 && m + 1 == 2 * 0x80_0000);
            vstd::arithmetic::power2::lemma_pow2_unfold((f - 1) as nat);
            assert((2 * 0x80_0000) * w == 0x80_0000 * (2 * w)) by (nonlinear_arith);
        }
    } else if x + 1 == 0x80_0000 {
        assert(0x80_0000 * pow2(0) == 0x80_0000);
    }
}

proof fn lemma_magnitudes_ordered(x: int, y: int)
    requires
        0 <= x < y,
    ensures
        0 <= magnitude(x) < magnitude(y),
    decreases y - x,
{
    lemma_magnitude_grows(y - 1);
    if x < y - 1 {
        lemma_magnitudes_ordered(x, y - 1);
    }
}

/// The order of patterns is that of the numbers that they stand for. Infinities lie beyond all
/// finite numbers, and a pattern stands for no number exactly if its exponent is all ones and
/// its fraction is not zero.
pub proof fn law_order_is_that_of_the_numbers(x: u32, y: u32)
    ensures
        not_a_number(x) <==> x / 0x80_0000 % 0x100 == 0xFF && x % 0x80_0000 != 0,
        x % 0x8000_0000 < 0x7F80_0000 && y % 0x8000_0000 < 0x7F80_0000 ==> {
            &&& smaller(x, y) <==> finite_value(x) < finite_value(y)
            &&& no_larger(x, y) <==> finite_value(x) <= finite_value(y)
        },
        x % 0x8000_0000 < 0x7F80_0000 ==> smaller(x, 0x7F80_0000) && smaller(0xFF80_0000, x),
        not_a_number(x) ==> !smaller(x, y) && !smaller(y, x) && !no_larger(x, y) && !no_larger(
            y,
            x,
        ),
        no_larger(0x7F80_0000, 0x7F80_0000) && no_larger(0xFF80_0000, 0xFF80_0000),
{
    let (a, b) = (x % 0x8000_0000, y % 0x8000_0000);
    if a < b {
        lemma_magnitudes_ordered(a as int, b as int);
    } else if b < a {
        lemma_magnitudes_ordered(b as int, a as int);
    }
    if a > 0 {
        lemma_magnitudes_ordered(0, a as int);
    }
    if b > 0 {
        lemma_magnitudes_ordered(0, b as int);
    }
}

/// In the order of all patterns negative zero comes right before zero, and what is no number
/// before all numbers or behind them, by its sign.
pub proof fn law_patterns_without_number_lie_outside(x: u32, y: u32)
    requires
        not_a_number(x),
        !not_a_number(y),
    ensures
        x < 0x8000_0000 ==> total_place(y) < total_place(x),
        x >= 0x8000_0000 ==> total_place(x) < total_place(y),
        total_place(0x8000_0000) + 1 == total_place(0),
{
}

} // verus!
