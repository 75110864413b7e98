use vectorscale::binary64::Binary64;
use vectorscale::settings::{flush_rate, FLUSH_INTERVAL_INITIAL, FLUSH_INTERVAL_MAX, FLUSH_INTERVAL_MIN};

const NUMBERS: [usize; 16] = [
    1, 2, 3, 5, 7, 10, 63, 64, 100, 1000, 65536, 99_999, 1_000_003, 4_503_599_627_370_497,
    9_007_199_254_740_993, 18_446_744_073_709_551_615,
];

#[test]
fn integers_become_the_nearest_double() {
    for n in NUMBERS {
        assert_eq!(Binary64::from_usize(n).floor_to_usize(), n as f64 as usize);
    }
    assert_eq!(Binary64::from_usize(0).floor_to_usize(), 0);
    // Ties go to the even significand.
    assert_eq!(Binary64::from_usize(9_007_199_254_740_993).floor_to_usize(), 9_007_199_254_740_992);
    assert_eq!(Binary64::from_usize(9_007_199_254_740_995).floor_to_usize(), 9_007_199_254_740_996);
}

#[test]
fn products_agree_with_the_machine() {
    for a in NUMBERS {
        for b in NUMBERS {
            let r = Binary64::from_usize(a).times(Binary64::from_usize(b));
            assert_eq!(r.floor_to_usize(), (a as f64 * b as f64) as usize, "{} * {}", a, b);
        }
    }
}

#[test]
fn quotients_agree_with_the_machine() {
    for a in NUMBERS {
        for b in NUMBERS {
            let r = Binary64::from_usize(a).over(Binary64::from_usize(b));
            let q = a as f64 / b as f64;
            assert_eq!(r.floor_to_usize(), q as usize, "{} / {}", a, b);
            assert_eq!(r.ceil_to_usize(), q.ceil() as usize, "{} / {}", a, b);
            assert_eq!(r.round_to_usize(), q.round() as usize, "{} / {}", a, b);
            for c in NUMBERS {
                let s = r.times(Binary64::from_usize(c));
                assert_eq!(s.floor_to_usize(), (q * c as f64) as usize, "{} / {} * {}", a, b, c);
                assert_eq!(s.round_to_usize(), (q * c as f64).round() as usize);
            }
        }
    }
}

#[test]
fn sums_agree_with_the_machine() {
    for a in NUMBERS {
        for b in NUMBERS {
            let r = Binary64::from_usize(a).plus(Binary64::from_usize(b));
            assert_eq!(r.floor_to_usize(), (a as f64 + b as f64) as usize, "{} + {}", a, b);
        }
        assert_eq!(
            Binary64::from_usize(a).plus(Binary64::from_usize(0)).floor_to_usize(),
            a as f64 as usize
        );
    }
}

#[test]
fn patterns_are_decoded() {
    for x in [0.05f64, 0.1, 0.3, 0.999, 1.0, 1.5, 2.75, 1e-300, 5e-324, 1e18] {
        let b = Binary64::from_bits(x.to_bits());
        for n in NUMBERS {
            assert_eq!(
                Binary64::from_usize(n).times(b).floor_to_usize(),
                (n as f64 * x) as usize,
                "{} * {}",
                n,
                x
            );
        }
    }
}

#[test]
fn flush_rate_is_a_fraction_and_at_least_one() {
    assert_eq!(FLUSH_INTERVAL_INITIAL, 0.05f64.to_bits());
    assert_eq!(FLUSH_INTERVAL_MIN, 0.0f64.to_bits());
    assert_eq!(FLUSH_INTERVAL_MAX, 1.0f64.to_bits());
    assert_eq!(flush_rate(1000, 0.05f64.to_bits()), 50);
    assert_eq!(flush_rate(1000, 0.0f64.to_bits()), 1);
    assert_eq!(flush_rate(1000, 1.0f64.to_bits()), 1000);
    assert_eq!(flush_rate(0, 0.5f64.to_bits()), 1);
    assert_eq!(flush_rate(19, 0.05f64.to_bits()), 1);
    for n in NUMBERS {
        for rate in [
            0.05f64,
            0.3,
            0.999_999_999,
            -0.0,
            -1.0,
            f64::NAN,
            f64::INFINITY,
            f64::NEG_INFINITY,
            2.5,
            1e300,
        ] {
            let expected = ((n as f64 * rate) as usize).max(1);
            assert_eq!(flush_rate(n, rate.to_bits()), expected, "{} * {}", n, rate);
        }
    }
}

#[test]
fn more_vectors_are_flushed_no_sooner() {
    for rate in [0.05f64, 1.0 / 3.0, 0.999, 5e-324] {
        let mut last = 0;
        for total in [0, 1, 2, 3, 19, 20, 21, 39, 40, 1 << 53, (1 << 53) + 1, usize::MAX] {
            let r = flush_rate(total, rate.to_bits());
            assert!(last <= r);
            last = r;
        }
    }
    assert_eq!(flush_rate(40, FLUSH_INTERVAL_INITIAL), 2);
}
