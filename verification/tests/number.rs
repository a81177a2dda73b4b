use leek_game::number::Real;

fn double(x: f64) -> Real {
    Real::from_bits(x.to_bits()).unwrap()
}

const SAMPLES: &[f64] = &[
    0.0, 1.0, -1.0, 0.1, 0.2, 0.3, 1.3, -2.5, 15.0, 100.0, 1e10, 123_456.789, -0.05, 1e-9, 3.0, 7.0,
];

#[test]
fn sums_products_and_quotients_are_those_of_doubles() {
    for &a in SAMPLES {
        for &b in SAMPLES {
            assert_eq!(double(a).plus(double(b)), double(a + b), "{a} + {b}");
            assert_eq!(double(a).minus(double(b)), double(a - b), "{a} - {b}");
            assert_eq!(double(a).mul(double(b)), double(a * b), "{a} * {b}");
            assert_eq!(double(a).less(double(b)), a < b, "{a} < {b}");
            if b != 0.0 {
                assert_eq!(double(a).over(double(b)), double(a / b), "{a} / {b}");
            }
        }
        assert_eq!(double(a).trunc_i32(), a as i32, "{a}");
        assert_eq!(double(a).trunc_i64(), a as i64, "{a}");
        assert_eq!(double(a).floor(), double(a.floor()), "{a}");
        assert_eq!(double(a).negate(), double(-a), "{a}");
        assert_eq!(double(a).at_least_zero(), double(a.max(0.0)), "{a}");
        if a >= 0.0 {
            assert_eq!(double(a).round_i64(), (a + 0.5).floor() as i64, "{a}");
        }
    }
}

#[test]
fn the_ends_of_the_range_are_kept() {
    assert_eq!(double(1e300).trunc_i32(), i32::MAX);
    assert_eq!(double(-1e300).trunc_i64(), i64::MIN);
    assert_eq!(double(5e-324).trunc_i64(), 0);
    assert!(Real::from_bits(f64::INFINITY.to_bits()).is_none());
    assert!(Real::from_bits(f64::NAN.to_bits()).is_none());
    assert_eq!(Real::from_int(-7), double(-7.0));
    assert_eq!(Real::from_int(i64::MAX), double(i64::MAX as f64));
    assert_eq!(Real::from_fraction(3, 2), double(0.75));
}
