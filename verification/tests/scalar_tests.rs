use symrs::Scalar;

fn s(re: i64, im: i64, den: i64) -> Scalar {
    Scalar { re, im, den }
}

#[test]
fn a_new_scalar_is_in_lowest_terms() {
    assert_eq!(Scalar::new(2, 0, 4), Some(s(1, 0, 2)));
    assert_eq!(Scalar::new(-6, 9, 12), Some(s(-2, 3, 4)));
    assert_eq!(Scalar::new(0, 0, 5), Some(s(0, 0, 1)));
    assert_eq!(Scalar::new(7, 0, 1), Some(s(7, 0, 1)));
    assert_eq!(Scalar::new(1, 0, 0), None);
    assert_eq!(Scalar::new(1, 0, -3), None);
    assert_eq!(Scalar::new(i64::MIN, 0, 2), Some(s(i64::MIN / 2, 0, 1)));
    assert_eq!(Scalar::integer(-5), s(-5, 0, 1));
}

#[test]
fn sums_are_exact() {
    let half = s(1, 0, 2);
    assert_eq!(half.checked_add(&half), Some(s(1, 0, 1)));
    assert_eq!(s(1, 0, 3).checked_add(&s(1, 0, 6)), Some(s(1, 0, 2)));
    assert_eq!(s(1, 2, 3).checked_add(&s(-1, 1, 2)), Some(s(-1, 7, 6)));
    assert_eq!(s(i64::MAX, 0, 1).checked_add(&s(1, 0, 1)), None);
    assert_eq!(s(i64::MAX, 0, 1).checked_add(&s(-1, 0, 1)), Some(s(i64::MAX - 1, 0, 1)));
    assert_eq!(s(i64::MIN, 0, 1).checked_add(&s(i64::MIN, 0, 1)), None);
    // the cross product is too large, the sum in lowest terms is not
    let big = s(1, 0, 4_000_000_000);
    assert_eq!(big.checked_add(&big), Some(s(1, 0, 2_000_000_000)));
}

#[test]
fn products_are_exact() {
    assert_eq!(s(2, 0, 3).checked_mul(&s(3, 0, 4)), Some(s(1, 0, 2)));
    // (1 + 2i)(3 - i) = 5 + 5i
    assert_eq!(s(1, 2, 1).checked_mul(&s(3, -1, 1)), Some(s(5, 5, 1)));
    // i * i = -1
    assert_eq!(s(0, 1, 1).checked_mul(&s(0, 1, 1)), Some(s(-1, 0, 1)));
    assert_eq!(s(i64::MAX, 0, 1).checked_mul(&s(2, 0, 1)), None);
    assert_eq!(s(i64::MIN, i64::MIN, 1).checked_mul(&s(i64::MIN, i64::MIN, 1)), None);
    assert_eq!(s(1, 0, i64::MAX).checked_mul(&s(1, 0, 2)), None);
    assert_eq!(s(i64::MAX, 0, 7).checked_mul(&s(7, 0, i64::MAX)), Some(s(1, 0, 1)));
}

#[test]
fn reciprocals_are_exact() {
    assert_eq!(s(4, 0, 1).checked_recip(), Some(s(1, 0, 4)));
    assert_eq!(s(-2, 0, 3).checked_recip(), Some(s(-3, 0, 2)));
    // 1 / i = -i
    assert_eq!(s(0, 1, 1).checked_recip(), Some(s(0, -1, 1)));
    // 1 / (1 + i) = (1 - i) / 2
    assert_eq!(s(1, 1, 1).checked_recip(), Some(s(1, -1, 2)));
    assert_eq!(s(0, 0, 1).checked_recip(), None);
    assert_eq!(s(i64::MAX, 1, 1).checked_recip(), None);
}

#[test]
fn powers_are_exact() {
    assert_eq!(s(2, 0, 1).checked_pow(10), Some(s(1024, 0, 1)));
    assert_eq!(s(2, 0, 1).checked_pow(0), Some(s(1, 0, 1)));
    assert_eq!(s(0, 0, 1).checked_pow(0), Some(s(1, 0, 1)));
    assert_eq!(s(0, 1, 1).checked_pow(3), Some(s(0, -1, 1)));
    assert_eq!(s(-1, 0, 1).checked_pow(1_000_000_000_001), Some(s(-1, 0, 1)));
    assert_eq!(s(2, 0, 1).checked_pow(64), None);
    assert_eq!(s(2, 0, 3).checked_powi(-2), Some(s(9, 0, 4)));
    assert_eq!(s(2, 0, 1).checked_powi(5), Some(s(32, 0, 1)));
    assert_eq!(s(0, 0, 1).checked_powi(-1), None);
    assert_eq!(s(1, 1, 1).checked_powi(2), Some(s(0, 2, 1)));
}

#[test]
fn zero_one_and_integers_are_told_by_value() {
    assert!(s(0, 0, 7).is_zero());
    assert!(!s(0, 1, 7).is_zero());
    assert!(s(7, 0, 7).is_one());
    assert!(!s(7, 1, 7).is_one());
    assert!(!s(1, 0, 7).is_one());
    assert_eq!(s(6, 0, 3).as_integer(), Some(2));
    assert_eq!(s(-6, 0, 3).as_integer(), Some(-2));
    assert_eq!(s(7, 0, 3).as_integer(), None);
    assert_eq!(s(-7, 0, 3).as_integer(), None);
    assert_eq!(s(6, 1, 3).as_integer(), None);
    assert_eq!(s(i64::MIN, 0, 1).as_integer(), Some(i64::MIN));
    assert_eq!(s(0, 0, 9).as_integer(), Some(0));
}

#[test]
fn scalars_are_written_in_exponent_form() {
    assert_eq!(s(0, 0, 1).text(), "0.000");
    assert_eq!(s(1, 0, 1).text(), "1.000e0");
    assert_eq!(s(-12, 0, 1).text(), "-1.200e1");
    assert_eq!(s(3, 0, 4).text(), "7.500e-1");
    assert_eq!(s(1, 0, 3).text(), "3.333e-1");
    assert_eq!(s(0, 1, 1).text(), "1.000e0i");
    assert_eq!(s(0, -1, 2).text(), "-5.000e-1i");
    assert_eq!(s(1, 2, 3).text(), "3.333e-1+6.667e-1i");
    assert_eq!(s(5, -7, 1).text(), "5.000e0+-7.000e0i");
    assert_eq!(s(i64::MIN, 0, 1).text(), "-9.223e18");
    assert_eq!(s(i64::MAX, 0, 10).text(), "9.223e17");
    assert_eq!(s(1000, 0, 1).text(), "1.000e3");
    assert_eq!(s(123456789, 0, 1).text(), "1.235e8");
    assert_eq!(s(99996, 0, 1).text(), "1.000e5");
    assert_eq!(s(99994, 0, 10).text(), "9.999e3");
}

#[test]
fn a_tie_rounds_to_the_even_digit() {
    assert_eq!(s(2469, 0, 2).text(), "1.234e3");
    assert_eq!(s(2471, 0, 2).text(), "1.236e3");
    assert_eq!(s(19999, 0, 2).text(), "1.000e4");
    assert_eq!(s(-5, 0, 16).text(), "-3.125e-1");
    assert_eq!(s(10005, 0, 1).text(), "1.000e4");
    assert_eq!(s(10015, 0, 1).text(), "1.002e4");
}

#[test]
fn a_part_within_the_tolerance_is_written_as_zero() {
    let tiny: i64 = 1_000_000_000_000_000;
    assert_eq!(s(1, 0, tiny).text(), "0.000");
    assert_eq!(s(-1, 0, tiny).text(), "0.000");
    assert_eq!(s(1, 0, tiny - 1).text(), "1.000e-15");
    assert_eq!(s(2, 0, tiny).text(), "2.000e-15");
    assert_eq!(s(1, 0, i64::MAX).text(), "0.000");
    assert_eq!(s(tiny, 1, tiny).text(), "1.000e0");
    assert_eq!(s(1, tiny, tiny).text(), "1.000e0i");
    assert_eq!(s(1, 1, tiny).text(), "0.000");
}

#[test]
fn the_written_form_is_that_of_the_nearest_double() {
    let cases: [(i64, i64); 12] = [
        (1, 1),
        (-2, 1),
        (1, 2),
        (2469, 2),
        (2471, 2),
        (19999, 2),
        (22, 7),
        (355, 113),
        (1, 1024),
        (123456789, 1000),
        (7, 100000),
        (-999949, 100),
    ];
    for (n, d) in cases {
        let x = n as f64 / d as f64;
        assert_eq!(s(n, 0, d).text(), format!("{x:.3e}"), "{n}/{d}");
        assert_eq!(s(0, n, d).text(), format!("{x:.3e}i"), "{n}/{d}");
    }
}


#[test]
fn a_double_is_read_as_the_fraction_it_denotes() {
    let read = |x: f64| Scalar::from_double_bits(x.to_bits());
    assert_eq!(read(0.0), Some(s(0, 0, 1)));
    assert_eq!(read(-0.0), Some(s(0, 0, 1)));
    assert_eq!(read(1.0), Some(s(1, 0, 1)));
    assert_eq!(read(-2.0), Some(s(-2, 0, 1)));
    assert_eq!(read(0.5), Some(s(1, 0, 2)));
    assert_eq!(read(3.75), Some(s(15, 0, 4)));
    assert_eq!(read(-0.3125), Some(s(-5, 0, 16)));
    assert_eq!(read(1234.5), Some(s(2469, 0, 2)));
    assert_eq!(read(0.1), Some(s(3602879701896397, 0, 36028797018963968)));
    assert_eq!(read(4503599627370497.0), Some(s(4503599627370497, 0, 1)));
    assert_eq!(read(9007199254740992.0), Some(s(9007199254740992, 0, 1)));
    assert_eq!(read(1e15), Some(s(1_000_000_000_000_000, 0, 1)));
    for n in -40i64..=40 {
        assert_eq!(read(n as f64), Some(Scalar::integer(n)));
        assert_eq!(read(n as f64 / 8.0), Scalar::new(n, 0, 8));
    }
}

#[test]
fn a_double_that_cannot_be_held_is_refused() {
    let read = |x: f64| Scalar::from_double_bits(x.to_bits());
    assert_eq!(read(f64::INFINITY), None);
    assert_eq!(read(f64::NEG_INFINITY), None);
    assert_eq!(read(f64::NAN), None);
    assert_eq!(read(f64::MAX), None);
    assert_eq!(read(1e300), None);
    // two to the power of 63 is one more than the greatest component
    assert_eq!(read(9223372036854775808.0), None);
    assert_eq!(read(-9223372036854775808.0), Some(Scalar::integer(i64::MIN)));
    assert_eq!(read(4611686018427387904.0), Some(Scalar::integer(1 << 62)));
    assert_eq!(read(18446744073709551616.0), None);
    assert_eq!(read(-18446744073709551616.0), None);
    // the denominators end at two to the power of 62
    let small = 1.0 / 4611686018427387904.0;
    assert_eq!(read(small), Some(s(1, 0, 1 << 62)));
    assert_eq!(read(small / 2.0), None);
    assert_eq!(read(3.0 * small), Some(s(3, 0, 1 << 62)));
    assert_eq!(read(f64::MIN_POSITIVE), None);
    assert_eq!(read(f64::from_bits(1)), None);
    assert_eq!(read(f64::EPSILON), Some(s(1, 0, 1 << 52)));
}
