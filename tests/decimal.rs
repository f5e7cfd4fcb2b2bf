use rpn_calc::{CustomError, DecimalFixed, IntErrorKindClone, DEFAULT_EXPONENT};

fn d(value: i64, exponent: i8) -> DecimalFixed {
    DecimalFixed::new_prescaled(value, exponent)
}

#[test]
fn parse_then_format_three_fourteen() {
    let x = DecimalFixed::parse_static_exp("3.14", Some(-9)).unwrap();
    assert_eq!(x, d(3_140_000_000, -9));
    assert_eq!(x.format(), "3.14");
}

#[test]
fn round_trip_canonical_texts() {
    for s in ["0", "7", "-7", "0.5", "-0.5", "123.456", "-42.000000001", "9223372036"] {
        let x = DecimalFixed::parse_static_exp(s, None).unwrap();
        assert_eq!(x.format(), s);
    }
}

#[test]
fn parse_pads_and_truncates_fraction() {
    assert_eq!(DecimalFixed::parse_static_exp("2.5", Some(-3)).unwrap(), d(2500, -3));
    assert_eq!(
        DecimalFixed::parse_static_exp("3.1415926535", None).unwrap(),
        d(3_141_592_653, -9)
    );
    assert_eq!(DecimalFixed::parse_static_exp("5.", None).unwrap(), d(5_000_000_000, -9));
    assert_eq!(DecimalFixed::parse_static_exp("-0.5", None).unwrap(), d(-500_000_000, -9));
}

#[test]
fn parse_errors() {
    assert_eq!(DecimalFixed::parse_static_exp("", None), Err(CustomError::BadInput));
    assert_eq!(DecimalFixed::parse_static_exp("1", Some(0)), Err(CustomError::Unimplemented));
    assert_eq!(
        DecimalFixed::parse_static_exp("1.2.3", None),
        Err(CustomError::ParseIntError(IntErrorKindClone::InvalidDigit))
    );
    assert_eq!(
        DecimalFixed::parse_static_exp("abc", None),
        Err(CustomError::ParseIntError(IntErrorKindClone::InvalidDigit))
    );
    assert_eq!(
        DecimalFixed::parse_static_exp(".5", None),
        Err(CustomError::ParseIntError(IntErrorKindClone::Empty))
    );
    assert_eq!(
        DecimalFixed::parse_static_exp("-", None),
        Err(CustomError::ParseIntError(IntErrorKindClone::InvalidDigit))
    );
    assert_eq!(
        DecimalFixed::parse_static_exp("99999999999999999999", None),
        Err(CustomError::ParseIntError(IntErrorKindClone::PosOverflow))
    );
    assert_eq!(
        DecimalFixed::parse_static_exp("-99999999999999999999", None),
        Err(CustomError::ParseIntError(IntErrorKindClone::NegOverflow))
    );
    assert_eq!(
        DecimalFixed::parse_static_exp("99999999999", None),
        Err(CustomError::MathOverflow)
    );
}

#[test]
fn parse_auto_exponent() {
    assert_eq!(DecimalFixed::parse_auto_exp("-1.25"), Ok(d(-125, -2)));
    assert_eq!(DecimalFixed::parse_auto_exp("42"), Ok(d(42, 0)));
    assert_eq!(
        DecimalFixed::parse_auto_exp(""),
        Err(CustomError::ParseIntError(IntErrorKindClone::Empty))
    );
    assert_eq!("0.075".parse::<DecimalFixed>(), Ok(d(75, -3)));
}

#[test]
fn format_cases() {
    assert_eq!(d(0, -9).format(), "0");
    assert_eq!(d(0, 3).format(), "0");
    assert_eq!(d(5, 3).format(), "5000");
    assert_eq!(d(-5, 3).format(), "-5000");
    assert_eq!(d(12, 0).format(), "12");
    assert_eq!(d(314, -2).format(), "3.14");
    assert_eq!(d(300, -2).format(), "3");
    assert_eq!(d(-1, -3).format(), "-0.001");
    assert_eq!(d(1_234_500, -4).format(), "123.45");
    assert_eq!(d(i64::MIN, -9).format(), "-9223372036.854775808");
    assert_eq!(d(7, -30).format(), "0.000000000000000000000000000007");
}

#[test]
fn new_scales_value() {
    assert_eq!(DecimalFixed::new(5, None), Ok(d(5_000_000_000, DEFAULT_EXPONENT)));
    assert_eq!(DecimalFixed::new(7, Some(0)), Ok(d(7, 0)));
    assert_eq!(DecimalFixed::new(12345, Some(2)), Ok(d(123, 2)));
    assert_eq!(DecimalFixed::new(-12345, Some(2)), Ok(d(-123, 2)));
    assert_eq!(DecimalFixed::new(5, Some(40)), Ok(d(0, 40)));
    assert_eq!(DecimalFixed::new(i64::MAX, Some(-1)), Err(CustomError::MathOverflow));
    assert_eq!(DecimalFixed::new(0, Some(-100)), Ok(d(0, -100)));
}

#[test]
fn addition_rescales_to_smaller_exponent() {
    assert_eq!(d(15, -1).addition(d(25, -2)), Ok(d(175, -2)));
    assert_eq!(d(25, -2).addition(d(15, -1)), Ok(d(175, -2)));
    assert_eq!(d(i64::MAX, 0).addition(d(1, 0)), Err(CustomError::MathOverflow));
    assert_eq!(d(i64::MAX, 0).addition(d(0, -1)), Err(CustomError::MathOverflow));
}

#[test]
fn subtract_and_identity() {
    let five = DecimalFixed::new(5, None).unwrap();
    let six = DecimalFixed::new(6, None).unwrap();
    assert_eq!(five.subtract(six), Ok(d(-1_000_000_000, -9)));
    let a = d(123_456, -3);
    let b = d(-9_999, -3);
    assert_eq!(a.addition(b).unwrap().subtract(b), Ok(a));
    assert_eq!(a.subtract(d(i64::MIN, -3)), Err(CustomError::MathOverflow));
}

#[test]
fn negation() {
    assert_eq!(d(5, -1).negate(), Ok(d(-5, -1)));
    assert_eq!(d(0, -1).negate(), Ok(d(0, -1)));
    assert_eq!(d(i64::MIN, 0).negate(), Err(CustomError::MathOverflow));
    let mut x = d(-8, 2);
    assert_eq!(x.negate_in_place(), Ok(()));
    assert_eq!(x, d(8, 2));
    let mut m = d(i64::MIN, 0);
    assert_eq!(m.negate_in_place(), Err(CustomError::MathOverflow));
    assert_eq!(m, d(i64::MIN, 0));
    assert!(d(-1, 0).is_negative());
    assert!(!d(0, 0).is_negative());
    assert!(d(0, 4).is_zero());
}

#[test]
fn multiply_keeps_exponent() {
    let a = DecimalFixed::parse_static_exp("2.5", None).unwrap();
    let b = DecimalFixed::parse_static_exp("4", None).unwrap();
    assert_eq!(a.multiply(b), Ok(d(10_000_000_000, -9)));
    let c = DecimalFixed::parse_static_exp("-0.333333333", None).unwrap();
    let three = DecimalFixed::new(3, None).unwrap();
    assert_eq!(c.multiply(three), Ok(d(-999_999_999, -9)));
    assert_eq!(d(3, 2).multiply(d(4, 2)), Ok(d(1200, 2)));
    assert_eq!(d(1, -1).multiply(d(1, -2)), Err(CustomError::Unimplemented));
    assert_eq!(d(i64::MAX, 0).multiply(d(2, 0)), Err(CustomError::MathOverflow));
}

#[test]
fn multiply_without_keeping_exponent() {
    assert_eq!(d(15, -1).multiply_no_keep_exp(d(2, -1)), Ok(d(30, -2)));
    assert_eq!(d(1, -100).multiply_no_keep_exp(d(1, -100)), Err(CustomError::MathOverflow));
    assert_eq!(d(i64::MAX, 0).multiply_no_keep_exp(d(2, 0)), Err(CustomError::MathOverflow));
}

#[test]
fn divide_keeps_exponent_and_truncates() {
    let one = DecimalFixed::new(1, None).unwrap();
    let three = DecimalFixed::new(3, None).unwrap();
    assert_eq!(one.divide(three), Ok(d(333_333_333, -9)));
    assert_eq!(d(-7, 0).divide(d(2, 0)), Ok(d(-3, 0)));
    assert_eq!(d(7, 1).divide(d(2, 1)), Ok(d(0, 1)));
    assert_eq!(d(1, -1).divide(d(1, -2)), Err(CustomError::Unimplemented));
    assert_eq!(
        DecimalFixed::new(9_000_000_000, None).unwrap().divide(d(1, -9)),
        Err(CustomError::MathOverflow)
    );
}

#[test]
fn divide_by_zero_is_bad_input() {
    let zero = d(0, -9);
    let x = d(5, -9);
    assert_eq!(x.divide(zero), Err(CustomError::BadInput));
    assert_eq!(x.divide_no_keep_exp(zero), Err(CustomError::BadInput));
    assert_eq!(d(i64::MAX, 0).divide(d(0, 0)), Err(CustomError::BadInput));
    assert_eq!(d(1, 0).divide(d(0, 5)), Err(CustomError::BadInput));
}

#[test]
fn divide_without_keeping_exponent() {
    assert_eq!(d(10, -1).divide_no_keep_exp(d(3, 0)), Ok(d(3, -1)));
    assert_eq!(d(i64::MIN, 0).divide_no_keep_exp(d(-1, 0)), Err(CustomError::MathOverflow));
    assert_eq!(d(1, -100).divide_no_keep_exp(d(1, 100)), Err(CustomError::MathOverflow));
}

#[test]
fn default_is_zero_at_default_exponent() {
    assert_eq!(DecimalFixed::default(), d(0, DEFAULT_EXPONENT));
    assert_eq!(CustomError::default(), CustomError::Other);
}

#[test]
fn subtract_min_value_when_difference_fits() {
    assert_eq!(d(-1, 0).subtract(d(i64::MIN, 0)), Ok(d(i64::MAX, 0)));
    let a = d(0, -9);
    let b = d(i64::MIN, -9);
    assert_eq!(a.addition(b).unwrap().subtract(b), Ok(a));
    assert_eq!(d(0, 0).subtract(d(i64::MIN, 0)), Err(CustomError::MathOverflow));
    assert_eq!(d(5, -1).subtract(d(25, -2)), Ok(d(25, -2)));
}

#[test]
fn from_str_applies_sign_to_whole_number() {
    assert_eq!("-1.5".parse::<DecimalFixed>(), Ok(d(-15, -1)));
    assert_eq!("3.14".parse::<DecimalFixed>(), Ok(d(314, -2)));
}

#[test]
fn format_of_parse_is_canonical_form() {
    for (text, canonical) in [
        ("+03.140", "3.14"),
        ("-0.50", "-0.5"),
        ("-0.0", "0"),
        ("-000", "0"),
        ("007", "7"),
        ("5.", "5"),
        ("-12.000000000", "-12"),
    ] {
        let x = DecimalFixed::parse_static_exp(text, None).unwrap();
        assert_eq!(x.format(), canonical);
    }
}
