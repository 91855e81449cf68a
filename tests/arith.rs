use core::cmp::Ordering;
use rust_decimal::decimal::Decimal;

fn d(s: &str) -> Decimal {
    Decimal::from_str(s).unwrap()
}

#[test]
fn compare_across_scales() {
    assert_eq!(d("1.0").cmp(&d("1")), Ordering::Equal);
    assert_eq!(d("-0").cmp(&d("0.00")), Ordering::Equal);
    assert_eq!(d("1.01").cmp(&d("1.1")), Ordering::Less);
    assert_eq!(d("-2").cmp(&d("-1.5")), Ordering::Less);
    assert_eq!(d("-1").cmp(&d("0.5")), Ordering::Less);
    assert_eq!(d("79228162514264337593543950335").cmp(&d("0.0000000000000000000000000001")), Ordering::Greater);
    assert_eq!(d("3").max(d("2.5")).to_string(), "3");
    assert_eq!(d("3").min(d("2.5")).to_string(), "2.5");
    assert_eq!(d("-1.50").max(d("-1.5")).to_string(), "-1.50");
}

#[test]
fn checked_add_and_sub() {
    assert_eq!(d("1.5").checked_add(d("2.25")).unwrap().to_string(), "3.75");
    assert_eq!(d("1.5").checked_add(d("-2.25")).unwrap().to_string(), "-0.75");
    assert_eq!(d("1.5").checked_sub(d("1.50")).unwrap().to_string(), "0.00");
    assert_eq!(d("-1").checked_sub(d("2")).unwrap().to_string(), "-3");
    let max = Decimal::max_value();
    assert!(max.checked_add(d("1")).is_none());
    assert_eq!(max.checked_sub(d("1")).unwrap().to_string(), "79228162514264337593543950334");
    // The exact sum needs 29 digits at scale 28: one digit goes, rounding half up.
    assert_eq!(
        d("5.0000000000000000000000000005").checked_add(d("5")).unwrap().to_string(),
        "10.000000000000000000000000001"
    );
}

#[test]
fn checked_mul_results_and_overflow() {
    assert_eq!(d("1.5").checked_mul(d("-2.5")).unwrap().to_string(), "-3.75");
    assert_eq!(d("0.1").checked_mul(d("0.1")).unwrap().to_string(), "0.01");
    // Scales add to 30: two digits go.
    assert_eq!(
        d("0.000000000000001").checked_mul(d("0.000000000000005")).unwrap().to_string(),
        "0.0000000000000000000000000000"
    );
    // The integer part of the product needs more than 96 bits.
    assert!(Decimal::max_value().checked_mul(d("2")).is_none());
    assert!(d("10000000000000000000").checked_mul(d("10000000000")).is_none());
    assert!(d("100000000000000").checked_mul(d("1000000000000000.5")).is_none());
    // The exact product does not fit, but the rounded one does.
    assert_eq!(
        d("7922816251426433759354395033.5").checked_mul(d("10")).unwrap().to_string(),
        "79228162514264337593543950335"
    );
}

#[test]
fn integer_conversions() {
    assert_eq!(d("-12.9").to_i64(), Some(-12));
    assert_eq!(d("-0.5").to_u64(), Some(0));
    assert_eq!(d("-1.5").to_u64(), None);
    assert_eq!(d("18446744073709551616").to_u64(), None);
    assert_eq!(d("9223372036854775808").to_i64(), None);
    assert_eq!(d("-9223372036854775808").to_i64(), Some(i64::MIN));
    assert_eq!(Decimal::max_value().to_i128(), Some(79_228_162_514_264_337_593_543_950_335));
    assert!(Decimal::from_i128(1i128 << 96).is_none());
    assert_eq!(Decimal::from_u128((1u128 << 96) - 1).unwrap().to_string(), "79228162514264337593543950335");
    assert_eq!(Decimal::from_i64(-7).unwrap().to_string(), "-7");
    assert_eq!(d("-0.3").signum().to_string(), "-1");
    assert_eq!(d("0.000").signum().to_string(), "0");
}

#[test]
fn checked_div_results() {
    assert_eq!(d("1").checked_div(d("2")).unwrap().to_string(), "0.5");
    assert_eq!(d("10").checked_div(d("3")).unwrap().to_string(), "3.3333333333333333333333333333");
    assert_eq!(d("2").checked_div(d("3")).unwrap().to_string(), "0.6666666666666666666666666667");
    assert_eq!(d("-7.50").checked_div(d("2.5")).unwrap().to_string(), "-3.0");
    assert_eq!(d("1").checked_div(d("0.5")).unwrap().to_string(), "2");
    assert_eq!(d("0").checked_div(d("-3")).unwrap().to_string(), "0");
    assert!(d("1").checked_div(d("0")).is_none());
    assert!(Decimal::max_value().checked_div(d("0.1")).is_none());
    assert_eq!(Decimal::max_value().checked_div(d("1")).unwrap().to_string(), "79228162514264337593543950335");
}

#[test]
fn checked_rem_results() {
    assert_eq!(d("7").checked_rem(d("3")).unwrap().to_string(), "1");
    assert_eq!(d("-7").checked_rem(d("3")).unwrap().to_string(), "-1");
    assert_eq!(d("7.5").checked_rem(d("2")).unwrap().to_string(), "1.5");
    assert_eq!(d("7").checked_rem(d("0.25")).unwrap().to_string(), "0.00");
    assert_eq!(d("1").checked_rem(d("0.0000000000000000000000000003")).unwrap().to_string(), "0.0000000000000000000000000001");
    assert_eq!(d("79228162514264337593543950335").checked_rem(d("0.0000000000000000000000000007")).unwrap().to_string(),
               "0.0000000000000000000000000000");
    assert!(d("1").checked_rem(d("0.00")).is_none());
}

#[test]
fn abs_sub_follows_comparison() {
    assert_eq!(d("-5").abs_sub(&d("-7")).to_string(), "5");
    assert_eq!(d("2").abs_sub(&d("3")).to_string(), "0");
    assert_eq!(d("2.0").abs_sub(&d("2")).to_string(), "0");
}
