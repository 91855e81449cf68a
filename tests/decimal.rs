use rust_decimal::decimal::{Decimal, Error, RoundingStrategy};
use rust_decimal::fmt::fmt_scientific_notation;

fn d(s: &str) -> Decimal {
    Decimal::from_str(s).unwrap()
}

#[test]
fn scale_examples() {
    assert_eq!(Decimal::new(3141, 3).to_string(), "3.141");
    assert_eq!(Decimal::new(-3141, 3).abs().to_string(), "3.141");
    assert_eq!(Decimal::new(3641, 3).floor().to_string(), "3");
}

#[test]
fn new_and_from_i128_with_scale() {
    assert_eq!(Decimal::new(-5, 0).to_string(), "-5");
    assert_eq!(Decimal::new(0, 2).to_string(), "0.00");
    assert_eq!(Decimal::new(i64::MIN, 0).to_string(), "-9223372036854775808");
    assert_eq!(Decimal::from_i128_with_scale(3141, 3).to_string(), "3.141");
    let max = Decimal::from_i128_with_scale(79_228_162_514_264_337_593_543_950_335, 0);
    assert_eq!(max.to_string(), "79228162514264337593543950335");
    assert_eq!(Decimal::max_value().to_string(), "79228162514264337593543950335");
    assert_eq!(Decimal::min_value().to_string(), "-79228162514264337593543950335");
}

#[test]
fn from_parts_caps_scale_and_drops_sign_of_zero() {
    let pi = Decimal::from_parts(1102470952, 185874565, 1703060790, false, 28);
    assert_eq!(pi.to_string(), "3.1415926535897932384626433832");
    let z = Decimal::from_parts(0, 0, 0, true, 30);
    assert!(z.is_sign_positive());
    assert_eq!(z.scale(), 1);
}

#[test]
fn serialize_round_trip() {
    let v = Decimal::from_parts(1, 2, 3, true, 5);
    let bytes = v.serialize();
    assert_eq!(bytes, [0, 0, 5, 0x80, 1, 0, 0, 0, 2, 0, 0, 0, 3, 0, 0, 0]);
    let back = Decimal::deserialize(bytes);
    assert_eq!(back.unpack().lo, 1);
    assert_eq!(back.unpack().mid, 2);
    assert_eq!(back.unpack().hi, 3);
    assert_eq!(back.scale(), 5);
    assert!(back.is_sign_negative());
    let w = d("-123456789012.345678901234567");
    assert_eq!(Decimal::deserialize(w.serialize()).to_string(), w.to_string());
}

#[test]
fn rounding_strategy_table() {
    assert_eq!(d("6.5").round_dp_with_strategy(0, RoundingStrategy::MidpointNearestEven).to_string(), "6");
    assert_eq!(d("7.5").round_dp_with_strategy(0, RoundingStrategy::MidpointNearestEven).to_string(), "8");
    assert_eq!(d("-6.5").round_dp_with_strategy(0, RoundingStrategy::MidpointAwayFromZero).to_string(), "-7");
    assert_eq!(d("6.5").round_dp_with_strategy(0, RoundingStrategy::MidpointTowardZero).to_string(), "6");
    assert_eq!(d("6.51").round_dp_with_strategy(0, RoundingStrategy::MidpointTowardZero).to_string(), "7");
    assert_eq!(d("-6.8").round_dp_with_strategy(0, RoundingStrategy::ToZero).to_string(), "-6");
    assert_eq!(d("6.2").round_dp_with_strategy(0, RoundingStrategy::AwayFromZero).to_string(), "7");
    assert_eq!(d("-6.2").round_dp_with_strategy(0, RoundingStrategy::ToNegativeInfinity).to_string(), "-7");
    assert_eq!(d("6.2").round_dp_with_strategy(0, RoundingStrategy::ToNegativeInfinity).to_string(), "6");
    assert_eq!(d("6.2").round_dp_with_strategy(0, RoundingStrategy::ToPositiveInfinity).to_string(), "7");
    assert_eq!(d("-6.8").round_dp_with_strategy(0, RoundingStrategy::ToPositiveInfinity).to_string(), "-6");
    assert_eq!(d("1.2345").round_dp(2).to_string(), "1.23");
    assert_eq!(d("2.51").round_dp(3).to_string(), "2.51");
    assert_eq!(d("2.5").round().to_string(), "2");
    assert_eq!(RoundingStrategy::ROUND_HALF_UP, RoundingStrategy::MidpointAwayFromZero);
}

#[test]
fn trunc_fract_floor_ceil() {
    assert_eq!(d("-3.75").trunc().to_string(), "-3");
    assert_eq!(d("-3.75").fract().to_string(), "-0.75");
    assert_eq!(d("-3.75").floor().to_string(), "-4");
    assert_eq!(d("-3.75").ceil().to_string(), "-3");
    assert_eq!(d("3.75").ceil().to_string(), "4");
    assert_eq!(d("3.00").ceil().to_string(), "3");
    assert_eq!(d("12").floor().to_string(), "12");
}

#[test]
fn normalize_strips_trailing_zeros() {
    assert_eq!(d("1.2300").normalize().to_string(), "1.23");
    assert_eq!(d("-0.000").normalize().to_string(), "0");
    assert_eq!(d("100").normalize().to_string(), "100");
}

#[test]
fn rescale_rounds_half_up_and_caps() {
    let mut v = d("1.2345");
    v.rescale(2);
    assert_eq!(v.to_string(), "1.23");
    let mut w = d("1.235");
    w.rescale(2);
    assert_eq!(w.to_string(), "1.24");
    let mut x = d("1");
    x.rescale(40);
    assert_eq!(x.scale(), 28);
    let mut y = d("0.05");
    y.rescale(0);
    assert_eq!(y.to_string(), "0");
}

#[test]
fn set_scale_and_signs() {
    let mut v = d("123");
    assert_eq!(v.set_scale(2), Ok(()));
    assert_eq!(v.to_string(), "1.23");
    assert_eq!(v.set_scale(29), Err(Error::ScaleExceedsMaximumPrecision));
    v.set_sign_negative(true);
    assert_eq!(v.to_string(), "-1.23");
    assert!(v.is_sign_negative());
    v.set_sign_positive(true);
    assert!(v.is_sign_positive());
    assert_eq!(v.mantissa(), 123);
    assert!(d("0.000").is_zero());
}

#[test]
fn parse_errors() {
    assert_eq!(Decimal::from_str("").unwrap_err(), Error::Empty);
    assert_eq!(Decimal::from_str("1.2.3").unwrap_err(), Error::TwoDecimalPoints);
    assert_eq!(Decimal::from_str("-").unwrap_err(), Error::NoDigits);
    assert_eq!(Decimal::from_str("_1").unwrap_err(), Error::LeadingSeparator);
    assert_eq!(Decimal::from_str("1x").unwrap_err(), Error::InvalidCharacter);
    assert_eq!(Decimal::from_str_radix("1", 1).unwrap_err(), Error::UnsupportedRadix);
    assert_eq!(Decimal::from_str_radix("1", 37).unwrap_err(), Error::UnsupportedRadix);
    assert_eq!(Decimal::from_str_radix("12", 2).unwrap_err(), Error::InvalidCharacter);
    assert_eq!(
        Decimal::from_str("7922816251426433759354395033500000").unwrap_err(),
        Error::OverflowTooManyDigits
    );
    assert_eq!(
        Decimal::from_str("79228162514264337593543950335000.1").unwrap_err(),
        Error::OverflowTooManyDigits
    );
    assert_eq!(
        Decimal::from_str("79228162514264337593543950336").unwrap_err(),
        Error::OverflowFromCarry
    );
    assert_eq!(
        Decimal::from_str("79228162514264337593543950340").unwrap_err(),
        Error::OverflowScaleMismatch
    );
    let ones = format!("{}.1", "1".repeat(96));
    assert_eq!(Decimal::from_str_radix(&ones, 2).unwrap_err(), Error::OverflowWhenRounding);
}

#[test]
fn parse_accepts_signs_and_separators() {
    assert_eq!(d("+1_000.50").to_string(), "1000.50");
    assert_eq!(d("-.5").to_string(), "-0.5");
    assert_eq!(d("5.").to_string(), "5");
    assert_eq!(Decimal::from_str_radix("ff", 16).unwrap().to_string(), "255");
    assert_eq!(Decimal::from_str_radix("-1.1", 2).unwrap().to_string(), "-0.3");
    assert_eq!(Decimal::from_str_radix("Z", 36).unwrap().to_string(), "35");
}

#[test]
fn parse_format_round_trip() {
    for s in ["0", "1", "-1", "0.001", "123.4500", "-0.5", "79228162514264337593543950335",
              "0.0000000000000000000000000001", "7.9228162514264337593543950335"] {
        assert_eq!(d(s).to_string(), s);
    }
}

#[test]
fn parse_overflow_rounding() {
    // Twenty-nine significant digits do not fit: the last one decides rounding.
    assert_eq!(d("9.9999999999999999999999999995").to_string(), "10.000000000000000000000000000");
    assert_eq!(d("9.9999999999999999999999999994").to_string(), "9.999999999999999999999999999");
    assert_eq!(d("1.00000000000000000000000000049").to_string(), "1.0000000000000000000000000005");
    assert_eq!(d("1.00000000000000000000000000041").to_string(), "1.0000000000000000000000000004");
    assert_eq!(d("0.00000000000000000000000000005").to_string(), "0.0000000000000000000000000001");
}

#[test]
fn scientific_notation() {
    assert_eq!(Decimal::from_scientific("9.7e-7").unwrap().to_string(), "0.00000097");
    assert_eq!(Decimal::from_scientific("1.50E3").unwrap().to_string(), "1500");
    assert_eq!(Decimal::from_scientific("12.5e1").unwrap().to_string(), "125");
    assert_eq!(Decimal::from_scientific("1.5").unwrap_err(), Error::InvalidScientific);
    assert_eq!(Decimal::from_scientific("1e-29").unwrap_err(), Error::ScaleExceedsMaximumPrecision);
    assert_eq!(Decimal::from_scientific("1ex").unwrap_err(), Error::InvalidScientific);
}

#[test]
fn float_bridge_from_bits() {
    assert_eq!(Decimal::from_f64_bits(0.1f64.to_bits()).unwrap().to_string(), "0.1");
    assert_eq!(Decimal::from_f64_bits((-2.5f64).to_bits()).unwrap().to_string(), "-2.5");
    assert_eq!(Decimal::from_f64_bits(1e20f64.to_bits()).unwrap().to_string(), "100000000000000000000");
    assert_eq!(Decimal::from_f64_bits(3.141592653589793f64.to_bits()).unwrap().to_string(), "3.141592653589793");
    assert!(Decimal::from_f64_bits(f64::NAN.to_bits()).is_none());
    assert!(Decimal::from_f64_bits(f64::INFINITY.to_bits()).is_none());
    assert!(Decimal::from_f64_bits(1e30f64.to_bits()).is_none());
    assert!(Decimal::from_f64_bits((-0.0f64).to_bits()).unwrap().is_sign_negative());
    assert_eq!(Decimal::from_f32_bits(0.1f32.to_bits()).unwrap().to_string(), "0.1");
    assert_eq!(Decimal::from_f32_bits(1.5f32.to_bits()).unwrap().to_string(), "1.5");
    assert!(Decimal::from_f32_bits(f32::NAN.to_bits()).is_none());
}

#[test]
fn scientific_formatting() {
    assert_eq!(fmt_scientific_notation(&d("1234.5"), false), "1.2345e3");
    assert_eq!(fmt_scientific_notation(&d("-0.00012"), true), "-1.2E-4");
    assert_eq!(fmt_scientific_notation(&d("1000"), false), "1e3");
    assert_eq!(fmt_scientific_notation(&d("0.100"), false), "1e-1");
    assert_eq!(fmt_scientific_notation(&d("7"), false), "7e0");
    assert_eq!(fmt_scientific_notation(&d("0.00"), false), "0e-2");
}

#[test]
fn default_is_zero() {
    let z = Decimal::default();
    assert!(z.is_zero());
    assert_eq!(z.to_string(), "0");
}

#[test]
fn float_bridge_keeps_sixteen_digits() {
    for x in [0.1f64, 1.5, 3.141592653589793, 123456.789, 1e-10, -2.718281828459045, 9007199254740993.0] {
        let v = Decimal::from_f64_bits(x.to_bits()).unwrap();
        let back: f64 = v.to_string().parse().unwrap();
        assert!((back - x).abs() <= x.abs() * 1e-15, "{} -> {}", x, v.to_string());
    }
}

#[test]
fn separators_trailing_point_and_error_kinds() {
    assert_eq!(d("1_0").to_string(), "10");
    assert_eq!(d("1.").to_string(), "1");
    assert_eq!(Decimal::from_str(".").unwrap_err(), Error::NoDigits);
    assert_eq!(Decimal::from_str("1a").unwrap_err(), Error::InvalidCharacter);
    assert_eq!(Decimal::from_str_radix("g", 16).unwrap_err(), Error::InvalidCharacter);
    assert_eq!(Decimal::from_str_radix("1.1.", 3).unwrap_err(), Error::TwoDecimalPoints);
    assert_eq!(
        Decimal::from_str("100000000000000000000000000000").unwrap_err(),
        Error::OverflowTooManyDigits
    );
    assert_eq!(Decimal::from_scientific("1.2.3e1").unwrap_err(), Error::TwoDecimalPoints);
    assert_eq!(Decimal::from_scientific("-e1").unwrap_err(), Error::NoDigits);
}

#[test]
fn precision_override() {
    assert_eq!(d("3.14159").to_string_with_precision(2), "3.14");
    assert_eq!(d("-1.5").to_string_with_precision(3), "-1.500");
    assert_eq!(d("0.25").to_string_with_precision(0), "0");
    assert_eq!(d("12").to_string_with_precision(1), "12.0");
}

#[test]
fn float_bridge_halves() {
    assert_eq!(Decimal::from_f64_bits(0.5f64.to_bits()).unwrap().to_string(), "0.5");
    assert_eq!(Decimal::from_f32_bits(0.25f32.to_bits()).unwrap().to_string(), "0.25");
}
