use rust_decimal::decimal::Decimal;
use rust_decimal::limbs::{add_by_internal4, mul_by_u32_4, rescale_internal, shl1_internal};

fn extract(value: &str) -> ([u32; 3], u32) {
    let v = Decimal::from_str(value).unwrap();
    ([v.lo(), v.mid(), v.hi()], v.scale())
}

#[test]
fn it_can_rescale_internal() {
    let tests = &[
        ("1", 0, "1"),
        ("1", 1, "1.0"),
        ("1", 5, "1.00000"),
        ("1", 10, "1.0000000000"),
        ("1", 20, "1.00000000000000000000"),
        ("0.6386554621848739495798319328", 27, "0.638655462184873949579831933"),
        ("843.65000000", 25, "843.6500000000000000000000000"),
        ("843.65000000", 30, "843.6500000000000000000000000000"),
    ];

    for &(value_raw, new_scale, expected_value) in tests {
        let (expected_value, _) = extract(expected_value);
        let (mut value, mut value_scale) = extract(value_raw);
        rescale_internal(&mut value, &mut value_scale, new_scale);
        assert_eq!(value, expected_value);
    }
}

#[test]
fn test_shl1_internal() {
    struct TestCase {
        given: [u32; 3],
        given_carry: u32,
        expected: [u32; 3],
        expected_carry: u32,
    }
    let tests = [
        TestCase {
            given: [1, 0, 0],
            given_carry: 0,
            expected: [2, 0, 0],
            expected_carry: 0,
        },
        TestCase {
            given: [1, 0, 2147483648],
            given_carry: 1,
            expected: [3, 0, 0],
            expected_carry: 1,
        },
    ];
    for case in &tests {
        let mut test = [case.given[0], case.given[1], case.given[2]];
        let carry = shl1_internal(&mut test, case.given_carry);
        assert_eq!(test, case.expected, "Bits: {:?} << 1 | {}", case.given, case.given_carry);
        assert_eq!(carry, case.expected_carry, "Carry: {:?} << 1 | {}", case.given, case.given_carry)
    }
}

#[test]
fn four_limb_forms() {
    let mut v = [u32::MAX, u32::MAX, u32::MAX, 0];
    assert_eq!(add_by_internal4(&mut v, &[1, 0, 0]), 0);
    assert_eq!(v, [0, 0, 0, 1]);
    let mut w = [0, 0, 0, u32::MAX];
    assert_eq!(add_by_internal4(&mut w, &[0, 0, 1]), 0);
    let mut x = [u32::MAX, u32::MAX, u32::MAX, 1];
    assert_eq!(mul_by_u32_4(&mut x, 10), 0);
    assert_eq!(x, [u32::MAX - 9, u32::MAX, u32::MAX, 19]);
    let mut y = [0, 0, 0, 0x8000_0000];
    assert_eq!(mul_by_u32_4(&mut y, 2), 1);
    assert_eq!(y, [0, 0, 0, 0]);
}
