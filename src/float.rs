//! From a binary floating-point number, given by its bits, to a decimal.

use vstd::prelude::*;

use crate::arith::pow2;
use crate::decimal::Decimal;
use crate::limbs::{
    add_one_internal, div_by_10, div_by_u32, is_all_zero, limit, mul_by_10, mul_by_u32,
    shl1_internal, val3,
};

verus! {

/// The mantissa bits above what a double guarantees: the value may still be
/// rounded one decimal digit further.
pub open spec fn beyond_double(bits: [u32; 3]) -> bool {
    val3(bits) >= 0x10_0000_0000_0000
}

/// The mantissa bits above what a single guarantees.
pub open spec fn beyond_single(bits: [u32; 3]) -> bool {
    val3(bits) >= 0x100_0000
}

proof fn lemma_pow2_pos(n: nat)
    ensures
        pow2(n) >= 1,
    decreases n,
{
    if n > 0 {
        lemma_pow2_pos((n - 1) as nat);
    }
}

proof fn lemma_pow2_mono(a: nat, b: nat)
    requires
        a <= b,
    ensures
        1 <= pow2(a) <= pow2(b),
    decreases b,
{
    lemma_pow2_pos(a);
    if b > a {
        lemma_pow2_mono(a, (b - 1) as nat);
    }
}

/// While five-powers are owed (`e5 > 0`): halve an even mantissa, raising
/// the decimal exponent; else multiply by five, or, where that leaves 96
/// bits, halve it losing a bit.
pub open spec fn fives_down(v: nat, e5: int, e10: int) -> (nat, int, int)
    decreases e5,
{
    if e5 <= 0 {
        (v, e5, e10)
    } else if v % 2 == 0 {
        fives_down(v / 2, e5 - 1, e10 + 1)
    } else if v * 5 < limit() {
        fives_down(v * 5, e5 - 1, e10)
    } else {
        fives_down(v / 2, e5 - 1, e10 + 1)
    }
}

/// While five-powers are to be divided out (`e5 < 0`): double while the
/// top bit is free, lowering the decimal exponent; else divide by five.
pub open spec fn fives_up(v: nat, e5: int, e10: int) -> (nat, int)
    decreases -e5,
{
    if e5 >= 0 {
        (v, e10)
    } else if v < limit() / 2 {
        fives_up(v * 2, e5 + 1, e10 - 1)
    } else {
        fives_up(v / 5, e5 + 1, e10)
    }
}

/// A positive decimal exponent is multiplied into the mantissa; None where
/// it leaves 96 bits.
pub open spec fn tens_up(v: nat, e10: int) -> Option<(nat, int)>
    decreases e10,
{
    if e10 <= 0 {
        Some((v, e10))
    } else if v * 10 < limit() {
        tens_up(v * 10, e10 - 1)
    } else {
        None
    }
}

/// An exponent below -28 is raised by dividing by ten, rounding half up;
/// where the mantissa runs out, the result is zero at exponent zero.
pub open spec fn clamp_scale(v: nat, e10: int) -> (nat, int)
    decreases -e10,
{
    if e10 >= -28 {
        (v, e10)
    } else if v / 10 == 0 {
        (0, 0)
    } else {
        clamp_scale(v / 10 + (if v % 10 >= 5 { 1nat } else { 0nat }), e10 + 1)
    }
}

/// Digits beyond the float's guaranteed precision are divided away,
/// rounding half up on each.
pub open spec fn cap_precision(v: nat, e10: int, is64: bool) -> (nat, int)
    decreases -e10,
{
    if e10 < 0 && (if is64 { v >= 0x10_0000_0000_0000 } else { v >= 0x100_0000 }) {
        cap_precision(v / 10 + (if v % 10 >= 5 { 1nat } else { 0nat }), e10 + 1, is64)
    } else {
        (v, e10)
    }
}

/// Trailing zeros go while the exponent is negative.
pub open spec fn strip_zeros(v: nat, e10: int) -> (nat, int)
    decreases -e10,
{
    if e10 < 0 && v % 10 == 0 {
        strip_zeros(v / 10, e10 + 1)
    } else {
        (v, e10)
    }
}

/// The decimal that `v * 2^e2` becomes: its mantissa and scale, or None
/// where it is too large.
pub open spec fn bridge(v: nat, e2: int, is64: bool) -> Option<(nat, nat)> {
    let (v1, e5a, e10a) = fives_down(v, -e2, e2);
    let (v2, e10b) = fives_up(v1, e5a, e10a);
    match tens_up(v2, e10b) {
        None => None,
        Some((v3, e10c)) => {
            let (v4, e10d) = clamp_scale(v3, e10c);
            let (v5, e10e) = cap_precision(v4, e10d, is64);
            let (v6, e10f) = strip_zeros(v5, e10e);
            Some((v6, (-e10f) as nat))
        },
    }
}

/// `r` is the bridge's result for `v * 2^e2` with this sign.
pub open spec fn bridged(r: Option<Decimal>, v: nat, e2: int, is64: bool, negative: bool) -> bool {
    match bridge(v, e2, is64) {
        None => r is None,
        Some((m, s)) => r matches Some(x) && x.wf() && x.mant() == m && x.scl() == s && x.neg() == negative,
    }
}

/// The integer mantissa of a double's bits, the hidden bit included.
pub open spec fn f64_mantissa(raw: u64) -> nat {
    if (raw / 0x10_0000_0000_0000) % 0x800 == 0 {
        (raw % 0x10_0000_0000_0000) as nat
    } else {
        (raw % 0x10_0000_0000_0000 + 0x10_0000_0000_0000) as nat
    }
}

/// The power of two a double's integer mantissa is scaled by.
pub open spec fn f64_exponent(raw: u64) -> int {
    if (raw / 0x10_0000_0000_0000) % 0x800 == 0 {
        -1074
    } else {
        ((raw / 0x10_0000_0000_0000) % 0x800) as int - 1075
    }
}

/// The integer mantissa of a single's bits, the hidden bit included.
pub open spec fn f32_mantissa(raw: u32) -> nat {
    if (raw / 0x80_0000) % 0x100 == 0 {
        (raw % 0x80_0000) as nat
    } else {
        (raw % 0x80_0000 + 0x80_0000) as nat
    }
}

/// The power of two a single's integer mantissa is scaled by.
pub open spec fn f32_exponent(raw: u32) -> int {
    if (raw / 0x80_0000) % 0x100 == 0 {
        -149
    } else {
        ((raw / 0x80_0000) % 0x100) as int - 150
    }
}

proof fn lemma_parity(a: [u32; 3])
    ensures
        val3(a) % 2 == a[0] % 2,
{
    vstd::arithmetic::div_mod::lemma_mod_multiples_vanish(
        (a[1] * 0x8000_0000 + a[2] * 0x8000_0000_0000_0000) as int,
        a[0] as int,
        2,
    );
}

impl Decimal {
    /// Turns `bits * 2^exponent2` into a decimal: powers of two are traded
    /// for powers of five and ten, the exponent is brought into the scale
    /// range, digits beyond the float's precision (`is64` for a double) are
    /// rounded away half up and trailing zeros are removed. None where the
    /// number is too large.
    pub fn base2_to_decimal(bits: &mut [u32; 3], exponent2: i32, positive: bool, is64: bool) -> (r: Option<Decimal>)
        requires
            -1200 <= exponent2 <= 1200,
        ensures
            r matches Some(v) ==> v.wf() && v.neg() == !positive && v.limbs() == *final(bits),
            r matches Some(v) ==> v.scl() > 0 ==> val3(*final(bits)) % 10 != 0,
            r matches Some(v) ==> v.scl() > 0 ==> !(if is64 { beyond_double(*final(bits)) } else { beyond_single(*final(bits)) }),
            exponent2 >= 0 && val3(*old(bits)) * pow2(exponent2 as nat) < limit() ==> (r matches Some(v)
                && v.scl() == 0 && v.mant() == val3(*old(bits)) * pow2(exponent2 as nat)),
            bridged(r, val3(*old(bits)), exponent2 as int, is64, !positive),
    {
        let ghost v0 = val3(*bits);
        let ghost exact = exponent2 >= 0 && v0 * pow2(exponent2 as nat) < limit();
        let ghost target = v0 * pow2(exponent2 as nat);
        let mut exponent5: i32 = -exponent2;
        let mut exponent10: i32 = exponent2;
        while exponent5 > 0
            invariant
                -1200 <= exponent2 <= 1200,
                -1200 <= exponent5 <= 1200,
                exponent2 <= exponent10 <= -exponent5 || (exponent5 <= 0 && exponent10 == exponent2),
                exact ==> exponent5 == -exponent2 && exponent10 == exponent2 && val3(*bits) == v0,
                exact == (exponent2 >= 0 && v0 * pow2(exponent2 as nat) < limit()),
                v0 == val3(*old(bits)),
                fives_down(v0, -exponent2, exponent2 as int) == fives_down(val3(*bits), exponent5 as int, exponent10 as int),
            decreases exponent5,
        {
            proof {
                lemma_parity(*bits);
            }
            if bits[0] % 2 == 0 {
                exponent10 += 1;
                exponent5 -= 1;
                div_by_u32(bits, 2);
            } else {
                exponent5 -= 1;
                let mut temp = *bits;
                if mul_by_u32(&mut temp, 5) == 0 {
                    *bits = temp;
                } else {
                    exponent10 += 1;
                    div_by_u32(bits, 2);
                }
            }
        }
        let ghost s1 = (val3(*bits), exponent5 as int, exponent10 as int);
        proof {
            if exact {
                assert((exponent2 + exponent5) as nat == 0);
                assert(pow2(0) == 1);
                assert(v0 * 1 == v0);
            }
            assert(fives_down(v0, -exponent2, exponent2 as int) == s1);
        }
        while exponent5 < 0
            invariant
                -1200 <= exponent5 <= 0,
                exponent10 <= 1200,
                exponent10 + exponent5 >= -2400,
                exact ==> exponent10 == -exponent5 && -exponent2 <= exponent5
                    && val3(*bits) == v0 * pow2((exponent2 + exponent5) as nat),
                exact == (exponent2 >= 0 && v0 * pow2(exponent2 as nat) < limit()),
                v0 == val3(*old(bits)),
                target == v0 * pow2(exponent2 as nat),
                -1200 <= exponent2 <= 1200,
                fives_down(v0, -exponent2, exponent2 as int) == s1,
                fives_up(s1.0, s1.1, s1.2) == fives_up(val3(*bits), exponent5 as int, exponent10 as int),
            decreases -exponent5,
        {
            proof {
                if exact {
                    let k = (exponent2 + exponent5) as nat;
                    lemma_pow2_mono(k + 1, exponent2 as nat);
                    assert(pow2(k + 1) == 2 * pow2(k));
                    assert(v0 * pow2(k + 1) <= v0 * pow2(exponent2 as nat)) by (nonlinear_arith)
                        requires pow2(k + 1) <= pow2(exponent2 as nat);
                    assert(val3(*bits) * 2 == v0 * pow2(k + 1)) by (nonlinear_arith)
                        requires val3(*bits) == v0 * pow2(k), pow2(k + 1) == 2 * pow2(k);
                }
            }
            if bits[2] < 0x8000_0000 {
                exponent10 -= 1;
                exponent5 += 1;
                shl1_internal(bits, 0);
            } else {
                exponent5 += 1;
                div_by_u32(bits, 5);
            }
        }
        let ghost s2 = (val3(*bits), exponent10 as int);
        proof {
            assert(fives_up(s1.0, s1.1, s1.2) == s2);
        }
        while exponent10 > 0
            invariant
                fives_down(v0, -exponent2, exponent2 as int) == s1,
                fives_up(s1.0, s1.1, s1.2) == s2,
                tens_up(s2.0, s2.1) == tens_up(val3(*bits), exponent10 as int),
                -2400 <= exponent10 <= 1200,
                exact ==> exponent10 == 0 && val3(*bits) == target,
                exact == (exponent2 >= 0 && v0 * pow2(exponent2 as nat) < limit()),
                v0 == val3(*old(bits)),
                target == v0 * pow2(exponent2 as nat),
            decreases exponent10,
        {
            if mul_by_10(bits) == 0 {
                exponent10 -= 1;
            } else {
                return None;
            }
        }
        let ghost s3 = (val3(*bits), exponent10 as int);
        proof {
            if exact {
                assert((exponent2 + 0) as nat == exponent2 as nat);
            }
            assert(tens_up(s2.0, s2.1) == Some(s3));
        }
        while exponent10 < -28
            invariant
                fives_down(v0, -exponent2, exponent2 as int) == s1,
                fives_up(s1.0, s1.1, s1.2) == s2,
                tens_up(s2.0, s2.1) == Some(s3),
                clamp_scale(s3.0, s3.1) == clamp_scale(val3(*bits), exponent10 as int),
                -2400 <= exponent10 <= 0,
                exact ==> exponent10 == 0 && val3(*bits) == target,
                exact == (exponent2 >= 0 && v0 * pow2(exponent2 as nat) < limit()),
                v0 == val3(*old(bits)),
                target == v0 * pow2(exponent2 as nat),
            decreases -exponent10,
        {
            let rem10 = div_by_10(bits);
            exponent10 += 1;
            if is_all_zero(bits) {
                exponent10 = 0;
            } else if rem10 >= 5 {
                add_one_internal(bits);
            }
        }
        let ghost s4 = (val3(*bits), exponent10 as int);
        proof {
            assert(clamp_scale(s3.0, s3.1) == s4);
        }
        if is64 {
            while exponent10 < 0 && (bits[2] != 0 || bits[1] >= 0x0010_0000)
                invariant
                    fives_down(v0, -exponent2, exponent2 as int) == s1,
                    fives_up(s1.0, s1.1, s1.2) == s2,
                    tens_up(s2.0, s2.1) == Some(s3),
                    clamp_scale(s3.0, s3.1) == s4,
                    cap_precision(s4.0, s4.1, is64) == cap_precision(val3(*bits), exponent10 as int, is64),
                    is64,
                    -28 <= exponent10 <= 0,
                    exact ==> exponent10 == 0 && val3(*bits) == target,
                    exact == (exponent2 >= 0 && v0 * pow2(exponent2 as nat) < limit()),
                    v0 == val3(*old(bits)),
                    target == v0 * pow2(exponent2 as nat),
                decreases -exponent10,
            {
                let rem10 = div_by_10(bits);
                exponent10 += 1;
                if rem10 >= 5 {
                    add_one_internal(bits);
                }
            }
        } else {
            while exponent10 < 0 && (bits[0] >= 0x0100_0000 || bits[1] != 0 || bits[2] != 0)
                invariant
                    fives_down(v0, -exponent2, exponent2 as int) == s1,
                    fives_up(s1.0, s1.1, s1.2) == s2,
                    tens_up(s2.0, s2.1) == Some(s3),
                    clamp_scale(s3.0, s3.1) == s4,
                    cap_precision(s4.0, s4.1, is64) == cap_precision(val3(*bits), exponent10 as int, is64),
                    !is64,
                    -28 <= exponent10 <= 0,
                    exact ==> exponent10 == 0 && val3(*bits) == target,
                    exact == (exponent2 >= 0 && v0 * pow2(exponent2 as nat) < limit()),
                    v0 == val3(*old(bits)),
                    target == v0 * pow2(exponent2 as nat),
                decreases -exponent10,
            {
                let rem10 = div_by_10(bits);
                exponent10 += 1;
                if rem10 >= 5 {
                    add_one_internal(bits);
                }
            }
        }
        let ghost s5 = (val3(*bits), exponent10 as int);
        proof {
            assert(cap_precision(s4.0, s4.1, is64) == s5);
        }
        let mut done = false;
        while exponent10 < 0 && !done
            invariant
                fives_down(v0, -exponent2, exponent2 as int) == s1,
                fives_up(s1.0, s1.1, s1.2) == s2,
                tens_up(s2.0, s2.1) == Some(s3),
                clamp_scale(s3.0, s3.1) == s4,
                cap_precision(s4.0, s4.1, is64) == s5,
                !done ==> strip_zeros(s5.0, s5.1) == strip_zeros(val3(*bits), exponent10 as int),
                done ==> strip_zeros(s5.0, s5.1) == (val3(*bits), exponent10 as int),
                -28 <= exponent10 <= 0,
                exponent10 < 0 ==> !(if is64 { beyond_double(*bits) } else { beyond_single(*bits) }),
                done ==> val3(*bits) % 10 != 0,
                exact ==> exponent10 == 0 && val3(*bits) == target,
                exact == (exponent2 >= 0 && v0 * pow2(exponent2 as nat) < limit()),
                v0 == val3(*old(bits)),
                target == v0 * pow2(exponent2 as nat),
            decreases -exponent10 + (if done { 0int } else { 1int }),
        {
            let mut temp = *bits;
            let remainder = div_by_10(&mut temp);
            if remainder == 0 {
                exponent10 += 1;
                *bits = temp;
            } else {
                done = true;
            }
        }
        Some(Decimal::from_limbs(*bits, !positive, (-exponent10) as u32))
    }

    /// The decimal nearest, to a double's precision, to the double with
    /// these bits. None for infinities and NaN, or where the number is too
    /// large.
    pub fn from_f64_bits(raw: u64) -> (r: Option<Decimal>)
        ensures
            (raw / 0x10_0000_0000_0000) % 0x800 == 0x7FF ==> r is None,
            (raw / 0x10_0000_0000_0000) % 0x800 == 0 && raw % 0x10_0000_0000_0000 == 0 ==> (r matches Some(v) && v.mant() == 0
                && v.scl() == 0 && v.neg() == (raw >= 0x8000_0000_0000_0000)),
            r matches Some(v) ==> v.wf() && v.neg() == (raw >= 0x8000_0000_0000_0000),
            (raw / 0x10_0000_0000_0000) % 0x800 != 0x7FF && !((raw / 0x10_0000_0000_0000) % 0x800 == 0
                && raw % 0x10_0000_0000_0000 == 0) ==> bridged(
                r,
                f64_mantissa(raw),
                f64_exponent(raw),
                true,
                raw >= 0x8000_0000_0000_0000,
            ),
    {
        let positive = raw < 0x8000_0000_0000_0000;
        let biased_exponent = ((raw / 0x10_0000_0000_0000) % 0x800) as i32;
        let mantissa = raw % 0x10_0000_0000_0000;
        if biased_exponent == 0x7FF {
            return None;
        }
        if biased_exponent == 0 && mantissa == 0 {
            let mut zero = Decimal::zero();
            zero.set_sign_negative(!positive);
            return Some(zero);
        }
        let mut exponent2 = biased_exponent - 1023;
        let mut bits = [(mantissa % 0x1_0000_0000) as u32, (mantissa / 0x1_0000_0000) as u32, 0u32];
        if biased_exponent == 0 {
            exponent2 += 1;
        } else {
            bits[1] = bits[1] + 0x0010_0000;
        }
        exponent2 -= 52;
        Decimal::base2_to_decimal(&mut bits, exponent2, positive, true)
    }

    /// The decimal nearest, to a single's precision, to the single with
    /// these bits. None for infinities and NaN.
    pub fn from_f32_bits(raw: u32) -> (r: Option<Decimal>)
        ensures
            (raw / 0x80_0000) % 0x100 == 0xFF ==> r is None,
            (raw / 0x80_0000) % 0x100 == 0 && raw % 0x80_0000 == 0 ==> (r matches Some(v) && v.mant() == 0
                && v.scl() == 0 && v.neg() == (raw >= 0x8000_0000)),
            r matches Some(v) ==> v.wf() && v.neg() == (raw >= 0x8000_0000),
            (raw / 0x80_0000) % 0x100 != 0xFF && !((raw / 0x80_0000) % 0x100 == 0 && raw % 0x80_0000 == 0)
                ==> bridged(r, f32_mantissa(raw), f32_exponent(raw), false, raw >= 0x8000_0000),
    {
        let positive = raw < 0x8000_0000;
        let biased_exponent = ((raw / 0x80_0000) % 0x100) as i32;
        let mantissa = raw % 0x80_0000;
        if biased_exponent == 0xFF {
            return None;
        }
        if biased_exponent == 0 && mantissa == 0 {
            let mut zero = Decimal::zero();
            zero.set_sign_negative(!positive);
            return Some(zero);
        }
        let mut exponent2 = biased_exponent - 127;
        let mut bits = [mantissa, 0u32, 0u32];
        if biased_exponent == 0 {
            exponent2 += 1;
        } else {
            bits[0] = bits[0] + 0x0080_0000;
        }
        exponent2 -= 23;
        Decimal::base2_to_decimal(&mut bits, exponent2, positive, false)
    }
}

} // verus!
