//! The decimal value: a sign, a scale and a 96-bit mantissa.

use vstd::prelude::*;

use crate::limbs::{
    cmp_internal, div_by_10, from_u128, is_all_zero, lemma_pow10_mono, lemma_pow10_pos,
    lemma_rescaled_value, limit, pow10, pow10_u128, rescale_internal, rescaled, to_u128, val3,
};

verus! {

/// The largest scale a value can have.
pub const MAX_PRECISION: u32 = 28;

/// The largest mantissa, 2^96 - 1.
pub const MAX_MANTISSA: u128 = 0xFFFF_FFFF_FFFF_FFFF_FFFF_FFFF;

/// What can go wrong when a value is built or read.
#[derive(Clone, Copy, Debug, PartialEq, Eq, Structural)]
pub enum Error {
    /// A scale above 28 was asked for.
    ScaleExceedsMaximumPrecision,
    /// The input was empty.
    Empty,
    /// A digit-group separator came before any digit.
    LeadingSeparator,
    /// A second decimal point.
    TwoDecimalPoints,
    /// No digit at all.
    NoDigits,
    /// A character that is no digit in the radix, no point, sign or separator.
    InvalidCharacter,
    /// The radix lies outside 2..=36.
    UnsupportedRadix,
    /// The integer part does not fit in 96 bits.
    OverflowTooManyDigits,
    /// More digits had to be dropped than lay after the point.
    OverflowScaleMismatch,
    /// Rounding carried out of 96 bits.
    OverflowWhenRounding,
    /// Adding a digit carried out of 96 bits.
    OverflowFromCarry,
    /// Scientific notation without an exponent, or with a malformed one.
    InvalidScientific,
}

/// Each field of a value on its own.
#[derive(Clone, Copy, Debug)]
pub struct UnpackedDecimal {
    pub negative: bool,
    pub scale: u32,
    pub hi: u32,
    pub mid: u32,
    pub lo: u32,
}

/// A number `(-1)^negative * mantissa / 10^scale`, with `mantissa < 2^96`
/// held as three 32-bit limbs and `scale <= 28`.
#[derive(Clone, Copy, Debug)]
pub struct Decimal {
    negative: bool,
    scale: u32,
    bits: [u32; 3],
}

/// How `round_dp_with_strategy` treats the digits it removes.
#[derive(Clone, Copy, PartialEq, Eq, Debug, Structural)]
pub enum RoundingStrategy {
    /// Half-way cases go to the even neighbour: 6.5 -> 6, 7.5 -> 8.
    MidpointNearestEven,
    /// Half-way cases go away from zero: 6.5 -> 7, -6.5 -> -7.
    MidpointAwayFromZero,
    /// Half-way cases go toward zero: 6.5 -> 6, -6.5 -> -6.
    MidpointTowardZero,
    /// Always toward zero: 6.8 -> 6, -6.8 -> -6.
    ToZero,
    /// Always away from zero: 6.8 -> 7, -6.8 -> -7.
    AwayFromZero,
    /// Always toward negative infinity: 6.8 -> 6, -6.8 -> -7.
    ToNegativeInfinity,
    /// Always toward positive infinity: 6.8 -> 7, -6.8 -> -6.
    ToPositiveInfinity,
}

impl RoundingStrategy {
    /// Older name of `MidpointNearestEven`.
    pub const BANKERS_ROUNDING: RoundingStrategy = RoundingStrategy::MidpointNearestEven;
    /// Older name of `MidpointAwayFromZero`.
    pub const ROUND_HALF_UP: RoundingStrategy = RoundingStrategy::MidpointAwayFromZero;
    /// Older name of `MidpointTowardZero`.
    pub const ROUND_HALF_DOWN: RoundingStrategy = RoundingStrategy::MidpointTowardZero;
    /// Older name of `ToZero`.
    pub const ROUND_DOWN: RoundingStrategy = RoundingStrategy::ToZero;
    /// Older name of `AwayFromZero`.
    pub const ROUND_UP: RoundingStrategy = RoundingStrategy::AwayFromZero;
}

/// The flag word of the byte layout: the scale in bits 16 to 23, the sign in
/// bit 31.
pub fn flags(neg: bool, scale: u32) -> (r: u32)
    requires
        scale <= 255,
    ensures
        r == scale * 0x1_0000 + (if neg { 0x8000_0000u32 } else { 0u32 }),
{
    scale * 0x1_0000 + if neg { 0x8000_0000 } else { 0 }
}

/// A 32-bit word as four bytes, least significant first.
pub open spec fn le_bytes(x: u32) -> Seq<u8> {
    seq![(x % 256) as u8, ((x / 256) % 256) as u8, ((x / 65536) % 256) as u8, (x / 16777216) as u8]
}

/// Four bytes, least significant first, as a 32-bit word.
pub open spec fn from_le(b: Seq<u8>, at: int) -> u32 {
    (b[at] + b[at + 1] * 256 + b[at + 2] * 65536 + b[at + 3] * 16777216) as u32
}

/// The 16 bytes of a value: the flag word (the scale in the third byte, the
/// sign in the top bit of the fourth), then the low, middle and high limbs,
/// each least significant byte first.
pub open spec fn bytes_of(v: Decimal) -> Seq<u8> {
    seq![0u8, 0u8, v.scl() as u8, if v.neg() { 0x80u8 } else { 0u8 }] + le_bytes(v.limbs()[0])
        + le_bytes(v.limbs()[1]) + le_bytes(v.limbs()[2])
}

/// Whether the digits removed by rounding, `r` out of a unit `p` of the last
/// kept place, make the kept part `q` of a value of this sign go up by one.
pub open spec fn rounds_up(strategy: RoundingStrategy, q: nat, r: nat, p: nat, negative: bool) -> bool {
    match strategy {
        RoundingStrategy::MidpointNearestEven => r * 2 > p || (r * 2 == p && q % 2 == 1),
        RoundingStrategy::MidpointAwayFromZero => r * 2 >= p,
        RoundingStrategy::MidpointTowardZero => r * 2 > p,
        RoundingStrategy::ToZero => false,
        RoundingStrategy::AwayFromZero => r != 0,
        RoundingStrategy::ToNegativeInfinity => negative && r != 0,
        RoundingStrategy::ToPositiveInfinity => !negative && r != 0,
    }
}

/// The number of trailing zero digits that can go from `m` without the
/// scale dropping below zero.
pub open spec fn strip_steps(m: nat, scale: nat) -> nat
    decreases scale,
{
    if scale == 0 || m == 0 || m % 10 != 0 {
        0
    } else {
        1 + strip_steps(m / 10, (scale - 1) as nat)
    }
}

impl Decimal {
    /// The three limbs, least significant first.
    pub closed spec fn limbs(self) -> [u32; 3] {
        self.bits
    }

    /// The sign: true for negative.
    pub closed spec fn neg(self) -> bool {
        self.negative
    }

    /// The scale: the number of digits after the point.
    pub closed spec fn scl(self) -> nat {
        self.scale as nat
    }

    /// The magnitude of the mantissa.
    pub open spec fn mant(self) -> nat {
        val3(self.limbs())
    }

    /// The signed mantissa: the value times `10^scale`.
    pub open spec fn num(self) -> int {
        if self.neg() {
            -(self.mant() as int)
        } else {
            self.mant() as int
        }
    }

    /// The scale is in range.
    pub open spec fn wf(self) -> bool {
        self.scl() <= 28
    }

    /// `r` is this value rounded to `dp` digits after the point as `strategy`
    /// says: unchanged where it has no more digits than that, else the kept
    /// digits, plus one where the strategy rounds up, with the sign kept.
    pub open spec fn rounded_as(self, r: Decimal, dp: nat, strategy: RoundingStrategy) -> bool {
        let p = pow10((self.scl() - dp) as nat);
        if self.scl() <= dp {
            r == self
        } else {
            r.neg() == self.neg() && r.scl() == dp && r.mant() == self.mant() / p + (if rounds_up(
                strategy,
                self.mant() / p,
                self.mant() % p,
                p,
                self.neg(),
            ) {
                1nat
            } else {
                0nat
            })
        }
    }

    /// A value with these limbs, sign and scale.
    pub open spec fn has(self, bits: [u32; 3], negative: bool, scale: nat) -> bool {
        self.limbs() == bits && self.neg() == negative && self.scl() == scale
    }

    /// Builds a value from limbs, a sign and a scale.
    pub(crate) fn from_limbs(bits: [u32; 3], negative: bool, scale: u32) -> (r: Decimal)
        ensures
            r.has(bits, negative, scale as nat),
            r.mant() == val3(bits),
    {
        Decimal { negative, scale, bits }
    }

    /// The value that 16 bytes stand for; the scale byte is taken modulo 29.
    pub closed spec fn decode(b: Seq<u8>) -> Decimal {
        Decimal {
            negative: b[3] >= 0x80,
            scale: (b[2] % 29) as u32,
            bits: [from_le(b, 4), from_le(b, 8), from_le(b, 12)],
        }
    }

    /// The limbs as an array, least significant first.
    pub fn mantissa_array3(&self) -> (r: [u32; 3])
        ensures
            r == self.limbs(),
    {
        self.bits
    }

    /// The limbs followed by a zero limb.
    pub fn mantissa_array4(&self) -> (r: [u32; 4])
        ensures
            r@ == seq![self.limbs()[0], self.limbs()[1], self.limbs()[2], 0u32],
    {
        [self.bits[0], self.bits[1], self.bits[2], 0]
    }

    /// The low limb.
    pub fn lo(&self) -> (r: u32)
        ensures
            r == self.limbs()[0],
    {
        self.bits[0]
    }

    /// The middle limb.
    pub fn mid(&self) -> (r: u32)
        ensures
            r == self.limbs()[1],
    {
        self.bits[1]
    }

    /// The high limb.
    pub fn hi(&self) -> (r: u32)
        ensures
            r == self.limbs()[2],
    {
        self.bits[2]
    }

    /// The flag word of the byte layout.
    pub fn flags(&self) -> (r: u32)
        requires
            self.wf(),
        ensures
            r == self.scl() * 0x1_0000 + (if self.neg() { 0x8000_0000u32 } else { 0u32 }),
    {
        flags(self.negative, self.scale)
    }

    /// Zero.
    pub fn zero() -> (r: Decimal)
        ensures
            r.has([0, 0, 0], false, 0),
            r.num() == 0,
    {
        Decimal { negative: false, scale: 0, bits: [0, 0, 0] }
    }

    /// One.
    pub fn one() -> (r: Decimal)
        ensures
            r.has([1, 0, 0], false, 0),
            r.num() == 1,
    {
        Decimal { negative: false, scale: 0, bits: [1, 0, 0] }
    }

    /// The smallest value, -(2^96 - 1).
    pub fn min_value() -> (r: Decimal)
        ensures
            r.wf(),
            r.num() == -(limit() as int - 1),
            r.scl() == 0,
    {
        Decimal { negative: true, scale: 0, bits: [0xFFFF_FFFF, 0xFFFF_FFFF, 0xFFFF_FFFF] }
    }

    /// The largest value, 2^96 - 1.
    pub fn max_value() -> (r: Decimal)
        ensures
            r.wf(),
            r.num() == limit() - 1,
            r.scl() == 0,
    {
        Decimal { negative: false, scale: 0, bits: [0xFFFF_FFFF, 0xFFFF_FFFF, 0xFFFF_FFFF] }
    }

    /// `num / 10^scale`. The scale must be at most 28.
    pub fn new(num: i64, scale: u32) -> (r: Decimal)
        requires
            scale <= MAX_PRECISION,
        ensures
            r.wf(),
            r.num() == num as int,
            r.neg() == (num < 0),
            r.scl() == scale,
    {
        let negative = num < 0;
        let m: u128 = if negative { (0 - (num as i128)) as u128 } else { num as u128 };
        Decimal::from_limbs(from_u128(m), negative, scale)
    }

    /// `num / 10^scale`. The scale must be at most 28 and the magnitude below
    /// 2^96.
    pub fn from_i128_with_scale(num: i128, scale: u32) -> (r: Decimal)
        requires
            scale <= MAX_PRECISION,
            -(MAX_MANTISSA as int) <= num <= MAX_MANTISSA,
        ensures
            r.wf(),
            r.num() == num as int,
            r.neg() == (num < 0),
            r.scl() == scale,
    {
        let negative = num < 0;
        let m: u128 = if negative { (0 - num) as u128 } else { num as u128 };
        Decimal::from_limbs(from_u128(m), negative, scale)
    }

    /// A value from its limbs, sign and scale. A scale above 28 is taken
    /// modulo 29; zero is never negative here.
    pub fn from_parts(lo: u32, mid: u32, hi: u32, negative: bool, scale: u32) -> (r: Decimal)
        ensures
            r.wf(),
            r.has([lo, mid, hi], negative && val3([lo, mid, hi]) != 0, (scale % 29) as nat),
    {
        let zero = lo == 0 && mid == 0 && hi == 0;
        Decimal { negative: negative && !zero, scale: scale % (MAX_PRECISION + 1), bits: [lo, mid, hi] }
    }

    /// A value from its limbs and a flag word: the scale is its bits 16 to
    /// 23 taken modulo 29 and the sign its bit 31; zero is never negative.
    pub fn from_parts_raw(lo: u32, mid: u32, hi: u32, flags: u32) -> (r: Decimal)
        ensures
            r.wf(),
            r.has(
                [lo, mid, hi],
                flags >= 0x8000_0000 && val3([lo, mid, hi]) != 0,
                (((flags / 0x1_0000) % 256) % 29) as nat,
            ),
    {
        Decimal::from_parts(lo, mid, hi, flags >= 0x8000_0000, (flags / 0x1_0000) % 256)
    }

    /// The scale.
    pub fn scale(&self) -> (r: u32)
        ensures
            r == self.scl(),
    {
        self.scale
    }

    /// The signed mantissa.
    pub fn mantissa(&self) -> (r: i128)
        ensures
            r == self.num(),
    {
        let m = to_u128(&self.bits) as i128;
        if self.negative {
            -m
        } else {
            m
        }
    }

    /// Whether the mantissa is zero, whatever the sign and scale.
    pub fn is_zero(&self) -> (r: bool)
        ensures
            r == (self.mant() == 0),
    {
        is_all_zero(&self.bits)
    }

    /// Makes the value non-negative (`true`) or negative (`false`).
    pub fn set_sign(&mut self, positive: bool)
        ensures
            final(self).has(old(self).limbs(), !positive, old(self).scl()),
    {
        self.set_sign_positive(positive);
    }

    /// Makes the value non-negative (`true`) or negative (`false`).
    pub fn set_sign_positive(&mut self, positive: bool)
        ensures
            final(self).has(old(self).limbs(), !positive, old(self).scl()),
    {
        self.negative = !positive;
    }

    /// Makes the value negative (`true`) or non-negative (`false`).
    pub fn set_sign_negative(&mut self, negative: bool)
        ensures
            final(self).has(old(self).limbs(), negative, old(self).scl()),
    {
        self.set_sign_positive(!negative);
    }

    /// Sets the scale, keeping the mantissa; fails above 28.
    pub fn set_scale(&mut self, scale: u32) -> (r: Result<(), Error>)
        ensures
            scale > MAX_PRECISION ==> r == Err::<(), Error>(Error::ScaleExceedsMaximumPrecision)
                && *final(self) == *old(self),
            scale <= MAX_PRECISION ==> r is Ok && final(self).has(old(self).limbs(), old(self).neg(), scale as nat),
    {
        if scale > MAX_PRECISION {
            return Err(Error::ScaleExceedsMaximumPrecision);
        }
        self.scale = scale;
        Ok(())
    }

    /// Whether the sign is negative.
    pub fn is_sign_negative(&self) -> (r: bool)
        ensures
            r == self.neg(),
    {
        self.negative
    }

    /// Whether the sign is non-negative.
    pub fn is_sign_positive(&self) -> (r: bool)
        ensures
            r == !self.neg(),
    {
        !self.negative
    }

    /// Whether the sign is negative.
    pub fn is_negative(&self) -> (r: bool)
        ensures
            r == self.neg(),
    {
        self.is_sign_negative()
    }

    /// Whether the sign is non-negative.
    pub fn is_positive(&self) -> (r: bool)
        ensures
            r == !self.neg(),
    {
        self.is_sign_positive()
    }

    /// The fields one by one.
    pub fn unpack(&self) -> (r: UnpackedDecimal)
        ensures
            r.negative == self.neg(),
            r.scale == self.scl(),
            [r.lo, r.mid, r.hi] == self.limbs(),
    {
        UnpackedDecimal {
            negative: self.negative,
            scale: self.scale,
            hi: self.bits[2],
            lo: self.bits[0],
            mid: self.bits[1],
        }
    }

    /// The same value without its sign.
    pub fn abs(&self) -> (r: Decimal)
        ensures
            r.has(self.limbs(), false, self.scl()),
    {
        let mut me = *self;
        me.set_sign_positive(true);
        me
    }

    /// The 16-byte form of the value.
    pub fn serialize(&self) -> (r: [u8; 16])
        requires
            self.wf(),
        ensures
            r@ == bytes_of(*self),
    {
        let f: u8 = if self.negative { 0x80 } else { 0 };
        let l = self.bits;
        let r = [
            0, 0, self.scale as u8, f,
            (l[0] % 256) as u8, ((l[0] / 256) % 256) as u8, ((l[0] / 65536) % 256) as u8, (l[0] / 16777216) as u8,
            (l[1] % 256) as u8, ((l[1] / 256) % 256) as u8, ((l[1] / 65536) % 256) as u8, (l[1] / 16777216) as u8,
            (l[2] % 256) as u8, ((l[2] / 256) % 256) as u8, ((l[2] / 65536) % 256) as u8, (l[2] / 16777216) as u8,
        ];
        assert(r@ =~= bytes_of(*self));
        r
    }

    /// The value that 16 bytes stand for, as `serialize` writes them. The
    /// scale byte is taken modulo 29.
    pub fn deserialize(bytes: [u8; 16]) -> (r: Decimal)
        ensures
            r == Decimal::decode(bytes@),
            r.wf(),
            r.has(
                [from_le(bytes@, 4), from_le(bytes@, 8), from_le(bytes@, 12)],
                bytes@[3] >= 0x80,
                (bytes@[2] % 29) as nat,
            ),
    {
        let b = bytes;
        let lo = b[4] as u32 + b[5] as u32 * 256 + b[6] as u32 * 65536 + b[7] as u32 * 16777216;
        let mid = b[8] as u32 + b[9] as u32 * 256 + b[10] as u32 * 65536 + b[11] as u32 * 16777216;
        let hi = b[12] as u32 + b[13] as u32 * 256 + b[14] as u32 * 65536 + b[15] as u32 * 16777216;
        Decimal { negative: b[3] >= 0x80, scale: (b[2] % 29) as u32, bits: [lo, mid, hi] }
    }

    /// Changes the scale to `scale`, or to 28 where `scale` is larger:
    /// lowering it rounds half up, raising it stops early, at a smaller
    /// scale, where the mantissa would leave 96 bits. The sign is kept.
    pub fn rescale(&mut self, scale: u32)
        requires
            old(self).wf(),
        ensures
            final(self).wf(),
            final(self).neg() == old(self).neg(),
            (final(self).mant(), final(self).scl()) == rescaled(
                old(self).mant(),
                old(self).scl(),
                if scale > 28 { 28 } else { scale as nat },
            ),
    {
        let target = if scale > MAX_PRECISION { MAX_PRECISION } else { scale };
        let mut array = self.bits;
        let mut value_scale = self.scale;
        rescale_internal(&mut array, &mut value_scale, target);
        proof {
            lemma_rescaled_value(val3(self.bits), self.scale as nat, target as nat);
        }
        self.bits = array;
        self.scale = value_scale;
    }

    /// The integer part: the digits after the point are dropped, the sign
    /// is kept.
    pub fn trunc(&self) -> (r: Decimal)
        requires
            self.wf(),
        ensures
            r.wf(),
            r.neg() == self.neg(),
            r.scl() == 0,
            r.mant() == self.mant() / pow10(self.scl()),
    {
        if self.scale == 0 {
            proof {
                assert(pow10(0) == 1);
                assert(self.mant() / 1 == self.mant());
            }
            return *self;
        }
        let p = pow10_u128(self.scale);
        let m = to_u128(&self.bits);
        Decimal::from_limbs(from_u128(m / p), self.negative, 0)
    }

    /// The digits after the point, with the sign and scale kept; zero is
    /// never negative here.
    pub fn fract(&self) -> (r: Decimal)
        requires
            self.wf(),
        ensures
            r.wf(),
            r.scl() == self.scl(),
            r.mant() == self.mant() % pow10(self.scl()),
            r.neg() == (self.neg() && r.mant() != 0),
    {
        let p = pow10_u128(self.scale);
        let m = to_u128(&self.bits);
        let f = m % p;
        Decimal::from_limbs(from_u128(f), self.negative && f != 0, self.scale)
    }

    /// The largest integer not above the value.
    pub fn floor(&self) -> (r: Decimal)
        requires
            self.wf(),
        ensures
            r.wf(),
            self.scl() == 0 ==> r == *self,
            self.scl() > 0 ==> r.scl() == 0 && r.neg() == self.neg() && r.mant() == self.mant()
                / pow10(self.scl()) + (if self.neg() && self.mant() % pow10(self.scl()) != 0 {
                1nat
            } else {
                0nat
            }),
    {
        if self.scale == 0 {
            return *self;
        }
        let p = pow10_u128(self.scale);
        let m = to_u128(&self.bits);
        let mut q = m / p;
        if self.negative && m % p != 0 {
            proof {
                lemma_quotient_room(m as nat, self.scale as nat);
            }
            q = q + 1;
        }
        Decimal::from_limbs(from_u128(q), self.negative, 0)
    }

    /// The smallest integer not below the value.
    pub fn ceil(&self) -> (r: Decimal)
        requires
            self.wf(),
        ensures
            r.wf(),
            self.scl() == 0 ==> r == *self,
            self.scl() > 0 ==> r.scl() == 0 && r.neg() == self.neg() && r.mant() == self.mant()
                / pow10(self.scl()) + (if !self.neg() && self.mant() % pow10(self.scl()) != 0 {
                1nat
            } else {
                0nat
            }),
    {
        if self.scale == 0 {
            return *self;
        }
        let p = pow10_u128(self.scale);
        let m = to_u128(&self.bits);
        let mut q = m / p;
        if !self.negative && m % p != 0 {
            proof {
                lemma_quotient_room(m as nat, self.scale as nat);
            }
            q = q + 1;
        }
        Decimal::from_limbs(from_u128(q), self.negative, 0)
    }

    /// The same value with trailing zeros after the point removed; zero
    /// becomes plain non-negative zero.
    pub fn normalize(&self) -> (r: Decimal)
        requires
            self.wf(),
        ensures
            r.wf(),
            self.mant() == 0 ==> r.has([0, 0, 0], false, 0),
            self.mant() != 0 ==> r.neg() == self.neg()
                && r.scl() == self.scl() - strip_steps(self.mant(), self.scl())
                && r.mant() == self.mant() / pow10(strip_steps(self.mant(), self.scl())),
    {
        if self.is_zero() {
            return Decimal::zero();
        }
        let ghost m = self.mant();
        let mut scale = self.scale;
        let mut result = self.bits;
        let mut done = false;
        proof {
            assert(pow10(0) == 1);
            assert(m / 1 == m);
            assert((self.scl() - scale) as nat == 0);
        }
        while scale > 0 && !done
            invariant
                scale <= self.scl(),
                m != 0,
                m == self.mant(),
                val3(result) == m / pow10((self.scl() - scale) as nat),
                val3(result) != 0,
                done ==> val3(result) % 10 != 0,
                strip_steps(m, self.scl()) == (self.scl() - scale) + strip_steps(val3(result), scale as nat),
            decreases scale + (if done { 0u32 } else { 1u32 }),
        {
            let mut working = result;
            let rem = div_by_10(&mut working);
            if rem > 0 {
                done = true;
            } else {
                proof {
                    let k = (self.scl() - scale) as nat;
                    lemma_pow10_pos(k);
                    assert(pow10(k + 1) == 10 * pow10(k));
                    vstd::arithmetic::div_mod::lemma_div_denominator(m as int, pow10(k) as int, 10);
                    assert(pow10(k) * 10 == pow10(k + 1));
                    vstd::arithmetic::div_mod::lemma_fundamental_div_mod(val3(result) as int, 10);
                    assert((self.scl() - (scale - 1)) as nat == k + 1);
                }
                scale -= 1;
                result = working;
            }
        }
        proof {
            assert(strip_steps(val3(result), scale as nat) == 0);
        }
        Decimal::from_limbs(result, self.negative, scale)
    }

    /// Rounds to `dp` digits after the point as `strategy` says. A value
    /// with no more than `dp` such digits is returned as it is.
    pub fn round_dp_with_strategy(&self, dp: u32, strategy: RoundingStrategy) -> (r: Decimal)
        requires
            self.wf(),
        ensures
            r.wf(),
            self.rounded_as(r, dp as nat, strategy),
    {
        let old_scale = self.scale;
        if old_scale <= dp {
            return *self;
        }
        let d = old_scale - dp;
        let p = pow10_u128(d);
        let m = to_u128(&self.bits);
        let q = m / p;
        let rem = m % p;
        let half = p / 2;
        proof {
            lemma_pow10_pos((d - 1) as nat);
            assert(pow10(d as nat) == 10 * pow10((d - 1) as nat));
            assert(half * 2 == p);
            lemma_quotient_room(m as nat, d as nat);
        }
        let up = rounds_up_exec(strategy, q, rem, half, self.negative);
        let value = if up { q + 1 } else { q };
        Decimal::from_limbs(from_u128(value), self.negative, dp)
    }

    /// Rounds to `dp` digits after the point, half-way cases to even.
    pub fn round_dp(&self, dp: u32) -> (r: Decimal)
        requires
            self.wf(),
        ensures
            r.wf(),
            self.rounded_as(r, dp as nat, RoundingStrategy::MidpointNearestEven),
    {
        self.round_dp_with_strategy(dp, RoundingStrategy::MidpointNearestEven)
    }

    /// Rounds to an integer, half-way cases to even.
    pub fn round(&self) -> (r: Decimal)
        requires
            self.wf(),
        ensures
            r.wf(),
            self.rounded_as(r, 0, RoundingStrategy::MidpointNearestEven),
    {
        self.round_dp(0)
    }
}

impl Default for Decimal {
    /// Zero.
    fn default() -> (r: Decimal)
        ensures
            r.has([0, 0, 0], false, 0),
    {
        Decimal::zero()
    }
}

/// Whether `strategy` rounds the kept part `q` up, given the removed part
/// `rem` and half a unit `half` of the last kept place, compared as limbs.
fn rounds_up_exec(strategy: RoundingStrategy, q: u128, rem: u128, half: u128, negative: bool) -> (r: bool)
    requires
        rem < crate::limbs::LIMIT,
        half < crate::limbs::LIMIT,
    ensures
        r == rounds_up(strategy, q as nat, rem as nat, (half * 2) as nat, negative),
{
    let portion = from_u128(rem);
    let cap = from_u128(half);
    let order = cmp_internal(&portion, &cap);
    match strategy {
        RoundingStrategy::MidpointNearestEven => match order {
            core::cmp::Ordering::Equal => q % 2 == 1,
            core::cmp::Ordering::Greater => true,
            core::cmp::Ordering::Less => false,
        },
        RoundingStrategy::MidpointAwayFromZero => match order {
            core::cmp::Ordering::Less => false,
            _ => true,
        },
        RoundingStrategy::MidpointTowardZero => match order {
            core::cmp::Ordering::Greater => true,
            _ => false,
        },
        RoundingStrategy::ToZero => false,
        RoundingStrategy::AwayFromZero => !is_all_zero(&portion),
        RoundingStrategy::ToNegativeInfinity => negative && !is_all_zero(&portion),
        RoundingStrategy::ToPositiveInfinity => !negative && !is_all_zero(&portion),
    }
}

/// Dividing a mantissa by at least ten leaves room to add one.
proof fn lemma_quotient_room(m: nat, d: nat)
    requires
        m < limit(),
        d >= 1,
    ensures
        m / pow10(d) + 1 < limit(),
{
    lemma_pow10_mono(1, d);
    assert(pow10(1) == 10 * pow10(0));
    assert(pow10(0) == 1);
    vstd::arithmetic::div_mod::lemma_div_is_ordered_by_denominator(m as int, 10, pow10(d) as int);
}

/// Four bytes written least significant first read back as the same word.
pub proof fn lemma_le_bytes_round_trip(x: u32)
    ensures
        from_le(le_bytes(x), 0) == x,
{
    let b = le_bytes(x);
    assert(b[0] + b[1] * 256 + b[2] * 65536 + b[3] * 16777216 == x);
}

/// Reading back the bytes that `serialize` writes gives the same value, bit
/// for bit.
pub proof fn lemma_serialize_round_trip(v: Decimal)
    requires
        v.wf(),
    ensures
        Decimal::decode(bytes_of(v)) == v,
{
    let b = bytes_of(v);
    lemma_le_bytes_round_trip(v.limbs()[0]);
    lemma_le_bytes_round_trip(v.limbs()[1]);
    lemma_le_bytes_round_trip(v.limbs()[2]);
    assert(from_le(b, 4) == from_le(le_bytes(v.limbs()[0]), 0));
    assert(from_le(b, 8) == from_le(le_bytes(v.limbs()[1]), 0));
    assert(from_le(b, 12) == from_le(le_bytes(v.limbs()[2]), 0));
    assert(Decimal::decode(b).limbs() == v.limbs());
}

} // verus!
