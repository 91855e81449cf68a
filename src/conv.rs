//! Conversions between values and machine integers.

use vstd::prelude::*;

use crate::decimal::Decimal;
use crate::limbs::{from_u128, limit, pow10, LIMIT};

verus! {

impl Decimal {
    /// The integer `n`, at scale zero.
    pub fn from_i32(n: i32) -> (r: Option<Decimal>)
        ensures
            r matches Some(v) && v.wf() && v.scl() == 0 && v.num() == n as int && v.neg() == (n < 0),
    {
        Some(Decimal::new(n as i64, 0))
    }

    /// The integer `n`, at scale zero.
    pub fn from_i64(n: i64) -> (r: Option<Decimal>)
        ensures
            r matches Some(v) && v.wf() && v.scl() == 0 && v.num() == n as int && v.neg() == (n < 0),
    {
        Some(Decimal::new(n, 0))
    }

    /// The integer `n`, at scale zero.
    pub fn from_u32(n: u32) -> (r: Option<Decimal>)
        ensures
            r matches Some(v) && v.wf() && v.scl() == 0 && v.num() == n as int && !v.neg(),
    {
        Some(Decimal::new(n as i64, 0))
    }

    /// The integer `n`, at scale zero.
    pub fn from_u64(n: u64) -> (r: Option<Decimal>)
        ensures
            r matches Some(v) && v.wf() && v.scl() == 0 && v.num() == n as int && !v.neg(),
    {
        Some(Decimal::from_limbs(from_u128(n as u128), false, 0))
    }

    /// The integer `n`, at scale zero; None where its magnitude needs more
    /// than 96 bits.
    pub fn from_i128(n: i128) -> (r: Option<Decimal>)
        ensures
            (-(limit() as int) < n < limit()) ==> (r matches Some(v) && v.wf() && v.scl() == 0
                && v.num() == n as int && v.neg() == (n < 0)),
            !(-(limit() as int) < n < limit()) ==> r is None,
    {
        if n >= LIMIT as i128 || n <= -(LIMIT as i128) {
            return None;
        }
        let negative = n < 0;
        let m: u128 = if negative { (0 - n) as u128 } else { n as u128 };
        Some(Decimal::from_limbs(from_u128(m), negative, 0))
    }

    /// The integer `n`, at scale zero; None where it needs more than 96 bits.
    pub fn from_u128(n: u128) -> (r: Option<Decimal>)
        ensures
            n < limit() ==> (r matches Some(v) && v.wf() && v.scl() == 0 && v.num() == n as int
                && !v.neg()),
            n >= limit() ==> r is None,
    {
        if n >= LIMIT {
            return None;
        }
        Some(Decimal::from_limbs(from_u128(n), false, 0))
    }

    /// The integer part, if it fits in an `i64`.
    pub fn to_i64(&self) -> (r: Option<i64>)
        requires
            self.wf(),
        ensures
            ({
                let t = if self.neg() {
                    -((self.mant() / pow10(self.scl())) as int)
                } else {
                    (self.mant() / pow10(self.scl())) as int
                };
                &&& (i64::MIN <= t <= i64::MAX) ==> r == Some(t as i64)
                &&& !(i64::MIN <= t <= i64::MAX) ==> r is None
            }),
    {
        let t = self.trunc().mantissa();
        if t < i64::MIN as i128 || t > i64::MAX as i128 {
            None
        } else {
            Some(t as i64)
        }
    }

    /// The integer part.
    pub fn to_i128(&self) -> (r: Option<i128>)
        requires
            self.wf(),
        ensures
            r == Some(
                (if self.neg() {
                    -((self.mant() / pow10(self.scl())) as int)
                } else {
                    (self.mant() / pow10(self.scl())) as int
                }) as i128,
            ),
    {
        Some(self.trunc().mantissa())
    }

    /// The integer part, if it is not negative and fits in a `u64`.
    pub fn to_u64(&self) -> (r: Option<u64>)
        requires
            self.wf(),
        ensures
            ({
                let q = self.mant() / pow10(self.scl());
                &&& ((!self.neg() || q == 0) && q <= u64::MAX) ==> r == Some(q as u64)
                &&& !((!self.neg() || q == 0) && q <= u64::MAX) ==> r is None
            }),
    {
        let t = self.trunc();
        let m = crate::limbs::to_u128(&t.mantissa_array3());
        if (self.is_sign_negative() && m != 0) || m > u64::MAX as u128 {
            None
        } else {
            Some(m as u64)
        }
    }

    /// The integer part, if it is not negative.
    pub fn to_u128(&self) -> (r: Option<u128>)
        requires
            self.wf(),
        ensures
            ({
                let q = self.mant() / pow10(self.scl());
                &&& (!self.neg() || q == 0) ==> r == Some(q as u128)
                &&& !(!self.neg() || q == 0) ==> r is None
            }),
    {
        let t = self.trunc();
        let m = crate::limbs::to_u128(&t.mantissa_array3());
        if self.is_sign_negative() && m != 0 {
            None
        } else {
            Some(m)
        }
    }

    /// One with the value's sign, or zero.
    pub fn signum(&self) -> (r: Decimal)
        ensures
            r.wf(),
            r.scl() == 0,
            r.num() == (if self.mant() == 0 { 0int } else if self.neg() { -1int } else { 1int }),
    {
        if self.is_zero() {
            Decimal::zero()
        } else {
            let mut value = Decimal::one();
            if self.is_sign_negative() {
                value.set_sign_negative(true);
            }
            value
        }
    }
}

} // verus!
