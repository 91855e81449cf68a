//! Unsigned integers below 2^192 as two halves below 2^96 each: room for an
//! exact sum or product of two mantissas before it is rounded back into 96
//! bits.

use vstd::prelude::*;

use crate::limbs::{limit, LIMIT};

verus! {

/// A number below 2^192: `hi * 2^96 + lo`, both halves below 2^96.
#[derive(Clone, Copy)]
pub struct Wide {
    pub hi: u128,
    pub lo: u128,
}

impl Wide {
    /// Both halves are below 2^96.
    pub open spec fn wf(self) -> bool {
        self.hi < limit() && self.lo < limit()
    }

    /// The number the halves stand for.
    pub open spec fn val(self) -> nat {
        self.hi as nat * limit() + self.lo as nat
    }
}

/// 2^192.
pub open spec fn wide_limit() -> nat {
    limit() * limit()
}

/// A mantissa as a wide number.
pub fn w_from(m: u128) -> (r: Wide)
    requires
        m < LIMIT,
    ensures
        r.wf(),
        r.val() == m,
{
    Wide { hi: 0, lo: m }
}

/// Divides by ten; returns the quotient and the digit removed.
pub fn w_div10(a: Wide) -> (r: (Wide, u128))
    requires
        a.wf(),
    ensures
        r.0.wf(),
        r.0.val() == a.val() / 10,
        r.1 == a.val() % 10,
{
    let q1 = a.hi / 10;
    let r1 = a.hi % 10;
    let t = r1 * LIMIT + a.lo;
    let q0 = t / 10;
    let r0 = t % 10;
    proof {
        let x = a.val();
        assert(x == 10 * (q1 * limit() + q0) + r0);
        vstd::arithmetic::div_mod::lemma_fundamental_div_mod_converse(x as int, 10, (q1 * limit() + q0) as int, r0 as int);
    }
    (Wide { hi: q1, lo: q0 }, r0)
}

/// Multiplies by ten; the product must stay below 2^192.
pub fn w_mul10(a: Wide) -> (r: Wide)
    requires
        a.wf(),
        a.val() * 10 < wide_limit(),
    ensures
        r.wf(),
        r.val() == a.val() * 10,
{
    let t = a.lo * 10;
    let c = t / LIMIT;
    let lo = t % LIMIT;
    proof {
        assert(a.hi * 10 + c < limit()) by (nonlinear_arith)
            requires a.val() * 10 < limit() * limit(), a.val() == a.hi * limit() + a.lo, t == a.lo * 10,
                c == t as nat / limit(), limit() > 0;
    }
    Wide { hi: a.hi * 10 + c, lo }
}

/// Adds; the sum must stay below 2^192.
pub fn w_add(a: Wide, b: Wide) -> (r: Wide)
    requires
        a.wf(),
        b.wf(),
        a.val() + b.val() < wide_limit(),
    ensures
        r.wf(),
        r.val() == a.val() + b.val(),
{
    let t = a.lo + b.lo;
    let c = t / LIMIT;
    let lo = t % LIMIT;
    proof {
        assert(a.hi + b.hi + c < limit()) by (nonlinear_arith)
            requires a.val() + b.val() < limit() * limit(), a.val() == a.hi * limit() + a.lo,
                b.val() == b.hi * limit() + b.lo, t == a.lo + b.lo, c == t as nat / limit(), limit() > 0,
                a.lo >= 0, b.lo >= 0;
    }
    Wide { hi: a.hi + b.hi + c, lo }
}

/// Subtracts a number no larger.
pub fn w_sub(a: Wide, b: Wide) -> (r: Wide)
    requires
        a.wf(),
        b.wf(),
        a.val() >= b.val(),
    ensures
        r.wf(),
        r.val() == a.val() - b.val(),
{
    if a.lo >= b.lo {
        Wide { hi: a.hi - b.hi, lo: a.lo - b.lo }
    } else {
        Wide { hi: a.hi - b.hi - 1, lo: LIMIT + a.lo - b.lo }
    }
}

/// Whether the first is smaller.
pub fn w_lt(a: Wide, b: Wide) -> (r: bool)
    requires
        a.wf(),
        b.wf(),
    ensures
        r == (a.val() < b.val()),
{
    a.hi < b.hi || (a.hi == b.hi && a.lo < b.lo)
}

/// Whether the number is below 2^96, and so a mantissa.
pub fn w_fits(a: Wide) -> (r: bool)
    requires
        a.wf(),
    ensures
        r == (a.val() < limit()),
{
    a.hi == 0
}

/// The product of two mantissas.
pub fn w_mul(x: u128, y: u128) -> (r: Wide)
    requires
        x < LIMIT,
        y < LIMIT,
    ensures
        r.wf(),
        r.val() == x * y,
{
    let h: u128 = 0x1_0000_0000_0000;
    let x1 = x / h;
    let x0 = x % h;
    let y1 = y / h;
    let y0 = y % h;
    proof {
        assert(x1 < h && y1 < h);
        assert(x1 * y1 < h * h && x0 * y0 < h * h && x1 * y0 < h * h && x0 * y1 < h * h)
            by (nonlinear_arith)
            requires x1 < h, y1 < h, x0 < h, y0 < h, x1 >= 0, y1 >= 0, x0 >= 0, y0 >= 0;
    }
    let mid = x1 * y0 + x0 * y1;
    let mid_hi = mid / h;
    let mid_lo = mid % h;
    let low = x0 * y0 + mid_lo * h;
    let carry = low / LIMIT;
    let lo = low % LIMIT;
    proof {
        assert(x * y == x1 * y1 * (h * h) + mid * h + x0 * y0) by (nonlinear_arith)
            requires x == x1 * h + x0, y == y1 * h + y0, mid == x1 * y0 + x0 * y1;
        assert(mid * h == mid_hi * (h * h) + mid_lo * h) by (nonlinear_arith)
            requires mid == mid_hi * h + mid_lo;
        assert(x * y < limit() * limit()) by (nonlinear_arith)
            requires x < limit(), y < limit(), x >= 0, y >= 0;
        assert(h * h == limit());
    }
    let hi = x1 * y1 + mid_hi + carry;
    Wide { hi, lo }
}

} // verus!
