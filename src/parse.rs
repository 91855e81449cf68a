//! Reading a decimal literal in a radix from 2 to 36.

use vstd::prelude::*;
use vstd::string::StringSliceAdditionalSpecFns;

use crate::decimal::{Decimal, Error, MAX_PRECISION};
use crate::limbs::{from_u128, limit, mul_by_10, pow10, val3, LIMIT};

verus! {

/// The value of a character as a digit in `radix`, if it is one.
pub open spec fn digit_of(b: u8, radix: u32) -> Option<u32> {
    if 0x30 <= b <= 0x39 && (b - 0x30) < radix {
        Some((b - 0x30) as u32)
    } else if 0x61 <= b <= 0x7a && (b - 0x61 + 10) < radix {
        Some((b - 0x61 + 10) as u32)
    } else if 0x41 <= b <= 0x5a && (b - 0x41 + 10) < radix {
        Some((b - 0x41 + 10) as u32)
    } else {
        None
    }
}

/// The smallest digit that rounds up in `radix`: half the radix, upward.
pub open spec fn midpoint(radix: nat) -> nat {
    if radix % 2 == 0 {
        radix / 2
    } else {
        (radix + 1) / 2
    }
}

/// How many digits a literal in `radix` may hold before the next one only
/// decides rounding.
pub open spec fn max_digits(radix: nat) -> nat {
    if radix == 2 { 96 }
    else if radix == 3 { 61 }
    else if radix == 4 { 48 }
    else if radix == 5 { 42 }
    else if radix == 6 { 38 }
    else if radix == 7 { 35 }
    else if radix == 8 { 32 }
    else if radix == 9 { 31 }
    else if radix <= 11 { 28 }
    else if radix == 12 { 27 }
    else if radix <= 14 { 26 }
    else if radix == 15 { 25 }
    else if radix <= 18 { 24 }
    else if radix <= 20 { 23 }
    else if radix <= 23 { 22 }
    else if radix <= 27 { 21 }
    else if radix <= 33 { 20 }
    else { 19 }
}

/// The number the first `k` digits stand for in `radix`.
pub open spec fn digits_value(d: Seq<u32>, radix: nat, k: nat) -> nat
    decreases k,
{
    if k == 0 || k > d.len() {
        0
    } else {
        digits_value(d, radix, (k - 1) as nat) * radix + d[k - 1] as nat
    }
}

/// What folding the digits from position `i` on gives, with `data` the
/// value of those before it and `frac` the digits after the point: the
/// mantissa and scale, or the error. Where the mantissa would leave 96 bits,
/// or where keeping the digit would leave more than 28 after the point, it
/// and the rest are dropped, the first of them rounding half up.
pub open spec fn fold_from(d: Seq<u32>, radix: nat, point: int, frac: nat, i: nat, data: nat) -> Result<(nat, nat), Error>
    decreases d.len() - i,
{
    if i >= d.len() {
        Ok((data, frac))
    } else if data * radix >= limit() || (frac > 28 && d.len() - i == frac - 28) {
        let m = data + (if d[i as int] as nat >= midpoint(radix) { 1nat } else { 0nat });
        if (i as int) < point && i + 1 < d.len() {
            Err(Error::OverflowTooManyDigits)
        } else if m >= limit() {
            Err(Error::OverflowWhenRounding)
        } else if (d.len() - i) as nat > frac {
            Err(Error::OverflowScaleMismatch)
        } else {
            Ok((m, (frac - (d.len() - i)) as nat))
        }
    } else if data * radix + d[i as int] >= limit() {
        Err(Error::OverflowFromCarry)
    } else {
        fold_from(d, radix, point, frac, i + 1, data * radix + d[i as int] as nat)
    }
}

/// The digits after the point: none where there is no point.
pub open spec fn frac_digits(len: nat, point: int) -> nat {
    if point >= 0 {
        (len - point) as nat
    } else {
        0
    }
}

/// Folds the digits, most significant first, into a mantissa and scale, as
/// `fold_from` says.
fn fold_digits(digits: &Vec<u32>, radix: u32, point: i32, negative: bool) -> (r: Result<Decimal, Error>)
    requires
        2 <= radix <= 36,
        -1 <= point <= digits@.len(),
        digits@.len() <= 200,
        forall|j: int| 0 <= j < digits@.len() ==> digits@[j] < radix,
    ensures
        match fold_from(digits@, radix as nat, point as int, frac_digits(digits@.len(), point as int), 0, 0) {
            Ok((m, s)) => r matches Ok(v) && v.wf() && v.mant() == m && v.scl() == s && v.neg() == negative,
            Err(e) => r == Err::<Decimal, Error>(e),
        },
{
    let len = digits.len();
    let mut scale: u32 = if point >= 0 { (len as u32) - (point as u32) } else { 0 };
    let ghost frac = scale as nat;
    let mut data: u128 = 0;
    let mut i: usize = 0;
    let mid: u32 = if radix % 2 == 0 { radix / 2 } else { (radix + 1) / 2 };
    while i < len
        invariant
            len == digits@.len(),
            len <= 200,
            2 <= radix <= 36,
            mid == midpoint(radix as nat),
            -1 <= point <= len,
            frac == frac_digits(len as nat, point as int),
            scale == frac,
            i <= len,
            frac > 28 ==> i <= len - (frac - 28),
            data < LIMIT,
            forall|j: int| 0 <= j < digits@.len() ==> digits@[j] < radix,
            fold_from(digits@, radix as nat, point as int, frac, 0, 0)
                == fold_from(digits@, radix as nat, point as int, frac, i as nat, data as nat),
        decreases len - i,
    {
        let digit = digits[i];
        proof {
            assert(data * (radix as u128) < LIMIT * 36) by (nonlinear_arith)
                requires data < LIMIT, radix <= 36;
        }
        let grown = data * (radix as u128);
        if grown >= LIMIT || (scale > 28 && (len - i) as u32 == scale - 28) {
            if (i as i64) < (point as i64) && i + 1 < len {
                return Err(Error::OverflowTooManyDigits);
            }
            let m = if digit >= mid { data + 1 } else { data };
            if m >= LIMIT {
                return Err(Error::OverflowWhenRounding);
            }
            let diff = (len - i) as u32;
            if diff > scale {
                return Err(Error::OverflowScaleMismatch);
            }
            return Ok(Decimal::from_limbs(from_u128(m), negative, scale - diff));
        }
        let next = grown + digit as u128;
        if next >= LIMIT {
            return Err(Error::OverflowFromCarry);
        }
        data = next;
        i = i + 1;
    }
    Ok(Decimal::from_limbs(from_u128(data), negative, scale))
}

/// The value of a character as a digit in `radix`, if it is one.
pub fn digit_value(b: u8, radix: u32) -> (r: Option<u32>)
    requires
        2 <= radix <= 36,
    ensures
        r == digit_of(b, radix),
{
    if 0x30 <= b && b <= 0x39 && ((b - 0x30) as u32) < radix {
        Some((b - 0x30) as u32)
    } else if 0x61 <= b && b <= 0x7a && ((b - 0x61) as u32 + 10) < radix {
        Some((b - 0x61) as u32 + 10)
    } else if 0x41 <= b && b <= 0x5a && ((b - 0x41) as u32 + 10) < radix {
        Some((b - 0x41) as u32 + 10)
    } else {
        None
    }
}

/// How many digits a literal in `radix` may hold before the next one only
/// decides rounding.
pub fn max_digits_of(radix: u32) -> (r: usize)
    requires
        2 <= radix <= 36,
    ensures
        r == max_digits(radix as nat),
        19 <= r <= 96,
{
    if radix == 2 { 96 }
    else if radix == 3 { 61 }
    else if radix == 4 { 48 }
    else if radix == 5 { 42 }
    else if radix == 6 { 38 }
    else if radix == 7 { 35 }
    else if radix == 8 { 32 }
    else if radix == 9 { 31 }
    else if radix <= 11 { 28 }
    else if radix == 12 { 27 }
    else if radix <= 14 { 26 }
    else if radix == 15 { 25 }
    else if radix <= 18 { 24 }
    else if radix <= 20 { 23 }
    else if radix <= 23 { 22 }
    else if radix <= 27 { 21 }
    else if radix <= 33 { 20 }
    else { 19 }
}

/// Adds one at position `i - 1`, carrying leftward through digits at
/// `radix - 1`, which become zero: the new digits, and false where the carry
/// ran out past the first digit.
pub open spec fn inc_from(d: Seq<u32>, radix: nat, i: int) -> (Seq<u32>, bool)
    decreases i,
{
    if i <= 0 {
        (d, false)
    } else if d[i - 1] + 1 < radix {
        (d.update(i - 1, (d[i - 1] + 1) as u32), true)
    } else {
        inc_from(d.update(i - 1, 0), radix, i - 1)
    }
}

/// Adds one to the last digit, carrying leftward. Returns false where every
/// digit carried, leaving them all zero.
fn increment_digits(digits: &mut Vec<u32>, radix: u32) -> (kept: bool)
    requires
        2 <= radix <= 36,
        old(digits)@.len() >= 1,
        old(digits)@.len() <= 200,
        forall|j: int| 0 <= j < old(digits)@.len() ==> old(digits)@[j] < radix,
    ensures
        final(digits)@.len() == old(digits)@.len(),
        forall|j: int| 0 <= j < final(digits)@.len() ==> final(digits)@[j] < radix,
        kept ==> digits_value(final(digits)@, radix as nat, final(digits)@.len())
            == digits_value(old(digits)@, radix as nat, old(digits)@.len()) + 1,
        !kept ==> forall|j: int| 0 <= j < final(digits)@.len() ==> final(digits)@[j] == 0,
        (final(digits)@, kept) == inc_from(old(digits)@, radix as nat, old(digits)@.len() as int),
{
    let len = digits.len();
    let mut index: usize = len;
    let ghost d0 = digits@;
    while index > 0
        invariant
            len == digits@.len() == d0.len(),
            d0 == old(digits)@,
            2 <= radix <= 36,
            index <= len,
            forall|j: int| 0 <= j < len ==> digits@[j] < radix,
            forall|j: int| 0 <= j < index ==> digits@[j] == d0[j],
            forall|j: int| index <= j < len ==> #[trigger] digits@[j] == 0,
            forall|j: int| index <= j < len ==> #[trigger] d0[j] == radix - 1,
            inc_from(d0, radix as nat, len as int) == inc_from(digits@, radix as nat, index as int),
        decreases index,
    {
        let new_digit = digits[index - 1] + 1;
        if new_digit < radix {
            let ghost before = digits@;
            digits.set(index - 1, new_digit);
            proof {
                assert(digits@ == before.update(index - 1, new_digit));
                assert forall|j: int| (index - 1) < j < len implies digits@[j] == 0 && d0[j] == radix - 1 by {
                    assert(index <= j);
                    assert(before[j] == 0 && d0[j] == radix - 1);
                    assert(digits@[j] == before[j]);
                }
                assert forall|j: int| 0 <= j < (index - 1) implies digits@[j] == d0[j] by {
                    assert(digits@[j] == before[j]);
                }
                lemma_digits_bump(d0, digits@, radix as nat, (index - 1) as nat);
            }
            return true;
        }
        let ghost before = digits@;
        digits.set(index - 1, 0);
        proof {
            assert(digits@ == before.update(index - 1, 0));
            assert(before[index - 1] == d0[index - 1]);
            assert forall|j: int| (index - 1) <= j < len implies digits@[j] == 0 && d0[j] == radix - 1 by {
                if j >= index {
                    assert(before[j] == 0 && d0[j] == radix - 1);
                }
            }
        }
        index = index - 1;
    }
    assert(index == 0);
    false
}

/// Adding one at position `i` where every later digit rolls over from
/// `radix - 1` to zero adds one to the whole.
proof fn lemma_digits_bump(d0: Seq<u32>, d1: Seq<u32>, radix: nat, i: nat)
    requires
        d0.len() == d1.len(),
        i < d0.len(),
        radix >= 2,
        forall|j: int| 0 <= j < i ==> d1[j] == d0[j],
        d1[i as int] == d0[i as int] + 1,
        forall|j: int| i < j < d0.len() ==> d1[j] == 0 && d0[j] == radix - 1,
    ensures
        digits_value(d1, radix, d1.len()) == digits_value(d0, radix, d0.len()) + 1,
    decreases d0.len() - i,
{
    lemma_digits_bump_at(d0, d1, radix, i, d0.len());
}

proof fn lemma_digits_bump_at(d0: Seq<u32>, d1: Seq<u32>, radix: nat, i: nat, k: nat)
    requires
        d0.len() == d1.len(),
        i < k <= d0.len(),
        radix >= 2,
        forall|j: int| 0 <= j < i ==> d1[j] == d0[j],
        d1[i as int] == d0[i as int] + 1,
        forall|j: int| i < j < d0.len() ==> d1[j] == 0 && d0[j] == radix - 1,
    ensures
        digits_value(d1, radix, k) == digits_value(d0, radix, k) + 1,
    decreases k,
{
    if k == i + 1 {
        lemma_digits_prefix_same(d0, d1, radix, i);
    } else {
        lemma_digits_bump_at(d0, d1, radix, i, (k - 1) as nat);
        let a = digits_value(d0, radix, (k - 1) as nat);
        assert(digits_value(d1, radix, k) == (a + 1) * radix + 0);
        assert(digits_value(d0, radix, k) == a * radix + (radix - 1));
        assert((a + 1) * radix == a * radix + radix) by (nonlinear_arith);
    }
}

pub proof fn lemma_digits_prefix_same(d0: Seq<u32>, d1: Seq<u32>, radix: nat, k: nat)
    requires
        k <= d0.len(),
        k <= d1.len(),
        forall|j: int| 0 <= j < k ==> d1[j] == d0[j],
    ensures
        digits_value(d1, radix, k) == digits_value(d0, radix, k),
    decreases k,
{
    if k > 0 {
        lemma_digits_prefix_same(d0, d1, radix, (k - 1) as nat);
    }
}

/// A decimal digit character.
pub open spec fn is_dec(c: u8) -> bool {
    0x30 <= c <= 0x39
}

/// Where the body of a literal starts: after a leading sign, if any.
pub open spec fn body_start(b: Seq<u8>) -> int {
    if b.len() > 0 && (b[0] == 0x2d || b[0] == 0x2b) {
        1
    } else {
        0
    }
}

/// The values of the digits in `radix` among the `k` characters from
/// `start`.
pub open spec fn digits_upto(b: Seq<u8>, start: int, k: int, radix: u32) -> Seq<u32>
    decreases k,
{
    if k <= 0 {
        seq![]
    } else if digit_of(b[start + k - 1], radix) is Some {
        digits_upto(b, start, k - 1, radix).push(digit_of(b[start + k - 1], radix)->Some_0)
    } else {
        digits_upto(b, start, k - 1, radix)
    }
}

/// How many digits come before the first point among the `k` characters
/// from `start`; -1 where there is no point.
pub open spec fn point_upto(b: Seq<u8>, start: int, k: int, radix: u32) -> int
    decreases k,
{
    if k <= 0 {
        -1
    } else if point_upto(b, start, k - 1, radix) < 0 && b[start + k - 1] == 0x2e {
        digits_upto(b, start, k - 1, radix).len() as int
    } else {
        point_upto(b, start, k - 1, radix)
    }
}

/// A plain literal in `radix`: an optional sign, then digits with at most
/// one point, the last character a digit, and from one digit to one more
/// than the radix's capacity.
pub open spec fn plain(b: Seq<u8>, radix: u32) -> bool {
    let s = body_start(b);
    &&& b.len() > s
    &&& forall|i: int| s <= i < b.len() ==> digit_of(#[trigger] b[i], radix) is Some || b[i] == 0x2e
    &&& forall|i: int, j: int| s <= i < j < b.len() && #[trigger] b[i] == 0x2e ==> #[trigger] b[j] != 0x2e
    &&& digit_of(b[b.len() - 1], radix) is Some
    &&& 1 <= digits_upto(b, s, b.len() - s, radix).len() <= max_digits(radix as nat) + 1
}

/// The digits of a plain literal.
pub open spec fn plain_digits(b: Seq<u8>, radix: u32) -> Seq<u32> {
    digits_upto(b, body_start(b), b.len() - body_start(b), radix)
}

/// The point of a plain literal: the digits before it, or -1.
pub open spec fn plain_point(b: Seq<u8>, radix: u32) -> int {
    point_upto(b, body_start(b), b.len() - body_start(b), radix)
}

/// A digit further on adds to the count.
proof fn lemma_digits_grow(b: Seq<u8>, start: int, k1: int, k2: int, radix: u32)
    requires
        0 <= k1 < k2,
        digit_of(b[start + k2 - 1], radix) is Some,
    ensures
        digits_upto(b, start, k2, radix).len() >= digits_upto(b, start, k1, radix).len() + 1,
    decreases k2,
{
    lemma_digits_mono(b, start, k1, k2 - 1, radix);
}

proof fn lemma_digits_mono(b: Seq<u8>, start: int, k1: int, k2: int, radix: u32)
    requires
        0 <= k1 <= k2,
    ensures
        digits_upto(b, start, k2, radix).len() >= digits_upto(b, start, k1, radix).len(),
    decreases k2,
{
    if k2 > k1 {
        lemma_digits_mono(b, start, k1, k2 - 1, radix);
    }
}

/// The digit loop of the scanner from offset `off`, with the digits `d`
/// and point `p` read so far: it stops at the end, at an error, or right
/// after the digit that takes the digits past the radix's capacity. The
/// digits, the point and where it stopped.
pub open spec fn scan_loop(b: Seq<u8>, radix: u32, off: int, d: Seq<u32>, p: int) -> Result<(Seq<u32>, int, int), Error>
    decreases b.len() - off,
{
    if off >= b.len() || off < 0 {
        Ok((d, p, off))
    } else {
        match digit_of(b[off], radix) {
            Some(v) => if d.len() + 1 > max_digits(radix as nat) {
                Ok((d.push(v), p, off + 1))
            } else {
                scan_loop(b, radix, off + 1, d.push(v), p)
            },
            None => if b[off] == 0x2e {
                if p >= 0 {
                    Err(Error::TwoDecimalPoints)
                } else {
                    scan_loop(b, radix, off + 1, d, d.len() as int)
                }
            } else if b[off] == 0x5f {
                if d.len() == 0 {
                    Err(Error::LeadingSeparator)
                } else {
                    scan_loop(b, radix, off + 1, d, p)
                }
            } else {
                Err(Error::InvalidCharacter)
            },
        }
    }
}

/// Whether a digit comes from `j` on before any point.
pub open spec fn int_digit_ahead(b: Seq<u8>, radix: u32, j: int) -> bool
    decreases b.len() - j,
{
    if j >= b.len() || j < 0 || b[j] == 0x2e {
        false
    } else if digit_of(b[j], radix) is Some {
        true
    } else {
        int_digit_ahead(b, radix, j + 1)
    }
}

/// The value the character at `off` counts as when it decides rounding.
pub open spec fn next_digit(b: Seq<u8>, radix: u32, off: int, p: int) -> Result<u32, Error> {
    match digit_of(b[off], radix) {
        Some(v) => Ok(v),
        None => if b[off] == 0x5f {
            Ok(0)
        } else if b[off] == 0x2e {
            if p >= 0 {
                Err(Error::TwoDecimalPoints)
            } else {
                Ok(0)
            }
        } else {
            Err(Error::InvalidCharacter)
        },
    }
}

/// A full digit buffer rounded by the character at `off`: where it is a
/// digit at or above the radix's midpoint, one is added to the last digit,
/// carrying leftward; where every digit carries, the number gains a leading
/// one and the point moves right by one, or fails where the point is not
/// among the digits.
pub open spec fn round_next(b: Seq<u8>, radix: u32, d: Seq<u32>, p: int, off: int) -> Result<(Seq<u32>, int), Error> {
    if off >= b.len() {
        Ok((d, p))
    } else {
        match next_digit(b, radix, off, p) {
            Err(e) => Err(e),
            Ok(v) => if (v as nat) < midpoint(radix as nat) {
                Ok((d, p))
            } else {
                let (d2, kept) = inc_from(d, radix as nat, d.len() as int);
                if kept {
                    Ok((d2, p))
                } else if p < 0 || p == d.len() {
                    Err(Error::OverflowTooManyDigits)
                } else {
                    Ok((d2.update(0, 1), p + 1))
                }
            },
        }
    }
}

/// What the scanner reads from a literal: the digits and the point (-1 for
/// none), or the error. Past a full buffer, a digit before any point is an
/// integer part beyond 96 bits; otherwise the next character rounds.
pub open spec fn scan_spec(b: Seq<u8>, radix: u32) -> Result<(Seq<u32>, int), Error> {
    match scan_loop(b, radix, body_start(b), seq![], -1) {
        Err(e) => Err(e),
        Ok((d, p, off)) => {
            let full = d.len() > max_digits(radix as nat);
            let rounded = if full && p < 0 && int_digit_ahead(b, radix, off) {
                Err(Error::OverflowTooManyDigits)
            } else if full {
                round_next(b, radix, d, p, off)
            } else {
                Ok((d, p))
            };
            match rounded {
                Err(e) => Err(e),
                Ok((d2, p2)) => if d2.len() == 0 {
                    Err(Error::NoDigits)
                } else {
                    Ok((d2, p2))
                },
            }
        },
    }
}

/// What a literal in `radix` reads as: the mantissa and scale, or the
/// error.
pub open spec fn parse_spec(b: Seq<u8>, radix: u32) -> Result<(nat, nat), Error> {
    if b.len() == 0 {
        Err(Error::Empty)
    } else if radix < 2 || radix > 36 {
        Err(Error::UnsupportedRadix)
    } else {
        match scan_spec(b, radix) {
            Err(e) => Err(e),
            Ok((d, p)) => fold_from(d, radix as nat, p, frac_digits(d.len(), p), 0, 0),
        }
    }
}

/// `r` is what the literal reads as, with the literal's sign.
pub open spec fn parsed_as(r: Result<Decimal, Error>, b: Seq<u8>, radix: u32) -> bool {
    match parse_spec(b, radix) {
        Ok((m, s)) => r matches Ok(v) && v.wf() && v.mant() == m && v.scl() == s && v.neg() == (b[0] == 0x2d),
        Err(e) => r == Err::<Decimal, Error>(e),
    }
}

/// Reads the sign, then the digits and the point. Once one digit more than
/// the radix's capacity is read, reading stops, and the character after it
/// decides whether the last digit is rounded up.
fn scan(bytes: &[u8], radix: u32) -> (r: Result<(Vec<u32>, i32, bool), Error>)
    requires
        bytes@.len() >= 1,
        2 <= radix <= 36,
    ensures
        r matches Ok((d, p, n)) ==> d@.len() >= 1 && d@.len() <= max_digits(radix as nat) + 1
            && -1 <= p <= d@.len() && n == (bytes@[0] == 0x2d)
            && (forall|j: int| 0 <= j < d@.len() ==> d@[j] < radix),
        plain(bytes@, radix) ==> (r matches Ok((d, p, n)) && d@ == plain_digits(bytes@, radix)
            && p == plain_point(bytes@, radix)),
        match scan_spec(bytes@, radix) {
            Ok((d, p)) => r matches Ok((dd, pp, n)) && dd@ == d && pp == p && n == (bytes@[0] == 0x2d),
            Err(e) => r matches Err(x) && x == e,
        },
{
    let ghost bs = bytes@;
    let ghost start = body_start(bytes@);
    let ghost pl = plain(bytes@, radix);
    let ghost mut dot: int = -1;
    let cap = max_digits_of(radix);
    let negative = bytes[0] == 0x2d;
    let mut offset: usize = if bytes[0] == 0x2d || bytes[0] == 0x2b { 1 } else { 0 };
    let mut digits: Vec<u32> = Vec::new();
    let mut point: i32 = -1;
    let mut maybe_round = false;
    proof {
        assert(digits@ =~= seq![]);
    }
    while offset < bytes.len() && !maybe_round
        invariant
            offset <= bytes@.len(),
            2 <= radix <= 36,
            cap == max_digits(radix as nat),
            19 <= cap <= 96,
            digits@.len() <= cap + 1,
            maybe_round ==> digits@.len() == cap + 1,
            !maybe_round ==> digits@.len() <= cap,
            -1 <= point <= digits@.len(),
            forall|j: int| 0 <= j < digits@.len() ==> digits@[j] < radix,
            bs == bytes@,
            start == body_start(bs),
            pl == plain(bs, radix),
            offset >= start,
            pl ==> digits@ == digits_upto(bs, start, offset - start, radix),
            pl ==> point == point_upto(bs, start, offset - start, radix),
            pl ==> (point >= 0 <==> dot >= 0),
            pl && dot >= 0 ==> start <= dot < offset && bs[dot] == 0x2e,
            pl && maybe_round ==> offset == bs.len(),
            !maybe_round ==> scan_loop(bs, radix, start, seq![], -1) == scan_loop(bs, radix, offset as int, digits@, point as int),
            maybe_round ==> scan_loop(bs, radix, start, seq![], -1) == Ok::<(Seq<u32>, int, int), Error>((digits@, point as int, offset as int)),
        decreases bytes@.len() - offset,
    {
        let b = bytes[offset];
        match digit_value(b, radix) {
            Some(v) => {
                digits.push(v);
                offset += 1;
                if digits.len() > cap {
                    maybe_round = true;
                    proof {
                        if pl && offset < bs.len() {
                            let k = offset - start;
                            lemma_digits_grow(bs, start, k, bs.len() - start, radix);
                            assert(bs[start + (bs.len() - start) - 1] == bs[bs.len() - 1]);
                        }
                    }
                }
            },
            None => {
                if b == 0x2e {
                    if point >= 0 {
                        proof {
                            if pl {
                                assert(bytes@[dot] == 0x2e && bytes@[offset as int] == 0x2e);
                            }
                        }
                        return Err(Error::TwoDecimalPoints);
                    }
                    point = digits.len() as i32;
                    proof {
                        dot = offset as int;
                    }
                } else if b == 0x5f {
                    if digits.len() == 0 {
                        return Err(Error::LeadingSeparator);
                    }
                } else {
                    return Err(Error::InvalidCharacter);
                }
                offset += 1;
            },
        }
    }
    proof {
        assert(pl ==> offset == bytes@.len());
        assert(scan_loop(bs, radix, start, seq![], -1) == Ok::<(Seq<u32>, int, int), Error>((digits@, point as int, offset as int)));
        assert(maybe_round == (digits@.len() > max_digits(radix as nat)));
    }
    if maybe_round && point < 0 {
        // Digits still to come before any point belong to the integer part,
        // which then has more digits than 96 bits can hold.
        let mut j = offset;
        let mut stop = false;
        while j < bytes.len() && !stop
            invariant
                offset <= j <= bytes@.len(),
                2 <= radix <= 36,
                pl ==> offset == bytes@.len(),
                bs == bytes@,
                pl == plain(bs, radix),
                !stop ==> int_digit_ahead(bs, radix, offset as int) == int_digit_ahead(bs, radix, j as int),
                stop ==> !int_digit_ahead(bs, radix, offset as int),
                maybe_round,
                point < 0,
                start == body_start(bs),
                digits@.len() > max_digits(radix as nat),
                scan_loop(bs, radix, start, seq![], -1) == Ok::<(Seq<u32>, int, int), Error>((digits@, point as int, offset as int)),
            decreases bytes@.len() - j + (if stop { 0int } else { 1int }),
        {
            if bytes[j] == 0x2e {
                stop = true;
            } else {
                if digit_value(bytes[j], radix).is_some() {
                    return Err(Error::OverflowTooManyDigits);
                }
                j = j + 1;
            }
        }
    }
    if maybe_round && offset < bytes.len() {
        let next = bytes[offset];
        let digit: u32 = match digit_value(next, radix) {
            Some(v) => v,
            None => {
                if next == 0x5f {
                    0
                } else if next == 0x2e {
                    if point >= 0 {
                        return Err(Error::TwoDecimalPoints);
                    }
                    0
                } else {
                    return Err(Error::InvalidCharacter);
                }
            },
        };
        let mid: u32 = if radix % 2 == 0 { radix / 2 } else { (radix + 1) / 2 };
        if digit >= mid {
            let kept = increment_digits(&mut digits, radix);
            if !kept {
                // Every digit carried: the number gained a leading one.
                if point < 0 || point as usize == digits.len() {
                    return Err(Error::OverflowTooManyDigits);
                }
                digits.set(0, 1);
                point = point + 1;
            }
        }
    }
    if digits.len() == 0 {
        return Err(Error::NoDigits);
    }
    Ok((digits, point, negative))
}

/// What a plain literal reads as: its digits folded into a mantissa and
/// scale, or the error.
pub open spec fn plain_value(b: Seq<u8>, radix: u32) -> Result<(nat, nat), Error> {
    let d = plain_digits(b, radix);
    let p = plain_point(b, radix);
    fold_from(d, radix as nat, p, frac_digits(d.len(), p), 0, 0)
}

/// `r` is what a plain literal reads as: the value of `plain_value` with the
/// literal's sign, or its error.
pub open spec fn parsed_plain(r: Result<Decimal, Error>, b: Seq<u8>, radix: u32) -> bool {
    match plain_value(b, radix) {
        Ok((m, s)) => r matches Ok(v) && v.wf() && v.mant() == m && v.scl() == s && v.neg() == (b[0] == 0x2d),
        Err(e) => r == Err::<Decimal, Error>(e),
    }
}

/// The digits read from a literal are decimal digits.
proof fn lemma_digits_upto_small(b: Seq<u8>, start: int, k: int, radix: u32)
    ensures
        forall|j: int| 0 <= j < digits_upto(b, start, k, radix).len() ==> #[trigger] digits_upto(b, start, k, radix)[j] < radix,
    decreases k,
{
    if k > 0 {
        lemma_digits_upto_small(b, start, k - 1, radix);
        let prev = digits_upto(b, start, k - 1, radix);
        let cur = digits_upto(b, start, k, radix);
        assert forall|j: int| 0 <= j < cur.len() implies #[trigger] cur[j] < radix by {
            if j < prev.len() {
                assert(cur[j] == prev[j]);
            }
        }
    }
}

/// `k` decimal digits stand for less than `10^k`.
pub proof fn lemma_value_below(d: Seq<u32>, k: nat)
    requires
        k <= d.len(),
        forall|j: int| 0 <= j < d.len() ==> #[trigger] d[j] < 10,
    ensures
        digits_value(d, 10, k) < crate::limbs::pow10(k),
    decreases k,
{
    if k > 0 {
        lemma_value_below(d, (k - 1) as nat);
        assert(crate::limbs::pow10(k) == 10 * crate::limbs::pow10((k - 1) as nat));
    }
}

/// Folding the first 28 of 29 digits, where none of them overflows, leaves
/// the decision to the last one.
proof fn lemma_fold_to_last(d: Seq<u32>, point: int, frac: nat, i: nat)
    requires
        d.len() == 29,
        i <= 28,
        frac <= 29,
        digits_value(d, 10, 28) * 10 < limit() * 10,
        digits_value(d, 10, 28) < limit(),
        forall|j: int| 0 <= j < d.len() ==> #[trigger] d[j] < 10,
    ensures
        fold_from(d, 10, point, frac, i, digits_value(d, 10, i)) == fold_from(d, 10, point, frac, 28, digits_value(d, 10, 28)),
    decreases 28 - i,
{
    if i < 28 {
        lemma_value_mono_upto(d, i + 1, 28);
        assert(digits_value(d, 10, i + 1) == digits_value(d, 10, i) * 10 + d[i as int]);
        lemma_fold_to_last(d, point, frac, i + 1);
    }
}

/// The value of the first `i` digits never exceeds that of more.
pub proof fn lemma_value_mono_upto(d: Seq<u32>, i: nat, k: nat)
    requires
        i <= k <= d.len(),
    ensures
        digits_value(d, 10, i) <= digits_value(d, 10, k),
    decreases k,
{
    if k > i {
        lemma_value_mono_upto(d, i, (k - 1) as nat);
    }
}

/// A plain literal of 29 digits, with a point, that does not fit as it
/// stands keeps 28 of them: the 29th rounds the 28th up where it is 5 or
/// more, and the scale is one less.
pub proof fn lemma_parse_rounds_last_digit(b: Seq<u8>)
    requires
        plain(b, 10),
        plain_digits(b, 10).len() == 29,
        0 <= plain_point(b, 10) <= 28,
        digits_value(plain_digits(b, 10), 10, 28) * 10 >= limit() || plain_point(b, 10) == 0,
    ensures
        plain_value(b, 10) == Ok::<(nat, nat), Error>((
            digits_value(plain_digits(b, 10), 10, 28) + (if plain_digits(b, 10)[28] >= 5 { 1nat } else { 0nat }),
            (28 - plain_point(b, 10)) as nat,
        )),
{
    let d = plain_digits(b, 10);
    let p = plain_point(b, 10);
    let frac = frac_digits(29, p);
    lemma_digits_upto_small(b, body_start(b), b.len() - body_start(b), 10);
    lemma_value_below(d, 28);
    crate::limbs::lemma_pow10_28();
    lemma_fold_to_last(d, p, frac, 0);
    assert(digits_value(d, 10, 0) == 0);
}

/// Parses the bytes of a literal in `radix`.
pub fn parse_bytes(bytes: &[u8], radix: u32) -> (r: Result<Decimal, Error>)
    ensures
        bytes@.len() == 0 ==> r == Err::<Decimal, Error>(Error::Empty),
        bytes@.len() > 0 && (radix < 2 || radix > 36) ==> r == Err::<Decimal, Error>(Error::UnsupportedRadix),
        r matches Ok(v) ==> v.wf(),
        2 <= radix <= 36 && plain(bytes@, radix) ==> parsed_plain(r, bytes@, radix),
        parsed_as(r, bytes@, radix),
{
    if bytes.len() == 0 {
        return Err(Error::Empty);
    }
    if radix < 2 || radix > 36 {
        return Err(Error::UnsupportedRadix);
    }
    match scan(bytes, radix) {
        Ok((digits, point, negative)) => fold_digits(&digits, radix, point, negative),
        Err(e) => Err(e),
    }
}

/// Parses a literal in `radix`: an optional sign, digits with at most one
/// point, and `_` between digits.
pub fn parse_str_radix_n(str: &str, radix: u32) -> (r: Result<Decimal, Error>)
    ensures
        str.spec_bytes().len() == 0 ==> r == Err::<Decimal, Error>(Error::Empty),
        str.spec_bytes().len() > 0 && (radix < 2 || radix > 36) ==> r == Err::<Decimal, Error>(Error::UnsupportedRadix),
        r matches Ok(v) ==> v.wf(),
        2 <= radix <= 36 && plain(str.spec_bytes(), radix) ==> parsed_plain(r, str.spec_bytes(), radix),
        parsed_as(r, str.spec_bytes(), radix),
{
    parse_bytes(str.as_bytes(), radix)
}

/// Parses a literal in radix ten.
pub fn parse_str_radix_10(str: &str) -> (r: Result<Decimal, Error>)
    ensures
        str.spec_bytes().len() == 0 ==> r == Err::<Decimal, Error>(Error::Empty),
        r matches Ok(v) ==> v.wf(),
        plain(str.spec_bytes(), 10) ==> parsed_plain(r, str.spec_bytes(), 10),
        parsed_as(r, str.spec_bytes(), 10),
{
    parse_bytes(str.as_bytes(), 10)
}

/// The value of a run of decimal digits with an optional leading `+`, if it
/// is one and fits in 32 bits.
pub open spec fn u32_value(b: Seq<u8>) -> Option<u32> {
    let d = unsigned_digits(b);
    if d.len() == 0 || !all_dec(d) {
        None
    } else {
        let v = dec_value(d, d.len());
        if v <= u32::MAX { Some(v as u32) } else { None }
    }
}

/// Every character is a decimal digit.
pub open spec fn all_dec(d: Seq<u8>) -> bool {
    forall|i: int| 0 <= i < d.len() ==> 0x30 <= #[trigger] d[i] <= 0x39
}

/// The characters after an optional leading `+`.
pub open spec fn unsigned_digits(b: Seq<u8>) -> Seq<u8> {
    if b.len() > 0 && b[0] == 0x2b {
        b.subrange(1, b.len() as int)
    } else {
        b
    }
}

/// The value of the first `k` decimal digit characters.
pub open spec fn dec_value(d: Seq<u8>, k: nat) -> nat
    decreases k,
{
    if k == 0 || k > d.len() {
        0
    } else {
        dec_value(d, (k - 1) as nat) * 10 + (d[k - 1] - 0x30) as nat
    }
}

/// Reads an exponent: decimal digits with an optional leading `+`.
fn parse_u32(b: &Vec<u8>) -> (r: Option<u32>)
    ensures
        r == u32_value(b@),
{
    let start: usize = if b.len() > 0 && b[0] == 0x2b { 1 } else { 0 };
    let ghost d = unsigned_digits(b@);
    proof {
        assert(b@.subrange(0, b@.len() as int) =~= b@);
    }
    if start == b.len() {
        return None;
    }
    let mut v: u64 = 0;
    let mut i: usize = start;
    while i < b.len()
        invariant
            start <= i <= b@.len(),
            d == unsigned_digits(b@),
            d == b@.subrange(start as int, b@.len() as int),
            v == dec_value(d, (i - start) as nat),
            v <= u32::MAX,
            forall|j: int| 0 <= j < i - start ==> 0x30 <= #[trigger] d[j] <= 0x39,
        decreases b@.len() - i,
    {
        let c = b[i];
        if c < 0x30 || c > 0x39 {
            proof {
                assert(d[i - start] == c);
                assert(!(0x30 <= d[i - start] <= 0x39));
                assert(!all_dec(d));

            }
            return None;
        }
        proof {
            assert(d[i - start] == c);
        }
        v = v * 10 + (c - 0x30) as u64;
        i = i + 1;
        if v > 0xFFFF_FFFF {
            proof {
                if all_dec(d) {
                    lemma_dec_value_grows(d, (i - start) as nat, d.len());
                }
            }
            return None;
        }
    }
    proof {
        assert((i - start) as nat == d.len());
    }
    Some(v as u32)
}

proof fn lemma_dec_value_grows(d: Seq<u8>, k: nat, n: nat)
    requires
        k <= n <= d.len(),
        forall|j: int| 0 <= j < n ==> 0x30 <= #[trigger] d[j] <= 0x39,
    ensures
        dec_value(d, n) >= dec_value(d, k),
    decreases n,
{
    if n > k {
        lemma_dec_value_grows(d, k, (n - 1) as nat);
    }
}

/// Copies a range of bytes.
fn copy_range(b: &[u8], from: usize, to: usize) -> (r: Vec<u8>)
    requires
        from <= to <= b@.len(),
    ensures
        r@ == b@.subrange(from as int, to as int),
{
    let mut r: Vec<u8> = Vec::new();
    let mut i = from;
    while i < to
        invariant
            from <= i <= to <= b@.len(),
            r@ == b@.subrange(from as int, i as int),
        decreases to - i,
    {
        r.push(b[i]);
        i = i + 1;
        proof {
            assert(b@.subrange(from as int, i as int) == b@.subrange(from as int, (i - 1) as int).push(b@[i - 1]));
        }
    }
    r
}

/// Where the first `e` or `E` stands, if anywhere.
fn find_exponent_mark(b: &[u8]) -> (r: Option<usize>)
    ensures
        r matches Some(k) ==> k < b@.len() && (b@[k as int] == 0x65 || b@[k as int] == 0x45)
            && forall|j: int| 0 <= j < k ==> b@[j] != 0x65 && b@[j] != 0x45,
        r is None ==> forall|j: int| 0 <= j < b@.len() ==> b@[j] != 0x65 && b@[j] != 0x45,
{
    let mut i: usize = 0;
    while i < b.len()
        invariant
            i <= b@.len(),
            forall|j: int| 0 <= j < i ==> b@[j] != 0x65 && b@[j] != 0x45,
        decreases b@.len() - i,
    {
        if b[i] == 0x65 || b[i] == 0x45 {
            return Some(i);
        }
        i = i + 1;
    }
    None
}

impl Decimal {
    /// Parses a literal in radix ten.
    pub fn from_str(value: &str) -> (r: Result<Decimal, Error>)
        ensures
            value.spec_bytes().len() == 0 ==> r == Err::<Decimal, Error>(Error::Empty),
            r matches Ok(v) ==> v.wf(),
            plain(value.spec_bytes(), 10) ==> parsed_plain(r, value.spec_bytes(), 10),
            parsed_as(r, value.spec_bytes(), 10),
    {
        parse_str_radix_10(value)
    }

    /// Parses a literal in `radix`, from 2 to 36.
    pub fn from_str_radix(str: &str, radix: u32) -> (r: Result<Decimal, Error>)
        ensures
            str.spec_bytes().len() == 0 ==> r == Err::<Decimal, Error>(Error::Empty),
            str.spec_bytes().len() > 0 && (radix < 2 || radix > 36) ==> r == Err::<Decimal, Error>(Error::UnsupportedRadix),
            r matches Ok(v) ==> v.wf(),
            2 <= radix <= 36 && plain(str.spec_bytes(), radix) ==> parsed_plain(r, str.spec_bytes(), radix),
            parsed_as(r, str.spec_bytes(), radix),
    {
        if radix == 10 {
            parse_str_radix_10(str)
        } else {
            parse_str_radix_n(str, radix)
        }
    }

    /// Parses `<literal>e<exponent>` (or `E`): a negative exponent raises the
    /// scale, a positive one lowers it, and past zero multiplies the
    /// mantissa by ten, at scale zero.
    pub fn from_scientific(value: &str) -> (r: Result<Decimal, Error>)
        ensures
            (forall|j: int| 0 <= j < value.spec_bytes().len() ==> value.spec_bytes()[j] != 0x65
                && value.spec_bytes()[j] != 0x45) ==> r == Err::<Decimal, Error>(Error::InvalidScientific),
            r matches Ok(v) ==> v.wf(),
            forall|k: int| #![trigger exponent_mark_at(value.spec_bytes(), k)]
                exponent_mark_at(value.spec_bytes(), k) ==> scientific_as(r, value.spec_bytes(), k),
    {
        let bytes = value.as_bytes();
        let found = find_exponent_mark(bytes);
        if found.is_none() {
            return Err(Error::InvalidScientific);
        }
        let k = found.unwrap();
        let len = bytes.len();
        assert(k < len && (bytes@[k as int] == 0x65 || bytes@[k as int] == 0x45));
        proof {
            assert forall|j: int| exponent_mark_at(bytes@, j) implies j == k by {
                if j < k {
                    assert(bytes@[j] != 0x65 && bytes@[j] != 0x45);
                } else if j > k {
                    assert(bytes@[k as int] != 0x65 && bytes@[k as int] != 0x45);
                }
            }
        }
        let base = copy_range(bytes, 0, k);
        let ret = match parse_bytes(base.as_slice(), 10) {
            Ok(v) => v,
            Err(e) => return Err(e),
        };
        let negative_exp = k + 1 < len && bytes[k + 1] == 0x2d;
        let digits_from = if negative_exp { k + 2 } else { k + 1 };
        let exp_bytes = copy_range(bytes, digits_from, len);
        let exp = match parse_u32(&exp_bytes) {
            Some(e) => e,
            None => return Err(Error::InvalidScientific),
        };
        apply_exponent(ret, negative_exp, exp)
    }
}

/// Where the first `e` or `E` stands.
pub open spec fn exponent_mark_at(b: Seq<u8>, k: int) -> bool {
    &&& 0 <= k < b.len()
    &&& (b[k] == 0x65 || b[k] == 0x45)
    &&& forall|j: int| 0 <= j < k ==> b[j] != 0x65 && b[j] != 0x45
}

/// Whether the exponent after the mark at `k` is negative.
pub open spec fn exponent_negative(b: Seq<u8>, k: int) -> bool {
    k + 1 < b.len() && b[k + 1] == 0x2d
}

/// The characters of the exponent's digits.
pub open spec fn exponent_digits(b: Seq<u8>, k: int) -> Seq<u8> {
    b.subrange(if exponent_negative(b, k) { k + 2 } else { k + 1 }, b.len() as int)
}

/// A mantissa `m` at scale `s` with the exponent applied: the scale goes
/// up by a negative exponent, down by a positive one, and past zero the
/// mantissa is multiplied by ten instead.
pub open spec fn exponent_applied(m: nat, s: nat, negative: bool, e: nat) -> Result<(nat, nat), Error> {
    if negative {
        if s + e > 28 {
            Err(Error::ScaleExceedsMaximumPrecision)
        } else {
            Ok((m, s + e))
        }
    } else if e <= s {
        Ok((m, (s - e) as nat))
    } else if m * pow10((e - s) as nat) < limit() {
        Ok((m * pow10((e - s) as nat), 0))
    } else {
        Err(Error::OverflowTooManyDigits)
    }
}

/// `r` is what scientific notation with its mark at `k` reads as: the
/// error of the literal before the mark, or of the exponent, or the
/// literal's value with the exponent applied.
pub open spec fn scientific_as(r: Result<Decimal, Error>, b: Seq<u8>, k: int) -> bool {
    let base = b.subrange(0, k);
    match parse_spec(base, 10) {
        Err(e) => r == Err::<Decimal, Error>(e),
        Ok((m, s)) => match u32_value(exponent_digits(b, k)) {
            None => r == Err::<Decimal, Error>(Error::InvalidScientific),
            Some(e) => match exponent_applied(m, s, exponent_negative(b, k), e as nat) {
                Ok((m2, s2)) => r matches Ok(v) && v.wf() && v.mant() == m2 && v.scl() == s2 && v.neg() == (
                base[0] == 0x2d),
                Err(x) => r == Err::<Decimal, Error>(x),
            },
        },
    }
}

/// Applies an exponent to a value as `exponent_applied` says, keeping the
/// sign.
fn apply_exponent(v: Decimal, negative: bool, exp: u32) -> (r: Result<Decimal, Error>)
    requires
        v.wf(),
    ensures
        match exponent_applied(v.mant(), v.scl(), negative, exp as nat) {
            Ok((m, s)) => r matches Ok(w) && w.wf() && w.mant() == m && w.scl() == s && w.neg() == v.neg(),
            Err(x) => r == Err::<Decimal, Error>(x),
        },
{
    let mut ret = v;
    let current_scale = ret.scale();
    if negative {
        if exp > MAX_PRECISION - current_scale {
            return Err(Error::ScaleExceedsMaximumPrecision);
        }
        match ret.set_scale(current_scale + exp) {
            Ok(()) => {},
            Err(e) => return Err(e),
        }
        Ok(ret)
    } else if exp <= current_scale {
        match ret.set_scale(current_scale - exp) {
            Ok(()) => {},
            Err(e) => return Err(e),
        }
        Ok(ret)
    } else {
        let mut bits = ret.mantissa_array3();
        let total = exp - current_scale;
        let mut n: u32 = 0;
        let ghost m = v.mant();
        proof {
            assert(pow10(0) == 1);
            assert(m * 1 == m);
        }
        while n < total
            invariant
                n <= total,
                m == v.mant(),
                total == exp - v.scl(),
                !negative,
                exp > v.scl(),
                val3(bits) == m * pow10(n as nat),
            decreases total - n,
        {
            let ghost before = val3(bits);
            let overflow = mul_by_10(&mut bits);
            if overflow != 0 {
                proof {
                    assert(overflow * limit() >= limit()) by (nonlinear_arith)
                        requires overflow >= 1;
                    assert(before * 10 >= limit());
                    assert(pow10((n + 1) as nat) == 10 * pow10(n as nat));
                    crate::limbs::lemma_pow10_mono((n + 1) as nat, total as nat);
                    assert(m * pow10((n + 1) as nat) >= limit()) by (nonlinear_arith)
                        requires m * pow10(n as nat) * 10 >= limit(), pow10((n + 1) as nat) == 10 * pow10(n as nat);
                    assert(m * pow10(total as nat) >= m * pow10((n + 1) as nat)) by (nonlinear_arith)
                        requires pow10((n + 1) as nat) <= pow10(total as nat);
                }
                return Err(Error::OverflowTooManyDigits);
            }
            proof {
                assert(val3(bits) == before * 10);
                assert(pow10((n + 1) as nat) == 10 * pow10(n as nat));
                assert(m * pow10(n as nat) * 10 == m * pow10((n + 1) as nat)) by (nonlinear_arith)
                    requires pow10((n + 1) as nat) == 10 * pow10(n as nat);
            }
            n = n + 1;
        }
        Ok(Decimal::from_limbs(bits, ret.is_sign_negative(), 0))
    }
}

} // verus!
