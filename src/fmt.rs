//! Writing a value as text.

use vstd::prelude::*;

use crate::decimal::Decimal;
use crate::limbs::{
    lemma_div_step, lemma_pow10_add, lemma_pow10_mono, lemma_pow10_pos, limit, pow10, pow10_u128,
    to_u128,
};
use crate::parse::{
    body_start, digits_upto, digits_value, fold_from, frac_digits, is_dec, plain, plain_digits,
    plain_point, plain_value, point_upto,
};

verus! {

/// The character of a digit.
pub open spec fn digit_char(d: nat) -> u8 {
    (0x30 + d % 10) as u8
}

/// The lowest `n` decimal digits of `m`, most significant first.
pub open spec fn digit_chars(m: nat, n: nat) -> Seq<u8>
    decreases n,
{
    if n == 0 {
        seq![]
    } else {
        seq![digit_char(m / pow10((n - 1) as nat))] + digit_chars(m, (n - 1) as nat)
    }
}

/// How many decimal digits `m` has; none for zero.
pub open spec fn ndigits(m: nat) -> nat
    decreases m,
{
    if m == 0 {
        0
    } else {
        1 + ndigits(m / 10)
    }
}

/// The digits of `m`, or `0` for zero.
pub open spec fn int_chars(m: nat) -> Seq<u8> {
    if m == 0 {
        seq![0x30u8]
    } else {
        digit_chars(m, ndigits(m))
    }
}

/// A value in plain notation: a `-` where the sign is negative, the integer
/// part, and where the scale is not zero a point and exactly `scale` digits.
pub open spec fn plain_chars(v: Decimal) -> Seq<u8> {
    let p = pow10(v.scl());
    (if v.neg() { seq![0x2du8] } else { seq![] }) + int_chars(v.mant() / p) + (if v.scl() == 0 {
        seq![]
    } else {
        seq![0x2eu8] + digit_chars(v.mant() % p, v.scl())
    })
}

/// The bytes as the characters of the same codes.
pub open spec fn chars_of(b: Seq<u8>) -> Seq<char> {
    b.map_values(|c: u8| c as char)
}

/// Relies on std's `String::from_utf8`: bytes below 128 are valid UTF-8,
/// each the character of its own code, so the call succeeds.
#[verifier::external_body]
fn ascii_string(b: Vec<u8>) -> (r: String)
    requires
        forall|i: int| 0 <= i < b@.len() ==> b@[i] < 128,
    ensures
        r@ == chars_of(b@),
{
    String::from_utf8(b).unwrap()
}

/// Writes the lowest `n` decimal digits of `m`, most significant first.
fn push_digits(out: &mut Vec<u8>, m: u128, n: u32)
    ensures
        final(out)@ == old(out)@ + digit_chars(m as nat, n as nat),
{
    let mut buf: Vec<u8> = Vec::new();
    let mut w = m;
    let mut k: u32 = 0;
    proof {
        assert(pow10(0) == 1);
    }
    while k < n
        invariant
            k <= n,
            w == (m as nat) / pow10(k as nat),
            buf@ == digit_chars(m as nat, k as nat),
        decreases n - k,
    {
        proof {
            lemma_div_step(m as nat, k as nat);
            lemma_pow10_pos(k as nat);
            assert(digit_chars(m as nat, (k + 1) as nat) == seq![digit_char((m as nat) / pow10(k as nat))]
                + digit_chars(m as nat, k as nat));
        }
        buf.insert(0, (0x30 + w % 10) as u8);
        w = w / 10;
        k = k + 1;
    }
    let mut i: usize = 0;
    let ghost start = out@;
    while i < buf.len()
        invariant
            i <= buf@.len(),
            out@ == start + buf@.subrange(0, i as int),
        decreases buf@.len() - i,
    {
        out.push(buf[i]);
        i = i + 1;
        proof {
            assert(buf@.subrange(0, i as int) == buf@.subrange(0, (i - 1) as int).push(buf@[i - 1]));
        }
    }
    proof {
        assert(buf@.subrange(0, buf@.len() as int) == buf@);
    }
}

/// A number below `10^n` has at most `n` digits.
proof fn lemma_ndigits_bound(m: nat, n: nat)
    requires
        m < pow10(n),
    ensures
        ndigits(m) <= n,
    decreases n,
{
    if m > 0 {
        assert(n > 0);
        assert(pow10(n) == 10 * pow10((n - 1) as nat));
        lemma_ndigits_bound(m / 10, (n - 1) as nat);
    }
}

/// The number of decimal digits of `m`.
fn count_digits(m: u128) -> (r: u32)
    ensures
        r == ndigits(m as nat),
        r <= 39,
{
    proof {
        reveal_with_fuel(pow10, 40);
        assert(pow10(39) == 1_000_000_000_000_000_000_000_000_000_000_000_000_000);
        lemma_ndigits_bound(m as nat, 39);
    }
    let mut w = m;
    let mut k: u32 = 0;
    while w > 0
        invariant
            ndigits(m as nat) == k + ndigits(w as nat),
            k + ndigits(w as nat) <= 39,
        decreases w,
    {
        w = w / 10;
        k = k + 1;
    }
    k
}

/// Writes `m` in decimal, or `0` for zero.
fn push_int(out: &mut Vec<u8>, m: u128)
    ensures
        final(out)@ == old(out)@ + int_chars(m as nat),
{
    if m == 0 {
        out.push(0x30);
    } else {
        let n = count_digits(m);
        push_digits(out, m, n);
    }
}

/// Every character written is ASCII.
pub open spec fn all_ascii(b: Seq<u8>) -> bool {
    forall|i: int| 0 <= i < b.len() ==> b[i] < 128
}

impl Decimal {
    /// The value in plain notation, as bytes.
    pub fn to_str_bytes(&self) -> (r: Vec<u8>)
        requires
            self.wf(),
        ensures
            r@ == plain_chars(*self),
    {
        let mut out: Vec<u8> = Vec::new();
        if self.is_sign_negative() {
            out.push(0x2d);
        }
        let scale = self.scale();
        let p = pow10_u128(scale);
        let m = to_u128(&self.mantissa_array3());
        push_int(&mut out, m / p);
        if scale > 0 {
            out.push(0x2e);
            push_digits(&mut out, m % p, scale);
        }
        proof {
            assert(out@ =~= plain_chars(*self));
        }
        out
    }

    /// The value in plain notation: `[-]digits[.digits]`, with exactly
    /// `scale` digits after the point.
    pub fn to_string(&self) -> (r: String)
        requires
            self.wf(),
        ensures
            r@ == chars_of(plain_chars(*self)),
    {
        let b = self.to_str_bytes();
        proof {
            lemma_plain_ascii(*self);
        }
        ascii_string(b)
    }
}

proof fn lemma_digit_chars_ascii(m: nat, n: nat)
    ensures
        all_ascii(digit_chars(m, n)),
    decreases n,
{
    if n > 0 {
        lemma_digit_chars_ascii(m, (n - 1) as nat);
        let s = digit_chars(m, n);
        let t = digit_chars(m, (n - 1) as nat);
        assert forall|i: int| 0 <= i < s.len() implies s[i] < 128 by {
            if i > 0 {
                assert(s[i] == t[i - 1]);
            }
        }
    }
}

proof fn lemma_plain_ascii(v: Decimal)
    ensures
        all_ascii(plain_chars(v)),
{
    let p = pow10(v.scl());
    lemma_digit_chars_ascii(v.mant() / p, ndigits(v.mant() / p));
    lemma_digit_chars_ascii(v.mant() % p, v.scl());
    let a: Seq<u8> = if v.neg() { seq![0x2du8] } else { seq![] };
    let b = int_chars(v.mant() / p);
    let c: Seq<u8> = if v.scl() == 0 { seq![] } else { seq![0x2eu8] + digit_chars(v.mant() % p, v.scl()) };
    assert(all_ascii(a));
    assert(all_ascii(b));
    assert(all_ascii(c)) by {
        if v.scl() != 0 {
            let d = digit_chars(v.mant() % p, v.scl());
            assert forall|i: int| 0 <= i < c.len() implies c[i] < 128 by {
                if i > 0 {
                    assert(c[i] == d[i - 1]);
                }
            }
        }
    }
    assert forall|i: int| 0 <= i < plain_chars(v).len() implies plain_chars(v)[i] < 128 by {
        let s = a + b + c;
        assert(s == plain_chars(v));
        if i < a.len() {
            assert(s[i] == a[i]);
        } else if i < a.len() + b.len() {
            assert(s[i] == b[i - a.len()]);
        } else {
            assert(s[i] == c[i - a.len() - b.len()]);
        }
    }
}

/// `n` zero characters.
pub open spec fn zeros(n: nat) -> Seq<u8> {
    Seq::new(n, |i: int| 0x30u8)
}

/// A value in plain notation with exactly `prec` digits after the point:
/// the value's digits cut or padded with zeros, never rounded; no point
/// where `prec` is zero.
pub open spec fn prec_chars(v: Decimal, prec: nat) -> Seq<u8> {
    let p = pow10(v.scl());
    let k = if prec < v.scl() { prec } else { v.scl() };
    (if v.neg() { seq![0x2du8] } else { seq![] }) + int_chars(v.mant() / p) + (if prec == 0 {
        seq![]
    } else {
        seq![0x2eu8] + digit_chars((v.mant() % p) / pow10((v.scl() - k) as nat), k) + zeros((prec - k) as nat)
    })
}

proof fn lemma_ascii_concat(a: Seq<u8>, b: Seq<u8>)
    requires
        all_ascii(a),
        all_ascii(b),
    ensures
        all_ascii(a + b),
{
    assert forall|i: int| 0 <= i < (a + b).len() implies (a + b)[i] < 128 by {
        if i < a.len() {
            assert((a + b)[i] == a[i]);
        } else {
            assert((a + b)[i] == b[i - a.len()]);
        }
    }
}

impl Decimal {
    /// The value in plain notation with exactly `prec` digits after the
    /// point, cut or padded with zeros.
    pub fn to_string_with_precision(&self, prec: usize) -> (r: String)
        requires
            self.wf(),
        ensures
            r@ == chars_of(prec_chars(*self, prec as nat)),
    {
        let mut out: Vec<u8> = Vec::new();
        if self.is_sign_negative() {
            out.push(0x2d);
        }
        let scale = self.scale();
        let p = pow10_u128(scale);
        let m = to_u128(&self.mantissa_array3());
        push_int(&mut out, m / p);
        let ghost head = out@;
        if prec > 0 {
            let k: u32 = if prec < scale as usize { prec as u32 } else { scale };
            out.push(0x2e);
            let q = pow10_u128(scale - k);
            push_digits(&mut out, (m % p) / q, k);
            let ghost mid = out@;
            let mut i: usize = k as usize;
            while i < prec
                invariant
                    k <= i <= prec,
                    out@ == mid + zeros((i - k) as nat),
                decreases prec - i,
            {
                out.push(0x30);
                i = i + 1;
                proof {
                    assert(zeros((i - k) as nat) =~= zeros((i - 1 - k) as nat).push(0x30u8));
                }
            }
        }
        proof {
            assert(out@ =~= prec_chars(*self, prec as nat));
            let v = *self;
            let pp = pow10(v.scl());
            let kk = if (prec as nat) < v.scl() { prec as nat } else { v.scl() };
            let a: Seq<u8> = if v.neg() { seq![0x2du8] } else { seq![] };
            lemma_digit_chars_ascii(v.mant() / pp, ndigits(v.mant() / pp));
            lemma_digit_chars_ascii((v.mant() % pp) / pow10((v.scl() - kk) as nat), kk);
            assert(all_ascii(a));
            assert(all_ascii(int_chars(v.mant() / pp)));
            lemma_ascii_concat(a, int_chars(v.mant() / pp));
            if prec > 0 {
                let d = digit_chars((v.mant() % pp) / pow10((v.scl() - kk) as nat), kk);
                let z = zeros((prec - kk) as nat);
                assert(all_ascii(z));
                assert(all_ascii(seq![0x2eu8]));
                lemma_ascii_concat(seq![0x2eu8], d);
                lemma_ascii_concat(seq![0x2eu8] + d, z);
                lemma_ascii_concat(a + int_chars(v.mant() / pp), seq![0x2eu8] + d + z);
            } else {
                assert(a + int_chars(v.mant() / pp) + seq![] =~= a + int_chars(v.mant() / pp));
            }
        }
        ascii_string(out)
    }
}

/// An exponent: `-` and its digits where it is negative, else its digits.
pub open spec fn exp_chars(e: int) -> Seq<u8> {
    if e < 0 {
        seq![0x2du8] + int_chars((-e) as nat)
    } else {
        int_chars(e as nat)
    }
}

/// The digits of a mantissa in scientific notation: the first digit, then a
/// point and the others unless they are all zero; `0` for zero.
pub open spec fn sci_mantissa(m: nat) -> Seq<u8> {
    if m == 0 {
        seq![0x30u8]
    } else {
        let n = ndigits(m);
        seq![digit_char(m / pow10((n - 1) as nat))] + (if n == 1 || m % pow10((n - 1) as nat) == 0 {
            seq![]
        } else {
            seq![0x2eu8] + digit_chars(m, (n - 1) as nat)
        })
    }
}

/// The exponent in scientific notation: the digits after the first, less
/// the scale.
pub open spec fn sci_exponent(v: Decimal) -> int {
    if v.mant() == 0 {
        -(v.scl() as int)
    } else {
        ndigits(v.mant()) - 1 - v.scl()
    }
}

/// A value in scientific notation: `[-]d[.digits]e[-]exp`, with `E` where
/// `upper`.
pub open spec fn sci_chars(v: Decimal, upper: bool) -> Seq<u8> {
    (if v.neg() { seq![0x2du8] } else { seq![] }) + sci_mantissa(v.mant()) + seq![
        if upper { 0x45u8 } else { 0x65u8 },
    ] + exp_chars(sci_exponent(v))
}

/// 2^96 lies below 10^29.
proof fn lemma_limit_below_pow29()
    ensures
        limit() < pow10(29),
{
    reveal_with_fuel(pow10, 30);
}

/// A mantissa has at most 29 digits.
proof fn lemma_mantissa_digits(m: nat)
    requires
        m < limit(),
    ensures
        ndigits(m) <= 29,
{
    lemma_limit_below_pow29();
    lemma_ndigits_bound(m, 29);
}

/// Writes the digits of a mantissa in scientific notation.
fn push_sci_mantissa(out: &mut Vec<u8>, m: u128)
    requires
        m < crate::limbs::LIMIT,
    ensures
        final(out)@ == old(out)@ + sci_mantissa(m as nat),
{
    if m == 0 {
        out.push(0x30);
        return;
    }
    let n = count_digits(m);
    proof {
        lemma_mantissa_digits(m as nat);
    }
    let p = pow10_u128(n - 1);
    let top = m / p;
    proof {
        lemma_below_pow_ndigits(m as nat);
        assert(pow10(n as nat) == 10 * p);
        lemma_pow10_pos((n - 1) as nat);
        assert(top < 10) by (nonlinear_arith)
            requires top == m / p, m < 10 * p, p >= 1;
    }
    let ghost start = out@;
    out.push((0x30 + top) as u8);
    if n > 1 && m % p != 0 {
        out.push(0x2e);
        push_digits(out, m, n - 1);
    }
    proof {
        assert(out@ =~= start + sci_mantissa(m as nat));
    }
}

/// The value in scientific notation.
pub fn fmt_scientific_notation(value: &Decimal, upper: bool) -> (r: String)
    requires
        value.wf(),
    ensures
        r@ == chars_of(sci_chars(*value, upper)),
{
    let mut out: Vec<u8> = Vec::new();
    if value.is_sign_negative() {
        out.push(0x2d);
    }
    let m = to_u128(&value.mantissa_array3());
    let scale = value.scale();
    push_sci_mantissa(&mut out, m);
    let exponent: i64 = if m == 0 {
        -(scale as i64)
    } else {
        let n = count_digits(m);
        proof {
            lemma_mantissa_digits(m as nat);
        }
        (n as i64) - 1 - (scale as i64)
    };
    out.push(if upper { 0x45 } else { 0x65 });
    if exponent < 0 {
        out.push(0x2d);
        push_int(&mut out, (-exponent) as u128);
    } else {
        push_int(&mut out, exponent as u128);
    }
    proof {
        assert(out@ =~= sci_chars(*value, upper));
        lemma_sci_ascii(*value, upper);
    }
    ascii_string(out)
}

proof fn lemma_sci_ascii(v: Decimal, upper: bool)
    ensures
        all_ascii(sci_chars(v, upper)),
{
    let m = v.mant();
    let e = sci_exponent(v);
    let a: Seq<u8> = if v.neg() { seq![0x2du8] } else { seq![] };
    let b = sci_mantissa(m);
    let c: Seq<u8> = seq![if upper { 0x45u8 } else { 0x65u8 }];
    let d = exp_chars(e);
    let x = if e < 0 { (-e) as nat } else { e as nat };
    lemma_digit_chars_ascii(x, ndigits(x));
    assert(all_ascii(int_chars(x)));
    assert(all_ascii(d)) by {
        if e < 0 {
            assert forall|i: int| 0 <= i < d.len() implies d[i] < 128 by {
                if i > 0 {
                    assert(d[i] == int_chars(x)[i - 1]);
                }
            }
        }
    }
    if m > 0 {
        let n = ndigits(m);
        lemma_digit_chars_ascii(m, (n - 1) as nat);
        assert(all_ascii(b)) by {
            let t: Seq<u8> = if n == 1 || m % pow10((n - 1) as nat) == 0 { seq![] } else {
                seq![0x2eu8] + digit_chars(m, (n - 1) as nat)
            };
            assert forall|i: int| 0 <= i < b.len() implies b[i] < 128 by {
                if i > 1 {
                    assert(b[i] == digit_chars(m, (n - 1) as nat)[i - 2]);
                }
            }
        }
    }
    assert forall|i: int| 0 <= i < sci_chars(v, upper).len() implies sci_chars(v, upper)[i] < 128 by {
        let s = a + b + c + d;
        assert(s == sci_chars(v, upper));
        if i < a.len() {
            assert(s[i] == a[i]);
        } else if i < a.len() + b.len() {
            assert(s[i] == b[i - a.len()]);
        } else if i < a.len() + b.len() + c.len() {
            assert(s[i] == c[i - a.len() - b.len()]);
        } else {
            assert(s[i] == d[i - a.len() - b.len() - c.len()]);
        }
    }
}

/// The digit values of digit characters.
pub open spec fn vals(x: Seq<u8>) -> Seq<u32> {
    x.map_values(|c: u8| (c - 0x30) as u32)
}

proof fn lemma_digit_chars_shape(m: nat, n: nat)
    ensures
        digit_chars(m, n).len() == n,
        forall|i: int| 0 <= i < n ==> is_dec(#[trigger] digit_chars(m, n)[i]),
    decreases n,
{
    if n > 0 {
        lemma_digit_chars_shape(m, (n - 1) as nat);
        let t = digit_chars(m, (n - 1) as nat);
        assert forall|i: int| 0 <= i < n implies is_dec(#[trigger] digit_chars(m, n)[i]) by {
            if i > 0 {
                assert(digit_chars(m, n)[i] == t[i - 1]);
            }
        }
    }
}

/// A digit run extends the digits read and leaves the point as it was.
proof fn lemma_run(b: Seq<u8>, start: int, k0: int, k: int)
    requires
        0 <= k0 <= k,
        0 <= start,
        start + k <= b.len(),
        forall|i: int| start + k0 <= i < start + k ==> is_dec(#[trigger] b[i]),
    ensures
        digits_upto(b, start, k, 10) == digits_upto(b, start, k0, 10) + vals(b.subrange(start + k0, start + k)),
        point_upto(b, start, k, 10) == point_upto(b, start, k0, 10),
    decreases k,
{
    if k > k0 {
        lemma_run(b, start, k0, k - 1);
        assert(b.subrange(start + k0, start + k) =~= b.subrange(start + k0, start + k - 1).push(b[start + k - 1]));
        assert(vals(b.subrange(start + k0, start + k)) =~= vals(b.subrange(start + k0, start + k - 1)).push(
            (b[start + k - 1] - 0x30) as u32,
        ));
        assert(digits_upto(b, start, k, 10) =~= digits_upto(b, start, k0, 10) + vals(b.subrange(start + k0, start + k)));
    } else {
        assert(vals(b.subrange(start + k0, start + k)) =~= Seq::<u32>::empty());
        assert(digits_upto(b, start, k0, 10) + Seq::<u32>::empty() =~= digits_upto(b, start, k0, 10));
    }
}

proof fn lemma_value_concat(a: Seq<u32>, c: Seq<u32>)
    ensures
        digits_value(a + c, 10, (a.len() + c.len()) as nat) == digits_value(a, 10, a.len()) * pow10(c.len())
            + digits_value(c, 10, c.len()),
    decreases c.len(),
{
    if c.len() == 0 {
        assert(a + c =~= a);
        assert(pow10(0) == 1);
    } else {
        let c1 = c.drop_last();
        lemma_value_concat(a, c1);
        crate::parse::lemma_digits_prefix_same(a + c1, a + c, 10, (a.len() + c1.len()) as nat);
        crate::parse::lemma_digits_prefix_same(c1, c, 10, c1.len());
        let k = (a.len() + c.len()) as nat;
        assert((a + c)[k - 1] == c[c.len() - 1]);
        assert(pow10(c.len()) == 10 * pow10(c1.len()));
        let va = digits_value(a, 10, a.len());
        let v1 = digits_value(c1, 10, c1.len());
        assert((va * pow10(c1.len()) + v1) * 10 + c[c.len() - 1] == va * pow10(c.len()) + (v1 * 10
            + c[c.len() - 1])) by (nonlinear_arith)
            requires pow10(c.len()) == 10 * pow10(c1.len());
    }
}

proof fn lemma_value_digit_chars(x: nat, n: nat)
    ensures
        digits_value(vals(digit_chars(x, n)), 10, n) == x % pow10(n),
    decreases n,
{
    lemma_digit_chars_shape(x, n);
    if n == 0 {
        assert(pow10(0) == 1);
    } else {
        let p = pow10((n - 1) as nat);
        lemma_pow10_pos((n - 1) as nat);
        let rest = digit_chars(x, (n - 1) as nat);
        let head = seq![digit_char(x / p)];
        lemma_digit_chars_shape(x, (n - 1) as nat);
        lemma_value_digit_chars(x, (n - 1) as nat);
        assert(vals(digit_chars(x, n)) =~= vals(head) + vals(rest));
        lemma_value_concat(vals(head), vals(rest));
        assert(vals(head)[0] == (x / p) % 10);
        assert(digits_value(vals(head), 10, 1) == digits_value(vals(head), 10, 0) * 10 + vals(head)[0]);
        assert(pow10(n) == p * 10);
        vstd::arithmetic::div_mod::lemma_breakdown(x as int, p as int, 10);
        assert(((x / p) % 10) * p == p * ((x / p) % 10)) by (nonlinear_arith);
    }
}

proof fn lemma_below_pow_ndigits(q: nat)
    ensures
        q < pow10(ndigits(q)),
    decreases q,
{
    if q > 0 {
        lemma_below_pow_ndigits(q / 10);
        assert(pow10(ndigits(q)) == 10 * pow10(ndigits(q / 10)));
    } else {
        assert(pow10(0) == 1);
    }
}

proof fn lemma_value_int_chars(q: nat)
    ensures
        digits_value(vals(int_chars(q)), 10, int_chars(q).len()) == q,
        int_chars(q).len() >= 1,
        forall|i: int| 0 <= i < int_chars(q).len() ==> is_dec(#[trigger] int_chars(q)[i]),
{
    if q == 0 {
        assert(vals(int_chars(q))[0] == 0);
        assert(int_chars(q).len() == 1);
        assert(digits_value(vals(int_chars(q)), 10, 0) == 0);
        assert(digits_value(vals(int_chars(q)), 10, 1) == 0);
    } else {
        lemma_digit_chars_shape(q, ndigits(q));
        lemma_value_digit_chars(q, ndigits(q));
        lemma_below_pow_ndigits(q);
        vstd::arithmetic::div_mod::lemma_small_mod(q, pow10(ndigits(q)));
    }
}

/// Digits whose value fits in 96 bits, with at most 28 after the point,
/// fold to that value and scale.
proof fn lemma_fold_fits(d: Seq<u32>, point: int, frac: nat, i: nat)
    requires
        i <= d.len(),
        frac <= 28,
        digits_value(d, 10, d.len()) < limit(),
    ensures
        fold_from(d, 10, point, frac, i, digits_value(d, 10, i)) == Ok::<(nat, nat), crate::decimal::Error>(
            (digits_value(d, 10, d.len()), frac),
        ),
    decreases d.len() - i,
{
    if i < d.len() {
        crate::parse::lemma_value_mono_upto(d, i + 1, d.len());
        assert(digits_value(d, 10, i + 1) == digits_value(d, 10, i) * 10 + d[i as int]);
        lemma_fold_fits(d, point, frac, i + 1);
    } else {
        assert(i == d.len());
    }
}

/// Plain notation carries at most 29 digits.
proof fn lemma_digit_count(v: Decimal)
    requires
        v.wf(),
    ensures
        int_chars(v.mant() / pow10(v.scl())).len() + v.scl() <= 29,
{
    let p = pow10(v.scl());
    let q = v.mant() / p;
    lemma_pow10_pos(v.scl());
    if q > 0 {
        lemma_digit_chars_shape(q, ndigits(q));
        let r = (29 - v.scl()) as nat;
        lemma_limit_below_pow29();
        lemma_pow10_add(r, v.scl());
        assert(r + v.scl() == 29);
        if q >= pow10(r) {
            vstd::arithmetic::div_mod::lemma_fundamental_div_mod(v.mant() as int, p as int);
            assert(q * p >= pow10(r) * p) by (nonlinear_arith)
                requires q >= pow10(r), p >= 1;
            assert(v.mant() >= q * p);
        }
        lemma_ndigits_bound(q, r);
    }
}

/// Reading back the plain notation of a value gives the same mantissa,
/// scale and sign: so formatting what was parsed from plain notation gives
/// the same text.
#[verifier::rlimit(100)]
pub proof fn lemma_format_parse_round_trip(v: Decimal)
    requires
        v.wf(),
    ensures
        plain(plain_chars(v), 10),
        plain_value(plain_chars(v), 10) == Ok::<(nat, nat), crate::decimal::Error>((v.mant(), v.scl())),
        (plain_chars(v)[0] == 0x2d) == v.neg(),
{
    let b = plain_chars(v);
    let s = v.scl();
    let p = pow10(s);
    lemma_pow10_pos(s);
    let q = v.mant() / p;
    let f = v.mant() % p;
    let sg: Seq<u8> = if v.neg() { seq![0x2du8] } else { seq![] };
    let ip = int_chars(q);
    let fp = digit_chars(f, s);
    let tail: Seq<u8> = if s == 0 { seq![] } else { seq![0x2eu8] + fp };
    lemma_value_int_chars(q);
    lemma_digit_chars_shape(f, s);
    lemma_value_digit_chars(f, s);
    lemma_digit_count(v);
    assert(b == sg + ip + tail);
    let st = sg.len() as int;
    let l = ip.len() as int;
    assert(body_start(b) == st) by {
        if !v.neg() {
            assert(b[0] == ip[0]);
        }
    }
    assert forall|i: int| 0 <= i < l implies b[st + i] == ip[i] by {
        assert(b[st + i] == (sg + ip)[st + i]);
    }
    assert forall|j: int| 0 <= j < tail.len() implies b[st + l + j] == tail[j] by {}
    assert forall|j: int| 0 <= j < s implies b[st + l + 1 + j] == fp[j] by {
        assert(b[st + l + 1 + j] == tail[1 + j]);
    }
    assert forall|i: int| st <= i < b.len() implies is_dec(#[trigger] b[i]) || b[i] == 0x2e by {
        if i < st + l {
            assert(b[i] == ip[i - st]);
        } else if i > st + l {
            assert(b[i] == fp[i - st - l - 1]);
        }
    }
    assert forall|i: int, j: int| st <= i < j < b.len() && #[trigger] b[i] == 0x2e implies #[trigger] b[j] != 0x2e by {
        if i < st + l {
            assert(b[i] == ip[i - st]);
        } else if i > st + l {
            assert(b[i] == fp[i - st - l - 1]);
        }
        assert(i == st + l);
        assert(b[j] == fp[j - st - l - 1]);
    }
    lemma_run(b, st, 0, l);
    assert(b.subrange(st, st + l) =~= ip);
    assert(digits_upto(b, st, 0, 10) =~= Seq::<u32>::empty());
    assert(Seq::<u32>::empty() + vals(ip) =~= vals(ip));
    if s == 0 {
        assert(b.len() == st + l);
        assert(b[b.len() - 1] == ip[l - 1]);
        assert(plain_digits(b, 10) == vals(ip));
        assert(plain_point(b, 10) == -1);
        assert(p == 1);
        assert(v.mant() / 1 == v.mant());
        assert(q == v.mant());
        assert(vals(ip).len() == l);
        lemma_fold_fits(vals(ip), -1, 0, 0);
        assert(digits_value(vals(ip), 10, 0) == 0);
    } else {
        let k1 = l + 1;
        assert(!is_dec(b[st + k1 - 1]));
        assert(digits_upto(b, st, k1, 10) == digits_upto(b, st, l, 10));
        assert(point_upto(b, st, k1, 10) == l);
        lemma_run(b, st, k1, k1 + s);
        assert(b.subrange(st + k1, st + k1 + s) =~= fp);
        assert(b.len() == st + k1 + s);
        assert(b[b.len() - 1] == fp[s - 1]);
        let d = vals(ip) + vals(fp);
        assert(plain_digits(b, 10) == d);
        assert(plain_point(b, 10) == l);
        assert(frac_digits(d.len(), l) == s);
        lemma_value_concat(vals(ip), vals(fp));
        vstd::arithmetic::div_mod::lemma_fundamental_div_mod(v.mant() as int, p as int);
        vstd::arithmetic::div_mod::lemma_mod_pos_bound(v.mant() as int, p as int);
        vstd::arithmetic::div_mod::lemma_small_mod(f, p);
        assert(q * p == p * q) by (nonlinear_arith);
        assert(vals(ip).len() == l && vals(fp).len() == s);
        assert(digits_value(d, 10, d.len()) == q * p + f);
        lemma_fold_fits(d, l, s, 0);
        assert(digits_value(d, 10, 0) == 0);
    }
}

/// The low `n` digits of `t * 10^n + w` are those of `w`.
proof fn lemma_digit_chars_low(t: nat, w: nat, n: nat)
    requires
        w < pow10(n),
    ensures
        digit_chars(t * pow10(n) + w, n) == digit_chars(w, n),
    decreases n,
{
    if n > 0 {
        let p = pow10((n - 1) as nat);
        lemma_pow10_pos((n - 1) as nat);
        assert(pow10(n) == 10 * p);
        let hi = w / p;
        let lo = w % p;
        vstd::arithmetic::div_mod::lemma_fundamental_div_mod(w as int, p as int);
        vstd::arithmetic::div_mod::lemma_mod_pos_bound(w as int, p as int);
        let big = t * pow10(n) + w;
        assert(big == (t * 10 + hi) * p + lo) by (nonlinear_arith)
            requires big == t * pow10(n) + w, pow10(n) == 10 * p, w == p * hi + lo;
        vstd::arithmetic::div_mod::lemma_fundamental_div_mod_converse(big as int, p as int, (t * 10 + hi) as int, lo as int);
        assert(hi < 10) by (nonlinear_arith)
            requires w < 10 * p, w == p * hi + lo, lo >= 0, p >= 1;
        vstd::arithmetic::div_mod::lemma_mod_multiples_vanish(t as int, hi as int, 10);
        assert((t * 10 + hi) % 10 == hi % 10);
        lemma_digit_chars_low(t * 10 + hi, lo, (n - 1) as nat);
        lemma_digit_chars_low(hi, lo, (n - 1) as nat);
        assert(w == hi * p + lo);
    }
}

/// Writing back the value of a digit string gives the string.
proof fn lemma_digit_chars_of_value(x: Seq<u8>)
    requires
        forall|i: int| 0 <= i < x.len() ==> is_dec(#[trigger] x[i]),
    ensures
        digit_chars(digits_value(vals(x), 10, x.len()), x.len()) == x,
    decreases x.len(),
{
    if x.len() > 0 {
        let n = x.len();
        let y = x.subrange(1, n as int);
        let c = seq![x[0]];
        assert(x =~= c + y);
        assert(vals(x) =~= vals(c) + vals(y));
        lemma_value_concat(vals(c), vals(y));
        lemma_digit_chars_of_value(y);
        assert(vals(c)[0] == (x[0] - 0x30) as u32);
        assert(digits_value(vals(c), 10, 1) == digits_value(vals(c), 10, 0) * 10 + vals(c)[0]);
        let d = (x[0] - 0x30) as nat;
        let w = digits_value(vals(y), 10, y.len());
        assert forall|j: int| 0 <= j < vals(y).len() implies #[trigger] vals(y)[j] < 10 by {
            assert(is_dec(y[j]));
        }
        crate::parse::lemma_value_below(vals(y), y.len());
        let p = pow10((n - 1) as nat);
        lemma_pow10_pos((n - 1) as nat);
        let m = d * p + w;
        vstd::arithmetic::div_mod::lemma_fundamental_div_mod_converse(m as int, p as int, d as int, w as int);
        lemma_digit_chars_low(d, w, (n - 1) as nat);
        assert(digit_char(d) == x[0]);
        assert(digit_chars(m, n) =~= seq![digit_char(m / p)] + digit_chars(m, (n - 1) as nat));
    }
}

/// A number between `10^(n-1)` and `10^n` has `n` digits.
proof fn lemma_ndigits_exact(q: nat, n: nat)
    requires
        n >= 1,
        pow10((n - 1) as nat) <= q < pow10(n),
    ensures
        ndigits(q) == n,
    decreases n,
{
    assert(pow10(n) == 10 * pow10((n - 1) as nat));
    if n == 1 {
        assert(pow10(0) == 1);
        assert(q / 10 == 0);
        assert(ndigits(0) == 0);
    } else {
        assert(pow10((n - 1) as nat) == 10 * pow10((n - 2) as nat));
        lemma_ndigits_exact(q / 10, (n - 1) as nat);
    }
}

/// A literal in canonical form: an optional `-`, the integer digits, and
/// where there are any, a point and the digits after it.
pub open spec fn canonical_chars(neg: bool, ip: Seq<u8>, fp: Seq<u8>) -> Seq<u8> {
    (if neg { seq![0x2du8] } else { seq![] }) + ip + (if fp.len() == 0 { seq![] } else { seq![0x2eu8] + fp })
}

/// Formatting what a canonical literal parses to gives the literal back:
/// integer digits without a leading zero (or a lone `0`), digits after the
/// point as written, at most 28 digits in all.
#[verifier::rlimit(100)]
pub proof fn lemma_canonical_round_trip(neg: bool, ip: Seq<u8>, fp: Seq<u8>, v: Decimal)
    requires
        forall|i: int| 0 <= i < ip.len() ==> is_dec(#[trigger] ip[i]),
        forall|i: int| 0 <= i < fp.len() ==> is_dec(#[trigger] fp[i]),
        ip.len() >= 1,
        ip.len() == 1 || ip[0] != 0x30,
        ip.len() + fp.len() <= 28,
        v.wf(),
        crate::parse::parsed_plain(Ok::<Decimal, crate::decimal::Error>(v), canonical_chars(neg, ip, fp), 10),
    ensures
        plain(canonical_chars(neg, ip, fp), 10),
        plain_chars(v) == canonical_chars(neg, ip, fp),
{
    let b = canonical_chars(neg, ip, fp);
    let sg: Seq<u8> = if neg { seq![0x2du8] } else { seq![] };
    let tail: Seq<u8> = if fp.len() == 0 { seq![] } else { seq![0x2eu8] + fp };
    let st = sg.len() as int;
    let l = ip.len() as int;
    let f = fp.len();
    assert(b == sg + ip + tail);
    assert(body_start(b) == st) by {
        if !neg {
            assert(b[0] == ip[0]);
        }
    }
    assert forall|i: int| 0 <= i < l implies b[st + i] == ip[i] by {
        assert(b[st + i] == (sg + ip)[st + i]);
    }
    assert forall|j: int| 0 <= j < tail.len() implies b[st + l + j] == tail[j] by {}
    assert forall|j: int| 0 <= j < f implies b[st + l + 1 + j] == fp[j] by {
        assert(b[st + l + 1 + j] == tail[1 + j]);
    }
    assert forall|i: int| st <= i < b.len() implies is_dec(#[trigger] b[i]) || b[i] == 0x2e by {
        if i < st + l {
            assert(b[i] == ip[i - st]);
        } else if i > st + l {
            assert(b[i] == fp[i - st - l - 1]);
        }
    }
    assert forall|i: int, j: int| st <= i < j < b.len() && #[trigger] b[i] == 0x2e implies #[trigger] b[j] != 0x2e by {
        if i < st + l {
            assert(b[i] == ip[i - st]);
        } else if i > st + l {
            assert(b[i] == fp[i - st - l - 1]);
        }
        assert(i == st + l);
        assert(b[j] == fp[j - st - l - 1]);
    }
    lemma_run(b, st, 0, l);
    assert(b.subrange(st, st + l) =~= ip);
    assert(digits_upto(b, st, 0, 10) =~= Seq::<u32>::empty());
    assert(Seq::<u32>::empty() + vals(ip) =~= vals(ip));
    assert forall|j: int| 0 <= j < vals(ip).len() implies #[trigger] vals(ip)[j] < 10 by {
        assert(is_dec(ip[j]));
    }
    assert forall|j: int| 0 <= j < vals(fp).len() implies #[trigger] vals(fp)[j] < 10 by {
        assert(is_dec(fp[j]));
    }
    let q = digits_value(vals(ip), 10, ip.len());
    let r = digits_value(vals(fp), 10, f);
    crate::parse::lemma_value_below(vals(ip), ip.len());
    crate::parse::lemma_value_below(vals(fp), f);
    lemma_digit_chars_of_value(ip);
    lemma_digit_chars_of_value(fp);
    lemma_pow10_pos(f);
    lemma_pow10_add(ip.len(), f);
    crate::limbs::lemma_pow10_28();
    lemma_pow10_mono(ip.len() + f, 28);
    let d = vals(ip) + vals(fp);
    lemma_value_concat(vals(ip), vals(fp));
    let m = q * pow10(f) + r;
    assert(q * pow10(f) <= (pow10(ip.len()) - 1) * pow10(f)) by (nonlinear_arith)
        requires q + 1 <= pow10(ip.len()), pow10(f) >= 1;
    assert((pow10(ip.len()) - 1) * pow10(f) == pow10(ip.len()) * pow10(f) - pow10(f)) by (nonlinear_arith);
    assert(m < pow10(ip.len() + f));
    if f == 0 {
        assert(b.len() == st + l);
        assert(b[b.len() - 1] == ip[l - 1]);
        assert(plain_digits(b, 10) == vals(ip));
        assert(plain_point(b, 10) == -1);
        assert(pow10(0) == 1);
        assert(r == 0);
        assert(vals(ip).len() == l);
        lemma_fold_fits(vals(ip), -1, 0, 0);
        assert(digits_value(vals(ip), 10, 0) == 0);
    } else {
        let k1 = l + 1;
        assert(!is_dec(b[st + k1 - 1]));
        assert(digits_upto(b, st, k1, 10) == digits_upto(b, st, l, 10));
        assert(point_upto(b, st, k1, 10) == l);
        lemma_run(b, st, k1, k1 + f);
        assert(b.subrange(st + k1, st + k1 + f) =~= fp);
        assert(b.len() == st + k1 + f);
        assert(b[b.len() - 1] == fp[f - 1]);
        assert(plain_digits(b, 10) == d);
        assert(plain_point(b, 10) == l);
        assert(frac_digits(d.len(), l) == f);
        assert(vals(ip).len() == l && vals(fp).len() == f);
        lemma_fold_fits(d, l, f, 0);
        assert(digits_value(d, 10, 0) == 0);
    }
    assert(v.mant() == m && v.scl() == f && v.neg() == neg);
    vstd::arithmetic::div_mod::lemma_fundamental_div_mod_converse(m as int, pow10(f) as int, q as int, r as int);
    if q == 0 {
        if ip.len() > 1 {
            lemma_pow10_mono(1, (ip.len() - 1) as nat);
            assert(pow10(1) == 10 * pow10(0));
            assert(ip[0] != 0x30);
            assert(vals(ip)[0] >= 1);
            assert(false) by {
                let c = seq![ip[0]];
                let y = ip.subrange(1, ip.len() as int);
                assert(vals(ip) =~= vals(c) + vals(y));
                lemma_value_concat(vals(c), vals(y));
                assert(digits_value(vals(c), 10, 1) == digits_value(vals(c), 10, 0) * 10 + vals(c)[0]);
                assert(vals(c)[0] >= 1);
                lemma_pow10_pos(y.len());
                assert(digits_value(vals(c), 10, 1) * pow10(y.len()) >= 1) by (nonlinear_arith)
                    requires digits_value(vals(c), 10, 1) >= 1, pow10(y.len()) >= 1;
            }
        }
        assert(ip[0] == 0x30) by {
            assert(digit_chars(q, 1) == ip);
            assert(digit_chars(0, 1)[0] == 0x30);
        }
        assert(ip =~= seq![0x30u8]);
    } else {
        // The integer digits have no leading zero, so they are all of q's.
        if ip.len() == 1 {
            assert(pow10(0) == 1);
        } else {
            let c = seq![ip[0]];
            let y = ip.subrange(1, ip.len() as int);
            assert(vals(ip) =~= vals(c) + vals(y));
            lemma_value_concat(vals(c), vals(y));
            assert(digits_value(vals(c), 10, 1) == digits_value(vals(c), 10, 0) * 10 + vals(c)[0]);
            assert(vals(c)[0] >= 1);
            assert(y.len() == ip.len() - 1);
            assert(digits_value(vals(c), 10, 1) * pow10(y.len()) >= pow10(y.len())) by (nonlinear_arith)
                requires digits_value(vals(c), 10, 1) >= 1;
        }
        lemma_ndigits_exact(q, ip.len());
    }
    assert(plain_chars(v) =~= b);
}

} // verus!
