//! Comparison and checked arithmetic on values.

use vstd::prelude::*;

use crate::decimal::{strip_steps, Decimal};
use crate::limbs::{
    from_u128, lemma_div_step, lemma_pow10_28, lemma_pow10_add, lemma_pow10_mono, lemma_pow10_pos,
    lemma_round_digit, limit, pow10, pow10_u128, round_half_up, to_u128, val3, LIMIT,
};
use crate::wide::{w_add, w_div10, w_fits, w_from, w_lt, w_mul, w_mul10, w_sub, wide_limit, Wide};

verus! {

/// The first number of digits, from `k` to `s`, whose removal, rounding
/// half up, leaves `v` below 2^96.
pub open spec fn first_fit(v: nat, k: nat, s: nat) -> Option<nat>
    decreases s + 1 - k,
{
    if k > s {
        None
    } else if round_half_up(v, k) < limit() {
        Some(k)
    } else {
        first_fit(v, k + 1, s)
    }
}

/// `v` at scale `s`, brought into a mantissa: the fewest digits, at least
/// `min_k`, are removed, rounding half up, for it to fit in 96 bits. The
/// mantissa and the scale left, or None where no scale down to zero will do.
pub open spec fn fitted(v: nat, s: nat, min_k: nat) -> Option<(nat, nat)> {
    match first_fit(v, min_k, s) {
        Some(k) => Some((round_half_up(v, k), (s - k) as nat)),
        None => None,
    }
}

/// Whether `x` is a value with this mantissa, scale and sign, where
/// `fitted` gives some; whether it is None where `fitted` gives none.
pub open spec fn is_fitted(r: Option<Decimal>, f: Option<(nat, nat)>, negative: bool) -> bool {
    match f {
        Some((m, s)) => r matches Some(x) && x.wf() && x.mant() == m && x.scl() == s && x.neg() == negative,
        None => r is None,
    }
}

/// The larger of two scales.
pub open spec fn max_scale(a: Decimal, b: Decimal) -> nat {
    if a.scl() >= b.scl() {
        a.scl()
    } else {
        b.scl()
    }
}

/// The exact sum of two values, as a signed mantissa at the larger scale.
pub open spec fn exact_sum(a: Decimal, b: Decimal) -> int {
    let s = max_scale(a, b);
    a.num() * pow10((s - a.scl()) as nat) + b.num() * pow10((s - b.scl()) as nat)
}

/// The exact difference of two values, as a signed mantissa at the larger
/// scale.
pub open spec fn exact_diff(a: Decimal, b: Decimal) -> int {
    let s = max_scale(a, b);
    a.num() * pow10((s - a.scl()) as nat) - b.num() * pow10((s - b.scl()) as nat)
}

/// The magnitude of an integer.
pub open spec fn abs_int(x: int) -> nat {
    if x < 0 {
        (-x) as nat
    } else {
        x as nat
    }
}

/// How two values compare: by `a * 10^-sa` against `b * 10^-sb`, which is
/// the order of `a * 10^sb` against `b * 10^sa`.
pub open spec fn cmp_spec(a: Decimal, b: Decimal) -> core::cmp::Ordering {
    let x = a.num() * pow10(b.scl());
    let y = b.num() * pow10(a.scl());
    if x < y {
        core::cmp::Ordering::Less
    } else if x == y {
        core::cmp::Ordering::Equal
    } else {
        core::cmp::Ordering::Greater
    }
}

/// Rounds `v` at scale `s` into a mantissa as `fitted` says.
fn reduce(v: Wide, s: u32, min_k: u32) -> (r: Option<(u128, u32)>)
    requires
        v.wf(),
    ensures
        match fitted(v.val(), s as nat, min_k as nat) {
            Some((m, t)) => r == Some((m as u128, t as u32)),
            None => r is None,
        },
{
    if min_k > s {
        return None;
    }
    let ghost x = v.val();
    let mut q = v;
    let mut last: u128 = 0;
    let mut k: u32 = 0;
    proof {
        assert(pow10(0) == 1);
        assert(x / 1 == x);
    }
    while k < min_k
        invariant
            k <= min_k <= s,
            q.wf(),
            v.wf(),
            x == v.val(),
            q.val() == x / pow10(k as nat),
            k >= 1 ==> last == (x / pow10((k - 1) as nat)) % 10,
        decreases min_k - k,
    {
        proof {
            lemma_div_step(x, k as nat);
        }
        let (nq, d) = w_div10(q);
        q = nq;
        last = d;
        k = k + 1;
    }
    loop
        invariant
            min_k <= k <= s,
            q.wf(),
            v.wf(),
            x == v.val(),
            q.val() == x / pow10(k as nat),
            k >= 1 ==> last == (x / pow10((k - 1) as nat)) % 10,
            first_fit(x, min_k as nat, s as nat) == first_fit(x, k as nat, s as nat),
        decreases s - k,
    {
        let up = k >= 1 && last >= 5;
        proof {
            if k >= 1 {
                lemma_round_digit(x, k as nat);
            } else {
                assert(round_half_up(x, 0) == x);
                assert(pow10(0) == 1);
                assert(x / 1 == x);
            }
            lemma_pow10_pos(k as nat);
            assert(x < limit() * limit()) by (nonlinear_arith)
                requires x == v.hi * limit() + v.lo, v.hi < limit(), v.lo < limit();
            if k >= 1 {
                lemma_pow10_mono(1, k as nat);
                assert(pow10(1) == 10 * pow10(0));
                vstd::arithmetic::div_mod::lemma_div_is_ordered_by_denominator(x as int, 10, pow10(k as nat) as int);
            }
        }
        let rounded = if up { w_add(q, Wide { hi: 0, lo: 1 }) } else { q };
        proof {
            assert(rounded.val() == round_half_up(x, k as nat));
        }
        if w_fits(rounded) {
            proof {
                assert(first_fit(x, k as nat, s as nat) == Some(k as nat));
                assert(rounded.lo == rounded.val());
            }
            return Some((rounded.lo, s - k));
        }
        proof {
            assert(first_fit(x, k as nat, s as nat) == first_fit(x, (k + 1) as nat, s as nat));
        }
        if k == s {
            proof {
                assert(first_fit(x, (k + 1) as nat, s as nat) is None);
            }
            return None;
        }
        proof {
            lemma_div_step(x, k as nat);
        }
        let (nq, d) = w_div10(q);
        q = nq;
        last = d;
        k = k + 1;
    }
}

/// A mantissa times `10^k`, exactly.
fn scaled_up(m: u128, k: u32) -> (r: Wide)
    requires
        m < LIMIT,
        k <= 28,
    ensures
        r.wf(),
        r.val() == m * pow10(k as nat),
{
    let mut w = w_from(m);
    let mut i: u32 = 0;
    proof {
        assert(pow10(0) == 1);
        lemma_pow10_28();
    }
    while i < k
        invariant
            i <= k <= 28,
            m < LIMIT,
            w.wf(),
            w.val() == m * pow10(i as nat),
            pow10(28) == 10_000_000_000_000_000_000_000_000_000,
        decreases k - i,
    {
        proof {
            lemma_pow10_mono((i + 1) as nat, 28);
            assert(pow10((i + 1) as nat) == 10 * pow10(i as nat));
            assert(m * pow10((i + 1) as nat) < limit() * limit()) by (nonlinear_arith)
                requires m < limit(), pow10((i + 1) as nat) <= 10_000_000_000_000_000_000_000_000_000;
            assert(w.val() * 10 == m * pow10((i + 1) as nat)) by (nonlinear_arith)
                requires w.val() == m * pow10(i as nat), pow10((i + 1) as nat) == 10 * pow10(i as nat);
        }
        w = w_mul10(w);
        i = i + 1;
    }
    w
}

impl Decimal {
    /// How the values compare, whatever their scales; zero of either sign
    /// equals zero.
    pub fn cmp(&self, other: &Decimal) -> (r: core::cmp::Ordering)
        requires
            self.wf(),
            other.wf(),
        ensures
            r == cmp_spec(*self, *other),
    {
        let sa = self.scale();
        let sb = other.scale();
        let s = if sa >= sb { sa } else { sb };
        let a = scaled_up(to_u128(&self.mantissa_array3()), s - sa);
        let b = scaled_up(to_u128(&other.mantissa_array3()), s - sb);
        let na = self.is_sign_negative() && !self.is_zero();
        let nb = other.is_sign_negative() && !other.is_zero();
        let less = w_lt(a, b);
        let greater = w_lt(b, a);
        proof {
            lemma_cross(*self, *other, s as nat);
        }
        if na && !nb {
            core::cmp::Ordering::Less
        } else if !na && nb {
            core::cmp::Ordering::Greater
        } else if less {
            if na { core::cmp::Ordering::Greater } else { core::cmp::Ordering::Less }
        } else if greater {
            if na { core::cmp::Ordering::Less } else { core::cmp::Ordering::Greater }
        } else {
            core::cmp::Ordering::Equal
        }
    }

    /// Zero where `self` is not above `other`, else the magnitude of `self`.
    pub fn abs_sub(&self, other: &Decimal) -> (r: Decimal)
        requires
            self.wf(),
            other.wf(),
        ensures
            cmp_spec(*self, *other) != core::cmp::Ordering::Greater ==> r.has([0, 0, 0], false, 0),
            cmp_spec(*self, *other) == core::cmp::Ordering::Greater ==> r.has(self.limbs(), false, self.scl()),
    {
        match self.cmp(other) {
            core::cmp::Ordering::Greater => self.abs(),
            _ => Decimal::zero(),
        }
    }

    /// The larger value; `self` where they are equal.
    pub fn max(self, other: Decimal) -> (r: Decimal)
        requires
            self.wf(),
            other.wf(),
        ensures
            r == (if cmp_spec(self, other) == core::cmp::Ordering::Less { other } else { self }),
    {
        match self.cmp(&other) {
            core::cmp::Ordering::Less => other,
            _ => self,
        }
    }

    /// The smaller value; `self` where they are equal.
    pub fn min(self, other: Decimal) -> (r: Decimal)
        requires
            self.wf(),
            other.wf(),
        ensures
            r == (if cmp_spec(self, other) == core::cmp::Ordering::Greater { other } else { self }),
    {
        match self.cmp(&other) {
            core::cmp::Ordering::Greater => other,
            _ => self,
        }
    }
}

/// Comparing at a common scale `s` is comparing by cross products.
proof fn lemma_cross(a: Decimal, b: Decimal, s: nat)
    requires
        a.wf(),
        b.wf(),
        s == max_scale(a, b),
    ensures
        ({
            let x = a.mant() * pow10((s - a.scl()) as nat);
            let y = b.mant() * pow10((s - b.scl()) as nat);
            let na = a.neg() && a.mant() != 0;
            let nb = b.neg() && b.mant() != 0;
            &&& (na && !nb) ==> cmp_spec(a, b) == core::cmp::Ordering::Less
            &&& (!na && nb) ==> cmp_spec(a, b) == core::cmp::Ordering::Greater
            &&& (na == nb && x < y) ==> cmp_spec(a, b) == (if na {
                core::cmp::Ordering::Greater
            } else {
                core::cmp::Ordering::Less
            })
            &&& (na == nb && y < x) ==> cmp_spec(a, b) == (if na {
                core::cmp::Ordering::Less
            } else {
                core::cmp::Ordering::Greater
            })
            &&& (na == nb && x == y) ==> cmp_spec(a, b) == core::cmp::Ordering::Equal
        }),
{
    let sa = a.scl();
    let sb = b.scl();
    let m = if sa <= sb { sa } else { sb };
    lemma_pow10_add((s - sa) as nat, m);
    lemma_pow10_add((s - sb) as nat, m);
    assert((s - sa) as nat + m == sb);
    assert((s - sb) as nat + m == sa);
    lemma_pow10_pos(m);
    lemma_pow10_pos(sa);
    lemma_pow10_pos(sb);
    let pa = pow10((s - sa) as nat);
    let pb = pow10((s - sb) as nat);
    let pm = pow10(m);
    let x = a.mant() * pa;
    let y = b.mant() * pb;
    // a.num() * 10^sb = ±x * 10^m and b.num() * 10^sa = ±y * 10^m.
    assert(a.mant() * pow10(sb) == x * pm) by (nonlinear_arith)
        requires pow10(sb) == pa * pm, x == a.mant() * pa;
    assert(b.mant() * pow10(sa) == y * pm) by (nonlinear_arith)
        requires pow10(sa) == pb * pm, y == b.mant() * pb;
    assert(x < y ==> x * pm < y * pm) by (nonlinear_arith)
        requires pm >= 1;
    assert(y < x ==> y * pm < x * pm) by (nonlinear_arith)
        requires pm >= 1;
    assert(a.mant() == 0 ==> a.mant() * pow10(sb) == 0) by (nonlinear_arith);
    assert(b.mant() == 0 ==> b.mant() * pow10(sa) == 0) by (nonlinear_arith);
    assert(a.num() * pow10(sb) == (if a.neg() { -(a.mant() * pow10(sb)) } else { (a.mant() * pow10(sb)) as int }))
        by (nonlinear_arith)
        requires a.num() == (if a.neg() { -(a.mant() as int) } else { a.mant() as int });
    assert(b.num() * pow10(sa) == (if b.neg() { -(b.mant() * pow10(sa)) } else { (b.mant() * pow10(sa)) as int }))
        by (nonlinear_arith)
        requires b.num() == (if b.neg() { -(b.mant() as int) } else { b.mant() as int });
    assert(a.mant() > 0 ==> a.mant() * pow10(sb) > 0) by (nonlinear_arith)
        requires pow10(sb) >= 1;
    assert(b.mant() > 0 ==> b.mant() * pow10(sa) > 0) by (nonlinear_arith)
        requires pow10(sa) >= 1;
}

/// The digits a product must lose: those beyond a scale of 28.
pub open spec fn mul_min_drop(a: Decimal, b: Decimal) -> nat {
    if a.scl() + b.scl() > 28 {
        (a.scl() + b.scl() - 28) as nat
    } else {
        0
    }
}

/// The exact product of two values, brought into a mantissa and scale.
pub open spec fn mul_fitted(a: Decimal, b: Decimal) -> Option<(nat, nat)> {
    fitted(a.mant() * b.mant(), a.scl() + b.scl(), mul_min_drop(a, b))
}

/// What `first_fit` finds lies in range and fits.
proof fn lemma_first_fit(v: nat, k: nat, s: nat)
    ensures
        first_fit(v, k, s) matches Some(j) ==> k <= j <= s && round_half_up(v, j) < limit(),
    decreases s + 1 - k,
{
    if k <= s && round_half_up(v, k) >= limit() {
        lemma_first_fit(v, k + 1, s);
    }
}

/// Rounding to fewer digits never goes below the truncated value.
proof fn lemma_round_at_least(v: nat, k: nat)
    ensures
        round_half_up(v, k) >= v / pow10(k),
{
    lemma_pow10_pos(k);
    if k == 0 {
        assert(pow10(0) == 1);
        assert(v / 1 == v);
    } else {
        vstd::arithmetic::div_mod::lemma_div_is_ordered(v as int, (v + 5 * pow10((k - 1) as nat)) as int, pow10(k) as int);
    }
}

/// Where even the integer part of `v / 10^s` needs more than 96 bits, no
/// scale fits.
proof fn lemma_first_fit_none(v: nat, k: nat, s: nat)
    requires
        v / pow10(s) >= limit(),
    ensures
        first_fit(v, k, s) is None,
    decreases s + 1 - k,
{
    if k <= s {
        lemma_round_at_least(v, k);
        lemma_pow10_mono(k, s);
        lemma_pow10_pos(k);
        vstd::arithmetic::div_mod::lemma_div_is_ordered_by_denominator(v as int, pow10(k) as int, pow10(s) as int);
        lemma_first_fit_none(v, k + 1, s);
    }
}

/// A product whose integer part needs more than 96 bits has no
/// representation: checked multiplication then gives None.
pub proof fn lemma_mul_overflow(a: Decimal, b: Decimal)
    requires
        a.wf(),
        b.wf(),
        (a.mant() * b.mant()) / pow10(a.scl() + b.scl()) >= limit(),
    ensures
        mul_fitted(a, b) is None,
{
    lemma_first_fit_none(a.mant() * b.mant(), mul_min_drop(a, b), a.scl() + b.scl());
}

/// A mantissa times a power of ten up to `10^28` stays below half of 2^192.
proof fn lemma_scaled_bound(m: nat, k: nat)
    requires
        m < limit(),
        k <= 28,
    ensures
        m * pow10(k) * 2 < limit() * limit(),
{
    lemma_pow10_28();
    lemma_pow10_mono(k, 28);
    assert(m * pow10(k) * 2 < limit() * limit()) by (nonlinear_arith)
        requires m < limit(), pow10(k) <= 10_000_000_000_000_000_000_000_000_000;
}

/// `+x` or `-x` as the sign says.
pub open spec fn signed(neg: bool, x: nat) -> int {
    if neg {
        -(x as int)
    } else {
        x as int
    }
}

/// Adds two signed magnitudes at one scale and brings the sum into a value.
fn add_magnitudes(a: Wide, na: bool, b: Wide, nb: bool, s: u32) -> (r: Option<Decimal>)
    requires
        a.wf(),
        b.wf(),
        s <= 28,
        a.val() * 2 < wide_limit(),
        b.val() * 2 < wide_limit(),
    ensures
        is_fitted(
            r,
            fitted(abs_int(signed(na, a.val()) + signed(nb, b.val())), s as nat, 0),
            signed(na, a.val()) + signed(nb, b.val()) < 0,
        ),
{
    let (mag, neg) = if na == nb {
        (w_add(a, b), na && !(a.hi == 0 && a.lo == 0 && b.hi == 0 && b.lo == 0))
    } else if w_lt(a, b) {
        (w_sub(b, a), nb)
    } else {
        let d = w_sub(a, b);
        (d, na && !(d.hi == 0 && d.lo == 0))
    };
    let ghost total = signed(na, a.val()) + signed(nb, b.val());
    proof {
        assert(mag.val() == abs_int(total));
        assert(neg == (total < 0));
    }
    match reduce(mag, s, 0) {
        Some((m, t)) => {
            proof {
                lemma_first_fit(mag.val(), 0, s as nat);
            }
            Some(Decimal::from_limbs(from_u128(m), neg, t))
        },
        None => None,
    }
}

impl Decimal {
    /// The sum, rounded half up to the largest scale, at most the larger of
    /// the two, at which it fits; None where none does.
    pub fn checked_add(self, other: Decimal) -> (r: Option<Decimal>)
        requires
            self.wf(),
            other.wf(),
        ensures
            is_fitted(r, fitted(abs_int(exact_sum(self, other)), max_scale(self, other), 0), exact_sum(self, other) < 0),
    {
        let sa = self.scale();
        let sb = other.scale();
        let s = if sa >= sb { sa } else { sb };
        let ma = to_u128(&self.mantissa_array3());
        let mb = to_u128(&other.mantissa_array3());
        let a = scaled_up(ma, s - sa);
        let b = scaled_up(mb, s - sb);
        proof {
            lemma_scaled_bound(ma as nat, (s - sa) as nat);
            lemma_scaled_bound(mb as nat, (s - sb) as nat);
            let pa = pow10((s - sa) as nat);
            let pb = pow10((s - sb) as nat);
            assert(self.num() * pa == signed(self.neg(), a.val())) by (nonlinear_arith)
                requires a.val() == self.mant() * pa,
                    self.num() == (if self.neg() { -(self.mant() as int) } else { self.mant() as int }),
                    signed(self.neg(), a.val()) == (if self.neg() { -(a.val() as int) } else { a.val() as int });
            assert(other.num() * pb == signed(other.neg(), b.val())) by (nonlinear_arith)
                requires b.val() == other.mant() * pb,
                    other.num() == (if other.neg() { -(other.mant() as int) } else { other.mant() as int }),
                    signed(other.neg(), b.val()) == (if other.neg() { -(b.val() as int) } else { b.val() as int });
        }
        add_magnitudes(a, self.is_sign_negative(), b, other.is_sign_negative(), s)
    }

    /// The difference, rounded half up to the largest scale, at most the
    /// larger of the two, at which it fits; None where none does.
    pub fn checked_sub(self, other: Decimal) -> (r: Option<Decimal>)
        requires
            self.wf(),
            other.wf(),
        ensures
            is_fitted(r, fitted(abs_int(exact_diff(self, other)), max_scale(self, other), 0), exact_diff(self, other) < 0),
    {
        let mut negated = other;
        negated.set_sign_negative(!other.is_sign_negative());
        proof {
            assert(negated.num() == -other.num());
            assert(exact_sum(self, negated) == exact_diff(self, other)) by (nonlinear_arith)
                requires negated.num() == -other.num(), negated.scl() == other.scl(),
                    exact_sum(self, negated) == self.num() * pow10((max_scale(self, other) - self.scl()) as nat)
                        + negated.num() * pow10((max_scale(self, other) - other.scl()) as nat),
                    exact_diff(self, other) == self.num() * pow10((max_scale(self, other) - self.scl()) as nat)
                        - other.num() * pow10((max_scale(self, other) - other.scl()) as nat);
        }
        self.checked_add(negated)
    }

    /// The product, rounded half up to the largest scale, at most 28 and at
    /// most the sum of the two, at which it fits; None where none does.
    pub fn checked_mul(self, other: Decimal) -> (r: Option<Decimal>)
        requires
            self.wf(),
            other.wf(),
        ensures
            is_fitted(r, mul_fitted(self, other), self.neg() != other.neg() && self.mant() * other.mant() != 0),
    {
        let ma = to_u128(&self.mantissa_array3());
        let mb = to_u128(&other.mantissa_array3());
        let p = w_mul(ma, mb);
        let s = self.scale() + other.scale();
        let min_k = if s > 28 { s - 28 } else { 0 };
        let neg = self.is_sign_negative() != other.is_sign_negative() && !(p.hi == 0 && p.lo == 0);
        match reduce(p, s, min_k) {
            Some((m, t)) => {
                proof {
                    lemma_first_fit(p.val(), min_k as nat, s as nat);
                }
                Some(Decimal::from_limbs(from_u128(m), neg, t))
            },
            None => None,
        }
    }
}

/// Two to the power `n`.
pub open spec fn pow2(n: nat) -> nat
    decreases n,
{
    if n == 0 {
        1
    } else {
        2 * pow2((n - 1) as nat)
    }
}

proof fn lemma_pow2_96()
    ensures
        pow2(96) == limit(),
{
    reveal_with_fuel(pow2, 97);
}

/// The remainder of two values' magnitudes, both at the larger scale.
pub open spec fn rem_magnitude(a: Decimal, b: Decimal) -> nat {
    let s = max_scale(a, b);
    (a.mant() * pow10((s - a.scl()) as nat)) % (b.mant() * pow10((s - b.scl()) as nat))
}

/// `(hi * 2^96 + lo) % d` for a divisor below 2^96.
fn wide_mod(a: Wide, d: u128) -> (r: u128)
    requires
        a.wf(),
        0 < d < LIMIT,
    ensures
        r == a.val() % (d as nat),
{
    let h = a.hi % d;
    let mut r = h;
    let mut i: u32 = 0;
    proof {
        assert(pow2(0) == 1);
        vstd::arithmetic::div_mod::lemma_small_mod(h as nat, d as nat);
    }
    while i < 96
        invariant
            i <= 96,
            0 < d < LIMIT,
            h < d,
            r < d,
            r == ((h as nat) * pow2(i as nat)) % (d as nat),
        decreases 96 - i,
    {
        proof {
            vstd::arithmetic::div_mod::lemma_mul_mod_noop_right(2, ((h as nat) * pow2(i as nat)) as int, d as int);
            assert(pow2((i + 1) as nat) == 2 * pow2(i as nat));
            assert(2 * ((h as nat) * pow2(i as nat)) == (h as nat) * pow2((i + 1) as nat)) by (nonlinear_arith)
                requires pow2((i + 1) as nat) == 2 * pow2(i as nat);
        }
        r = (r * 2) % d;
        i = i + 1;
    }
    let l = a.lo % d;
    proof {
        lemma_pow2_96();
        let x = a.val();
        // (hi * 2^96) % d == ((hi % d) * 2^96) % d
        vstd::arithmetic::div_mod::lemma_mul_mod_noop_left(a.hi as int, limit() as int, d as int);
        vstd::arithmetic::div_mod::lemma_add_mod_noop((a.hi * limit()) as int, a.lo as int, d as int);
    }
    (r + l) % d
}

impl Decimal {
    /// The remainder of the division, at the larger of the two scales, with
    /// the sign of `self`; None where `other` is zero.
    pub fn checked_rem(self, other: Decimal) -> (r: Option<Decimal>)
        requires
            self.wf(),
            other.wf(),
        ensures
            other.mant() == 0 ==> r is None,
            other.mant() != 0 ==> (r matches Some(v) && v.wf() && v.scl() == max_scale(self, other)
                && v.mant() == rem_magnitude(self, other) && v.neg() == (self.neg() && v.mant() != 0)),
    {
        if other.is_zero() {
            return None;
        }
        let sa = self.scale();
        let sb = other.scale();
        let ma = to_u128(&self.mantissa_array3());
        let mb = to_u128(&other.mantissa_array3());
        let rem: u128;
        let s: u32;
        if sa >= sb {
            s = sa;
            let b = scaled_up(mb, sa - sb);
            proof {
                assert(pow10(0) == 1);
                assert(ma * 1 == ma);
                lemma_pow10_pos((sa - sb) as nat);
                assert(b.val() >= 1) by (nonlinear_arith)
                    requires b.val() == mb * pow10((sa - sb) as nat), mb >= 1, pow10((sa - sb) as nat) >= 1;
            }
            if w_lt(w_from(ma), b) {
                proof {
                    vstd::arithmetic::div_mod::lemma_small_mod(ma as nat, b.val());
                }
                rem = ma;
            } else {
                rem = ma % b.lo;
            }
        } else {
            s = sb;
            let a = scaled_up(ma, sb - sa);
            proof {
                assert(pow10(0) == 1);
                assert(mb * 1 == mb);
            }
            rem = wide_mod(a, mb);
        }
        proof {
            vstd::arithmetic::div_mod::lemma_mod_pos_bound(rem_magnitude(self, other) as int, (other.mant() * pow10((s - sb) as nat)) as int);
        }
        let neg = self.is_sign_negative() && rem != 0;
        Some(Decimal::from_limbs(from_u128(rem), neg, s))
    }
}

/// `ma * 10^k / mb`, rounded half up.
pub open spec fn div_at(ma: nat, mb: nat, k: nat) -> nat {
    let n = ma * pow10(k);
    n / mb + (if (n % mb) * 2 >= mb { 1nat } else { 0nat })
}

/// Starting at scale `t`, with `k` the power of ten the dividend is taken
/// at: the quotient at the first scale from which one more digit would not
/// fit, or 28; None where it does not fit at `t` already.
pub open spec fn div_pick(ma: nat, mb: nat, k: nat, t: nat) -> Option<(nat, nat)>
    decreases 28 - t,
{
    if div_at(ma, mb, k) >= limit() {
        None
    } else if t >= 28 || div_at(ma, mb, k + 1) >= limit() {
        Some((div_at(ma, mb, k), t))
    } else {
        div_pick(ma, mb, k + 1, t + 1)
    }
}

/// The scale a quotient has before any digit is added: the dividend's less
/// the divisor's, or zero.
pub open spec fn div_base_scale(a: Decimal, b: Decimal) -> nat {
    if a.scl() >= b.scl() {
        (a.scl() - b.scl()) as nat
    } else {
        0
    }
}

/// The quotient of two values, for a divisor that is not zero: rounded
/// half up at the largest scale, up to 28, at which it fits, then with
/// trailing zeros removed down to the base scale. Zero stays at the base
/// scale; None where the quotient does not fit at the base scale.
pub open spec fn div_fitted(a: Decimal, b: Decimal) -> Option<(nat, nat)> {
    let t0 = div_base_scale(a, b);
    let k0 = if a.scl() >= b.scl() { 0nat } else { (b.scl() - a.scl()) as nat };
    if a.mant() == 0 {
        Some((0, t0))
    } else {
        match div_pick(a.mant(), b.mant(), k0, t0) {
            Some((m, t)) => {
                let z = strip_steps(m, (t - t0) as nat);
                Some((m / pow10(z), (t - z) as nat))
            },
            None => None,
        }
    }
}

/// The floor quotient only grows with the power of ten.
proof fn lemma_div_floor_mono(ma: nat, mb: nat, j: nat, k: nat)
    requires
        j <= k,
        mb > 0,
    ensures
        (ma * pow10(j)) / mb <= (ma * pow10(k)) / mb,
{
    lemma_pow10_mono(j, k);
    assert(ma * pow10(j) <= ma * pow10(k)) by (nonlinear_arith)
        requires pow10(j) <= pow10(k);
    vstd::arithmetic::div_mod::lemma_div_is_ordered((ma * pow10(j)) as int, (ma * pow10(k)) as int, mb as int);
}

/// One more digit of long division.
proof fn lemma_div_digit(ma: nat, mb: nat, k: nat, f: nat, r: nat)
    requires
        mb > 0,
        f == (ma * pow10(k)) / mb,
        r == (ma * pow10(k)) % mb,
    ensures
        (ma * pow10(k + 1)) / mb == f * 10 + (r * 10) / mb,
        (ma * pow10(k + 1)) % mb == (r * 10) % mb,
{
    let n = ma * pow10(k);
    vstd::arithmetic::div_mod::lemma_fundamental_div_mod(n as int, mb as int);
    vstd::arithmetic::div_mod::lemma_fundamental_div_mod((r * 10) as int, mb as int);
    vstd::arithmetic::div_mod::lemma_mod_pos_bound((r * 10) as int, mb as int);
    assert(pow10(k + 1) == 10 * pow10(k));
    let q2 = (r * 10) / mb;
    let r2 = (r * 10) % mb;
    assert(ma * pow10(k + 1) == (f * 10 + q2) * mb + r2) by (nonlinear_arith)
        requires n == ma * pow10(k), n == mb * f + r, r * 10 == mb * q2 + r2,
            pow10(k + 1) == 10 * pow10(k);
    vstd::arithmetic::div_mod::lemma_fundamental_div_mod_converse(
        (ma * pow10(k + 1)) as int,
        mb as int,
        (f * 10 + q2) as int,
        r2 as int,
    );
}

impl Decimal {
    /// The quotient as `div_fitted` says; None where `other` is zero or the
    /// quotient does not fit.
    pub fn checked_div(self, other: Decimal) -> (r: Option<Decimal>)
        requires
            self.wf(),
            other.wf(),
        ensures
            other.mant() == 0 ==> r is None,
            other.mant() != 0 ==> is_fitted(r, div_fitted(self, other), self.neg() != other.neg() && self.mant() != 0),
    {
        if other.is_zero() {
            return None;
        }
        let sa = self.scale();
        let sb = other.scale();
        let ma = to_u128(&self.mantissa_array3());
        let mb = to_u128(&other.mantissa_array3());
        let neg = self.is_sign_negative() != other.is_sign_negative() && ma != 0;
        let t0: u32 = if sa >= sb { sa - sb } else { 0 };
        let k0: u32 = if sa >= sb { 0 } else { sb - sa };
        if ma == 0 {
            return Some(Decimal::from_limbs(from_u128(0), neg, t0));
        }
        let ghost a = ma as nat;
        let ghost b = mb as nat;
        // The floor quotient and remainder of `ma * 10^k / mb`.
        let mut f = ma / mb;
        let mut rem = ma % mb;
        let mut k: u32 = 0;
        proof {
            assert(pow10(0) == 1);
            assert(a * 1 == a);
        }
        while k < k0
            invariant
                k <= k0 <= 28,
                mb > 0,
                mb < LIMIT,
                a == ma,
                b == mb,
                a == self.mant(),
                b == other.mant(),
                a > 0,
                t0 == div_base_scale(self, other),
                k0 == (if self.scl() >= other.scl() { 0nat } else { (other.scl() - self.scl()) as nat }),
                f < LIMIT,
                f == (a * pow10(k as nat)) / b,
                rem == (a * pow10(k as nat)) % b,
                rem < mb,
            decreases k0 - k,
        {
            proof {
                lemma_div_digit(a, b, k as nat, f as nat, rem as nat);
                vstd::arithmetic::div_mod::lemma_mod_pos_bound((rem * 10) as int, mb as int);
                assert(((rem as nat) * 10) / (mb as nat) <= 9) by (nonlinear_arith)
                    requires rem < mb, mb > 0;
            }
            f = f * 10 + (rem * 10) / mb;
            rem = (rem * 10) % mb;
            k = k + 1;
            if f >= LIMIT {
                proof {
                    lemma_div_floor_mono(a, b, k as nat, k0 as nat);
                    assert(div_at(a, b, k0 as nat) >= (a * pow10(k0 as nat)) / b);
                    assert(div_pick(a, b, k0 as nat, t0 as nat) is None);
                }
                return None;
            }
        }
        let mut t: u32 = t0;
        loop
            invariant
                t0 <= t <= 28,
                k0 <= 28,
                k == t - t0 + k0,
                mb > 0,
                mb < LIMIT,
                a == ma,
                b == mb,
                a > 0,
                a == self.mant(),
                b == other.mant(),
                t0 == div_base_scale(self, other),
                k0 == (if self.scl() >= other.scl() { 0nat } else { (other.scl() - self.scl()) as nat }),
                neg == (self.neg() != other.neg() && self.mant() != 0),
                f < LIMIT,
                f == (a * pow10(k as nat)) / b,
                rem == (a * pow10(k as nat)) % b,
                rem < mb,
                div_pick(a, b, k0 as nat, t0 as nat) == div_pick(a, b, k as nat, t as nat),
            decreases 28 - t,
        {
            let m = f + if rem * 2 >= mb { 1 } else { 0 };
            proof {
                assert(m == div_at(a, b, k as nat));
            }
            if m >= LIMIT {
                return None;
            }
            let mut done = t >= 28;
            let mut f2: u128 = 0;
            let mut rem2: u128 = 0;
            if !done {
                proof {
                    lemma_div_digit(a, b, k as nat, f as nat, rem as nat);
                    vstd::arithmetic::div_mod::lemma_mod_pos_bound((rem * 10) as int, mb as int);
                    assert(((rem as nat) * 10) / (mb as nat) <= 9) by (nonlinear_arith)
                        requires rem < mb, mb > 0;
                }
                f2 = f * 10 + (rem * 10) / mb;
                rem2 = (rem * 10) % mb;
                let m2 = f2 + if rem2 * 2 >= mb { 1 } else { 0 };
                proof {
                    assert(m2 == div_at(a, b, (k + 1) as nat));
                }
                if m2 >= LIMIT {
                    done = true;
                }
            }
            if done {
                // Remove trailing zeros down to the base scale.
                let mut mm = m;
                let mut z: u32 = 0;
                let ghost top = m as nat;
                let ghost room = (t - t0) as nat;
                let mut stop = false;
                proof {
                    assert(pow10(0) == 1);
                    assert(top / 1 == top);
                }
                while z < t - t0 && !stop
                    invariant
                        z <= t - t0,
                        room == t - t0,
                        mm as nat == top / pow10(z as nat),
                        mm < LIMIT,
                        stop ==> (mm == 0 || mm % 10 != 0),
                        strip_steps(top, room) == z + strip_steps(mm as nat, (room - z) as nat),
                    decreases (t - t0) - z + (if stop { 0int } else { 1int }),
                {
                    if mm == 0 || mm % 10 != 0 {
                        stop = true;
                    } else {
                        proof {
                            lemma_pow10_pos(z as nat);
                            assert(pow10((z + 1) as nat) == 10 * pow10(z as nat));
                            vstd::arithmetic::div_mod::lemma_div_denominator(top as int, pow10(z as nat) as int, 10);
                            assert(pow10(z as nat) * 10 == pow10((z + 1) as nat));
                            assert((room - z) as nat > 0);
                            assert(((room - z) - 1) as nat == (room - (z + 1)) as nat);
                        }
                        mm = mm / 10;
                        z = z + 1;
                    }
                }
                proof {
                    assert(strip_steps(mm as nat, (room - z) as nat) == 0);
                    assert(div_pick(a, b, k as nat, t as nat) == Some((top, t as nat)));
                }
                return Some(Decimal::from_limbs(from_u128(mm), neg, t - z));
            }
            f = f2;
            rem = rem2;
            k = k + 1;
            t = t + 1;
        }
    }
}

} // verus!
