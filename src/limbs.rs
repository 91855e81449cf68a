//! Arithmetic on three 32-bit limbs, least significant first, read as one
//! unsigned integer below 2^96.

use vstd::prelude::*;

verus! {

/// 2^32, the weight of the middle limb.
pub const LIMB: u128 = 0x1_0000_0000;

/// 2^64, the weight of the high limb.
pub const LIMB2: u128 = 0x1_0000_0000_0000_0000;

/// 2^96, one more than the largest mantissa.
pub const LIMIT: u128 = 0x1_0000_0000_0000_0000_0000_0000;

/// The number three limbs stand for.
pub open spec fn val3(a: [u32; 3]) -> nat {
    a[0] as nat + a[1] as nat * 0x1_0000_0000 + a[2] as nat * 0x1_0000_0000_0000_0000
}

/// 2^96 as a mathematical integer.
pub open spec fn limit() -> nat {
    0x1_0000_0000_0000_0000_0000_0000
}

/// Ten to the power `n`.
pub open spec fn pow10(n: nat) -> nat
    decreases n,
{
    if n == 0 {
        1
    } else {
        10 * pow10((n - 1) as nat)
    }
}

pub proof fn lemma_pow10_pos(n: nat)
    ensures
        pow10(n) >= 1,
    decreases n,
{
    if n > 0 {
        lemma_pow10_pos((n - 1) as nat);
    }
}

pub proof fn lemma_pow10_add(a: nat, b: nat)
    ensures
        pow10(a + b) == pow10(a) * pow10(b),
    decreases a,
{
    if a == 0 {
        assert(a + b == b);
        assert(pow10(0) == 1);
    } else {
        lemma_pow10_add((a - 1) as nat, b);
        assert((a + b - 1) as nat == (a - 1 + b) as nat);
        assert(pow10(a + b) == 10 * pow10((a - 1 + b) as nat));
        assert(pow10(a) == 10 * pow10((a - 1) as nat));
        assert(10 * (pow10((a - 1) as nat) * pow10(b)) == (10 * pow10((a - 1) as nat)) * pow10(b))
            by (nonlinear_arith);
    }
}

pub proof fn lemma_pow10_mono(a: nat, b: nat)
    requires
        a <= b,
    ensures
        pow10(a) <= pow10(b),
    decreases b,
{
    if b > a {
        lemma_pow10_mono(a, (b - 1) as nat);
        lemma_pow10_pos((b - 1) as nat);
    }
}

/// Reads three limbs as one integer.
pub fn to_u128(a: &[u32; 3]) -> (r: u128)
    ensures
        r == val3(*a),
        r < LIMIT,
{
    (a[0] as u128) + (a[1] as u128) * LIMB + (a[2] as u128) * LIMB2
}

/// Splits an integer below 2^96 into three limbs.
pub fn from_u128(v: u128) -> (r: [u32; 3])
    requires
        v < LIMIT,
    ensures
        val3(r) == v,
{
    let r = [(v % LIMB) as u32, ((v / LIMB) % LIMB) as u32, (v / LIMB2) as u32];
    proof {
        assert(r[0] == v % 0x1_0000_0000);
        assert(r[1] == (v / 0x1_0000_0000) % 0x1_0000_0000);
        assert(r[2] == v / 0x1_0000_0000_0000_0000);
    }
    r
}

/// Multiplies in place by `m`; returns what no longer fits in 96 bits.
pub fn mul_by_u32(bits: &mut [u32; 3], m: u32) -> (overflow: u32)
    ensures
        val3(*final(bits)) + overflow * limit() == val3(*old(bits)) * m,
{
    let v = to_u128(bits);
    proof {
        assert(v * (m as u128) <= (LIMIT - 1) * 0xFFFF_FFFF) by (nonlinear_arith)
            requires v < LIMIT, m <= 0xFFFF_FFFF;
    }
    let p = v * (m as u128);
    *bits = from_u128(p % LIMIT);
    (p / LIMIT) as u32
}

/// Divides in place by `divisor`; returns the remainder.
pub fn div_by_u32(bits: &mut [u32; 3], divisor: u32) -> (remainder: u32)
    requires
        divisor > 0,
    ensures
        val3(*final(bits)) == val3(*old(bits)) / (divisor as nat),
        remainder == val3(*old(bits)) % (divisor as nat),
{
    let v = to_u128(bits);
    let d = divisor as u128;
    *bits = from_u128(v / d);
    (v % d) as u32
}


/// Multiplies in place by ten; returns what no longer fits in 96 bits.
pub fn mul_by_10(bits: &mut [u32; 3]) -> (overflow: u32)
    ensures
        val3(*final(bits)) + overflow * limit() == val3(*old(bits)) * 10,
{
    mul_by_u32(bits, 10)
}

/// Divides in place by ten; returns the digit that was removed.
pub fn div_by_10(bits: &mut [u32; 3]) -> (remainder: u32)
    ensures
        val3(*final(bits)) == val3(*old(bits)) / 10,
        remainder == val3(*old(bits)) % 10,
{
    div_by_u32(bits, 10)
}

/// Adds `by` in place; returns the carry out of the high limb.
pub fn add_by_internal(value: &mut [u32; 3], by: &[u32; 3]) -> (carry: u32)
    ensures
        val3(*final(value)) + carry * limit() == val3(*old(value)) + val3(*by),
        carry <= 1,
{
    let s = to_u128(value) + to_u128(by);
    *value = from_u128(s % LIMIT);
    (s / LIMIT) as u32
}

/// The number four limbs stand for: three limbs and one overflow limb.
pub open spec fn val4(a: [u32; 4]) -> nat {
    val3([a[0], a[1], a[2]]) + a[3] as nat * limit()
}

/// 2^128.
pub open spec fn limit4() -> nat {
    limit() * 0x1_0000_0000
}

/// Adds three limbs into four in place; returns the carry out of the top
/// limb.
pub fn add_by_internal4(value: &mut [u32; 4], by: &[u32; 3]) -> (carry: u32)
    ensures
        val4(*final(value)) + carry * limit4() == val4(*old(value)) + val3(*by),
        carry <= 1,
{
    let mut low = [value[0], value[1], value[2]];
    let c = add_by_internal(&mut low, by);
    let t = value[3] as u64 + c as u64;
    let top = (t % 0x1_0000_0000) as u32;
    let out = (t / 0x1_0000_0000) as u32;
    *value = [low[0], low[1], low[2], top];
    proof {
        assert(val3([value[0], value[1], value[2]]) == val3(low));
        assert(t == top + out * 0x1_0000_0000);
        assert((top + out * 0x1_0000_0000) * limit() == top * limit() + out * limit4()) by (nonlinear_arith);
    }
    out
}

/// Multiplies four limbs in place by `m`; returns what no longer fits in
/// 128 bits.
pub fn mul_by_u32_4(bits: &mut [u32; 4], m: u32) -> (overflow: u32)
    ensures
        val4(*final(bits)) + overflow * limit4() == val4(*old(bits)) * m,
{
    let ghost old_bits = *bits;
    let mut low = [bits[0], bits[1], bits[2]];
    let c = mul_by_u32(&mut low, m);
    proof {
        assert(c <= 0xFFFF_FFFF);
        assert((bits[3] as nat) * (m as nat) <= 0xFFFF_FFFE_0000_0001) by (nonlinear_arith)
            requires bits[3] <= 0xFFFF_FFFF, m <= 0xFFFF_FFFF;
    }
    let t = bits[3] as u64 * m as u64 + c as u64;
    let top = (t % 0x1_0000_0000) as u32;
    let out = (t / 0x1_0000_0000) as u32;
    *bits = [low[0], low[1], low[2], top];
    proof {
        let l0 = val3([old_bits[0], old_bits[1], old_bits[2]]);
        assert(val3([bits[0], bits[1], bits[2]]) == val3(low));
        assert(val4(old_bits) * m == l0 * m + (old_bits[3] * m) * limit()) by (nonlinear_arith)
            requires val4(old_bits) == l0 + old_bits[3] * limit();
        assert(t == top + out * 0x1_0000_0000);
        assert((top + out * 0x1_0000_0000) * limit() == top * limit() + out * limit4()) by (nonlinear_arith);
    }
    out
}

/// Adds one in place; returns the carry out of the high limb.
pub fn add_one_internal(value: &mut [u32; 3]) -> (carry: u32)
    ensures
        val3(*final(value)) + carry * limit() == val3(*old(value)) + 1,
        carry <= 1,
{
    add_by_internal(value, &[1, 0, 0])
}

/// Subtracts `by` in place, modulo 2^96; returns 1 where `by` was the larger.
pub fn sub_by_internal(value: &mut [u32; 3], by: &[u32; 3]) -> (borrow: u32)
    ensures
        borrow == (if val3(*old(value)) < val3(*by) { 1u32 } else { 0u32 }),
        val3(*final(value)) == val3(*old(value)) + borrow * limit() - val3(*by),
{
    let a = to_u128(value);
    let b = to_u128(by);
    if a >= b {
        *value = from_u128(a - b);
        0
    } else {
        *value = from_u128(LIMIT - b + a);
        1
    }
}

/// Shifts left by one bit in place, shifting `carry` in at the bottom; returns
/// the bit shifted out at the top.
pub fn shl1_internal(bits: &mut [u32; 3], carry: u32) -> (out: u32)
    requires
        carry <= 1,
    ensures
        val3(*final(bits)) + out * limit() == val3(*old(bits)) * 2 + carry,
        out <= 1,
{
    let s = to_u128(bits) * 2 + carry as u128;
    *bits = from_u128(s % LIMIT);
    (s / LIMIT) as u32
}

/// Compares the numbers two arrays of limbs stand for.
pub fn cmp_internal(left: &[u32; 3], right: &[u32; 3]) -> (r: core::cmp::Ordering)
    ensures
        r == (if val3(*left) < val3(*right) {
            core::cmp::Ordering::Less
        } else if val3(*left) == val3(*right) {
            core::cmp::Ordering::Equal
        } else {
            core::cmp::Ordering::Greater
        }),
{
    let a = to_u128(left);
    let b = to_u128(right);
    if a < b {
        core::cmp::Ordering::Less
    } else if a == b {
        core::cmp::Ordering::Equal
    } else {
        core::cmp::Ordering::Greater
    }
}

/// Whether every limb is zero.
pub fn is_all_zero(bits: &[u32; 3]) -> (r: bool)
    ensures
        r == (val3(*bits) == 0),
{
    bits[0] == 0 && bits[1] == 0 && bits[2] == 0
}

/// `v / 10^d`, rounded half up: the digit below the last one kept decides.
pub open spec fn round_half_up(v: nat, d: nat) -> nat {
    if d == 0 {
        v
    } else {
        (v + 5 * pow10((d - 1) as nat)) / pow10(d)
    }
}

/// The largest number of steps, at most `room`, by which `v` can be multiplied
/// by ten and stay below 2^96 (for `v` below 2^96).
pub open spec fn grow_steps(v: nat, room: nat) -> nat
    decreases room,
{
    if room == 0 || v * 10 >= limit() {
        0
    } else {
        1 + grow_steps(v * 10, (room - 1) as nat)
    }
}

/// The rescaled mantissa and scale: reduced precision is rounded half up;
/// increased precision goes as far as 96 bits allow.
pub open spec fn rescaled(v: nat, scale: nat, target: nat) -> (nat, nat) {
    if scale == target || v == 0 {
        (v, target)
    } else if scale > target {
        (round_half_up(v, (scale - target) as nat), target)
    } else {
        let k = grow_steps(v, (target - scale) as nat);
        (v * pow10(k), scale + k)
    }
}

pub proof fn lemma_grow_steps(v: nat, room: nat)
    requires
        v < limit(),
    ensures
        grow_steps(v, room) <= room,
        v * pow10(grow_steps(v, room)) < limit(),
        grow_steps(v, room) < room ==> v * pow10(grow_steps(v, room)) * 10 >= limit(),
    decreases room,
{
    if room == 0 || v * 10 >= limit() {
        assert(grow_steps(v, room) == 0);
        assert(pow10(0) == 1);
        assert(v * 1 == v);
    } else {
        lemma_grow_steps(v * 10, (room - 1) as nat);
        let k = grow_steps(v * 10, (room - 1) as nat);
        assert(pow10(k + 1) == 10 * pow10(k));
        assert(v * pow10(k + 1) == (v * 10) * pow10(k)) by (nonlinear_arith)
            requires pow10(k + 1) == 10 * pow10(k);
        assert(v * pow10(k + 1) * 10 == (v * 10) * pow10(k) * 10) by (nonlinear_arith)
            requires pow10(k + 1) == 10 * pow10(k);
        assert(grow_steps(v, room) == k + 1);
    }
}

pub proof fn lemma_div_step(v: nat, k: nat)
    ensures
        (v / pow10(k)) / 10 == v / pow10(k + 1),
{
    lemma_pow10_pos(k);
    assert(pow10(k + 1) == 10 * pow10(k));
    vstd::arithmetic::div_mod::lemma_div_denominator(v as int, pow10(k) as int, 10);
    assert(pow10(k) * 10 == pow10(k + 1)) by (nonlinear_arith)
        requires pow10(k + 1) == 10 * pow10(k);
}

/// The last removed digit decides rounding half up.
pub proof fn lemma_round_digit(v: nat, d: nat)
    requires
        d >= 1,
    ensures
        round_half_up(v, d) == v / pow10(d) + (if (v / pow10((d - 1) as nat)) % 10 >= 5 { 1nat } else { 0nat }),
{
    let p = pow10((d - 1) as nat);
    lemma_pow10_pos((d - 1) as nat);
    assert(pow10(d) == 10 * p);
    let q = v / p;
    let r = v % p;
    vstd::arithmetic::div_mod::lemma_fundamental_div_mod(v as int, p as int);
    let hi = q / 10;
    let dig = q % 10;
    assert(q == 10 * hi + dig);
    assert(v == p * q + r);
    assert(v == (10 * p) * hi + (p * dig + r)) by (nonlinear_arith)
        requires v == p * q + r, q == 10 * hi + dig;
    assert(p * dig + r < 10 * p) by (nonlinear_arith)
        requires dig < 10, r < p, dig >= 0, r >= 0;
    assert(0 <= p * dig + r) by (nonlinear_arith)
        requires dig >= 0, r >= 0, p >= 1;
    vstd::arithmetic::div_mod::lemma_fundamental_div_mod_converse(v as int, (10 * p) as int, hi as int, (p * dig + r) as int);
    assert(v / pow10(d) == hi);
    let w = v + 5 * p;
    if dig >= 5 {
        assert(w == (10 * p) * (hi + 1) + (p * (dig - 5) + r)) by (nonlinear_arith)
            requires v == (10 * p) * hi + (p * dig + r), w == v + 5 * p, dig >= 5;
        assert(p * (dig - 5) + r < 10 * p) by (nonlinear_arith)
            requires dig < 10, dig >= 5, r < p, r >= 0;
        assert(0 <= p * (dig - 5) + r) by (nonlinear_arith)
            requires dig >= 5, r >= 0, p >= 1;
        vstd::arithmetic::div_mod::lemma_fundamental_div_mod_converse(w as int, (10 * p) as int, (hi + 1) as int, (p * (dig - 5) + r) as int);
    } else {
        assert(w == (10 * p) * hi + (p * (dig + 5) + r)) by (nonlinear_arith)
            requires v == (10 * p) * hi + (p * dig + r), w == v + 5 * p;
        assert(p * (dig + 5) + r < 10 * p) by (nonlinear_arith)
            requires dig < 5, r < p, r >= 0, dig >= 0;
        assert(0 <= p * (dig + 5) + r) by (nonlinear_arith)
            requires dig >= 0, r >= 0, p >= 1;
        vstd::arithmetic::div_mod::lemma_fundamental_div_mod_converse(w as int, (10 * p) as int, hi as int, (p * (dig + 5) + r) as int);
    }
}

/// Changes the scale of a mantissa. Reducing it divides by ten once per
/// step and rounds half up on the last digit removed; increasing it
/// multiplies by ten and stops early, at a smaller scale, before the mantissa
/// would leave 96 bits.
pub fn rescale_internal(value: &mut [u32; 3], value_scale: &mut u32, new_scale: u32)
    ensures
        (val3(*final(value)), *final(value_scale) as nat)
            == rescaled(val3(*old(value)), *old(value_scale) as nat, new_scale as nat),
{
    if *value_scale == new_scale {
        return;
    }
    if is_all_zero(value) {
        *value_scale = new_scale;
        return;
    }
    let ghost v = val3(*value);
    if *value_scale > new_scale {
        let ghost d = (*value_scale - new_scale) as nat;
        let mut diff = *value_scale - new_scale;
        let mut remainder: u32 = 0;
        proof {
            assert(pow10(0) == 1);
            assert((d - diff) as nat == 0);
        }
        while diff > 0
            invariant
                0 <= diff <= d,
                d >= 1,
                *value_scale == *old(value_scale),
                d == *value_scale - new_scale,
                v == val3(*old(value)),
                val3(*value) == v / pow10((d - diff) as nat),
                diff < d ==> remainder == (v / pow10((d - diff - 1) as nat)) % 10,
            decreases diff,
        {
            proof {
                lemma_div_step(v, (d - diff) as nat);
            }
            if is_all_zero(value) {
                proof {
                    // Nothing is left: every digit still to be removed is zero.
                    let k = (d - diff) as nat;
                    lemma_pow10_pos(k);
                    lemma_pow10_mono(k, (d - 1) as nat);
                    lemma_pow10_pos((d - 1) as nat);
                    lemma_pow10_mono((d - 1) as nat, d);
                    if v >= pow10(k) {
                        vstd::arithmetic::div_mod::lemma_div_non_zero(v as int, pow10(k) as int);
                    }
                    vstd::arithmetic::div_mod::lemma_basic_div(v as int, pow10((d - 1) as nat) as int);
                    vstd::arithmetic::div_mod::lemma_basic_div(v as int, pow10(d) as int);
                    lemma_round_digit(v, d);
                    assert(v / pow10((d - 1) as nat) == 0);
                    assert(v / pow10(d) == 0);
                    assert(round_half_up(v, d) == 0);
                }
                *value_scale = new_scale;
                return;
            }
            diff -= 1;
            remainder = div_by_10(value);
            proof {
                assert((d - diff) as nat == (d - (diff + 1)) as nat + 1);
                assert((d - diff - 1) as nat == (d - (diff + 1)) as nat);
            }
        }
        proof {
            lemma_round_digit(v, d);
            assert((d - 0) as nat == d);
            lemma_pow10_pos(d);
            vstd::arithmetic::div_mod::lemma_div_is_ordered_by_denominator(v as int, 1, pow10(d) as int);
        }
        if remainder >= 5 {
            proof {
                lemma_pow10_mono(1, d);
                assert(pow10(1) == 10 * pow10(0));
                vstd::arithmetic::div_mod::lemma_div_is_ordered_by_denominator(v as int, 10, pow10(d) as int);
            }
            add_one_internal(value);
        }
        *value_scale = new_scale;
    } else {
        let ghost room = (new_scale - *value_scale) as nat;
        let mut diff = new_scale - *value_scale;
        let mut working = [value[0], value[1], value[2]];
        proof {
            assert(val3(working) == v);
            lemma_grow_steps(v, room);
            assert(pow10(0) == 1);
            assert((room - diff) as nat == 0);
            assert(v * 1 == v);
        }
        while diff > 0 && mul_by_10(&mut working) == 0
            invariant
                0 <= diff <= room,
                v < limit(),
                val3(*value) == v * pow10((room - diff) as nat),
                val3(working) == val3(*value),
                grow_steps(v, room) == (room - diff) + grow_steps(val3(*value), diff as nat),
            decreases diff,
        {
            proof {
                let k = (room - diff) as nat;
                assert(pow10(k + 1) == 10 * pow10(k));
                assert(v * pow10(k + 1) == (v * pow10(k)) * 10) by (nonlinear_arith)
                    requires pow10(k + 1) == 10 * pow10(k);
                assert((room - (diff - 1)) as nat == k + 1);
            }
            *value = working;
            diff -= 1;
        }
        proof {
            assert(grow_steps(val3(*value), diff as nat) == 0);
        }
        *value_scale = new_scale - diff;
    }
}


/// 10^28 as a literal.
pub proof fn lemma_pow10_28()
    ensures
        pow10(28) == 10_000_000_000_000_000_000_000_000_000,
{
    reveal_with_fuel(pow10, 29);
}

/// Ten to the power `n`, for `n` up to 28.
pub fn pow10_u128(n: u32) -> (r: u128)
    requires
        n <= 28,
    ensures
        r == pow10(n as nat),
        1 <= r <= 10_000_000_000_000_000_000_000_000_000,
{
    let mut r: u128 = 1;
    let mut i: u32 = 0;
    proof {
        lemma_pow10_28();
        assert(pow10(0) == 1);
    }
    while i < n
        invariant
            i <= n <= 28,
            r == pow10(i as nat),
            pow10(28) == 10_000_000_000_000_000_000_000_000_000,
        decreases n - i,
    {
        proof {
            lemma_pow10_mono((i + 1) as nat, 28);
            assert(pow10((i + 1) as nat) == 10 * pow10(i as nat));
        }
        r = r * 10;
        i = i + 1;
    }
    proof {
        lemma_pow10_pos(n as nat);
        lemma_pow10_mono(n as nat, 28);
    }
    r
}

/// Raising the scale keeps the number exactly and never passes the target;
/// lowering it rounds half up to the target.
pub proof fn lemma_rescaled_value(v: nat, scale: nat, target: nat)
    requires
        v < limit(),
    ensures
        rescaled(v, scale, target).0 < limit(),
        scale <= target ==> scale <= rescaled(v, scale, target).1 <= target,
        scale <= target ==> rescaled(v, scale, target).0 == v * pow10(
            (rescaled(v, scale, target).1 - scale) as nat,
        ),
        scale > target ==> rescaled(v, scale, target).1 == target,
        scale > target ==> rescaled(v, scale, target).0 == round_half_up(v, (scale - target) as nat),
{
    if scale == target || v == 0 {
        assert(pow10(0) == 1);
        assert(v * 1 == v);
        if v == 0 {
            assert(0 * pow10((target - scale) as nat) == 0);
            if scale > target {
                lemma_pow10_pos((scale - target) as nat);
                lemma_round_small_zero(scale, target);
            }
        }
    } else if scale > target {
        lemma_round_below_limit(v, (scale - target) as nat);
    } else {
        lemma_grow_steps(v, (target - scale) as nat);
    }
}

proof fn lemma_round_small_zero(scale: nat, target: nat)
    requires
        scale > target,
    ensures
        round_half_up(0, (scale - target) as nat) == 0,
{
    let d = (scale - target) as nat;
    lemma_pow10_pos((d - 1) as nat);
    assert(pow10(d) == 10 * pow10((d - 1) as nat));
    vstd::arithmetic::div_mod::lemma_basic_div((5 * pow10((d - 1) as nat)) as int, pow10(d) as int);
}

/// Rounding a mantissa to fewer digits keeps it below 2^96.
pub proof fn lemma_round_below_limit(v: nat, d: nat)
    requires
        v < limit(),
        d >= 1,
    ensures
        round_half_up(v, d) < limit(),
        round_half_up(v, d) <= v / pow10(d) + 1,
{
    lemma_round_digit(v, d);
    lemma_pow10_mono(1, d);
    assert(pow10(1) == 10 * pow10(0));
    assert(pow10(0) == 1);
    vstd::arithmetic::div_mod::lemma_div_is_ordered_by_denominator(v as int, 10, pow10(d) as int);
}

} // verus!
