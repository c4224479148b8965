//! Single-precision numbers of IEEE 754, held as their 32-bit patterns.
//!
//! A pattern is a sign bit, eight bits of exponent and 23 bits of fraction.
//! Every finite pattern stands for a whole multiple of 2^-149, and the model
//! of this module is that multiple: [`magnitude`] without the sign,
//! [`value`] with it. Order and equality are those of the numbers, so both
//! zeros are equal and a NaN is neither less than, equal to nor greater than
//! anything.
use vstd::arithmetic::power2::*;
use vstd::prelude::*;

verus! {

/// The bit that holds the sign.
pub const SIGN_BIT: u32 = 0x8000_0000;

/// The pattern of positive infinity; every greater magnitude is a NaN.
pub const INFINITY: u32 = 0x7f80_0000;

/// The NaN that every operation of this crate returns where it returns one.
pub const NAN: u32 = 0x7fc0_0000;

/// The pattern of 0.
pub const ZERO: u32 = 0;

/// The pattern of 1.
pub const ONE: u32 = 0x3f80_0000;

/// The pattern of 255.
pub const FULL_SCALE: u32 = 0x437f_0000;

/// Two to the power 23: the weight of the hidden bit of the significand.
pub const HIDDEN_BIT: u32 = 0x80_0000;

/// Whether the sign bit is set; it may be set on a zero and on a NaN too.
pub open spec fn is_negative(b: u32) -> bool {
    b >= SIGN_BIT
}

/// The pattern without its sign bit.
pub open spec fn abs_bits(b: u32) -> u32 {
    if b >= SIGN_BIT {
        (b - SIGN_BIT) as u32
    } else {
        b
    }
}

/// Whether the pattern stands for no number.
pub open spec fn is_nan(b: u32) -> bool {
    abs_bits(b) > INFINITY
}

/// Whether the pattern is one of the two infinities.
pub open spec fn is_infinite(b: u32) -> bool {
    abs_bits(b) == INFINITY
}

/// Whether the pattern stands for a number: a zero, a subnormal or a normal one.
pub open spec fn is_finite(b: u32) -> bool {
    abs_bits(b) < INFINITY
}

/// Whether the pattern is one of the two zeros.
pub open spec fn is_zero(b: u32) -> bool {
    abs_bits(b) == 0
}

/// The pattern with magnitude bits `a` and the given sign.
pub open spec fn with_sign(negative: bool, a: u32) -> u32
    recommends
        a < SIGN_BIT,
{
    if negative {
        (a + SIGN_BIT) as u32
    } else {
        a
    }
}

/// The pattern with the other sign.
pub open spec fn negate(b: u32) -> u32 {
    with_sign(!is_negative(b), abs_bits(b))
}

/// The significand of the magnitude bits `a`, with its hidden bit where the
/// number is normal.
pub open spec fn significand(a: u32) -> nat {
    if a / HIDDEN_BIT == 0 {
        (a % HIDDEN_BIT) as nat
    } else {
        (HIDDEN_BIT + a % HIDDEN_BIT) as nat
    }
}

/// The power of two by which the significand of `a` is scaled, counted from
/// 2^-149.
pub open spec fn exponent(a: u32) -> nat {
    if a / HIDDEN_BIT == 0 {
        0
    } else {
        (a / HIDDEN_BIT - 1) as nat
    }
}

/// The number that the finite magnitude bits `a` stand for, in units of 2^-149.
pub open spec fn magnitude(a: u32) -> nat
    recommends
        a < INFINITY,
{
    significand(a) * pow2(exponent(a))
}

/// The number that the finite pattern `b` stands for, in units of 2^-149.
pub open spec fn value(b: u32) -> int
    recommends
        is_finite(b),
{
    if is_negative(b) {
        -(magnitude(abs_bits(b)) as int)
    } else {
        magnitude(abs_bits(b)) as int
    }
}

/// An integer that is ordered as the numbers are: the magnitude bits, negated
/// for a negative pattern. Both infinities have their place in it.
pub open spec fn order_key(b: u32) -> int {
    if is_negative(b) {
        -(abs_bits(b) as int)
    } else {
        abs_bits(b) as int
    }
}

/// `a < b` as numbers.
pub open spec fn is_less(a: u32, b: u32) -> bool {
    !is_nan(a) && !is_nan(b) && order_key(a) < order_key(b)
}

/// `a <= b` as numbers.
pub open spec fn is_less_or_equal(a: u32, b: u32) -> bool {
    !is_nan(a) && !is_nan(b) && order_key(a) <= order_key(b)
}

/// `a == b` as numbers.
pub open spec fn is_equal(a: u32, b: u32) -> bool {
    !is_nan(a) && !is_nan(b) && order_key(a) == order_key(b)
}

/// The bits 0 stand for the number 0.
pub proof fn lemma_magnitude_zero()
    ensures
        magnitude(0) == 0,
{
    assert(significand(0) == 0);
    assert(0 * pow2(exponent(0)) == 0) by (nonlinear_arith);
}

/// Greater magnitude bits stand for a greater number.
pub proof fn lemma_magnitude_increases(a: u32, b: u32)
    requires
        a < b < INFINITY,
    ensures
        magnitude(a) < magnitude(b),
{
    let ea = exponent(a);
    let eb = exponent(b);
    let sa = significand(a);
    let sb = significand(b);
    lemma_pow2_pos(ea);
    lemma_pow2_pos(eb);
    if a / HIDDEN_BIT == b / HIDDEN_BIT {
        assert(sa < sb);
        assert(sa * pow2(ea) < sb * pow2(ea)) by (nonlinear_arith)
            requires
                sa < sb,
                pow2(ea) > 0,
        ;
    } else if a / HIDDEN_BIT == 0 {
        lemma2_to64();
        assert(sa < 0x80_0000 <= sb);
        assert(sb * pow2(eb) >= sb) by (nonlinear_arith)
            requires
                pow2(eb) > 0,
        ;
        assert(pow2(ea) == 1);
    } else {
        assert(ea + 1 <= eb);
        lemma_pow2_unfold(ea + 1);
        if ea + 1 < eb {
            lemma_pow2_strictly_increases(ea + 1, eb);
        }
        let pa = pow2(ea);
        let pb = pow2(eb);
        assert(2 * pa <= pb);
        assert(sa < 0x100_0000 && sb >= 0x80_0000);
        assert(sa * pa < sb * pb) by (nonlinear_arith)
            requires
                sa < 0x100_0000,
                sb >= 0x80_0000,
                2 * pa <= pb,
                pa > 0,
        ;
    }
}

/// The order of the patterns is the order of the numbers they stand for.
pub proof fn lemma_order_is_value_order(a: u32, b: u32)
    requires
        is_finite(a),
        is_finite(b),
    ensures
        is_less(a, b) <==> value(a) < value(b),
        is_equal(a, b) <==> value(a) == value(b),
{
    let x = abs_bits(a);
    let y = abs_bits(b);
    if x < y {
        lemma_magnitude_increases(x, y);
    } else if y < x {
        lemma_magnitude_increases(y, x);
    }
    if x > 0 {
        lemma_magnitude_increases(0, x);
    }
    if y > 0 {
        lemma_magnitude_increases(0, y);
    }
    assert(magnitude(0) == 0) by {
        lemma2_to64();
    }
}

/// Whether the sign bit is set.
pub fn negative(b: u32) -> (r: bool)
    ensures
        r == is_negative(b),
{
    b >= SIGN_BIT
}

/// The pattern without its sign bit.
pub fn magnitude_bits(b: u32) -> (a: u32)
    ensures
        a == abs_bits(b),
        a < SIGN_BIT,
{
    if b >= SIGN_BIT {
        b - SIGN_BIT
    } else {
        b
    }
}

/// Whether the pattern stands for no number.
pub fn nan(b: u32) -> (r: bool)
    ensures
        r == is_nan(b),
{
    magnitude_bits(b) > INFINITY
}

/// The pattern with magnitude bits `a` and the given sign.
pub fn signed(negative: bool, a: u32) -> (b: u32)
    requires
        a < SIGN_BIT,
    ensures
        b == with_sign(negative, a),
        abs_bits(b) == a,
        is_negative(b) == negative,
{
    if negative {
        a + SIGN_BIT
    } else {
        a
    }
}

/// The pattern with the other sign.
pub fn negated(b: u32) -> (r: u32)
    ensures
        r == negate(b),
{
    let a = magnitude_bits(b);
    signed(b < SIGN_BIT, a)
}

fn key(b: u32) -> (k: i64)
    ensures
        k == order_key(b),
{
    let a = magnitude_bits(b);
    if b >= SIGN_BIT {
        0 - (a as i64)
    } else {
        a as i64
    }
}

/// Whether `a < b` as numbers.
pub fn less(a: u32, b: u32) -> (r: bool)
    ensures
        r == is_less(a, b),
{
    !nan(a) && !nan(b) && key(a) < key(b)
}

/// Whether `a <= b` as numbers.
pub fn less_or_equal(a: u32, b: u32) -> (r: bool)
    ensures
        r == is_less_or_equal(a, b),
{
    !nan(a) && !nan(b) && key(a) <= key(b)
}

/// Whether `a == b` as numbers.
pub fn equal(a: u32, b: u32) -> (r: bool)
    ensures
        r == is_equal(a, b),
{
    !nan(a) && !nan(b) && key(a) == key(b)
}

/// The significand and the exponent of the magnitude bits `a`.
pub(crate) fn unpack(a: u32) -> (r: (u128, i32))
    requires
        a < INFINITY,
    ensures
        r.0 == significand(a),
        r.1 == exponent(a),
        r.0 < 0x100_0000,
        0 <= r.1 <= 253,
        r.1 > 0 ==> r.0 >= 0x80_0000,
        r.0 == 0 <==> a == 0,
{
    let e = a / HIDDEN_BIT;
    let f = a % HIDDEN_BIT;
    if e == 0 {
        (f as u128, 0)
    } else {
        ((f + HIDDEN_BIT) as u128, (e - 1) as i32)
    }
}

/// The number that `b` stands for, cut to a whole number and kept within
/// 0 and 255; 0 for a NaN.
pub open spec fn to_byte_spec(b: u32) -> u8 {
    if is_nan(b) || is_negative(b) {
        0
    } else if is_infinite(b) || magnitude(abs_bits(b)) / pow2(149) >= 255 {
        255
    } else {
        (magnitude(abs_bits(b)) / pow2(149)) as u8
    }
}

/// Converts to an 8-bit intensity: fractions are dropped, what lies below 0
/// becomes 0 and what lies above 255 becomes 255, and a NaN becomes 0.
pub fn to_byte(b: u32) -> (r: u8)
    ensures
        r == to_byte_spec(b),
{
    let a = magnitude_bits(b);
    if a > INFINITY || b >= SIGN_BIT {
        return 0;
    }
    if a >= FULL_SCALE {
        proof {
            if a < INFINITY {
                lemma_whole_part(FULL_SCALE);
                if a > FULL_SCALE {
                    lemma_magnitude_increases(FULL_SCALE, a);
                }
                lemma_pow2_pos(149);
                vstd::arithmetic::div_mod::lemma_div_is_ordered(
                    magnitude(FULL_SCALE) as int,
                    magnitude(a) as int,
                    pow2(149) as int,
                );
            }
        }
        return 255;
    }
    if a < ONE {
        proof {
            lemma_whole_part(ONE);
            lemma_magnitude_increases(a, ONE);
            lemma_pow2_pos(149);
            assert(magnitude(ONE) == pow2(149));
            vstd::arithmetic::div_mod::lemma_basic_div(
                magnitude(a) as int,
                pow2(149) as int,
            );
        }
        return 0;
    }
    let e = a / HIDDEN_BIT;
    let m = HIDDEN_BIT + a % HIDDEN_BIT;
    let mut r: u32 = m;
    let mut i: u32 = e;
    proof {
        lemma_whole_part(a);
        lemma2_to64();
        assert(m as nat / pow2(0) == m as nat / 1);
    }
    while i < 150
        invariant
            127 <= e <= 134,
            e <= i <= 150,
            r == m as nat / pow2((i - e) as nat),
            m < 0x100_0000,
        decreases 150 - i,
    {
        proof {
            lemma_pow2_unfold((i + 1 - e) as nat);
            lemma_pow2_pos((i - e) as nat);
            vstd::arithmetic::div_mod::lemma_div_denominator(
                m as int,
                pow2((i - e) as nat) as int,
                2,
            );
            assert(pow2((i - e) as nat) * 2 == pow2((i + 1 - e) as nat));
        }
        r = r / 2;
        i = i + 1;
    }
    proof {
        lemma_pow2_pos(149);
        lemma_magnitude_increases(a, FULL_SCALE);
        lemma_whole_part(FULL_SCALE);
        vstd::arithmetic::div_mod::lemma_div_is_ordered(
            magnitude(a) as int,
            magnitude(FULL_SCALE) as int,
            pow2(149) as int,
        );
    }
    r as u8
}

/// The whole part of a normal number of exponent field 127 to 134, the range
/// of 1 to below 256: its significand without the bits below the point.
proof fn lemma_whole_part(a: u32)
    requires
        127 <= a / HIDDEN_BIT <= 134,
    ensures
        magnitude(a) / pow2(149) == significand(a) / pow2((150 - a / HIDDEN_BIT) as nat),
        a == ONE ==> magnitude(a) == pow2(149),
        a == FULL_SCALE ==> magnitude(a) / pow2(149) == 255,
{
    let e = (a / HIDDEN_BIT) as nat;
    let s = significand(a);
    let lo = pow2((e - 1) as nat);
    let hi = pow2((150 - e) as nat);
    lemma_pow2_adds((e - 1) as nat, (150 - e) as nat);
    lemma_pow2_pos((e - 1) as nat);
    lemma_pow2_pos((150 - e) as nat);
    assert(lo * hi == pow2(149));
    vstd::arithmetic::div_mod::lemma_div_multiples_vanish_quotient(lo as int, s as int, hi as int);
    assert(s * lo == lo * s) by (nonlinear_arith);
    lemma2_to64();
    if a == ONE {
        assert(s == 0x80_0000 && e == 127);
        assert(hi == 0x80_0000);
        assert(s * lo == lo * hi);
    }
    if a == FULL_SCALE {
        assert(s == 0xff_0000 && e == 134);
        assert(hi == 0x1_0000);
        assert(s / hi == 0xff_0000nat / 0x1_0000);
    }
}

} // verus!
