//! The four operations on single-precision bit patterns.
//!
//! Each result is the exact result, rounded once to the nearest number that
//! single precision holds ([`round_magnitude`]). [`sum`], [`difference`],
//! [`product`] and [`quotient`] say so over the numbers that the patterns
//! stand for; [`plus`], [`minus`], [`times`] and [`divided`] compute them in
//! integer arithmetic. Where the result is no number, it is [`NAN`].
use crate::binary32::{
    abs_bits, is_equal, is_finite, is_infinite, is_nan, is_negative, is_zero,
    lemma_magnitude_increases, lemma_magnitude_zero, magnitude, magnitude_bits, negate,
    negated, negative, signed, unpack, value, with_sign, INFINITY, NAN, ONE, SIGN_BIT, ZERO,
};
use crate::rounding::{
    binade, lemma_pow2_100, lemma_pow2_le, lemma_round_exact, lemma_round_magnitude_scales,
    power_of_two, round_magnitude, round_pack, scaled_den, scaled_num,
};
use vstd::arithmetic::div_mod::*;
use vstd::arithmetic::power2::*;
use vstd::prelude::*;

verus! {

/// `a + b`.
pub open spec fn sum(a: u32, b: u32) -> u32 {
    if is_nan(a) || is_nan(b) {
        NAN
    } else if is_infinite(a) {
        if is_infinite(b) && is_negative(a) != is_negative(b) {
            NAN
        } else {
            a
        }
    } else if is_infinite(b) {
        b
    } else {
        let v = value(a) + value(b);
        if v == 0 {
            if is_negative(a) && is_negative(b) {
                SIGN_BIT
            } else {
                ZERO
            }
        } else if v < 0 {
            with_sign(true, round_magnitude((-v) as nat, 1))
        } else {
            with_sign(false, round_magnitude(v as nat, 1))
        }
    }
}

/// `a - b`.
pub open spec fn difference(a: u32, b: u32) -> u32 {
    sum(a, negate(b))
}

/// `a * b`.
pub open spec fn product(a: u32, b: u32) -> u32 {
    let negative = is_negative(a) != is_negative(b);
    if is_nan(a) || is_nan(b) {
        NAN
    } else if is_infinite(a) || is_infinite(b) {
        if is_zero(a) || is_zero(b) {
            NAN
        } else {
            with_sign(negative, INFINITY)
        }
    } else {
        with_sign(
            negative,
            round_magnitude(magnitude(abs_bits(a)) * magnitude(abs_bits(b)), pow2(149)),
        )
    }
}

/// `a / b`.
pub open spec fn quotient(a: u32, b: u32) -> u32 {
    let negative = is_negative(a) != is_negative(b);
    if is_nan(a) || is_nan(b) {
        NAN
    } else if is_infinite(a) {
        if is_infinite(b) {
            NAN
        } else {
            with_sign(negative, INFINITY)
        }
    } else if is_infinite(b) {
        with_sign(negative, ZERO)
    } else if is_zero(b) {
        if is_zero(a) {
            NAN
        } else {
            with_sign(negative, INFINITY)
        }
    } else {
        with_sign(
            negative,
            round_magnitude(magnitude(abs_bits(a)) * pow2(149), magnitude(abs_bits(b))),
        )
    }
}

proof fn lemma_round_zero(d: nat)
    requires
        d > 0,
    ensures
        round_magnitude(0, d) == 0,
{
    lemma2_to64();
    assert(binade(0, d) == 0);
    assert(d * pow2(0) == d) by (nonlinear_arith)
        requires
            pow2(0) == 1,
    ;
    lemma_basic_div(0, d as int);
    lemma_small_mod(0, d);
}

proof fn lemma_exact_multiple(m: nat, c: nat)
    requires
        c > 0,
    ensures
        (m * c) / c == m,
        (m * c) % c == 0,
{
    lemma_div_by_multiple(m as int, c as int);
    lemma_mod_multiples_basic(m as int, c as int);
}

proof fn lemma_common_factor(x: nat, y: nat, c: nat)
    requires
        y > 0,
        c > 0,
    ensures
        y * c > 0,
        (x * c) / (y * c) == x / y,
        ((x * c) % (y * c) != 0) == (x % y != 0),
{
    lemma_div_multiples_vanish_quotient(c as int, x as int, y as int);
    lemma_truncate_middle(x as int, c as int, y as int);
    lemma_mod_bound(x as int, y as int);
    let r = x % y;
    assert(x * c == c * x && y * c == c * y) by (nonlinear_arith);
    assert((c * r != 0) == (r != 0)) by (nonlinear_arith)
        requires
            c > 0,
            r >= 0,
    ;
}

/// The magnitude of a number is positive unless its bits are zero.
proof fn lemma_magnitude_positive(a: u32)
    requires
        0 < a < INFINITY,
    ensures
        magnitude(a) > 0,
{
    lemma_magnitude_increases(0, a);
    lemma_magnitude_zero();
}

proof fn lemma_product_form(ma: nat, ea: nat, mb: nat, eb: nat)
    ensures
        ({
            let n = (ma * pow2(ea)) * (mb * pow2(eb));
            let e = ea + eb - 149;
            &&& scaled_den(pow2(149), e) > 0
            &&& scaled_num(n, e) / scaled_den(pow2(149), e) == ma * mb
            &&& scaled_num(n, e) % scaled_den(pow2(149), e) == 0
        }),
{
    let pa = pow2(ea);
    let pb = pow2(eb);
    let n = (ma * pa) * (mb * pb);
    let e = ea + eb - 149;
    let m = ma * mb;
    let p = pow2(ea + eb);
    lemma_pow2_adds(ea, eb);
    lemma_pow2_pos(ea + eb);
    lemma_pow2_pos(149);
    assert(n == m * p) by (nonlinear_arith)
        requires
            n == (ma * pa) * (mb * pb),
            m == ma * mb,
            p == pa * pb,
    ;
    if e >= 0 {
        lemma_pow2_adds(149, e as nat);
        assert(149 + e as nat == ea + eb);
        lemma_exact_multiple(m, p);
    } else {
        let c = pow2((-e) as nat);
        lemma_pow2_adds(ea + eb, (-e) as nat);
        assert(ea + eb + (-e) as nat == 149);
        assert(n * c == m * pow2(149)) by (nonlinear_arith)
            requires
                n == m * p,
                p * c == pow2(149),
        ;
        lemma_exact_multiple(m, pow2(149));
    }
}

proof fn lemma_quotient_form(ma: nat, ea: nat, mb: nat, eb: nat)
    requires
        mb > 0,
    ensures
        ({
            let n = (ma * pow2(ea)) * pow2(149);
            let d = mb * pow2(eb);
            let e = ea - eb + 85;
            let x = ma * pow2(64);
            &&& d > 0
            &&& scaled_den(d, e) > 0
            &&& scaled_num(n, e) / scaled_den(d, e) == x / mb
            &&& (scaled_num(n, e) % scaled_den(d, e) != 0) == (x % mb != 0)
        }),
{
    let pa = pow2(ea);
    let pb = pow2(eb);
    let n = (ma * pa) * pow2(149);
    let d = mb * pb;
    let e = ea - eb + 85;
    let x = ma * pow2(64);
    lemma_pow2_pos(eb);
    assert(d > 0) by (nonlinear_arith)
        requires
            d == mb * pb,
            mb > 0,
            pb > 0,
    ;
    if e >= 0 {
        let c = pow2(ea + 85);
        lemma_pow2_pos(ea + 85);
        lemma_pow2_adds(eb, e as nat);
        lemma_pow2_adds(ea, 149);
        lemma_pow2_adds(64, ea + 85);
        assert(eb + e as nat == ea + 85);
        assert(64 + (ea + 85) == ea + 149);
        assert(n == x * c) by (nonlinear_arith)
            requires
                n == (ma * pa) * pow2(149),
                pa * pow2(149) == pow2(64) * c,
                x == ma * pow2(64),
        ;
        assert(d * pow2(e as nat) == mb * c) by (nonlinear_arith)
            requires
                d == mb * pb,
                pb * pow2(e as nat) == c,
        ;
        lemma_common_factor(x, mb, c);
    } else {
        let k = pow2((-e) as nat);
        lemma_pow2_adds(ea, 149);
        lemma_pow2_adds(ea + 149, (-e) as nat);
        lemma_pow2_adds(64, eb);
        assert(ea + 149 + (-e) as nat == 64 + eb);
        assert(n * k == x * pb) by (nonlinear_arith)
            requires
                n == (ma * pa) * pow2(149),
                (pa * pow2(149)) * k == pow2(64) * pb,
                x == ma * pow2(64),
        ;
        lemma_common_factor(x, mb, pb);
    }
}

/// The sum or difference of two numbers whose exponents lie near each other:
/// a whole multiple of the spacing of the smaller.
proof fn lemma_near_form(ma: nat, ea: nat, mb: nat, eb: nat, same: bool)
    requires
        eb <= ea,
        same || mb * pow2(eb) <= ma * pow2(ea),
    ensures
        ({
            let wide = ma * pow2((ea - eb) as nat);
            let m: int = if same {
                (wide + mb) as int
            } else {
                wide - mb
            };
            let n: int = if same {
                (ma * pow2(ea) + mb * pow2(eb)) as int
            } else {
                ma * pow2(ea) - mb * pow2(eb)
            };
            &&& m >= 0
            &&& n >= 0
            &&& (n == 0) == (m == 0)
            &&& scaled_den(1, eb as int) > 0
            &&& scaled_num(n as nat, eb as int) / scaled_den(1, eb as int) == m
            &&& scaled_num(n as nat, eb as int) % scaled_den(1, eb as int) == 0
        }),
{
    let pa = pow2(ea);
    let pb = pow2(eb);
    let ps = pow2((ea - eb) as nat);
    let wide = ma * ps;
    lemma_pow2_adds((ea - eb) as nat, eb);
    assert((ea - eb) as nat + eb == ea);
    lemma_pow2_pos(eb);
    assert(ma * pa == wide * pb) by (nonlinear_arith)
        requires
            pa == ps * pb,
            wide == ma * ps,
    ;
    if !same {
        vstd::arithmetic::mul::lemma_mul_inequality_converse(mb as int, wide as int, pb as int);
    }
    let m: int = if same {
        (wide + mb) as int
    } else {
        wide - mb
    };
    let n: int = if same {
        (ma * pa + mb * pb) as int
    } else {
        ma * pa - mb * pb
    };
    assert(n == m * pb) by (nonlinear_arith)
        requires
            ma * pa == wide * pb,
            n == ma * pa + mb * pb && m == wide + mb || n == ma * pa - mb * pb && m == wide - mb,
    ;
    assert((n == 0) == (m == 0)) by (nonlinear_arith)
        requires
            n == m * pb,
            pb > 0,
    ;
    assert(1 * pb == pb);
    lemma_exact_multiple(m as nat, pb);
}

/// The sum or difference of two numbers of which the smaller lies entirely
/// below the bits that are kept of the greater.
proof fn lemma_far_form(ma: nat, ea: nat, mb: nat, eb: nat, same: bool)
    requires
        ea > eb + 64,
        ma >= 0x80_0000,
        mb < 0x100_0000,
    ensures
        ({
            let big = ma * pow2(ea);
            let small = mb * pow2(eb);
            let n: int = if same {
                (big + small) as int
            } else {
                big - small
            };
            let e = ea - 40;
            let m: int = if !same && mb != 0 {
                ma * pow2(40) - 1
            } else {
                (ma * pow2(40)) as int
            };
            &&& big > small
            &&& scaled_den(1, e) > 0
            &&& scaled_num(n as nat, e) / scaled_den(1, e) == m
            &&& (scaled_num(n as nat, e) % scaled_den(1, e) != 0) == (mb != 0)
        }),
{
    let pa = pow2(ea);
    let pb = pow2(eb);
    let e = (ea - 40) as nat;
    let g = pow2(e);
    let big = ma * pa;
    let small = mb * pb;
    let top = ma * pow2(40);
    lemma2_to64();
    lemma2_to64_rest();
    lemma_pow2_pos(eb);
    lemma_pow2_pos(e);
    lemma_pow2_adds(40, e);
    assert(40 + e == ea);
    lemma_pow2_adds(24, eb);
    lemma_pow2_le(24 + eb, e);
    assert(small < g) by (nonlinear_arith)
        requires
            small == mb * pb,
            mb < 0x100_0000,
            pb > 0,
            0x100_0000 * pb <= g,
    ;
    assert(big == top * g) by (nonlinear_arith)
        requires
            big == ma * pa,
            pa == pow2(40) * g,
            top == ma * pow2(40),
    ;
    assert(top >= 1) by (nonlinear_arith)
        requires
            top == ma * pow2(40),
            ma >= 1,
            pow2(40) >= 1,
    ;
    assert(top * g >= g) by (nonlinear_arith)
        requires
            top >= 1,
            g > 0,
    ;
    assert((small != 0) == (mb != 0)) by (nonlinear_arith)
        requires
            small == mb * pb,
            pb > 0,
            mb >= 0,
    ;
    assert(1 * g == g);
    if same || mb == 0 {
        let n: int = if same {
            (big + small) as int
        } else {
            big - small
        };
        lemma_fundamental_div_mod_converse(n, g as int, top as int, small as int);
    } else {
        let n = big - small;
        assert(n == (top - 1) * g + (g - small)) by (nonlinear_arith)
            requires
                n == top * g - small,
        ;
        lemma_fundamental_div_mod_converse(n as int, g as int, top - 1, g - small);
    }
}

/// Computes `a * b`.
pub fn times(a: u32, b: u32) -> (r: u32)
    ensures
        r == product(a, b),
{
    let sign = negative(a) != negative(b);
    let x = magnitude_bits(a);
    let y = magnitude_bits(b);
    if x > INFINITY || y > INFINITY {
        return NAN;
    }
    if x == INFINITY || y == INFINITY {
        if x == 0 || y == 0 {
            return NAN;
        }
        return signed(sign, INFINITY);
    }
    if x == 0 || y == 0 {
        proof {
            lemma2_to64();
            lemma_pow2_pos(149);
            assert(magnitude(0) == 0);
            assert(magnitude(x) * magnitude(y) == 0) by (nonlinear_arith)
                requires
                    magnitude(x) == 0 || magnitude(y) == 0,
            ;
            lemma_round_zero(pow2(149));
        }
        return signed(sign, 0);
    }
    let (ma, ea) = unpack(x);
    let (mb, eb) = unpack(y);
    proof {
        lemma_product_form(ma as nat, ea as nat, mb as nat, eb as nat);
        lemma_pow2_100();
        lemma_pow2_pos(149);
        assert(0 < ma * mb < 0x1_0000_0000_0000) by (nonlinear_arith)
            requires
                0 < ma < 0x100_0000,
                0 < mb < 0x100_0000,
        ;
    }
    round_pack(
        sign,
        ma * mb,
        ea + eb - 149,
        false,
        Ghost(magnitude(x) * magnitude(y)),
        Ghost(pow2(149)),
    )
}

/// Computes `a / b`.
pub fn divided(a: u32, b: u32) -> (r: u32)
    ensures
        r == quotient(a, b),
{
    let sign = negative(a) != negative(b);
    let x = magnitude_bits(a);
    let y = magnitude_bits(b);
    if x > INFINITY || y > INFINITY {
        return NAN;
    }
    if x == INFINITY {
        if y == INFINITY {
            return NAN;
        }
        return signed(sign, INFINITY);
    }
    if y == INFINITY {
        return signed(sign, 0);
    }
    if y == 0 {
        if x == 0 {
            return NAN;
        }
        return signed(sign, INFINITY);
    }
    if x == 0 {
        proof {
            lemma_magnitude_positive(y);
            assert(magnitude(x) * pow2(149) == 0) by (nonlinear_arith)
                requires
                    magnitude(x) == 0,
            ;
            lemma_round_zero(magnitude(y));
        }
        return signed(sign, 0);
    }
    let (ma, ea) = unpack(x);
    let (mb, eb) = unpack(y);
    let wide: u128 = ma * 0x1_0000_0000_0000_0000;
    let m = wide / mb;
    let sticky = wide % mb != 0;
    proof {
        lemma2_to64();
        lemma_pow2_100();
        lemma_quotient_form(ma as nat, ea as nat, mb as nat, eb as nat);
        assert(wide == ma * pow2(64));
        lemma_fundamental_div_mod(wide as int, mb as int);
        lemma_mod_bound(wide as int, mb as int);
        assert(m >= 0x400_0000) by (nonlinear_arith)
            requires
                wide == mb * m + wide % mb,
                wide % mb < mb,
                wide >= 0x1_0000_0000_0000_0000,
                0 < mb < 0x100_0000,
        ;
        assert(m <= wide) by (nonlinear_arith)
            requires
                wide == mb * m + wide % mb,
                wide % mb >= 0,
                mb >= 1,
                m >= 0,
        ;
    }
    round_pack(
        sign,
        m,
        ea - eb + 85,
        sticky,
        Ghost(magnitude(x) * pow2(149)),
        Ghost(magnitude(y)),
    )
}

/// The sum of two finite numbers of one sign, or the difference of two of
/// different signs, from their magnitudes; `sign` is that of the greater.
pub open spec fn combined(hi: u32, lo: u32, sign: bool, same: bool) -> u32
    recommends
        lo <= hi < INFINITY,
{
    let n: int = if same {
        (magnitude(hi) + magnitude(lo)) as int
    } else {
        magnitude(hi) - magnitude(lo)
    };
    if n == 0 {
        if same && sign {
            SIGN_BIT
        } else {
            ZERO
        }
    } else {
        with_sign(sign, round_magnitude(n as nat, 1))
    }
}

/// Adds or subtracts the magnitudes of two finite numbers, the greater first,
/// and rounds.
fn combine(hi: u32, lo: u32, sign: bool, same: bool) -> (r: u32)
    requires
        lo <= hi < INFINITY,
    ensures
        r == combined(hi, lo, sign, same),
{
    let (ma, ea) = unpack(hi);
    let (mb, eb) = unpack(lo);
    let ghost n: int = if same {
        (magnitude(hi) + magnitude(lo)) as int
    } else {
        magnitude(hi) - magnitude(lo)
    };
    proof {
        if lo < hi {
            lemma_magnitude_increases(lo, hi);
        }
        lemma_pow2_100();
        lemma2_to64();
    }
    let shift = ea - eb;
    if shift <= 64 {
        let ps = power_of_two(shift as u32);
        proof {
            lemma_pow2_le(shift as nat, 64);
            assert(ma * ps <= 0x100_0000 * 0x1_0000_0000_0000_0000) by (nonlinear_arith)
                requires
                    ma < 0x100_0000,
                    ps <= 0x1_0000_0000_0000_0000,
            ;
            lemma_near_form(ma as nat, ea as nat, mb as nat, eb as nat, same);
        }
        let wide = ma * ps;
        let m = if same {
            wide + mb
        } else {
            wide - mb
        };
        if m == 0 {
            return if same && sign {
                SIGN_BIT
            } else {
                ZERO
            };
        }
        round_pack(sign, m, eb, false, Ghost(n as nat), Ghost(1))
    } else {
        let top: u128 = ma * 0x100_0000_0000;
        proof {
            lemma2_to64_rest();
            lemma_far_form(ma as nat, ea as nat, mb as nat, eb as nat, same);
            assert(top == ma * pow2(40));
        }
        let m = if !same && mb != 0 {
            top - 1
        } else {
            top
        };
        round_pack(sign, m, ea - 40, mb != 0, Ghost(n as nat), Ghost(1))
    }
}

/// Computes `a + b`.
pub fn plus(a: u32, b: u32) -> (r: u32)
    ensures
        r == sum(a, b),
{
    let x = magnitude_bits(a);
    let y = magnitude_bits(b);
    if x > INFINITY || y > INFINITY {
        return NAN;
    }
    if x == INFINITY {
        if y == INFINITY && negative(a) != negative(b) {
            return NAN;
        }
        return a;
    }
    if y == INFINITY {
        return b;
    }
    let same = negative(a) == negative(b);
    proof {
        if x < y {
            lemma_magnitude_increases(x, y);
        }
        if y < x {
            lemma_magnitude_increases(y, x);
        }
    }
    if x < y {
        combine(y, x, negative(b), same)
    } else {
        combine(x, y, negative(a), same)
    }
}

/// Computes `a - b`.
pub fn minus(a: u32, b: u32) -> (r: u32)
    ensures
        r == difference(a, b),
{
    plus(a, negated(b))
}

/// Multiplying by 1 changes nothing.
pub proof fn lemma_times_one(a: u32)
    requires
        !is_nan(a),
    ensures
        product(a, ONE) == a,
{
    let x = abs_bits(a);
    lemma2_to64();
    lemma_pow2_adds(23, 126);
    assert(magnitude(ONE) == pow2(149));
    if x < INFINITY {
        lemma_pow2_pos(149);
        assert(1 * pow2(149) == pow2(149));
        lemma_round_magnitude_scales(magnitude(x), 1, pow2(149));
        lemma_round_exact(x);
    }
}

/// Multiplying a finite number by 0 gives a zero.
pub proof fn lemma_times_zero(a: u32)
    requires
        is_finite(a),
    ensures
        is_zero(product(a, ZERO)),
{
    lemma_magnitude_zero();
    lemma_pow2_pos(149);
    assert(magnitude(abs_bits(a)) * magnitude(0) == 0) by (nonlinear_arith)
        requires
            magnitude(0) == 0,
    ;
    lemma_round_zero(pow2(149));
}

/// Adding a zero to a finite number gives that number.
pub proof fn lemma_zero_plus(z: u32, a: u32)
    requires
        is_zero(z),
        is_finite(a),
    ensures
        is_equal(sum(z, a), a),
        !is_zero(a) ==> sum(z, a) == a,
{
    let x = abs_bits(a);
    lemma_magnitude_zero();
    assert(value(z) == 0);
    if x > 0 {
        lemma_magnitude_positive(x);
        lemma_round_exact(x);
    }
}

/// Adding a finite number to a zero gives that number.
pub proof fn lemma_plus_zero(a: u32, z: u32)
    requires
        is_zero(z),
        is_finite(a),
    ensures
        is_equal(sum(a, z), a),
        !is_zero(a) ==> sum(a, z) == a,
{
    let x = abs_bits(a);
    lemma_magnitude_zero();
    assert(value(z) == 0);
    if x > 0 {
        lemma_magnitude_positive(x);
        lemma_round_exact(x);
    }
}

} // verus!
