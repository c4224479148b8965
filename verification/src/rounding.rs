//! Rounding of an exact quotient to the nearest single-precision number, ties
//! to the one with the even significand.
//!
//! The exact number is a quotient `n / d` of naturals, in units of 2^-149.
//! [`round_magnitude`] says which magnitude bits it rounds to; [`round_pack`]
//! computes them from a bounded description of the quotient.
use crate::binary32::{lemma_magnitude_increases, magnitude, signed, with_sign, INFINITY};
use vstd::arithmetic::div_mod::*;
use vstd::arithmetic::mul::*;
use vstd::arithmetic::power2::*;
use vstd::prelude::*;

verus! {

/// The whole number nearest to `n / d`; of two equally near, the even one.
pub open spec fn round_half_even(n: nat, d: nat) -> nat
    recommends
        d > 0,
{
    let q = n / d;
    let r = n % d;
    if 2 * r < d || (2 * r == d && q % 2 == 0) {
        q
    } else {
        q + 1
    }
}

/// How many times `n / d` must be halved to come below 2^24: the exponent of
/// the numbers among which `n / d` lies.
pub open spec fn binade(n: nat, d: nat) -> nat
    decreases n,
{
    if d == 0 || n < d * 0x100_0000 {
        0
    } else {
        1 + binade(n / 2, d)
    }
}

/// The magnitude bits of the single-precision number nearest to `n / d` units
/// of 2^-149: the quotient is rounded to a whole multiple of the spacing of
/// its binade, and a carry out of the significand moves into the exponent by
/// the addition. What is too large for a finite number gives infinity.
pub open spec fn round_magnitude(n: nat, d: nat) -> u32
    recommends
        d > 0,
{
    let k = binade(n, d);
    let p = k * 0x80_0000 + round_half_even(n, d * pow2(k));
    if p >= INFINITY {
        INFINITY
    } else {
        p as u32
    }
}

/// The numerator of `n / d` divided by 2^e, cleared of negative powers.
pub open spec fn scaled_num(n: nat, e: int) -> nat {
    if e < 0 {
        n * pow2((-e) as nat)
    } else {
        n
    }
}

/// The denominator of `n / d` divided by 2^e, cleared of negative powers.
pub open spec fn scaled_den(d: nat, e: int) -> nat {
    if e < 0 {
        d
    } else {
        d * pow2(e as nat)
    }
}

/// Whether `m`, with a remainder behind it where `sticky` holds, lies nearer
/// to the next multiple of `s` above it than to the one below, or as near
/// with the one below odd.
pub open spec fn rounds_up(m: nat, s: nat, sticky: bool) -> bool {
    m % s > s / 2 || (m % s == s / 2 && (sticky || (m / s) % 2 == 1))
}

/// A greater exponent gives no smaller power of two.
pub proof fn lemma_pow2_le(a: nat, b: nat)
    requires
        a <= b,
    ensures
        pow2(a) <= pow2(b),
{
    if a < b {
        lemma_pow2_strictly_increases(a, b);
    }
}

/// The powers of two that bound the numbers of this module.
pub proof fn lemma_pow2_100()
    ensures
        pow2(100) == 0x10_0000_0000_0000_0000_0000_0000,
        pow2(26) == 0x400_0000,
        pow2(24) == 0x100_0000,
        pow2(23) == 0x80_0000,
{
    lemma2_to64();
    lemma2_to64_rest();
    lemma_pow2_adds(64, 36);
}

/// `binade(n, d)` is the `k` with 2^(23+k) <= n / d < 2^(24+k), or 0 below.
pub proof fn lemma_binade(n: nat, d: nat, k: nat)
    requires
        d > 0,
        n < d * pow2(24 + k),
        k > 0 ==> d * pow2(23 + k) <= n,
    ensures
        binade(n, d) == k,
    decreases k,
{
    lemma2_to64();
    if k > 0 {
        let p = pow2(23 + k);
        let h = pow2(22 + k);
        lemma_pow2_unfold(24 + k);
        lemma_pow2_unfold(23 + k);
        lemma_pow2_le(24, 23 + k);
        assert(d * pow2(24) <= d * p) by (nonlinear_arith)
            requires
                pow2(24) <= p,
        ;
        assert(d * (2 * p) == 2 * (d * p)) by (nonlinear_arith);
        assert(d * (2 * h) == 2 * (d * h)) by (nonlinear_arith);
        assert(pow2(24 + k) == 2 * p);
        assert(p == 2 * h);
        assert(n / 2 < d * p);
        assert(d * h <= n / 2);
        assert(23 + k == 24 + (k - 1) as nat);
        assert(22 + k == 23 + (k - 1) as nat);
        lemma_binade(n / 2, d, (k - 1) as nat);
    }
}

/// The converse of [`lemma_binade`].
pub proof fn lemma_binade_bounds(n: nat, d: nat)
    requires
        d > 0,
    ensures
        n < d * pow2(24 + binade(n, d)),
        binade(n, d) > 0 ==> d * pow2(23 + binade(n, d)) <= n,
    decreases n,
{
    lemma2_to64();
    if n >= d * 0x100_0000 {
        lemma_binade_bounds(n / 2, d);
        let j = binade(n / 2, d);
        let k = j + 1;
        assert(binade(n, d) == k);
        lemma_pow2_unfold(24 + k);
        lemma_pow2_unfold(23 + k);
        assert(24 + j == 23 + k);
        assert(d * (2 * pow2(23 + k)) == 2 * (d * pow2(23 + k))) by (nonlinear_arith);
        assert(d * (2 * pow2(22 + k)) == 2 * (d * pow2(22 + k))) by (nonlinear_arith);
        if j > 0 {
            assert(23 + j == 22 + k);
        } else {
            assert(pow2(23 + k) == 0x100_0000);
        }
    }
}

/// Rounding looks at the quotient alone: a common factor changes nothing.
pub proof fn lemma_round_scales(n: nat, d: nat, c: nat)
    requires
        d > 0,
        c > 0,
    ensures
        round_half_even(n * c, d * c) == round_half_even(n, d),
{
    lemma_div_multiples_vanish_quotient(c as int, n as int, d as int);
    lemma_truncate_middle(n as int, c as int, d as int);
    lemma_mod_bound(n as int, d as int);
    let r = n % d;
    assert(n * c == c * n && d * c == c * d) by (nonlinear_arith);
    assert((n * c) / (d * c) == n / d);
    assert((n * c) % (d * c) == c * r);
    assert(2 * (c * r) < c * d <==> 2 * r < d) by (nonlinear_arith)
        requires
            c > 0,
    ;
    assert(2 * (c * r) == c * d <==> 2 * r == d) by (nonlinear_arith)
        requires
            c > 0,
    ;
}

/// The binade too belongs to the quotient alone.
pub proof fn lemma_binade_scales(n: nat, d: nat, c: nat)
    requires
        d > 0,
        c > 0,
    ensures
        binade(n * c, d * c) == binade(n, d),
{
    lemma_binade_bounds(n, d);
    let k = binade(n, d);
    let hi = pow2(24 + k);
    let lo = pow2(23 + k);
    assert(n * c < (d * c) * hi) by (nonlinear_arith)
        requires
            n < d * hi,
            c > 0,
    ;
    if k > 0 {
        assert((d * c) * lo <= n * c) by (nonlinear_arith)
            requires
                d * lo <= n,
                c > 0,
        ;
    }
    assert(d * c > 0) by (nonlinear_arith)
        requires
            d > 0,
            c > 0,
    ;
    lemma_binade(n * c, d * c, k);
}

/// A common factor of numerator and denominator does not change the rounded
/// number.
pub proof fn lemma_round_magnitude_scales(n: nat, d: nat, c: nat)
    requires
        d > 0,
        c > 0,
    ensures
        round_magnitude(n * c, d * c) == round_magnitude(n, d),
{
    lemma_binade_scales(n, d, c);
    let k = binade(n, d);
    let p = pow2(k);
    lemma_pow2_pos(k);
    assert((d * c) * p == (d * p) * c) by (nonlinear_arith);
    assert(d * p > 0) by (nonlinear_arith)
        requires
            d > 0,
            p > 0,
    ;
    lemma_round_scales(n, d * p, c);
}

/// A number that single precision holds rounds to itself.
pub proof fn lemma_round_exact(a: u32)
    requires
        a < INFINITY,
    ensures
        round_magnitude(magnitude(a), 1) == a,
{
    let e = a / 0x80_0000;
    let f = a % 0x80_0000;
    lemma2_to64();
    if e == 0 {
        assert(magnitude(a) == f * pow2(0));
        lemma_binade(f as nat, 1, 0);
        assert(round_half_even(f as nat, 1) == f);
    } else {
        let k = (e - 1) as nat;
        let s = (0x80_0000 + f) as nat;
        let p = pow2(k);
        lemma_pow2_pos(k);
        lemma_pow2_adds(24, k);
        lemma_pow2_adds(23, k);
        assert(s * p < 1 * (0x100_0000 * p)) by (nonlinear_arith)
            requires
                s < 0x100_0000,
                p > 0,
        ;
        assert(1 * (0x80_0000 * p) <= s * p) by (nonlinear_arith)
            requires
                s >= 0x80_0000,
                p > 0,
        ;
        if k == 0 {
            assert(s * p == s) by (nonlinear_arith)
                requires
                    p == 1,
            ;
            lemma_binade(s, 1, 0);
            assert(round_half_even(s, 1) == s);
        } else {
            lemma_binade(s * p, 1, k);
            lemma_fundamental_div_mod_converse((s * p) as int, p as int, s as int, 0);
            assert(1 * p == p);
            assert(round_half_even(s * p, 1 * p) == s);
        }
        assert(k * 0x80_0000 + s == a);
    }
}

/// Rounding `n / (d * s)` from the whole part `m` of `n / d` and the
/// knowledge whether anything is left behind it.
pub proof fn lemma_round_from_floor(n: nat, d: nat, s: nat, m: nat, sticky: bool)
    requires
        d > 0,
        s >= 2,
        s % 2 == 0,
        m == n / d,
        sticky == (n % d != 0),
    ensures
        round_half_even(n, d * s) == m / s + if rounds_up(m, s, sticky) {
            1nat
        } else {
            0nat
        },
{
    lemma_div_denominator(n as int, d as int, s as int);
    lemma_mod_breakdown(n as int, d as int, s as int);
    lemma_mod_bound(n as int, d as int);
    lemma_mod_bound(m as int, s as int);
    let rem = m % s;
    let r0 = n % d;
    let h = s / 2;
    let r = n % (d * s);
    assert(r == d * rem + r0);
    assert(s == 2 * h);
    assert(d * s == 2 * (d * h)) by (nonlinear_arith)
        requires
            s == 2 * h,
    ;
    if rem < h {
        assert(d * rem + d <= d * h) by (nonlinear_arith)
            requires
                rem + 1 <= h,
        ;
    } else if rem > h {
        assert(d * rem >= d * h + d) by (nonlinear_arith)
            requires
                rem >= h + 1,
        ;
    } else {
        assert(d * rem == d * h);
    }
}

/// Where `m` is the whole part of a quotient and `len` its length in bits,
/// the quotient lies between the powers of two around `m`.
proof fn lemma_floor_window(n: nat, d: nat, m: nat, len: nat)
    requires
        d > 0,
        len >= 1,
        m == n / d,
        pow2((len - 1) as nat) <= m < pow2(len),
    ensures
        pow2((len - 1) as nat) * d <= n < pow2(len) * d,
{
    lemma_fundamental_div_mod(n as int, d as int);
    lemma_mod_bound(n as int, d as int);
    let lo = pow2((len - 1) as nat);
    let hi = pow2(len);
    assert(lo * d <= d * m) by (nonlinear_arith)
        requires
            lo <= m,
    ;
    assert(d * m + d <= hi * d) by (nonlinear_arith)
        requires
            m + 1 <= hi,
    ;
}

/// The binade of `n / d` from the bit length of the whole part of
/// `n * 2^a / (d * 2^b)`.
proof fn lemma_position(n: nat, d: nat, a: nat, b: nat, len: nat)
    requires
        d > 0,
        len >= 1,
        pow2((len - 1) as nat) * (d * pow2(b)) <= n * pow2(a) < pow2(len) * (d * pow2(b)),
    ensures
        binade(n, d) == if len + b > 24 + a {
            (len + b - a - 24) as nat
        } else {
            0
        },
{
    let pa = pow2(a);
    let pb = pow2(b);
    lemma_pow2_pos(a);
    lemma_pow2_adds(len, b);
    assert(pow2(len) * (d * pb) == d * pow2(len + b)) by (nonlinear_arith)
        requires
            pow2(len + b) == pow2(len) * pb,
    ;
    if len + b <= 24 + a {
        lemma_pow2_le(len + b, 24 + a);
        lemma_pow2_adds(24, a);
        let t = pow2(24);
        assert(d * pow2(len + b) <= (d * t) * pa) by (nonlinear_arith)
            requires
                pow2(len + b) <= t * pa,
        ;
        lemma_mul_strict_inequality_converse(n as int, (d * t) as int, pa as int);
        lemma_binade(n, d, 0);
    } else {
        let k = (len + b - a - 24) as nat;
        lemma_pow2_adds(24 + k, a);
        lemma_pow2_adds(23 + k, a);
        assert(len + b == 24 + k + a);
        let hi = pow2(24 + k);
        let lo = pow2(23 + k);
        assert(d * pow2(len + b) == (d * hi) * pa) by (nonlinear_arith)
            requires
                pow2(len + b) == hi * pa,
        ;
        lemma_mul_strict_inequality_converse(n as int, (d * hi) as int, pa as int);
        lemma_pow2_adds((len - 1) as nat, b);
        assert((len - 1) as nat + b == 23 + k + a);
        assert(pow2((len - 1) as nat) * (d * pb) == (d * lo) * pa) by (nonlinear_arith)
            requires
                pow2((len - 1) as nat) * pb == lo * pa,
        ;
        lemma_mul_inequality_converse((d * lo) as int, n as int, pa as int);
        lemma_binade(n, d, k);
    }
}

/// Rounding in the binade `k` where the description of the quotient is finer
/// than the spacing of that binade.
proof fn lemma_pack_round(n: nat, d: nat, e: int, m: nat, sticky: bool, k: nat)
    requires
        d > 0,
        k - e >= 1,
        m == scaled_num(n, e) / scaled_den(d, e),
        sticky == (scaled_num(n, e) % scaled_den(d, e) != 0),
    ensures
        round_half_even(n, d * pow2(k)) == m / pow2((k - e) as nat) + if rounds_up(
            m,
            pow2((k - e) as nat),
            sticky,
        ) {
            1nat
        } else {
            0nat
        },
{
    let sh = (k - e) as nat;
    let s = pow2(sh);
    lemma_pow2_unfold(sh);
    lemma_pow2_pos((sh - 1) as nat);
    lemma_pow2_pos(k);
    if e >= 0 {
        let pe = pow2(e as nat);
        lemma_pow2_pos(e as nat);
        lemma_pow2_adds(e as nat, sh);
        assert(e as nat + sh == k);
        assert((d * pe) * s == d * pow2(k)) by (nonlinear_arith)
            requires
                pe * s == pow2(k),
        ;
        assert(d * pe > 0) by (nonlinear_arith)
            requires
                d > 0,
                pe > 0,
        ;
        lemma_round_from_floor(n, d * pe, s, m, sticky);
    } else {
        let p = pow2((-e) as nat);
        lemma_pow2_pos((-e) as nat);
        lemma_pow2_adds(k, (-e) as nat);
        assert(k + (-e) as nat == sh);
        assert(d * s == (d * pow2(k)) * p) by (nonlinear_arith)
            requires
                s == pow2(k) * p,
        ;
        assert(d * pow2(k) > 0) by (nonlinear_arith)
            requires
                d > 0,
                pow2(k) > 0,
        ;
        lemma_round_from_floor(n * p, d, s, m, sticky);
        lemma_round_scales(n, d * pow2(k), p);
    }
}

/// Rounding in the binade `k` where the quotient is a whole multiple of 2^e
/// and `e` is at least `k`: nothing is lost.
proof fn lemma_pack_exact(n: nat, d: nat, e: nat, m: nat, k: nat)
    requires
        d > 0,
        k <= e,
        m == n / (d * pow2(e)),
        n % (d * pow2(e)) == 0,
    ensures
        round_half_even(n, d * pow2(k)) == m * pow2((e - k) as nat),
{
    let pe = pow2(e);
    let pk = pow2(k);
    let pd = pow2((e - k) as nat);
    lemma_pow2_pos(e);
    lemma_pow2_pos(k);
    lemma_pow2_adds(k, (e - k) as nat);
    assert(k + (e - k) as nat == e);
    assert(d * pe > 0) by (nonlinear_arith)
        requires
            d > 0,
            pe > 0,
    ;
    assert(d * pk > 0) by (nonlinear_arith)
        requires
            d > 0,
            pk > 0,
    ;
    lemma_fundamental_div_mod(n as int, (d * pe) as int);
    assert(n == (m * pd) * (d * pk)) by (nonlinear_arith)
        requires
            n == (d * pe) * m,
            pe == pk * pd,
    ;
    lemma_fundamental_div_mod_converse(n as int, (d * pk) as int, (m * pd) as int, 0);
}

/// Two to the power `k`.
pub(crate) fn power_of_two(k: u32) -> (r: u128)
    requires
        k <= 100,
    ensures
        r == pow2(k as nat),
{
    let mut r: u128 = 1;
    let mut i: u32 = 0;
    proof {
        lemma2_to64();
    }
    while i < k
        invariant
            i <= k <= 100,
            r == pow2(i as nat),
        decreases k - i,
    {
        proof {
            lemma_pow2_unfold((i + 1) as nat);
            lemma_pow2_le((i + 1) as nat, 100);
            lemma_pow2_100();
        }
        r = r * 2;
        i = i + 1;
    }
    r
}

/// The number of bits of `m`.
fn bit_length(m: u128) -> (len: u32)
    requires
        0 < m < pow2(100),
    ensures
        1 <= len <= 100,
        pow2((len - 1) as nat) <= m < pow2(len as nat),
{
    let mut len: u32 = 0;
    let mut p: u128 = 1;
    proof {
        lemma2_to64();
        lemma_pow2_100();
    }
    while p <= m
        invariant
            p == pow2(len as nat),
            len <= 100,
            len > 0 ==> pow2((len - 1) as nat) <= m,
            m < pow2(100),
            pow2(100) == 0x10_0000_0000_0000_0000_0000_0000,
        decreases 100 - len,
    {
        proof {
            if len >= 100 {
                lemma_pow2_le(100, len as nat);
            }
            lemma_pow2_unfold((len + 1) as nat);
        }
        p = p * 2;
        len = len + 1;
    }
    len
}

/// Rounds a positive quotient `n / d`, given by the whole part `m` of its
/// `2^-e`-fold and by whether that left a remainder, and gives it the sign.
///
/// With a remainder `m` must have bits to spare below the significand.
pub(crate) fn round_pack(
    negative: bool,
    m: u128,
    e: i32,
    sticky: bool,
    Ghost(n): Ghost<nat>,
    Ghost(d): Ghost<nat>,
) -> (r: u32)
    requires
        d > 0,
        0 < m < pow2(100),
        -400 <= e <= 400,
        m == scaled_num(n, e as int) / scaled_den(d, e as int),
        sticky == (scaled_num(n, e as int) % scaled_den(d, e as int) != 0),
        sticky ==> m >= pow2(26),
    ensures
        r == with_sign(negative, round_magnitude(n, d)),
{
    let len = bit_length(m);
    let top: i32 = len as i32 + e;
    let k: i32 = if top > 24 {
        top - 24
    } else {
        0
    };
    let sh: i32 = k - e;
    let ghost num = scaled_num(n, e as int);
    let ghost den = scaled_den(d, e as int);
    proof {
        lemma_pow2_100();
        let a: nat = if e < 0 {
            (-e) as nat
        } else {
            0
        };
        let b: nat = if e < 0 {
            0
        } else {
            e as nat
        };
        lemma_pow2_pos(a);
        lemma_pow2_pos(b);
        lemma2_to64();
        assert(den == d * pow2(b)) by (nonlinear_arith)
            requires
                den == if e < 0 {
                    d
                } else {
                    d * pow2(b)
                },
                e < 0 ==> pow2(b) == 1,
        ;
        assert(num == n * pow2(a)) by (nonlinear_arith)
            requires
                num == if e < 0 {
                    n * pow2(a)
                } else {
                    n
                },
                e >= 0 ==> pow2(a) == 1,
        ;
        assert(den > 0) by (nonlinear_arith)
            requires
                den == d * pow2(b),
                d > 0,
                pow2(b) > 0,
        ;
        lemma_floor_window(num, den, m as nat, len as nat);
        lemma_position(n, d, a, b, len as nat);
        assert(binade(n, d) == k);
    }
    let rounded: u64;
    if sh <= 0 {
        let shift = power_of_two((0 - sh) as u32);
        proof {
            if sticky {
                lemma_pow2_le(26, (len - 1) as nat);
                if len <= 26 {
                    lemma_pow2_le(len as nat, 26);
                }
            }
            assert(!sticky);
            lemma_pack_exact(n, d, e as nat, m as nat, k as nat);
            lemma_pow2_adds(len as nat, (e - k) as nat);
            lemma_pow2_le((len + e - k) as nat, 24);
            assert(m * shift < pow2(len as nat) * shift) by (nonlinear_arith)
                requires
                    m < pow2(len as nat),
                    shift > 0,
            ;
        }
        rounded = (m * shift) as u64;
    } else if sh as u32 > len {
        proof {
            let s = pow2(sh as nat);
            lemma_pack_round(n, d, e as int, m as nat, sticky, k as nat);
            lemma_pow2_unfold(sh as nat);
            lemma_pow2_le(len as nat, (sh - 1) as nat);
            lemma_basic_div(m as int, s as int);
            lemma_small_mod(m as nat, s);
            assert(s / 2 == pow2((sh - 1) as nat));
        }
        rounded = 0;
    } else {
        let s = power_of_two(sh as u32);
        proof {
            lemma_pack_round(n, d, e as int, m as nat, sticky, k as nat);
            lemma_pow2_pos(sh as nat);
            lemma_pow2_le(len as nat, (24 + sh) as nat);
            lemma_pow2_adds(24, sh as nat);
            lemma_fundamental_div_mod(m as int, s as int);
            lemma_mod_bound(m as int, s as int);
            let q = m as int / s as int;
            assert(q < 0x100_0000) by (nonlinear_arith)
                requires
                    m < 0x100_0000 * s,
                    m >= s * q,
                    s > 0,
            ;
        }
        let q = m / s;
        let rem = m % s;
        let half = s / 2;
        let up = rem > half || (rem == half && (sticky || q % 2 == 1));
        rounded = if up {
            (q + 1) as u64
        } else {
            q as u64
        };
    }
    proof {
        lemma_pow2_pos(k as nat);
        assert(d * pow2(k as nat) > 0) by (nonlinear_arith)
            requires
                d > 0,
                pow2(k as nat) > 0,
        ;
    }
    assert(rounded == round_half_even(n, d * pow2(k as nat)));
    let p: u64 = (k as u64) * 0x80_0000 + rounded;
    let a: u32 = if p >= 0x7f80_0000 {
        INFINITY
    } else {
        p as u32
    };
    signed(negative, a)
}

/// How far apart two numbers lie.
pub open spec fn distance(a: int, b: int) -> int {
    if a < b {
        b - a
    } else {
        a - b
    }
}

/// The bits `k * 2^23 + j` stand for `j * 2^k`, where `j` is a significand of
/// the binade `k` or the first one of the next.
proof fn lemma_magnitude_of_sum(k: nat, j: nat)
    requires
        j <= 0x100_0000,
        k > 0 ==> j >= 0x80_0000,
        k * 0x80_0000 + j < INFINITY,
    ensures
        magnitude((k * 0x80_0000 + j) as u32) == j * pow2(k),
{
    let a = (k * 0x80_0000 + j) as u32;
    lemma2_to64();
    lemma_pow2_unfold(k + 1);
    if j == 0x100_0000 {
        assert(a / 0x80_0000 == k + 2);
        assert(a % 0x80_0000 == 0);
        assert(0x80_0000 * (2 * pow2(k)) == 0x100_0000 * pow2(k)) by (nonlinear_arith);
    } else if j >= 0x80_0000 {
        assert(a / 0x80_0000 == k + 1);
        assert(a % 0x80_0000 == j - 0x80_0000);
    } else {
        assert(a / 0x80_0000 == 0);
        assert(a % 0x80_0000 == j);
    }
}

/// No number that single precision holds lies nearer to `n / d` than the one
/// it is rounded to.
pub proof fn lemma_round_is_nearest(n: nat, d: nat, p: u32)
    requires
        d > 0,
        p < INFINITY,
        round_magnitude(n, d) < INFINITY,
    ensures
        distance((magnitude(round_magnitude(n, d)) * d) as int, n as int) <= distance(
            (magnitude(p) * d) as int,
            n as int,
        ),
{
    let k = binade(n, d);
    let u = pow2(k);
    let step = d * u;
    let q = n / step;
    let r = n % step;
    let a = round_magnitude(n, d);
    lemma_pow2_pos(k);
    lemma2_to64();
    assert(step > 0) by (nonlinear_arith)
        requires
            step == d * u,
            d > 0,
            u > 0,
    ;
    lemma_binade_bounds(n, d);
    lemma_pow2_adds(24, k);
    lemma_pow2_adds(23, k);
    lemma_fundamental_div_mod(n as int, step as int);
    lemma_mod_bound(n as int, step as int);
    assert(q < 0x100_0000) by (nonlinear_arith)
        requires
            n < d * (0x100_0000 * u),
            n == step * q + r,
            r >= 0,
            step == d * u,
            step > 0,
    ;
    if k > 0 {
        assert(q >= 0x80_0000) by (nonlinear_arith)
            requires
                d * (0x80_0000 * u) <= n,
                n == step * q + r,
                r < step,
                step == d * u,
                step > 0,
        ;
    }
    let below = (k * 0x80_0000 + q) as u32;
    assert(a == below || a == below + 1);
    lemma_magnitude_of_sum(k, q);
    assert(magnitude(below) * d == q * step) by (nonlinear_arith)
        requires
            magnitude(below) == q * u,
            step == d * u,
    ;
    if a == below + 1 {
        lemma_magnitude_of_sum(k, q + 1);
        assert(magnitude(a) * d == q * step + step) by (nonlinear_arith)
            requires
                magnitude(a) == (q + 1) * u,
                step == d * u,
        ;
    }
    if p <= below {
        if p < below {
            lemma_magnitude_increases(p, below);
        }
        assert(magnitude(p) * d <= magnitude(below) * d) by (nonlinear_arith)
            requires
                magnitude(p) <= magnitude(below),
        ;
    } else {
        let above = (below + 1) as u32;
        lemma_magnitude_of_sum(k, q + 1);
        if above < p {
            lemma_magnitude_increases(above, p);
        }
        assert(magnitude(above) * d == q * step + step) by (nonlinear_arith)
            requires
                magnitude(above) == (q + 1) * u,
                step == d * u,
        ;
        assert(magnitude(above) * d <= magnitude(p) * d) by (nonlinear_arith)
            requires
                magnitude(above) <= magnitude(p),
        ;
    }
}

} // verus!
