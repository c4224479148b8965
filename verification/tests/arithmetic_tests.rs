use tue_raw::arithmetic::{divided, minus, plus, times};
use tue_raw::binary32::{
    equal, less, less_or_equal, magnitude_bits, nan, negated, negative, signed, to_byte,
    FULL_SCALE, INFINITY, NAN, ONE, ZERO,
};

fn same(ours: u32, theirs: f32) -> bool {
    if theirs.is_nan() {
        ours == NAN
    } else {
        ours == theirs.to_bits()
    }
}

fn check_pair(a: u32, b: u32) {
    let x = f32::from_bits(a);
    let y = f32::from_bits(b);
    assert!(same(plus(a, b), x + y), "{:#x} + {:#x} gave {:#x}", a, b, plus(a, b));
    assert!(same(minus(a, b), x - y), "{:#x} - {:#x} gave {:#x}", a, b, minus(a, b));
    assert!(same(times(a, b), x * y), "{:#x} * {:#x} gave {:#x}", a, b, times(a, b));
    assert!(same(divided(a, b), x / y), "{:#x} / {:#x} gave {:#x}", a, b, divided(a, b));
    assert_eq!(less(a, b), x < y);
    assert_eq!(less_or_equal(a, b), x <= y);
    assert_eq!(equal(a, b), x == y);
}

struct Lcg(u64);

impl Lcg {
    fn next(&mut self) -> u32 {
        self.0 = self.0.wrapping_mul(6364136223846793005).wrapping_add(1442695040888963407);
        (self.0 >> 32) as u32
    }
}

const SPECIAL: [u32; 22] = [
    0x0000_0000,
    0x8000_0000,
    0x0000_0001,
    0x8000_0001,
    0x007f_ffff,
    0x0080_0000,
    0x0080_0001,
    0x00ff_ffff,
    0x3f80_0000,
    0xbf80_0000,
    0x3f7f_ffff,
    0x3f80_0001,
    0x4000_0000,
    0x437f_0000,
    0x4b00_0000,
    0x4b80_0000,
    0x7f7f_ffff,
    0xff7f_ffff,
    0x7f80_0000,
    0xff80_0000,
    0x7fc0_0000,
    0xffc0_0001,
];

#[test]
fn exact_results_on_given_values() {
    let a = 0.1f32.to_bits();
    let b = 0.2f32.to_bits();
    assert_eq!(plus(a, b), 0x3e99_999a);
    assert_eq!(minus(a, b), 0xbdcc_cccd);
    assert_eq!(times(a, b), 0x3ca3_d70b);
    assert_eq!(divided(a, b), 0x3f00_0000);
    let a = 1.5f32.to_bits();
    let b = 2.5f32.to_bits();
    assert_eq!(plus(a, b), 4.0f32.to_bits());
    assert_eq!(minus(a, b), (-1.0f32).to_bits());
    assert_eq!(times(a, b), 3.75f32.to_bits());
    assert_eq!(divided(a, b), 0x3f19_999a);
}

#[test]
fn results_below_the_normal_range() {
    let tiny = 1e-40f32.to_bits();
    let three = 3.0f32.to_bits();
    assert_eq!(times(tiny, three), 0x0003_4446);
    assert_eq!(divided(tiny, three), 0x0000_5ceb);
    assert_eq!(plus(tiny, three), three);
    assert_eq!(times(1, 0x3f00_0000), 0);
    assert_eq!(times(3, 0x3f00_0000), 2);
    assert_eq!(divided(1, 0x4000_0000), 0);
    assert_eq!(divided(3, 0x4000_0000), 2);
}

#[test]
fn results_above_the_finite_range() {
    let big = 3e38f32.to_bits();
    let ten = 10.0f32.to_bits();
    assert_eq!(times(big, ten), INFINITY);
    assert_eq!(plus(big, big), INFINITY);
    assert_eq!(divided(big, 0x3dcc_cccd), INFINITY);
    assert_eq!(minus(negated(big), big), signed(true, INFINITY));
    assert_eq!(divided(big, ten), 0x7db4_8e52);
}

#[test]
fn results_that_are_no_number() {
    assert_eq!(divided(ZERO, ZERO), NAN);
    assert_eq!(divided(INFINITY, INFINITY), NAN);
    assert_eq!(times(INFINITY, ZERO), NAN);
    assert_eq!(minus(INFINITY, INFINITY), NAN);
    assert_eq!(plus(0x7fc0_1234, ONE), NAN);
    assert_eq!(times(ONE, 0xffff_ffff), NAN);
}

#[test]
fn signs_of_zero() {
    let nz = negated(ZERO);
    assert_eq!(nz, 0x8000_0000);
    assert_eq!(plus(ZERO, nz), ZERO);
    assert_eq!(plus(nz, nz), nz);
    assert_eq!(minus(ONE, ONE), ZERO);
    assert_eq!(minus(nz, ZERO), nz);
    assert_eq!(times(nz, ONE), nz);
    assert_eq!(times(nz, negated(ONE)), ZERO);
    assert_eq!(divided(ONE, nz), signed(true, INFINITY));
    assert_eq!(divided(nz, ONE), nz);
}

#[test]
fn ties_go_to_the_even_neighbour() {
    assert_eq!(plus(0x4b80_0000, ONE), 0x4b80_0000);
    assert_eq!(plus(0x4b80_0001, ONE), 0x4b80_0002);
    assert_eq!(plus(0x4b80_0000, 0x4040_0000), 0x4b80_0002);
    assert_eq!(minus(0x4b80_0000, 0x3f00_0000), 0x4b80_0000);
    assert_eq!(times(0x3f80_0001, 0x3f80_0001), 0x3f80_0002);
}

#[test]
fn all_pairs_of_special_values_agree_with_the_machine() {
    for a in SPECIAL {
        for b in SPECIAL {
            check_pair(a, b);
        }
    }
}

#[test]
fn random_patterns_agree_with_the_machine() {
    let mut rng = Lcg(1);
    for _ in 0..20000 {
        check_pair(rng.next(), rng.next());
    }
}

#[test]
fn random_numbers_of_near_exponents_agree_with_the_machine() {
    let mut rng = Lcg(2);
    for _ in 0..20000 {
        let a = rng.next();
        let shift = rng.next() % 60;
        let e = ((a >> 23) & 0xff).saturating_add(shift).saturating_sub(30).min(254);
        let b = (rng.next() & 0x807f_ffff) | (e << 23);
        check_pair(a, b);
        check_pair(a, (a & 0xff80_0000) | (b & 0x007f_ffff));
        check_pair(a, (a ^ 0x8000_0000) ^ (rng.next() & 0x7));
    }
}

#[test]
fn random_small_numbers_agree_with_the_machine() {
    let mut rng = Lcg(3);
    for _ in 0..20000 {
        let a = rng.next() & 0x81ff_ffff;
        let b = rng.next() & 0x81ff_ffff;
        check_pair(a, b);
        check_pair(a, (rng.next() & 0x807f_ffff) | 0x3f00_0000);
        check_pair((rng.next() & 0x807f_ffff) | 0x7e80_0000, b);
    }
}

#[test]
fn random_numbers_between_zero_and_one_agree_with_the_machine() {
    let mut rng = Lcg(4);
    for _ in 0..20000 {
        let x = (rng.next() >> 8) as f32 / 16777216.0;
        let y = (rng.next() >> 8) as f32 / 16777216.0;
        check_pair(x.to_bits(), y.to_bits());
    }
}

#[test]
fn conversion_to_a_byte_agrees_with_the_machine() {
    let mut rng = Lcg(5);
    for _ in 0..20000 {
        let a = rng.next();
        let expected = f32::from_bits(a).max(0.0).min(255.0) as u8;
        assert_eq!(to_byte(a), expected, "{:#x}", a);
        let v = (rng.next() % 70000) as f32 / 256.0 - 8.0;
        let expected = v.max(0.0).min(255.0) as u8;
        assert_eq!(to_byte(v.to_bits()), expected, "{}", v);
    }
    for a in SPECIAL {
        assert_eq!(to_byte(a), f32::from_bits(a).max(0.0).min(255.0) as u8);
    }
}

#[test]
fn conversion_to_a_byte_on_given_values() {
    assert_eq!(to_byte(ZERO), 0);
    assert_eq!(to_byte(ONE), 1);
    assert_eq!(to_byte(0.999f32.to_bits()), 0);
    assert_eq!(to_byte(63.75f32.to_bits()), 63);
    assert_eq!(to_byte(127.5f32.to_bits()), 127);
    assert_eq!(to_byte(254.999f32.to_bits()), 254);
    assert_eq!(to_byte(FULL_SCALE), 255);
    assert_eq!(to_byte(256.0f32.to_bits()), 255);
    assert_eq!(to_byte(INFINITY), 255);
    assert_eq!(to_byte((-0.5f32).to_bits()), 0);
    assert_eq!(to_byte((-300.0f32).to_bits()), 0);
    assert_eq!(to_byte(signed(true, INFINITY)), 0);
    assert_eq!(to_byte(NAN), 0);
}

#[test]
fn order_on_given_values() {
    let nz = negated(ZERO);
    assert!(less(ZERO, ONE));
    assert!(!less(ONE, ZERO));
    assert!(!less(ONE, ONE));
    assert!(less_or_equal(ONE, ONE));
    assert!(equal(ZERO, nz));
    assert!(!less(nz, ZERO));
    assert!(less_or_equal(ZERO, nz));
    assert!(less(negated(ONE), nz));
    assert!(less(signed(true, INFINITY), negated(FULL_SCALE)));
    assert!(less(FULL_SCALE, INFINITY));
    assert!(!less(NAN, ONE));
    assert!(!less(ONE, NAN));
    assert!(!less_or_equal(NAN, NAN));
    assert!(!equal(NAN, NAN));
}

#[test]
fn parts_of_a_pattern() {
    assert!(negative(0x8000_0000));
    assert!(!negative(0x7fff_ffff));
    assert_eq!(magnitude_bits(0xbf80_0000), ONE);
    assert_eq!(magnitude_bits(ONE), ONE);
    assert!(nan(0x7f80_0001));
    assert!(nan(0xffc0_0000));
    assert!(!nan(INFINITY));
    assert!(!nan(signed(true, INFINITY)));
    assert_eq!(negated(ONE), (-1.0f32).to_bits());
    assert_eq!(negated(negated(ONE)), ONE);
    assert_eq!(signed(true, ONE), 0xbf80_0000);
    assert_eq!(signed(false, ONE), ONE);
}
