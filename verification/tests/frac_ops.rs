use fracmat::arith::gcd_u64;
use fracmat::fracs::{get_gcd, get_lcm, CmpRes, Frac};

fn fr(num: i32, den: i32) -> Frac {
    Frac::new(num, den)
}

fn is_canonical(f: Frac) -> bool {
    f.den > 0 && (f.num != 0 || f.den == 1) && (f.num == 0 || get_gcd(f.num.unsigned_abs(), f.den as u32) == 1)
}

#[test]
fn constructed_fracs_are_canonical() {
    let samples = [
        fr(1, 2),
        fr(2, 4),
        fr(-3, -6),
        fr(3, -6),
        fr(0, 5),
        fr(0, -5),
        fr(7, 1),
        fr(-7, 1),
        fr(100, 30),
        fr(-100, 30),
        fr(i32::MAX, 2),
    ];
    for f in samples {
        assert!(is_canonical(f), "not canonical: {} / {}", f.num, f.den);
    }
}

#[test]
fn from_integer_has_denominator_one() {
    for n in [-1000, -1, 0, 1, 17, i32::MAX, i32::MIN] {
        let f = Frac::from(n);
        assert_eq!(f.den, 1);
        assert_eq!(f.num, n);
    }
}

#[test]
fn new_simplifies() {
    let f = fr(2, 4);
    assert_eq!(f.num, 1);
    assert_eq!(f.den, 2);
    let g = fr(-3, -6);
    assert_eq!(g.num, 1);
    assert_eq!(g.den, 2);
    let h = fr(3, -6);
    assert_eq!(h.num, -1);
    assert_eq!(h.den, 2);
    let z = fr(0, -9);
    assert_eq!(z.num, 0);
    assert_eq!(z.den, 1);
}

#[test]
fn add_matches_rational_arithmetic() {
    let r = fr(1, 2).add(fr(1, 3)).unwrap();
    assert_eq!((r.num, r.den), (5, 6));
    let r2 = fr(1, 2).add(fr(1, 2)).unwrap();
    assert_eq!((r2.num, r2.den), (1, 1));
    let r3 = fr(-1, 2).add(fr(1, 2)).unwrap();
    assert_eq!((r3.num, r3.den), (0, 1));
}

#[test]
fn sub_matches_rational_arithmetic() {
    let r = fr(1, 2).sub(fr(1, 3)).unwrap();
    assert_eq!((r.num, r.den), (1, 6));
    let r2 = fr(1, 3).sub(fr(1, 2)).unwrap();
    assert_eq!((r2.num, r2.den), (-1, 6));
}

#[test]
fn mul_matches_rational_arithmetic() {
    let r = fr(2, 3).mul(fr(3, 4)).unwrap();
    assert_eq!((r.num, r.den), (1, 2));
    let r2 = fr(-2, 3).mul(fr(3, 2)).unwrap();
    assert_eq!((r2.num, r2.den), (-1, 1));
}

#[test]
fn div_matches_rational_arithmetic() {
    let r = fr(1, 2).div(fr(1, 3)).unwrap();
    assert_eq!((r.num, r.den), (3, 2));
    let r2 = fr(-3, 4).div(fr(3, 2)).unwrap();
    assert_eq!((r2.num, r2.den), (-1, 2));
}

#[test]
fn mul_no_ts_keeps_raw_components() {
    let r = fr(1, 2).mul_no_ts(fr(2, 3)).unwrap();
    assert_eq!((r.num, r.den), (2, 6));
    // Raw component overflow is reported.
    let big = Frac { num: 65536, den: 1 };
    assert!(big.mul_no_ts(big).is_none());
}

#[test]
fn add_overflow_is_reported() {
    let big = fr(i32::MAX, 1);
    assert!(big.add(big).is_none());
    assert!(big.mul(big).is_none());
}

#[test]
fn negative_flips_sign() {
    let r = fr(3, 4).negative();
    assert_eq!((r.num, r.den), (-3, 4));
    let z = fr(0, 1).negative();
    assert_eq!((z.num, z.den), (0, 1));
}

#[test]
fn inverse_swaps_and_canonicalizes() {
    let r = fr(3, 4).inverse();
    assert_eq!((r.num, r.den), (4, 3));
    let n = fr(-2, 5).inverse();
    assert_eq!((n.num, n.den), (-5, 2));
}

#[test]
fn inverse_is_involutive() {
    for f in [fr(3, 7), fr(-2, 5), fr(1, 1), fr(-1, 1), fr(12, 18), fr(-100, 6)] {
        let back = f.inverse().inverse();
        assert_eq!((back.num, back.den), (f.num, f.den));
    }
}

#[test]
fn try_simplify_canonicalizes() {
    let raw = Frac { num: 4, den: -8 };
    let s = raw.try_simplify();
    assert_eq!((s.num, s.den), (-1, 2));
    let raw2 = Frac { num: 0, den: 7 };
    let s2 = raw2.try_simplify();
    assert_eq!((s2.num, s2.den), (0, 1));
}

#[test]
fn gcd_and_lcm_values() {
    assert_eq!(get_gcd(12, 18), 6);
    assert_eq!(get_lcm(4, 6), 12);
    assert_eq!(get_gcd(0, 0), 0);
    assert_eq!(get_gcd(0, 9), 9);
    assert_eq!(get_gcd(9, 0), 9);
    assert_eq!(get_lcm(-4, 6), 12);
    assert_eq!(get_lcm(1, 1), 1);
    assert_eq!(gcd_u64(1_000_000_007, 998_244_353), 1);
}

#[test]
fn cmp_orders_rationals() {
    assert!(matches!(fr(1, 2).cmp(&fr(1, 3)), CmpRes::Gt));
    assert!(matches!(fr(1, 3).cmp(&fr(1, 2)), CmpRes::Lt));
    assert!(matches!(fr(2, 4).cmp(&fr(1, 2)), CmpRes::Eq));
    assert!(matches!(fr(-1, 2).cmp(&fr(1, 3)), CmpRes::Lt));
}

#[test]
fn equality_is_rational() {
    assert!(fr(1, 2) == Frac { num: 2, den: 4 });
    assert!(fr(1, 2) != fr(1, 3));
    assert_eq!(CmpRes::Eq, CmpRes::Eq);
    assert_ne!(CmpRes::Lt, CmpRes::Gt);
}

#[test]
fn as_string_renders_decimal() {
    assert_eq!(fr(5, 1).as_string(), "5");
    assert_eq!(fr(-3, 1).as_string(), "-3");
    assert_eq!(fr(3, 4).as_string(), "3 / 4");
    assert_eq!(fr(-3, 4).as_string(), "-3 / 4");
    assert_eq!(fr(0, 9).as_string(), "0");
    assert_eq!(fr(1234567890, 1).as_string(), "1234567890");
    assert_eq!(Frac::from(i32::MIN).as_string(), "-2147483648");
}
