//! Canonical fractions: a rational number held as a reduced numerator and
//! positive denominator, with exact arithmetic.

use crate::arith::{gcd, lcm, gcd_u64, lemma_coprime_after_div, lemma_div_exact,
    lemma_gcd_comm, lemma_gcd_divides, lemma_gcd_le, lemma_gcd_pos, lemma_gcd_scale};
use vstd::arithmetic::mul::*;
use vstd::math::abs;
use vstd::prelude::*;

verus! {

/// A rational number. The canonical form (see [`reduced`]) keeps the
/// denominator positive, the sign in the numerator, both coprime, and the
/// denominator equal to 1 when the numerator is 0.
#[derive(Clone, Copy)]
pub struct Frac {
    pub num: i32,
    pub den: i32,
}

impl View for Frac {
    type V = (int, int);

    open spec fn view(&self) -> (int, int) {
        (self.num as int, self.den as int)
    }
}

/// The canonical-form invariant of a fraction value.
pub open spec fn reduced(r: (int, int)) -> bool {
    &&& r.1 >= 1
    &&& r.0 == 0 ==> r.1 == 1
    &&& r.0 != 0 ==> gcd(abs(r.0), r.1 as nat) == 1
}

/// Whether a rational value in canonical form fits the 32-bit fields of [`Frac`].
pub open spec fn f_fits(r: (int, int)) -> bool {
    &&& i32::MIN <= r.0 <= i32::MAX
    &&& r.1 <= i32::MAX
}

/// The canonical form of the rational `n / d`: sign moved to the numerator,
/// both components divided by their gcd, and `0` always written as `0 / 1`.
pub open spec fn norm(n: int, d: int) -> (int, int)
    recommends
        d != 0,
{
    if n == 0 {
        (0int, 1int)
    } else {
        let g = gcd(abs(n), abs(d)) as int;
        if (n < 0) != (d < 0) {
            (-((abs(n) as int) / g), (abs(d) as int) / g)
        } else {
            ((abs(n) as int) / g, (abs(d) as int) / g)
        }
    }
}

impl Frac {
    /// The canonical-form invariant, as a predicate on the fraction.
    pub open spec fn wf(self) -> bool {
        reduced(self@)
    }
}

/// Canonicalization yields a value in canonical form.
pub proof fn lemma_norm_reduced(n: int, d: int)
    requires
        d != 0,
    ensures
        reduced(norm(n, d)),
{
    if n != 0 {
        let an = abs(n);
        let ad = abs(d);
        let g = gcd(an, ad);
        lemma_gcd_pos(an, ad);
        lemma_gcd_divides(an, ad);
        lemma_div_exact(an, g);
        lemma_div_exact(ad, g);
        lemma_coprime_after_div(an, ad);
        let rn = an / g;
        let rd = ad / g;
        assert(rn >= 1);
        assert(rd >= 1);
        if (n < 0) != (d < 0) {
            assert(abs(-(rn as int)) == rn);
        }
    }
}

/// Canonicalizing a value already in canonical form leaves it unchanged.
pub proof fn lemma_norm_of_reduced(r: (int, int))
    requires
        reduced(r),
    ensures
        norm(r.0, r.1) == r,
{
    if r.0 != 0 {
        let an = abs(r.0);
        let ad = abs(r.1);
        assert(ad == r.1);
        assert(gcd(an, ad) == 1);
        assert((an as int) / 1int == an as int);
        assert((ad as int) / 1int == ad as int);
        if r.0 < 0 {
            assert(-(an as int) == r.0);
        }
    }
}

/// A fraction whose components are within `i32::MAX` in magnitude
/// canonicalizes to a value that fits.
pub proof fn lemma_norm_fits(n: int, d: int)
    requires
        d != 0,
        abs(n) <= i32::MAX,
        abs(d) <= i32::MAX,
    ensures
        f_fits(norm(n, d)),
{
    if n != 0 {
        let an = abs(n);
        let ad = abs(d);
        let g = gcd(an, ad);
        lemma_gcd_pos(an, ad);
        lemma_gcd_divides(an, ad);
        lemma_div_exact(an, g);
        lemma_div_exact(ad, g);
        lemma_mul_inequality(1, g as int, (an / g) as int);
        lemma_mul_inequality(1, g as int, (ad / g) as int);
        assert(an / g <= an) by {
            lemma_mul_is_commutative(g as int, (an / g) as int);
        }
        assert(ad / g <= ad) by {
            lemma_mul_is_commutative(g as int, (ad / g) as int);
        }
    }
}

/// Canonicalize the rational `n / d`, given with 128-bit headroom, into a
/// fraction; `None` exactly when the canonical form leaves the 32-bit range.
fn norm_i128(n: i128, d: i128) -> (r: Option<Frac>)
    requires
        d != 0,
        -0x8000_0000_0000_0000 <= n <= 0x8000_0000_0000_0000,
        -0x8000_0000_0000_0000 <= d <= 0x8000_0000_0000_0000,
    ensures
        match r {
            Some(f) => f@ == norm(n as int, d as int) && f.wf() && f_fits(norm(n as int, d as int)),
            None => !f_fits(norm(n as int, d as int)),
        },
{
    proof {
        lemma_norm_reduced(n as int, d as int);
    }
    if n == 0 {
        return Some(Frac { num: 0, den: 1 });
    }
    let neg = (n < 0) != (d < 0);
    let an: u64 = (if n < 0 { -n } else { n }) as u64;
    let ad: u64 = (if d < 0 { -d } else { d }) as u64;
    assert(an as nat == abs(n as int));
    assert(ad as nat == abs(d as int));
    let g = gcd_u64(an, ad);
    proof {
        lemma_gcd_pos(an as nat, ad as nat);
    }
    let rn = an / g;
    let rd = ad / g;
    if rd > i32::MAX as u64 {
        return None;
    }
    if neg {
        if rn > 0x8000_0000u64 {
            return None;
        }
        Some(Frac { num: (-(rn as i64)) as i32, den: rd as i32 })
    } else {
        if rn > i32::MAX as u64 {
            return None;
        }
        Some(Frac { num: rn as i32, den: rd as i32 })
    }
}

/// The canonical sum of two rationals.
pub open spec fn f_add(a: (int, int), b: (int, int)) -> (int, int) {
    norm(a.0 * b.1 + b.0 * a.1, a.1 * b.1)
}

/// The canonical difference of two rationals.
pub open spec fn f_sub(a: (int, int), b: (int, int)) -> (int, int) {
    norm(a.0 * b.1 - b.0 * a.1, a.1 * b.1)
}

/// The canonical product of two rationals.
pub open spec fn f_mul(a: (int, int), b: (int, int)) -> (int, int) {
    norm(a.0 * b.0, a.1 * b.1)
}

/// The negation of a rational; canonical form is preserved as-is.
pub open spec fn f_neg(a: (int, int)) -> (int, int) {
    (-a.0, a.1)
}

/// The canonical reciprocal of a rational.
pub open spec fn f_inv(a: (int, int)) -> (int, int)
    recommends
        a.0 != 0,
{
    norm(a.1, a.0)
}

/// The canonical quotient of two rationals: multiplication by the reciprocal.
pub open spec fn f_div(a: (int, int), b: (int, int)) -> (int, int)
    recommends
        b.0 != 0,
{
    f_mul(a, f_inv(b))
}

/// Products of 32-bit values stay well inside the headroom `norm` asks for.
proof fn lemma_prod_bound(x: int, y: int)
    requires
        -0x8000_0000 <= x <= 0x7fff_ffff,
        -0x8000_0000 <= y <= 0x7fff_ffff,
    ensures
        -0x4000_0000_0000_0000 <= x * y <= 0x4000_0000_0000_0000,
{
    assert(-0x4000_0000_0000_0000 <= x * y <= 0x4000_0000_0000_0000) by (nonlinear_arith)
        requires
            -0x8000_0000 <= x <= 0x7fff_ffff,
            -0x8000_0000 <= y <= 0x7fff_ffff,
    ;
}

/// Products of magnitudes of 32-bit values stay within the same headroom.
proof fn lemma_mag_prod_bound(x: int, y: int)
    requires
        0 <= x <= 0x8000_0000,
        0 <= y <= 0x8000_0000,
    ensures
        0 <= x * y <= 0x4000_0000_0000_0000,
{
    assert(0 <= x * y <= 0x4000_0000_0000_0000) by (nonlinear_arith)
        requires
            0 <= x <= 0x8000_0000,
            0 <= y <= 0x8000_0000,
    ;
}

/// A product of non-zero factors is non-zero.
proof fn lemma_prod_nonzero(x: int, y: int)
    requires
        x != 0,
        y != 0,
    ensures
        x * y != 0,
{
    assert(x * y != 0) by (nonlinear_arith)
        requires
            x != 0,
            y != 0,
    ;
}

/// Outcome of comparing two fractions.
#[derive(Clone, Copy, Debug, PartialEq, Eq, Structural)]
pub enum CmpRes {
    Eq,
    Lt,
    Gt,
}

impl PartialEq for Frac {
    /// Fractions compare equal as rationals: by cross-multiplication, so
    /// non-canonical representations of the same value are equal too.
    fn eq(&self, other: &Frac) -> (r: bool) {
        proof {
            lemma_prod_bound(self.num as int, other.den as int);
            lemma_prod_bound(other.num as int, self.den as int);
        }
        (self.num as i128) * (other.den as i128) == (other.num as i128) * (self.den as i128)
    }
}

impl vstd::std_specs::cmp::PartialEqSpecImpl for Frac {
    open spec fn obeys_eq_spec() -> bool {
        true
    }

    open spec fn eq_spec(&self, other: &Frac) -> bool {
        self.num * other.den == other.num * self.den
    }
}

impl From<i32> for Frac {
    /// An integer as a fraction over 1; already canonical.
    fn from(num: i32) -> (r: Frac) {
        Frac { num, den: 1 }
    }
}

impl vstd::std_specs::convert::FromSpecImpl<i32> for Frac {
    open spec fn obeys_from_spec() -> bool {
        true
    }

    open spec fn from_spec(num: i32) -> Frac {
        Frac { num, den: 1 }
    }
}

/// A fraction with denominator 1 is in canonical form.
pub proof fn lemma_int_frac_reduced(n: int)
    ensures
        reduced((n, 1int)),
{
    if n != 0 {
        let a = abs(n);
        assert(a % 1 == 0);
        assert(gcd(a, 1) == gcd(1, a % 1));
        assert(gcd(1, 0) == 1);
    }
}

impl Frac {
    /// Build the canonical fraction `num / den`. A zero denominator is a
    /// contract violation, and the canonical value must fit 32 bits.
    pub fn new(num: i32, den: i32) -> (r: Frac)
        requires
            den != 0,
            f_fits(norm(num as int, den as int)),
        ensures
            r@ == norm(num as int, den as int),
            r.wf(),
    {
        let r = norm_i128(num as i128, den as i128);
        match r {
            Some(f) => f,
            None => {
                proof {
                    assert(false);
                }
                Frac { num: 0, den: 1 }
            },
        }
    }

    /// Canonicalize this fraction: zero becomes `0 / 1`, the sign moves to
    /// the numerator, and numerator and denominator are divided by their gcd.
    pub fn try_simplify(self) -> (r: Frac)
        requires
            self.den != 0,
            f_fits(norm(self@.0, self@.1)),
        ensures
            r@ == norm(self@.0, self@.1),
            r.wf(),
    {
        let r = norm_i128(self.num as i128, self.den as i128);
        match r {
            Some(f) => f,
            None => {
                proof {
                    assert(false);
                }
                Frac { num: 0, den: 1 }
            },
        }
    }

    /// The reciprocal: numerator and denominator swapped, then canonicalized.
    /// The zero fraction has no reciprocal.
    pub fn inverse(self) -> (r: Frac)
        requires
            self.den != 0,
            self.num != 0,
            f_fits(f_inv(self@)),
        ensures
            r@ == f_inv(self@),
            r.wf(),
    {
        let r = norm_i128(self.den as i128, self.num as i128);
        match r {
            Some(f) => f,
            None => {
                proof {
                    assert(false);
                }
                Frac { num: 0, den: 1 }
            },
        }
    }

    /// Negate the numerator only; a canonical input stays canonical.
    pub fn negative(self) -> (r: Frac)
        requires
            self.num > i32::MIN,
        ensures
            r@ == f_neg(self@),
            self.wf() ==> r.wf(),
    {
        Frac { num: -self.num, den: self.den }
    }

    /// The canonical sum. `None` exactly when the canonical result does not
    /// fit the 32-bit fields.
    pub fn add(self, other: Frac) -> (r: Option<Frac>)
        requires
            self.den != 0,
            other.den != 0,
        ensures
            r is Some <==> f_fits(f_add(self@, other@)),
            r is Some ==> r.unwrap()@ == f_add(self@, other@) && r.unwrap().wf(),
    {
        let a0: i128 = self.num as i128;
        let a1: i128 = self.den as i128;
        let b0: i128 = other.num as i128;
        let b1: i128 = other.den as i128;
        proof {
            lemma_prod_bound(a0 as int, b1 as int);
            lemma_prod_bound(b0 as int, a1 as int);
            lemma_prod_bound(a1 as int, b1 as int);
            lemma_prod_nonzero(a1 as int, b1 as int);
        }
        norm_i128(a0 * b1 + b0 * a1, a1 * b1)
    }

    /// The canonical difference. `None` exactly when the canonical result
    /// does not fit the 32-bit fields.
    pub fn sub(self, other: Frac) -> (r: Option<Frac>)
        requires
            self.den != 0,
            other.den != 0,
        ensures
            r is Some <==> f_fits(f_sub(self@, other@)),
            r is Some ==> r.unwrap()@ == f_sub(self@, other@) && r.unwrap().wf(),
    {
        let a0: i128 = self.num as i128;
        let a1: i128 = self.den as i128;
        let b0: i128 = other.num as i128;
        let b1: i128 = other.den as i128;
        proof {
            lemma_prod_bound(a0 as int, b1 as int);
            lemma_prod_bound(b0 as int, a1 as int);
            lemma_prod_bound(a1 as int, b1 as int);
            lemma_prod_nonzero(a1 as int, b1 as int);
        }
        norm_i128(a0 * b1 - b0 * a1, a1 * b1)
    }

    /// The canonical product. `None` exactly when the canonical result does
    /// not fit the 32-bit fields.
    pub fn mul(self, other: Frac) -> (r: Option<Frac>)
        requires
            self.den != 0,
            other.den != 0,
        ensures
            r is Some <==> f_fits(f_mul(self@, other@)),
            r is Some ==> r.unwrap()@ == f_mul(self@, other@) && r.unwrap().wf(),
    {
        let a0: i128 = self.num as i128;
        let a1: i128 = self.den as i128;
        let b0: i128 = other.num as i128;
        let b1: i128 = other.den as i128;
        proof {
            lemma_prod_bound(a0 as int, b0 as int);
            lemma_prod_bound(a1 as int, b1 as int);
            lemma_prod_nonzero(a1 as int, b1 as int);
        }
        norm_i128(a0 * b0, a1 * b1)
    }

    /// Multiply without canonicalizing: numerators and denominators multiply
    /// componentwise. `None` exactly when a raw component leaves 32 bits.
    pub fn mul_no_ts(self, other: Frac) -> (r: Option<Frac>)
        ensures
            r is Some <==> (i32::MIN <= self@.0 * other@.0 <= i32::MAX
                && i32::MIN <= self@.1 * other@.1 <= i32::MAX),
            r is Some ==> r.unwrap()@ == (self@.0 * other@.0, self@.1 * other@.1),
    {
        let a0: i128 = self.num as i128;
        let a1: i128 = self.den as i128;
        let b0: i128 = other.num as i128;
        let b1: i128 = other.den as i128;
        proof {
            lemma_prod_bound(a0 as int, b0 as int);
            lemma_prod_bound(a1 as int, b1 as int);
        }
        let n: i128 = a0 * b0;
        let d: i128 = a1 * b1;
        if n < i32::MIN as i128 || n > i32::MAX as i128 {
            return None;
        }
        if d < i32::MIN as i128 || d > i32::MAX as i128 {
            return None;
        }
        Some(Frac { num: n as i32, den: d as i32 })
    }

    /// The canonical quotient: multiplication by the reciprocal. Division by
    /// the zero fraction is a contract violation; `None` exactly when the
    /// reciprocal or the product leaves the 32-bit range.
    pub fn div(self, other: Frac) -> (r: Option<Frac>)
        requires
            self.den != 0,
            other.den != 0,
            other.num != 0,
        ensures
            r is Some <==> f_fits(f_inv(other@)) && f_fits(f_div(self@, other@)),
            r is Some ==> r.unwrap()@ == f_div(self@, other@) && r.unwrap().wf(),
    {
        let inv = norm_i128(other.den as i128, other.num as i128);
        match inv {
            None => None,
            Some(i) => self.mul(i),
        }
    }

    /// Compare two fractions with positive denominators as rationals.
    pub fn cmp(&self, other: &Frac) -> (r: CmpRes)
        requires
            self.den > 0,
            other.den > 0,
        ensures
            r == CmpRes::Lt <==> self@.0 * other@.1 < other@.0 * self@.1,
            r == CmpRes::Eq <==> self@.0 * other@.1 == other@.0 * self@.1,
            r == CmpRes::Gt <==> self@.0 * other@.1 > other@.0 * self@.1,
    {
        proof {
            lemma_prod_bound(self.num as int, other.den as int);
            lemma_prod_bound(other.num as int, self.den as int);
        }
        let l: i128 = (self.num as i128) * (other.den as i128);
        let r: i128 = (other.num as i128) * (self.den as i128);
        if l < r {
            CmpRes::Lt
        } else if l == r {
            CmpRes::Eq
        } else {
            CmpRes::Gt
        }
    }
}

/// The greatest common divisor of two 32-bit naturals, by Euclid's algorithm.
pub fn get_gcd(a: u32, b: u32) -> (g: u32)
    ensures
        g as nat == gcd(a as nat, b as nat),
{
    let g = gcd_u64(a as u64, b as u64);
    proof {
        if a > 0 || b > 0 {
            lemma_gcd_le(a as nat, b as nat);
        }
    }
    g as u32
}

/// The least common multiple of the absolute values of two 32-bit integers,
/// as `|a| * |b| / gcd(|a|, |b|)`. Undefined when both are zero, and the
/// result must fit a 32-bit integer.
pub fn get_lcm(a: i32, b: i32) -> (r: i32)
    requires
        a != 0 || b != 0,
        lcm(abs(a as int), abs(b as int)) <= i32::MAX,
    ensures
        r >= 0,
        r as nat == lcm(abs(a as int), abs(b as int)),
{
    let ayy: u64 = (if a < 0 { -(a as i64) } else { a as i64 }) as u64;
    let bee: u64 = (if b < 0 { -(b as i64) } else { b as i64 }) as u64;
    assert(ayy as nat == abs(a as int));
    assert(bee as nat == abs(b as int));
    let g = gcd_u64(ayy, bee);
    proof {
        lemma_gcd_pos(ayy as nat, bee as nat);
        lemma_mag_prod_bound(ayy as int, bee as int);
    }
    let p: u64 = ayy * bee;
    let l: u64 = p / g;
    l as i32
}

/// The canonical form represents the same rational as the pair it was made
/// from: the cross-products agree.
pub proof fn lemma_norm_represents(n: int, d: int)
    requires
        d != 0,
    ensures
        norm(n, d).0 * d == n * norm(n, d).1,
{
    if n == 0 {
        assert(norm(n, d) == (0int, 1int));
        assert(0int * d == 0) by (nonlinear_arith);
        assert(n * 1int == 0);
    } else {
        let an = abs(n);
        let ad = abs(d);
        let g = gcd(an, ad);
        lemma_gcd_pos(an, ad);
        lemma_gcd_divides(an, ad);
        lemma_div_exact(an, g);
        lemma_div_exact(ad, g);
        let q1 = (an / g) as int;
        let q2 = (ad / g) as int;
        let gi = g as int;
        assert(q1 * gi == an as int);
        assert(q2 * gi == ad as int);
        assert(q1 * (ad as int) == (an as int) * q2) by (nonlinear_arith)
            requires
                q1 * gi == an as int,
                q2 * gi == ad as int,
        ;
        if n > 0 && d > 0 {
            assert(norm(n, d) == (q1, q2));
        } else if n > 0 && d < 0 {
            assert(norm(n, d) == (-q1, q2));
            assert((-q1) * d == n * q2) by (nonlinear_arith)
                requires
                    q1 * (ad as int) == (an as int) * q2,
                    an as int == n,
                    ad as int == -d,
            ;
        } else if n < 0 && d > 0 {
            assert(norm(n, d) == (-q1, q2));
            assert((-q1) * d == n * q2) by (nonlinear_arith)
                requires
                    q1 * (ad as int) == (an as int) * q2,
                    an as int == -n,
                    ad as int == d,
            ;
        } else {
            assert(norm(n, d) == (q1, q2));
            assert(q1 * d == n * q2) by (nonlinear_arith)
                requires
                    q1 * (ad as int) == (an as int) * q2,
                    an as int == -n,
                    ad as int == -d,
            ;
        }
    }
}

/// Negating both components leaves the canonical form unchanged.
pub proof fn lemma_norm_neg_both(n: int, d: int)
    requires
        d != 0,
    ensures
        norm(-n, -d) == norm(n, d),
{
    if n != 0 {
        assert(abs(-n) == abs(n));
        assert(abs(-d) == abs(d));
    }
}

/// Scaling numerator and denominator by the same non-zero factor leaves the
/// canonical form unchanged.
pub proof fn lemma_norm_mul_den(n: int, d: int, k: int)
    requires
        d != 0,
        k != 0,
    ensures
        norm(n * k, d * k) == norm(n, d),
    decreases (if k < 0 { 1int } else { 0int }),
{
    if k < 0 {
        lemma_norm_mul_den(n, d, -k);
        assert(n * k == -(n * (-k))) by (nonlinear_arith);
        assert(d * k == -(d * (-k))) by (nonlinear_arith);
        assert(d * (-k) != 0) by (nonlinear_arith)
            requires
                d != 0,
                k < 0,
        ;
        lemma_norm_neg_both(n * (-k), d * (-k));
    } else {
        if n == 0 {
            assert(n * k == 0) by (nonlinear_arith)
                requires
                    n == 0,
            ;
            assert(d * k != 0) by (nonlinear_arith)
                requires
                    d != 0,
                    k != 0,
            ;
        } else {
            let an = abs(n);
            let ad = abs(d);
            assert(abs(n * k) == an * k) by (nonlinear_arith)
                requires
                    k > 0,
                    an == abs(n),
            ;
            assert(abs(d * k) == ad * k) by (nonlinear_arith)
                requires
                    k > 0,
                    ad == abs(d),
            ;
            assert(gcd((an * k) as nat, (ad * k) as nat) == (k as nat) * gcd(an, ad)) by {
                lemma_gcd_scale(k as nat, an, ad);
                assert((k as nat) * an == an * (k as nat)) by (nonlinear_arith);
                assert((k as nat) * ad == ad * (k as nat)) by (nonlinear_arith);
            }
            let g = gcd(an, ad);
            lemma_gcd_pos(an, ad);
            lemma_gcd_divides(an, ad);
            lemma_div_exact(an, g);
            lemma_div_exact(ad, g);
            // (an * k) / (k * g) == an / g, and likewise for the denominator.
            assert((an * k) as int == ((k * (g as int))) * ((an / g) as int)) by (nonlinear_arith)
                requires
                    ((an / g) as int) * (g as int) == an as int,
            ;
            assert((ad * k) as int == ((k * (g as int))) * ((ad / g) as int)) by (nonlinear_arith)
                requires
                    ((ad / g) as int) * (g as int) == ad as int,
            ;
            assert(k * (g as int) > 0) by (nonlinear_arith)
                requires
                    k > 0,
                    g > 0,
            ;
            vstd::arithmetic::div_mod::lemma_div_multiples_vanish(
                (an / g) as int,
                k * (g as int),
            );
            vstd::arithmetic::div_mod::lemma_div_multiples_vanish(
                (ad / g) as int,
                k * (g as int),
            );
            assert(((an * k) as int) / (k * (g as int)) == (an / g) as int);
            assert(((ad * k) as int) / (k * (g as int)) == (ad / g) as int);
            assert(n * k > 0 <==> n > 0) by (nonlinear_arith)
                requires
                    k > 0,
                    n != 0,
            ;
            assert(d * k > 0 <==> d > 0) by (nonlinear_arith)
                requires
                    k > 0,
                    d != 0,
            ;
            assert(n * k != 0) by (nonlinear_arith)
                requires
                    n != 0,
                    k != 0,
            ;
        }
    }
}

/// Canonical forms are unique: two pairs that represent the same rational
/// canonicalize to the same value.
pub proof fn lemma_norm_unique(n1: int, d1: int, n2: int, d2: int)
    requires
        d1 != 0,
        d2 != 0,
        n1 * d2 == n2 * d1,
    ensures
        norm(n1, d1) == norm(n2, d2),
{
    lemma_norm_mul_den(n1, d1, d2);
    lemma_norm_mul_den(n2, d2, d1);
    assert(d1 * d2 == d2 * d1) by (nonlinear_arith);
    assert(norm(n1 * d2, d1 * d2) == norm(n2 * d1, d2 * d1));
}

/// Scaling a canonical fraction by a non-zero fraction and dividing by the
/// same fraction restores the original value exactly.
pub proof fn lemma_scale_restore(e: (int, int), t: (int, int))
    requires
        reduced(e),
        reduced(t),
        t.0 != 0,
    ensures
        f_div(f_mul(e, t), t) == e,
{
    let m = f_mul(e, t);
    let i = f_inv(t);
    assert(e.1 * t.1 != 0) by (nonlinear_arith)
        requires
            e.1 >= 1,
            t.1 >= 1,
    ;
    lemma_norm_reduced(e.0 * t.0, e.1 * t.1);
    lemma_norm_reduced(t.1, t.0);
    lemma_norm_represents(e.0 * t.0, e.1 * t.1);
    lemma_norm_represents(t.1, t.0);
    // m represents e*t and i represents 1/t.
    let lhs_m = m.0 * (e.1 * t.1);
    let rhs_m = (e.0 * t.0) * m.1;
    assert(lhs_m == rhs_m);
    assert(i.0 * t.0 == t.1 * i.1);
    assert(m.1 >= 1);
    assert(i.1 >= 1);
    assert(m.1 * i.1 != 0) by (nonlinear_arith)
        requires
            m.1 >= 1,
            i.1 >= 1,
    ;
    // Hence m * i represents e: multiply both sides by i.0 and cancel t.1.
    assert(lhs_m * i.0 == ((m.0 * i.0) * e.1) * t.1) by (nonlinear_arith)
        requires
            lhs_m == m.0 * (e.1 * t.1),
    ;
    assert(rhs_m * i.0 == (e.0 * m.1) * (i.0 * t.0)) by (nonlinear_arith)
        requires
            rhs_m == (e.0 * t.0) * m.1,
    ;
    assert((e.0 * m.1) * (t.1 * i.1) == (e.0 * (m.1 * i.1)) * t.1) by (nonlinear_arith);
    assert(((m.0 * i.0) * e.1) * t.1 == (e.0 * (m.1 * i.1)) * t.1);
    assert(t.1 * ((m.0 * i.0) * e.1) == t.1 * (e.0 * (m.1 * i.1))) by {
        lemma_mul_is_commutative(t.1, (m.0 * i.0) * e.1);
        lemma_mul_is_commutative(t.1, e.0 * (m.1 * i.1));
    }
    lemma_mul_equality_converse(t.1, (m.0 * i.0) * e.1, e.0 * (m.1 * i.1));
    lemma_norm_unique(m.0 * i.0, m.1 * i.1, e.0, e.1);
    lemma_norm_of_reduced(e);
}

/// The decimal digit character for a value below ten.
pub open spec fn spec_digit(d: int) -> char {
    if d == 0 {
        '0'
    } else if d == 1 {
        '1'
    } else if d == 2 {
        '2'
    } else if d == 3 {
        '3'
    } else if d == 4 {
        '4'
    } else if d == 5 {
        '5'
    } else if d == 6 {
        '6'
    } else if d == 7 {
        '7'
    } else if d == 8 {
        '8'
    } else {
        '9'
    }
}

/// The decimal digits of a natural number, most significant first.
pub open spec fn dec_nat(n: nat) -> Seq<char>
    decreases n,
{
    if n < 10 {
        seq![spec_digit(n as int)]
    } else {
        dec_nat(n / 10) + seq![spec_digit((n % 10) as int)]
    }
}

/// The decimal rendering of an integer: a leading minus sign when negative.
pub open spec fn dec_int(n: int) -> Seq<char> {
    if n < 0 {
        seq!['-'] + dec_nat(abs(n))
    } else {
        dec_nat(n as nat)
    }
}

/// The text of a fraction: the numerator alone when the denominator is 1,
/// otherwise numerator and denominator separated by " / ".
pub open spec fn frac_str(r: (int, int)) -> Seq<char> {
    if r.1 == 1 {
        dec_int(r.0)
    } else {
        dec_int(r.0) + seq![' ', '/', ' '] + dec_int(r.1)
    }
}

/// Append one decimal digit character.
fn push_digit(s: &mut String, d: u32)
    requires
        d < 10,
    ensures
        final(s)@ == old(s)@ + seq![spec_digit(d as int)],
{
    proof {
        reveal_strlit("0");
        reveal_strlit("1");
        reveal_strlit("2");
        reveal_strlit("3");
        reveal_strlit("4");
        reveal_strlit("5");
        reveal_strlit("6");
        reveal_strlit("7");
        reveal_strlit("8");
        reveal_strlit("9");
    }
    if d == 0 {
        s.append("0");
        proof {
            assert(final(s)@ =~= old(s)@ + seq![spec_digit(d as int)]);
        }
    } else if d == 1 {
        s.append("1");
        proof {
            assert(final(s)@ =~= old(s)@ + seq![spec_digit(d as int)]);
        }
    } else if d == 2 {
        s.append("2");
        proof {
            assert(final(s)@ =~= old(s)@ + seq![spec_digit(d as int)]);
        }
    } else if d == 3 {
        s.append("3");
        proof {
            assert(final(s)@ =~= old(s)@ + seq![spec_digit(d as int)]);
        }
    } else if d == 4 {
        s.append("4");
        proof {
            assert(final(s)@ =~= old(s)@ + seq![spec_digit(d as int)]);
        }
    } else if d == 5 {
        s.append("5");
        proof {
            assert(final(s)@ =~= old(s)@ + seq![spec_digit(d as int)]);
        }
    } else if d == 6 {
        s.append("6");
        proof {
            assert(final(s)@ =~= old(s)@ + seq![spec_digit(d as int)]);
        }
    } else if d == 7 {
        s.append("7");
        proof {
            assert(final(s)@ =~= old(s)@ + seq![spec_digit(d as int)]);
        }
    } else if d == 8 {
        s.append("8");
        proof {
            assert(final(s)@ =~= old(s)@ + seq![spec_digit(d as int)]);
        }
    } else {
        s.append("9");
        proof {
            assert(final(s)@ =~= old(s)@ + seq![spec_digit(d as int)]);
        }
    }
}

/// Append the decimal digits of `n`.
fn push_dec(s: &mut String, n: u32)
    ensures
        final(s)@ == old(s)@ + dec_nat(n as nat),
    decreases n,
{
    if n < 10 {
        push_digit(s, n);
    } else {
        push_dec(s, n / 10);
        push_digit(s, n % 10);
        proof {
            assert(final(s)@ =~= old(s)@ + dec_nat(n as nat));
        }
    }
}

impl Frac {
    /// The fraction as text: the numerator, and " / " and the denominator
    /// unless the denominator is 1.
    pub fn as_string(&self) -> (r: String)
        ensures
            r@ == frac_str(self@),
    {
        let mut s = String::new();
        if self.num < 0 {
            proof {
                reveal_strlit("-");
            }
            s.append("-");
            let mag: u32 = (-(self.num as i64)) as u32;
            proof {
                assert(mag as nat == abs(self.num as int));
            }
            push_dec(&mut s, mag);
            proof {
                assert(s@ =~= dec_int(self.num as int));
            }
        } else {
            push_dec(&mut s, self.num as u32);
        }
        if self.den != 1 {
            proof {
                reveal_strlit(" / ");
            }
            let ghost before = s@;
            s.append(" / ");
            proof {
                assert(s@ =~= before + seq![' ', '/', ' ']);
            }
            if self.den < 0 {
                proof {
                    reveal_strlit("-");
                }
                s.append("-");
                let mag: u32 = (-(self.den as i64)) as u32;
                proof {
                    assert(mag as nat == abs(self.den as int));
                }
                push_dec(&mut s, mag);
            } else {
                push_dec(&mut s, self.den as u32);
            }
            proof {
                assert(s@ =~= frac_str(self@));
            }
        }
        s
    }
}

/// Inverting a non-zero canonical fraction twice returns the original value.
pub proof fn lemma_inverse_involutive(r: (int, int))
    requires
        reduced(r),
        r.0 != 0,
    ensures
        f_inv(f_inv(r)) == r,
{
    let an = abs(r.0);
    let ad = abs(r.1);
    assert(ad == r.1 as nat);
    lemma_gcd_comm(an, ad);
    assert(gcd(ad, an) == 1);
    let q = f_inv(r);
    // First inversion: swap, fix the sign, divide by gcd == 1.
    assert(q == if r.0 < 0 { (-(r.1), an as int) } else { (r.1, r.0) }) by {
        assert(abs(r.1) == ad);
        assert(abs(r.0) == an);
        assert((ad as int) / 1int == ad as int);
        assert((an as int) / 1int == an as int);
    }
    if r.0 < 0 {
        assert(abs(q.0) == ad);
        assert(abs(q.1) == an);
        assert(q.0 < 0);
        assert(f_inv(q) == (-(an as int), ad as int)) by {
            assert((ad as int) / 1int == ad as int);
            assert((an as int) / 1int == an as int);
        }
        assert(-(an as int) == r.0);
        assert(ad as int == r.1);
    } else {
        lemma_gcd_comm(ad, an);
        assert(reduced((r.1, r.0)));
        lemma_norm_of_reduced((r.1, r.0));
    }
}

} // verus!

