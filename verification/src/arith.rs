//! The greatest common divisor and its properties, together with the
//! executable gcd used by fraction canonicalization.

use vstd::arithmetic::div_mod::*;
use vstd::arithmetic::mul::*;
use vstd::prelude::*;

verus! {

/// Greatest common divisor by Euclid's algorithm; `gcd(a, 0) == a`.
pub open spec fn gcd(a: nat, b: nat) -> nat
    decreases b,
{
    if b == 0 {
        a
    } else {
        gcd(b, a % b)
    }
}

/// Least common multiple of two naturals, 0 when either is 0.
pub open spec fn lcm(a: nat, b: nat) -> nat
    recommends a > 0 || b > 0,
{
    (a * b) / gcd(a, b)
}

/// A positive divisor of a positive number is no larger than it.
pub proof fn lemma_divisor_le(n: nat, d: nat)
    requires
        d > 0,
        n > 0,
        n % d == 0,
    ensures
        d <= n,
{
    lemma_fundamental_div_mod(n as int, d as int);
    if n as int / d as int <= 0 {
        lemma_mul_inequality(n as int / d as int, 0, d as int);
        assert(false);
    }
    lemma_mul_inequality(1, n as int / d as int, d as int);
}

/// The gcd of two naturals is positive unless both are zero.
pub proof fn lemma_gcd_pos(a: nat, b: nat)
    requires
        a > 0 || b > 0,
    ensures
        gcd(a, b) > 0,
    decreases b,
{
    if b != 0 {
        lemma_gcd_pos(b, a % b);
    }
}

/// The gcd of two naturals divides both of them.
pub proof fn lemma_gcd_divides(a: nat, b: nat)
    requires
        a > 0 || b > 0,
    ensures
        a % gcd(a, b) == 0,
        b % gcd(a, b) == 0,
    decreases b,
{
    let g = gcd(a, b);
    lemma_gcd_pos(a, b);
    if b == 0 {
        lemma_mod_self_0(a as int);
        assert(0int % (g as int) == 0) by {
            lemma_small_mod(0, g);
        }
    } else {
        let r = a % b;
        if r == 0 {
            assert(gcd(b, 0) == b);
            lemma_mod_self_0(b as int);
            assert(0int % (b as int) == 0) by {
                lemma_small_mod(0, b);
            }
        } else {
            lemma_gcd_divides(b, r);
            assert(g == gcd(b, r));
            assert((b as int) % (g as int) == 0);
            // a == (a / b) * b + r, and g divides both b and r.
            lemma_fundamental_div_mod(a as int, b as int);
            let q = a as int / b as int;
            assert((q * (b as int)) % (g as int) == 0) by {
                lemma_mul_mod_noop_right(q, b as int, g as int);
                assert(q * ((b as int) % (g as int)) == 0);
                lemma_small_mod(0, g);
            }
            assert(((q * (b as int)) + (r as int)) % (g as int) == 0) by {
                lemma_add_mod_noop(q * (b as int), r as int, g as int);
            }
            assert((b as int) * q == q * (b as int)) by {
                lemma_mul_is_commutative(b as int, q);
            }
        }
    }
}

/// Every common divisor of two naturals divides their gcd.
pub proof fn lemma_gcd_greatest(a: nat, b: nat, d: nat)
    requires
        d > 0,
        a % d == 0,
        b % d == 0,
    ensures
        gcd(a, b) % d == 0,
    decreases b,
{
    if b == 0 {
    } else {
        let r = a % b;
        lemma_fundamental_div_mod(a as int, b as int);
        let q = a as int / b as int;
        assert((q * (b as int)) % (d as int) == 0) by {
            lemma_mul_mod_noop_right(q, b as int, d as int);
            assert(q * ((b as int) % (d as int)) == 0);
            lemma_small_mod(0, d);
        }
        assert((b as int) * q == q * (b as int)) by {
            lemma_mul_is_commutative(b as int, q);
        }
        assert((r as int) % (d as int) == 0) by {
            lemma_sub_mod_noop(a as int, q * (b as int), d as int);
        }
        lemma_gcd_greatest(b, r, d);
    }
}

/// The gcd is no larger than a positive argument.
pub proof fn lemma_gcd_le(a: nat, b: nat)
    requires
        a > 0 || b > 0,
    ensures
        a > 0 ==> gcd(a, b) <= a,
        b > 0 ==> gcd(a, b) <= b,
{
    lemma_gcd_pos(a, b);
    lemma_gcd_divides(a, b);
    if a > 0 {
        lemma_divisor_le(a, gcd(a, b));
    }
    if b > 0 {
        lemma_divisor_le(b, gcd(a, b));
    }
}

/// The gcd is symmetric in its arguments.
pub proof fn lemma_gcd_comm(a: nat, b: nat)
    ensures
        gcd(a, b) == gcd(b, a),
{
    if a == 0 && b == 0 {
    } else {
        let g1 = gcd(a, b);
        let g2 = gcd(b, a);
        lemma_gcd_pos(a, b);
        lemma_gcd_pos(b, a);
        lemma_gcd_divides(a, b);
        lemma_gcd_divides(b, a);
        lemma_gcd_greatest(b, a, g1);
        lemma_gcd_greatest(a, b, g2);
        lemma_divisor_le(g2, g1);
        lemma_divisor_le(g1, g2);
    }
}

/// Dividing an exact multiple back out: if `d` divides `n`, `(n / d) * d == n`.
pub proof fn lemma_div_exact(n: nat, d: nat)
    requires
        d > 0,
        n % d == 0,
    ensures
        (n / d) * d == n,
        n > 0 ==> n / d >= 1,
{
    lemma_fundamental_div_mod(n as int, d as int);
    lemma_mul_is_commutative(d as int, n as int / d as int);
    if n > 0 && n / d == 0 {
        assert(false);
    }
}

/// After dividing both arguments by their gcd, the quotients are coprime.
pub proof fn lemma_coprime_after_div(a: nat, b: nat)
    requires
        a > 0,
        b > 0,
    ensures
        gcd(a / gcd(a, b), b / gcd(a, b)) == 1,
{
    let g = gcd(a, b);
    lemma_gcd_pos(a, b);
    lemma_gcd_divides(a, b);
    let a1 = a / g;
    let b1 = b / g;
    lemma_div_exact(a, g);
    lemma_div_exact(b, g);
    let k = gcd(a1, b1);
    lemma_gcd_pos(a1, b1);
    lemma_gcd_divides(a1, b1);
    lemma_div_exact(a1, k);
    lemma_div_exact(b1, k);
    // a == (a1 / k) * (k * g) and likewise for b, so k * g divides both.
    assert(a == ((a1 / k) * k) * g);
    assert(((a1 / k) * k) * g == (a1 / k) * (k * g)) by {
        lemma_mul_is_associative(a1 as int / k as int, k as int, g as int);
    }
    assert(b == ((b1 / k) * k) * g);
    assert(((b1 / k) * k) * g == (b1 / k) * (k * g)) by {
        lemma_mul_is_associative(b1 as int / k as int, k as int, g as int);
    }
    lemma_mul_pos(k, g);
    assert(a % (k * g) == 0) by {
        lemma_mod_multiples_basic(a1 as int / k as int, (k * g) as int);
    }
    assert(b % (k * g) == 0) by {
        lemma_mod_multiples_basic(b1 as int / k as int, (k * g) as int);
    }
    lemma_gcd_greatest(a, b, k * g);
    lemma_divisor_le(g, k * g);
    if k > 1 {
        lemma_mul_inequality(2, k as int, g as int);
        assert(false);
    }
}

/// Scaling both arguments scales the gcd by the same factor.
pub proof fn lemma_gcd_scale(k: nat, a: nat, b: nat)
    requires
        k > 0,
    ensures
        gcd(k * a, k * b) == k * gcd(a, b),
    decreases b,
{
    if b == 0 {
        assert(k * b == 0) by {
            lemma_mul_basics(k as int);
        }
    } else {
        lemma_truncate_middle(a as int, k as int, b as int);
        assert((k as int) * (b as int) > 0);
        assert(k * b != 0) by {
            lemma_mul_pos(k, b);
        }
        assert(gcd(k * a, k * b) == gcd(k * b, (k * a) % (k * b)));
        assert((k * a) % (k * b) == k * (a % b));
        lemma_gcd_scale(k, b, a % b);
    }
}

/// Positive factors have a positive product.
pub proof fn lemma_mul_pos(a: nat, b: nat)
    requires
        a > 0,
        b > 0,
    ensures
        a * b > 0,
{
    lemma_mul_inequality(1, a as int, b as int);
}

/// Euclid's algorithm, executably, over 64-bit naturals.
pub fn gcd_u64(a: u64, b: u64) -> (g: u64)
    ensures
        g as nat == gcd(a as nat, b as nat),
{
    let mut x = a;
    let mut y = b;
    while y != 0
        invariant
            gcd(x as nat, y as nat) == gcd(a as nat, b as nat),
        decreases y,
    {
        let c = y;
        y = x % c;
        x = c;
    }
    x
}

} // verus!
