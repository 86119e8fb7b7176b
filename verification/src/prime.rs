//! The field characteristic is prime, so the field has no zero divisors.
use crate::field;
use vstd::prelude::*;

verus! {

/// `2^31 - 1` has no divisor up to its square root.
#[verifier::rlimit(100)]
#[verifier::spinoff_prover]
proof fn lemma_no_small_factor(d: u16, e: u32)
    requires
        2 <= d <= 46340,
        e < 0x8000_0000,
    ensures
        d * e != 0x7fff_ffff,
{
    assert(2 <= d <= 46340 && e < 0x8000_0000 ==> d * e != 0x7fff_ffff) by (bit_vector);
}

/// `2^31 - 1` has no divisors but one and itself.
proof fn lemma_prime(d: int, e: int)
    requires
        1 <= d,
        1 <= e,
        d * e == 0x7fff_ffff,
    ensures
        d == 1 || e == 1,
{
    if d > 1 && e > 1 {
        assert(d < 0x7fff_ffff && e < 0x7fff_ffff) by (nonlinear_arith)
            requires
                d > 1,
                e > 1,
                d * e == 0x7fff_ffff,
        ;
        if d <= 46340 {
            lemma_no_small_factor(d as u16, e as u32);
        } else {
            assert(e <= 46340) by (nonlinear_arith)
                requires
                    d >= 46341,
                    d * e == 0x7fff_ffff,
            ;
            assert(e * d == d * e) by (nonlinear_arith);
            lemma_no_small_factor(e as u16, d as u32);
        }
    }
}

/// The numbers `a` and `b` have a common divisor that is a combination of the two.
spec fn is_common_divisor(g: int, x: int, y: int, a: int, b: int) -> bool {
    &&& g >= 1
    &&& g == x * a + y * b
    &&& a % g == 0
    &&& b % g == 0
}

proof fn lemma_common_divisor(a: int, b: int) -> (r: (int, int, int))
    requires
        a >= 1,
        b >= 0,
    ensures
        is_common_divisor(r.0, r.1, r.2, a, b),
    decreases b,
{
    if b == 0 {
        assert(a == 1 * a + 0 * b);
        assert(a % a == 0) by {
            vstd::arithmetic::div_mod::lemma_mod_self_0(a);
        }
        assert(0int % a == 0) by {
            vstd::arithmetic::div_mod::lemma_small_mod(0, a as nat);
        }
        (a, 1, 0)
    } else {
        let (q, s) = (a / b, a % b);
        vstd::arithmetic::div_mod::lemma_fundamental_div_mod(a, b);
        assert(0 <= s < b) by {
            vstd::arithmetic::div_mod::lemma_mod_bound(a, b);
        }
        let (g, x, y) = lemma_common_divisor(b, s);
        // g = x b + y (a - q b) = y a + (x - y q) b
        assert(g == y * a + (x - y * q) * b) by (nonlinear_arith)
            requires
                g == x * b + y * s,
                a == b * q + s,
        ;
        vstd::arithmetic::div_mod::lemma_fundamental_div_mod(b, g);
        vstd::arithmetic::div_mod::lemma_fundamental_div_mod(s, g);
        let (m, n) = (b / g, s / g);
        assert(a == g * (m * q + n)) by (nonlinear_arith)
            requires
                a == b * q + s,
                b == g * m,
                s == g * n,
        ;
        vstd::arithmetic::div_mod::lemma_mod_multiples_basic(m * q + n, g);
        assert((m * q + n) * g == g * (m * q + n)) by (nonlinear_arith);
        (g, y, x - y * q)
    }
}

/// The field has no zero divisors: a product vanishes only if one of its factors does.
pub proof fn law_no_zero_divisors(a: int, b: int)
    requires
        field::residue(a * b) == 0,
    ensures
        field::residue(a) == 0 || field::residue(b) == 0,
{
    let p = 0x7fff_ffffint;
    let r = field::residue(a);
    if r != 0 {
        field::lemma_residue_absorb(a, b);
        let (g, x, y) = lemma_common_divisor(p, r);
        vstd::arithmetic::div_mod::lemma_fundamental_div_mod(p, g);
        assert(p / g >= 1) by (nonlinear_arith)
            requires
                p == g * (p / g),
                g >= 1,
                p == 0x7fff_ffff,
        ;
        lemma_prime(g, p / g);
        if g != 1 {
            assert(g == p);
            vstd::arithmetic::div_mod::lemma_small_mod(r as nat, p as nat);
            assert(false);
        }
        // 1 = x p + y r, hence b = x p b + y (r b), and p divides r b.
        vstd::arithmetic::div_mod::lemma_fundamental_div_mod(r * b, p);
        let k = (r * b) / p;
        assert(b == (x * b + y * k) * p) by (nonlinear_arith)
            requires
                1 == x * p + y * r,
                r * b == p * k,
        ;
        vstd::arithmetic::div_mod::lemma_mod_multiples_basic(x * b + y * k, p);
    }
}

/// An element is its own square only if it is zero or one.
pub proof fn lemma_boolean(x: int)
    requires
        0 <= x < 0x7fff_ffff,
    ensures
        field::residue(x * (x - 1)) == 0 <==> x == 0 || x == 1,
{
    if field::residue(x * (x - 1)) == 0 {
        law_no_zero_divisors(x, x - 1);
    }
    assert(0 * (0 - 1) == 0 && 1 * (1 - 1) == 0);
}

} // verus!
