//! Greatest common divisors, Bezout coefficients and modular inverses:
//! the arithmetic facts behind the congruence-merge algorithm.

use vstd::prelude::*;

verus! {

use vstd::arithmetic::div_mod::lemma_fundamental_div_mod;
use vstd::arithmetic::div_mod::lemma_fundamental_div_mod_converse;
use vstd::arithmetic::div_mod::lemma_mod_bound;
use vstd::arithmetic::div_mod::lemma_mod_multiples_basic;
use vstd::arithmetic::div_mod::lemma_mod_multiples_vanish;
use vstd::arithmetic::div_mod::lemma_mul_mod_noop_left;
use vstd::arithmetic::div_mod::lemma_small_mod;

/// `d` divides `x`.
pub open spec fn divides(d: int, x: int) -> bool {
    exists|k: int| x == #[trigger] (d * k)
}

/// The greatest common divisor, by Euclid's recursion.
pub open spec fn gcd(a: nat, b: nat) -> nat
    decreases b,
{
    if b == 0 {
        a
    } else {
        gcd(b, a % b)
    }
}

/// For a positive `d`, dividing `x` exactly and leaving remainder zero
/// are the same thing.
pub proof fn lemma_divides_iff_mod_zero(d: int, x: int)
    requires
        d > 0,
    ensures
        divides(d, x) <==> x % d == 0,
{
    if x % d == 0 {
        lemma_fundamental_div_mod(x, d);
        assert(x == d * (x / d));
    }
    if divides(d, x) {
        let k = choose|k: int| x == #[trigger] (d * k);
        lemma_mod_multiples_basic(k, d);
        assert(x == k * d) by (nonlinear_arith)
            requires
                x == d * k,
        ;
    }
}

/// The gcd of a pair with a positive first component is positive.
pub proof fn lemma_gcd_pos(a: nat, b: nat)
    requires
        a > 0,
    ensures
        gcd(a, b) > 0,
    decreases b,
{
    if b != 0 {
        lemma_gcd_pos(b, a % b);
    }
}

/// The gcd divides both of its arguments.
pub proof fn lemma_gcd_divides(a: nat, b: nat)
    ensures
        divides(gcd(a, b) as int, a as int),
        divides(gcd(a, b) as int, b as int),
    decreases b,
{
    if b == 0 {
        assert(a as int == (a as int) * 1);
        assert(0int == (a as int) * 0);
    } else {
        lemma_gcd_divides(b, a % b);
        let g = gcd(b, a % b) as int;
        let k1 = choose|k: int| b as int == #[trigger] (g * k);
        let k2 = choose|k: int| (a % b) as int == #[trigger] (g * k);
        lemma_fundamental_div_mod(a as int, b as int);
        let q = a as int / b as int;
        assert(a as int == g * (k1 * q + k2)) by (nonlinear_arith)
            requires
                a as int == (b as int) * q + (a % b) as int,
                b as int == g * k1,
                (a % b) as int == g * k2,
        ;
    }
}

/// The gcd is symmetric in its arguments.
pub proof fn lemma_gcd_sym(a: nat, b: nat)
    ensures
        gcd(a, b) == gcd(b, a),
{
    if a == 0 && b == 0 {
    } else if b == 0 {
        lemma_small_mod(0nat, a);
    } else if a == 0 {
        lemma_small_mod(0nat, b);
    } else if a == b {
        lemma_mod_multiples_basic(1, a as int);
        assert(a as int == 1 * (a as int)) by (nonlinear_arith);
    } else if a < b {
        lemma_small_mod(a, b);
    } else {
        lemma_small_mod(b, a);
    }
}

/// Bezout coefficients: integers `x`, `y` with `x * a + y * b == gcd(a, b)`.
pub proof fn lemma_bezout(a: nat, b: nat) -> (r: (int, int))
    ensures
        r.0 * a + r.1 * b == gcd(a, b),
    decreases b,
{
    if b == 0 {
        (1, 0)
    } else {
        let (x, y) = lemma_bezout(b, a % b);
        lemma_fundamental_div_mod(a as int, b as int);
        let q = a as int / b as int;
        assert(y * a + (x - y * q) * b == x * b + y * ((a % b) as int)) by (nonlinear_arith)
            requires
                (a % b) as int == a as int - (b as int) * q,
        ;
        (y, x - y * q)
    }
}

/// Dividing two numbers by their gcd leaves a coprime pair.
pub proof fn lemma_gcd_quotients_coprime(a: nat, b: nat, ma: nat, mb: nat)
    requires
        a > 0,
        b > 0,
        a == ma * gcd(a, b),
        b == mb * gcd(a, b),
    ensures
        gcd(ma, mb) == 1,
{
    let d = gcd(a, b) as int;
    lemma_gcd_pos(a, b);
    let (x, y) = lemma_bezout(a, b);
    assert(x * (ma as int) + y * (mb as int) == 1) by (nonlinear_arith)
        requires
            x * a + y * b == d,
            a == ma * d,
            b == mb * d,
            d > 0,
    ;
    let g = gcd(ma, mb) as int;
    lemma_gcd_divides(ma, mb);
    let k1 = choose|k: int| ma as int == #[trigger] (g * k);
    let k2 = choose|k: int| mb as int == #[trigger] (g * k);
    assert(ma > 0) by (nonlinear_arith)
        requires
            a > 0,
            a == ma * d,
    ;
    lemma_gcd_pos(ma, mb);
    assert(g * (x * k1 + y * k2) == 1) by (nonlinear_arith)
        requires
            x * (ma as int) + y * (mb as int) == 1,
            ma as int == g * k1,
            mb as int == g * k2,
    ;
    let t = x * k1 + y * k2;
    assert(g == 1) by (nonlinear_arith)
        requires
            g * t == 1,
            g > 0,
    ;
}

/// The gcd of a number with itself is that number.
pub proof fn lemma_gcd_self(a: nat)
    ensures
        gcd(a, a) == a,
{
    if a > 0 {
        vstd::arithmetic::div_mod::lemma_mod_self_0(a as int);
        assert(gcd(a, a) == gcd(a, 0));
        assert(gcd(a, 0) == a);
    }
}

/// Euclid's lemma: a factor coprime to `b` can be cancelled from a
/// multiple of `b`.
pub proof fn lemma_euclid(c: int, b: int, u: int)
    requires
        c > 0,
        b > 0,
        gcd(c as nat, b as nat) == 1,
        divides(b, c * u),
    ensures
        divides(b, u),
{
    let (x, y) = lemma_bezout(c as nat, b as nat);
    let t = choose|k: int| c * u == #[trigger] (b * k);
    assert(u == b * (x * t + y * u)) by (nonlinear_arith)
        requires
            x * c + y * b == 1,
            c * u == b * t,
    ;
}

/// A coprime pair `a`, `b` with `b > 1` has a multiplicative inverse of
/// `a` modulo `b` strictly between `0` and `b`.
pub proof fn lemma_inverse_exists(a: int, b: int)
    requires
        a > 0,
        b > 1,
        gcd(a as nat, b as nat) == 1,
    ensures
        exists|g: int| 1 <= g < b && #[trigger] ((g * a) % b) == 1,
{
    let ai = a;
    let bi = b;
    let (x, y) = lemma_bezout(a as nat, b as nat);
    let g0 = x % bi;
    lemma_mod_bound(x, bi);
    lemma_mul_mod_noop_left(x, ai, bi);
    assert(x * ai == bi * (-y) + 1) by (nonlinear_arith)
        requires
            x * ai + y * bi == 1,
    ;
    lemma_mod_multiples_vanish(-y, 1, bi);
    lemma_small_mod(1nat, b as nat);
    assert((g0 * ai) % bi == 1);
    if g0 == 0 {
        assert(g0 * ai == 0) by (nonlinear_arith)
            requires
                g0 == 0,
        ;
        lemma_small_mod(0nat, b as nat);
        assert(false);
    }
    assert(1 <= g0 < bi && (g0 * ai) % bi == 1);
}

} // verus!
