//! The numeric capability surface of the element types, and the congruence
//! arithmetic behind residual-class intersection.

use vstd::prelude::*;

verus! {

/// Absolute value and maximum representable value, for every integer width
/// usable as a sieve element type.
pub trait AbsMax: Sized {
    type Output;

    /// The inputs on which `abs` is defined (everything but the minimum of
    /// a signed type, whose absolute value does not fit the type).
    spec fn abs_ok(self) -> bool;

    /// What `abs` returns.
    spec fn abs_spec(self) -> Self::Output;

    /// The largest representable value.
    spec fn max_spec() -> Self::Output;

    fn abs(self) -> (r: Self::Output)
        requires
            self.abs_ok(),
        ensures
            r == self.abs_spec(),
    ;

    fn max_value() -> (r: Self::Output)
        ensures
            r == Self::max_spec(),
    ;
}

impl AbsMax for i128 {
    type Output = i128;

    open spec fn abs_ok(self) -> bool {
        self != i128::MIN
    }

    open spec fn abs_spec(self) -> i128 {
        (if self < 0 { -(self as int) } else { self as int }) as i128
    }

    open spec fn max_spec() -> i128 {
        i128::MAX
    }

    fn abs(self) -> (r: i128) {
        if self < 0 {
            -self
        } else {
            self
        }
    }

    fn max_value() -> (r: i128) {
        i128::MAX
    }
}

impl AbsMax for i8 {
    type Output = i8;

    open spec fn abs_ok(self) -> bool {
        self != i8::MIN
    }

    open spec fn abs_spec(self) -> i8 {
        (if self < 0 { -(self as int) } else { self as int }) as i8
    }

    open spec fn max_spec() -> i8 {
        i8::MAX
    }

    fn abs(self) -> (r: i8) {
        if self < 0 {
            -self
        } else {
            self
        }
    }

    fn max_value() -> (r: i8) {
        i8::MAX
    }
}

impl AbsMax for i16 {
    type Output = i16;

    open spec fn abs_ok(self) -> bool {
        self != i16::MIN
    }

    open spec fn abs_spec(self) -> i16 {
        (if self < 0 { -(self as int) } else { self as int }) as i16
    }

    open spec fn max_spec() -> i16 {
        i16::MAX
    }

    fn abs(self) -> (r: i16) {
        if self < 0 {
            -self
        } else {
            self
        }
    }

    fn max_value() -> (r: i16) {
        i16::MAX
    }
}

impl AbsMax for i32 {
    type Output = i32;

    open spec fn abs_ok(self) -> bool {
        self != i32::MIN
    }

    open spec fn abs_spec(self) -> i32 {
        (if self < 0 { -(self as int) } else { self as int }) as i32
    }

    open spec fn max_spec() -> i32 {
        i32::MAX
    }

    fn abs(self) -> (r: i32) {
        if self < 0 {
            -self
        } else {
            self
        }
    }

    fn max_value() -> (r: i32) {
        i32::MAX
    }
}

impl AbsMax for i64 {
    type Output = i64;

    open spec fn abs_ok(self) -> bool {
        self != i64::MIN
    }

    open spec fn abs_spec(self) -> i64 {
        (if self < 0 { -(self as int) } else { self as int }) as i64
    }

    open spec fn max_spec() -> i64 {
        i64::MAX
    }

    fn abs(self) -> (r: i64) {
        if self < 0 {
            -self
        } else {
            self
        }
    }

    fn max_value() -> (r: i64) {
        i64::MAX
    }
}

impl AbsMax for u8 {
    type Output = u8;

    open spec fn abs_ok(self) -> bool {
        true
    }

    open spec fn abs_spec(self) -> u8 {
        self
    }

    open spec fn max_spec() -> u8 {
        u8::MAX
    }

    fn abs(self) -> (r: u8) {
        self
    }

    fn max_value() -> (r: u8) {
        u8::MAX
    }
}

impl AbsMax for u16 {
    type Output = u16;

    open spec fn abs_ok(self) -> bool {
        true
    }

    open spec fn abs_spec(self) -> u16 {
        self
    }

    open spec fn max_spec() -> u16 {
        u16::MAX
    }

    fn abs(self) -> (r: u16) {
        self
    }

    fn max_value() -> (r: u16) {
        u16::MAX
    }
}

impl AbsMax for u32 {
    type Output = u32;

    open spec fn abs_ok(self) -> bool {
        true
    }

    open spec fn abs_spec(self) -> u32 {
        self
    }

    open spec fn max_spec() -> u32 {
        u32::MAX
    }

    fn abs(self) -> (r: u32) {
        self
    }

    fn max_value() -> (r: u32) {
        u32::MAX
    }
}

impl AbsMax for u64 {
    type Output = u64;

    open spec fn abs_ok(self) -> bool {
        true
    }

    open spec fn abs_spec(self) -> u64 {
        self
    }

    open spec fn max_spec() -> u64 {
        u64::MAX
    }

    fn abs(self) -> (r: u64) {
        self
    }

    fn max_value() -> (r: u64) {
        u64::MAX
    }
}

impl AbsMax for u128 {
    type Output = u128;

    open spec fn abs_ok(self) -> bool {
        true
    }

    open spec fn abs_spec(self) -> u128 {
        self
    }

    open spec fn max_spec() -> u128 {
        u128::MAX
    }

    fn abs(self) -> (r: u128) {
        self
    }

    fn max_value() -> (r: u128) {
        u128::MAX
    }
}

/// Largest modulus accepted by the congruence arithmetic: every
/// intermediate product of the merge (three modulus-sized factors and one
/// shift) then stays within `i128`.
pub const MODULUS_LIMIT: i128 = 0x400_0000_0000;

/// Find the greatest common divisor; zero and negative inputs are
/// rejected rather than computed with.
pub fn gcd(n: i128, m: i128) -> (r: Result<i128, &'static str>)
    ensures
        r is Err <==> n <= 0 || m <= 0,
        n > 0 && m > 0 ==> (r matches Ok(g) && g == crate::arith::gcd(n as nat, m as nat)),
{
    if n <= 0 || m <= 0 {
        return Err("zero or negative values not supported");
    }
    let mut n = n;
    let mut m = m;
    let ghost g0 = crate::arith::gcd(n as nat, m as nat);
    while m != 0
        invariant
            0 < n,
            0 <= m,
            crate::arith::gcd(n as nat, m as nat) == g0,
        decreases m,
    {
        if m < n {
            let t = m;
            m = n;
            n = t;
            proof {
                crate::arith::lemma_gcd_sym(n as nat, m as nat);
            }
        }
        proof {
            crate::arith::lemma_gcd_sym(n as nat, m as nat);
            vstd::arithmetic::div_mod::lemma_mod_bound(m as int, n as int);
        }
        m = m % n;
    }
    Ok(n)
}

/// `g` is the smallest positive multiplicative inverse of `a` modulo `b`.
pub open spec fn is_min_inverse(g: int, a: int, b: int) -> bool {
    &&& 1 <= g < b
    &&& (g * a) % b == 1
    &&& forall|k: int| 1 <= k < g ==> #[trigger] ((k * a) % b) != 1
}

/// The value `meziriac` returns: by convention `1` when the modulus is
/// `1` and `0` when the arguments coincide, otherwise the smallest
/// positive inverse of `a` modulo `b`.
pub open spec fn meziriac_spec(a: int, b: int) -> int {
    if b == 1 {
        1
    } else if a == b {
        0
    } else {
        choose|g: int| is_min_inverse(g, a, b)
    }
}

/// Find the smallest multiplicative inverse of `a` modulo `b` by
/// brute-force search, with the two degenerate conventions above.  The
/// search relies on the arguments being coprime; the Extended Euclidean
/// Algorithm would find the same value without searching.
pub fn meziriac(a: i128, b: i128) -> (r: Result<i128, &'static str>)
    requires
        1 <= a < MODULUS_LIMIT,
        1 <= b < MODULUS_LIMIT,
        b == 1 || a == b || crate::arith::gcd(a as nat, b as nat) == 1,
    ensures
        r matches Ok(g) && g == meziriac_spec(a as int, b as int),
        b == 1 ==> meziriac_spec(a as int, b as int) == 1,
        b != 1 && a == b ==> meziriac_spec(a as int, b as int) == 0,
        b != 1 && a != b ==> is_min_inverse(
            meziriac_spec(a as int, b as int),
            a as int,
            b as int,
        ),
{
    if b == 1 {
        return Ok(1);
    }
    if a == b {
        return Ok(0);
    }
    proof {
        crate::arith::lemma_inverse_exists(a as int, b as int);
    }
    let ghost g0 = choose|g: int| 1 <= g < b && #[trigger] ((g * a) % (b as int)) == 1;
    let mut g: i128 = 1;
    proof {
        assert((g as int) * (a as int) < MODULUS_LIMIT * MODULUS_LIMIT) by (nonlinear_arith)
            requires
                1 <= g < MODULUS_LIMIT,
                1 <= a < MODULUS_LIMIT,
        ;
    }
    while (g * a) % b != 1
        invariant
            1 <= a < MODULUS_LIMIT,
            1 < b < MODULUS_LIMIT,
            1 <= g <= g0,
            1 <= g0 < b,
            (g as int) * (a as int) < MODULUS_LIMIT * MODULUS_LIMIT,
            (g0 * a) % (b as int) == 1,
            forall|k: int| 1 <= k < g ==> #[trigger] ((k * a) % (b as int)) != 1,
        decreases g0 - g,
    {
        g = g + 1;
        proof {
            assert((g as int) * (a as int) < MODULUS_LIMIT * MODULUS_LIMIT) by (nonlinear_arith)
                requires
                    1 <= g < MODULUS_LIMIT,
                    1 <= a < MODULUS_LIMIT,
            ;
        }
    }
    proof {
        assert(is_min_inverse(g as int, a as int, b as int));
        let c = choose|v: int| is_min_inverse(v, a as int, b as int);
        assert(is_min_inverse(c, a as int, b as int));
        if c < g {
            assert((c * a) % (b as int) != 1);
            assert(false);
        } else if g < c {
            assert(((g as int) * a) % (b as int) != 1);
            assert(false);
        }
    }
    Ok(g)
}

/// The modulus and shift of the residual class common to `m1@s1` and
/// `m2@s2`: the combined modulus is the least common multiple, and the
/// combined shift is lifted from `s1` by a multiple chosen through the
/// modular inverse of `m1/d` modulo `m2/d`.  The lift keeps the sign of
/// the shift difference, which is what makes the result satisfy the
/// second congruence as well as the first (`lemma_intersection_contains`).
/// The pair `(0, 0)` stands for an empty intersection.
pub open spec fn intersection_spec(m1: int, m2: int, s1: int, s2: int) -> (int, int)
    recommends
        0 < m1,
        0 < m2,
        0 <= s1,
        0 <= s2,
{
    let s1n = s1 % m1;
    let s2n = s2 % m2;
    let d = crate::arith::gcd(m1 as nat, m2 as nat) as int;
    let span = vstd::math::abs(s2n - s1n) as int;
    if span % d != 0 {
        (0, 0)
    } else {
        let md1 = m1 / d;
        let md2 = m2 / d;
        let m = md1 * md2 * d;
        (m, (s1n + meziriac_spec(md1, md2) * (s2n - s1n) * md1) % m)
    }
}

/// Core implementation of intersection of two residual classes, on the
/// raw modulus/shift pairs.  A zero modulus (the empty class) absorbs the
/// other operand; negative moduli are rejected.
pub fn intersection(m1: i128, m2: i128, s1: i128, s2: i128) -> (r: Result<
    (i128, i128),
    &'static str,
>)
    requires
        0 <= s1,
        0 <= s2,
        m1 < MODULUS_LIMIT,
        m2 < MODULUS_LIMIT,
    ensures
        r is Err <==> (m1 != 0 && m2 != 0 && (m1 < 0 || m2 < 0)),
        m1 == 0 || m2 == 0 ==> (r matches Ok(p) && p == (0i128, 0i128)),
        m1 > 0 && m2 > 0 ==> (r matches Ok(p) && (p.0 as int, p.1 as int)
            == intersection_spec(m1 as int, m2 as int, s1 as int, s2 as int)),
        r matches Ok(p) ==> 0 <= p.0 < MODULUS_LIMIT * MODULUS_LIMIT && 0 <= p.1
            && (p.0 == 0 ==> p.1 == 0) && (p.0 > 0 ==> p.1 < p.0),
{
    if m1 == 0 || m2 == 0 {
        // intersection of the empty class and anything is empty
        return Ok((0, 0));
    }
    let d = match gcd(m1, m2) {
        Ok(v) => v,
        Err(e) => {
            return Err(e);
        },
    };
    // normalize shifts
    let s1n = s1 % m1;
    let s2n = s2 % m2;
    proof {
        crate::arith::lemma_gcd_pos(m1 as nat, m2 as nat);
        crate::arith::lemma_gcd_divides(m1 as nat, m2 as nat);
        crate::arith::lemma_divides_iff_mod_zero(d as int, m1 as int);
        crate::arith::lemma_divides_iff_mod_zero(d as int, m2 as int);
        vstd::arithmetic::div_mod::lemma_fundamental_div_mod(m1 as int, d as int);
        vstd::arithmetic::div_mod::lemma_fundamental_div_mod(m2 as int, d as int);
    }
    let md1 = m1 / d;
    let md2 = m2 / d;
    let span = AbsMax::abs(s2n - s1n);
    proof {
        assert(1 <= md1 && 1 <= md2 && md1 <= m1 && md2 <= m2) by (nonlinear_arith)
            requires
                m1 as int == d as int * (md1 as int),
                m2 as int == d as int * (md2 as int),
                m1 > 0,
                m2 > 0,
                d > 0,
        ;
        vstd::arithmetic::div_mod::lemma_mod_multiples_basic(span as int, 1int);
    }
    if d != 1 && span % d != 0 {
        // the shifts disagree on the common divisor: no common element
        return Ok((0, 0));
    }
    proof {
        assert(m1 as int == (md1 as int) * (d as int) && m2 as int == (md2 as int) * (d as int))
            by (nonlinear_arith)
            requires
                m1 as int == d as int * (md1 as int),
                m2 as int == d as int * (md2 as int),
        ;
        crate::arith::lemma_gcd_quotients_coprime(m1 as nat, m2 as nat, md1 as nat, md2 as nat);
        assert((md1 as int) * (md2 as int) * (d as int) == (md1 as int) * (m2 as int)
            && (md1 as int) * (md2 as int) <= (md1 as int) * (m2 as int)
            && (md1 as int) * (m2 as int) < MODULUS_LIMIT * MODULUS_LIMIT) by (nonlinear_arith)
            requires
                m2 as int == d as int * (md2 as int),
                1 <= d,
                1 <= md1 < MODULUS_LIMIT,
                1 <= md2,
                0 < m2 < MODULUS_LIMIT,
        ;
    }
    let g = match meziriac(md1, md2) {
        Ok(v) => v,
        Err(_) => {
            proof {
                assert(false);
            }
            return Ok((0, 0));
        },
    };
    let m = md1 * md2 * d;
    // the lift keeps the sign of the difference: this is what makes the
    // combined shift satisfy the second congruence on either side
    let diff = s2n - s1n;
    proof {
        assert(0 <= g <= md2) by {
            if md2 != 1 && md1 != md2 {
                assert(is_min_inverse(g as int, md1 as int, md2 as int));
            }
        }
        assert(-(MODULUS_LIMIT * MODULUS_LIMIT) < (g as int) * (diff as int) < MODULUS_LIMIT
            * MODULUS_LIMIT && -(MODULUS_LIMIT * MODULUS_LIMIT * MODULUS_LIMIT) < (g as int) * (
        diff as int) * (md1 as int) < MODULUS_LIMIT * MODULUS_LIMIT * MODULUS_LIMIT)
            by (nonlinear_arith)
            requires
                0 <= g <= md2,
                -MODULUS_LIMIT < diff < MODULUS_LIMIT,
                1 <= md1 < MODULUS_LIMIT,
                1 <= md2 < MODULUS_LIMIT,
                (md1 as int) * (md2 as int) < MODULUS_LIMIT * MODULUS_LIMIT,
        ;
        assert(1 <= m) by (nonlinear_arith)
            requires
                m as int == (md1 as int) * (md2 as int) * (d as int),
                1 <= md1,
                1 <= md2,
                1 <= d,
        ;
        vstd::arithmetic::div_mod::lemma_mod_bound(
            s1n as int + (g as int) * (diff as int) * (md1 as int),
            m as int,
        );
    }
    Ok((m, euclid_rem(s1n + g * diff * md1, m)))
}

/// Wherever `a` has any inverse modulo `b`, it has a smallest one.
proof fn lemma_min_inverse_from(a: int, b: int, w: int)
    requires
        1 <= w < b,
        (w * a) % b == 1,
    ensures
        exists|g: int| is_min_inverse(g, a, b),
    decreases w,
{
    if exists|k: int| 1 <= k < w && #[trigger] ((k * a) % b) == 1 {
        let k = choose|k: int| 1 <= k < w && #[trigger] ((k * a) % b) == 1;
        lemma_min_inverse_from(a, b, k);
    } else {
        assert(is_min_inverse(w, a, b));
    }
}

/// Correctness of the congruence merge, for normalized operands: an
/// integer lies in the merged class exactly when it lies in both
/// operands.
pub proof fn lemma_intersection_contains(m1: int, m2: int, s1: int, s2: int, v: int)
    requires
        0 < m1,
        0 < m2,
        0 <= s1 < m1,
        0 <= s2 < m2,
    ensures
        ({
            let p = intersection_spec(m1, m2, s1, s2);
            crate::in_class(p.0, p.1, v) == (crate::in_class(m1, s1, v) && crate::in_class(
                m2,
                s2,
                v,
            ))
        }),
{
    vstd::arithmetic::div_mod::lemma_small_mod(s1 as nat, m1 as nat);
    vstd::arithmetic::div_mod::lemma_small_mod(s2 as nat, m2 as nat);
    let d = crate::arith::gcd(m1 as nat, m2 as nat) as int;
    let span_abs = vstd::math::abs(s2 - s1) as int;
    crate::arith::lemma_gcd_pos(m1 as nat, m2 as nat);
    crate::arith::lemma_gcd_divides(m1 as nat, m2 as nat);
    let md1 = m1 / d;
    let md2 = m2 / d;
    let k1 = choose|k: int| m1 == #[trigger] (d * k);
    let k2 = choose|k: int| m2 == #[trigger] (d * k);
    assert(m1 == k1 * d && m2 == k2 * d && k1 > 0 && k2 > 0) by (nonlinear_arith)
        requires
            m1 == d * k1,
            m2 == d * k2,
            m1 > 0,
            m2 > 0,
            d > 0,
    ;
    vstd::arithmetic::div_mod::lemma_fundamental_div_mod_converse(m1, d, k1, 0);
    vstd::arithmetic::div_mod::lemma_fundamental_div_mod_converse(m2, d, k2, 0);
    assert(vstd::math::abs(s2 % m2 - s1 % m1) as int == span_abs);
    if span_abs % d != 0 {
        if crate::in_class(m1, s1, v) && crate::in_class(m2, s2, v) {
            crate::arith::lemma_divides_iff_mod_zero(m1, v - s1);
            crate::arith::lemma_divides_iff_mod_zero(m2, v - s2);
            let t1 = choose|k: int| v - s1 == #[trigger] (m1 * k);
            let t2 = choose|k: int| v - s2 == #[trigger] (m2 * k);
            assert(s2 - s1 == d * (md1 * t1 - md2 * t2)) by (nonlinear_arith)
                requires
                    v - s1 == m1 * t1,
                    v - s2 == m2 * t2,
                    m1 == d * md1,
                    m2 == d * md2,
            ;
            if s1 <= s2 {
                assert(span_abs == d * (md1 * t1 - md2 * t2));
            } else {
                assert(span_abs == d * (md2 * t2 - md1 * t1)) by (nonlinear_arith)
                    requires
                        s2 - s1 == d * (md1 * t1 - md2 * t2),
                        span_abs == s1 - s2,
                ;
            }
            crate::arith::lemma_divides_iff_mod_zero(d, span_abs);
            assert(false);
        }
    } else {
        let span = s2 - s1;
        crate::arith::lemma_divides_iff_mod_zero(d, span_abs);
        let ka = choose|k: int| span_abs == #[trigger] (d * k);
        if s1 <= s2 {
            assert(span == d * ka);
        } else {
            assert(span == d * (-ka)) by (nonlinear_arith)
                requires
                    span_abs == d * ka,
                    span == -span_abs,
            ;
        }
        assert(crate::arith::divides(d, span));
        let m = md1 * md2 * d;
        let g = meziriac_spec(md1, md2);
        assert(m1 as nat == (md1 as nat) * crate::arith::gcd(m1 as nat, m2 as nat));
        assert(m2 as nat == (md2 as nat) * crate::arith::gcd(m1 as nat, m2 as nat));
        crate::arith::lemma_gcd_quotients_coprime(m1 as nat, m2 as nat, md1 as nat, md2 as nat);
        if md2 == 1 {
            assert(g == 1);
            assert(g * md1 - 1 == 1 * (g * md1 - 1)) by (nonlinear_arith);
            assert(crate::arith::divides(md2, g * md1 - 1));
        } else {
            if md1 == md2 {
                crate::arith::lemma_gcd_self(md1 as nat);
                assert(false);
            }
            crate::arith::lemma_inverse_exists(md1, md2);
            let w = choose|gg: int| 1 <= gg < md2 && #[trigger] ((gg * md1) % md2) == 1;
            lemma_min_inverse_from(md1, md2, w);
            assert(is_min_inverse(g, md1, md2));
            vstd::arithmetic::div_mod::lemma_small_mod(1nat, md2 as nat);
            vstd::arithmetic::div_mod::lemma_mod_equivalence(g * md1, 1, md2);
            crate::arith::lemma_divides_iff_mod_zero(md2, g * md1 - 1);
        }
        let e = choose|k: int| g * md1 - 1 == #[trigger] (md2 * k);
        let sp = choose|k: int| span == #[trigger] (d * k);
        let x0 = s1 + g * span * md1;
        assert(m == m1 * md2 && m == m2 * md1 && m >= 1) by (nonlinear_arith)
            requires
                m == md1 * md2 * d,
                m1 == d * md1,
                m2 == d * md2,
                md1 >= 1,
                md2 >= 1,
                d >= 1,
        ;
        assert(x0 - s1 == m1 * (g * sp)) by (nonlinear_arith)
            requires
                x0 == s1 + g * span * md1,
                span == d * sp,
                m1 == d * md1,
        ;
        assert(x0 - s2 == m2 * (sp * e)) by (nonlinear_arith)
            requires
                x0 == s1 + g * span * md1,
                span == s2 - s1,
                span == d * sp,
                g * md1 - 1 == md2 * e,
                m2 == d * md2,
        ;
        let s = x0 % m;
        vstd::arithmetic::div_mod::lemma_fundamental_div_mod(x0, m);
        vstd::arithmetic::div_mod::lemma_mod_bound(x0, m);
        let q0 = x0 / m;
        assert(x0 - s == m * q0);
        if crate::in_class(m, s, v) {
            crate::arith::lemma_divides_iff_mod_zero(m, v - s);
            let t = choose|k: int| v - s == #[trigger] (m * k);
            assert(v - s1 == m1 * (md2 * (t - q0) + g * sp)) by (nonlinear_arith)
                requires
                    v - s == m * t,
                    x0 - s == m * q0,
                    x0 - s1 == m1 * (g * sp),
                    m == m1 * md2,
            ;
            assert(v - s2 == m2 * (md1 * (t - q0) + sp * e)) by (nonlinear_arith)
                requires
                    v - s == m * t,
                    x0 - s == m * q0,
                    x0 - s2 == m2 * (sp * e),
                    m == m2 * md1,
            ;
            crate::arith::lemma_divides_iff_mod_zero(m1, v - s1);
            crate::arith::lemma_divides_iff_mod_zero(m2, v - s2);
            assert(crate::in_class(m1, s1, v) && crate::in_class(m2, s2, v));
        }
        if crate::in_class(m1, s1, v) && crate::in_class(m2, s2, v) {
            crate::arith::lemma_divides_iff_mod_zero(m1, v - s1);
            crate::arith::lemma_divides_iff_mod_zero(m2, v - s2);
            let u1 = choose|k: int| v - s1 == #[trigger] (m1 * k);
            let u2 = choose|k: int| v - s2 == #[trigger] (m2 * k);
            let z = v - x0;
            let za = u1 - g * sp;
            let zb = u2 - sp * e;
            assert(z == m1 * za && z == m2 * zb) by (nonlinear_arith)
                requires
                    z == v - x0,
                    v - s1 == m1 * u1,
                    v - s2 == m2 * u2,
                    x0 - s1 == m1 * (g * sp),
                    x0 - s2 == m2 * (sp * e),
                    za == u1 - g * sp,
                    zb == u2 - sp * e,
            ;
            assert(md1 * za == md2 * zb) by (nonlinear_arith)
                requires
                    z == m1 * za,
                    z == m2 * zb,
                    m1 == d * md1,
                    m2 == d * md2,
                    d >= 1,
            ;
            assert(md1 * za == md2 * zb);
            assert(crate::arith::divides(md2, md1 * za));
            crate::arith::lemma_euclid(md1, md2, za);
            let w2 = choose|k: int| za == #[trigger] (md2 * k);
            assert(v - s == m * (w2 + q0)) by (nonlinear_arith)
                requires
                    z == m1 * za,
                    za == md2 * w2,
                    m == m1 * md2,
                    z == v - x0,
                    x0 - s == m * q0,
            ;
            crate::arith::lemma_divides_iff_mod_zero(m, v - s);
            assert(crate::in_class(m, s, v));
        }
    }
}

/// The Euclidean remainder of `a` modulo `b`, always in `[0, b)`; Rust's
/// `%` truncates towards zero instead, so a negative result is shifted up
/// by one multiple of `b`.
pub(crate) fn euclid_rem(a: i128, b: i128) -> (r: i128)
    requires
        0 < b,
    ensures
        r == a as int % b as int,
{
    let rem = a % b;
    proof {
        if a < 0 {
            let ai = a as int;
            let bi = b as int;
            let q = (-ai) / bi;
            let m = (-ai) % bi;
            vstd::arithmetic::div_mod::lemma_fundamental_div_mod(-ai, bi);
            assert((-q) * bi == -(bi * q)) by (nonlinear_arith);
            assert((-q - 1) * bi == -(bi * q) - bi) by (nonlinear_arith);
            if rem < 0 {
                vstd::arithmetic::div_mod::lemma_fundamental_div_mod_converse(
                    ai,
                    bi,
                    -q - 1,
                    rem + bi,
                );
            } else {
                vstd::arithmetic::div_mod::lemma_fundamental_div_mod_converse(ai, bi, -q, 0);
            }
        }
    }
    if rem < 0 {
        rem + b
    } else {
        rem
    }
}

} // verus!
