//! Non-negative binary floating-point numbers, computed exactly in integers.
//!
//! A [`Double`] is a number `mant * 2^exp` with a 53-bit mantissa: the
//! non-negative finite values of an IEEE 754 double, without a bound on the
//! exponent. Each operation returns the exact result rounded to the nearest
//! such number, ties going to the even mantissa. On operands and results
//! within the normal range of `f64` that is what `f64` arithmetic returns.

use vstd::arithmetic::div_mod::{
    lemma_fundamental_div_mod, lemma_fundamental_div_mod_converse, lemma_mod_pos_bound,
};
use vstd::arithmetic::mul::{
    lemma_mul_equality_converse, lemma_mul_inequality, lemma_mul_strict_inequality,
};
use vstd::arithmetic::power2::{
    lemma2_to64, lemma2_to64_rest, lemma_pow2_adds, lemma_pow2_pos, lemma_pow2_strictly_increases,
    lemma_pow2_unfold, pow2,
};
use vstd::prelude::*;

use crate::text::{
    decimal, last_digits, power_of_ten, push_decimal, push_decimal_scaled, push_last_digits,
    push_repeated, repeated,
};

verus! {

/// The smallest mantissa of a normalized number, `2^52`.
pub const MANT_LOW: u64 = 0x10_0000_0000_0000;

/// One more than the largest mantissa, `2^53`.
pub const MANT_END: u64 = 0x20_0000_0000_0000;

/// The number `mant * 2^exp`.
pub struct Dyadic {
    pub mant: nat,
    pub exp: int,
}

/// `2^e` where `e` is positive, and 1 elsewhere: a number `m * 2^e` is the
/// fraction `m * up(e) / up(-e)`.
pub open spec fn up(e: int) -> nat {
    if e > 0 {
        pow2(e as nat)
    } else {
        1
    }
}

impl Dyadic {
    /// Numerator of this number as a fraction of naturals.
    pub open spec fn num(self) -> nat {
        self.mant * up(self.exp)
    }

    /// Denominator of this number as a fraction of naturals.
    pub open spec fn den(self) -> nat {
        up(-self.exp)
    }
}

/// The natural number nearest to `num / den`, the even one of two equally near.
pub open spec fn nearest_even(num: nat, den: nat) -> nat {
    let q = num / den;
    let r = num % den;
    if 2 * r < den || (2 * r == den && q % 2 == 0) {
        q
    } else {
        q + 1
    }
}

/// Whether `num / den` lies in `[2^52, 2^53) * 2^e`.
pub open spec fn in_binade(num: nat, den: nat, e: int) -> bool {
    &&& MANT_LOW * (den * up(e)) <= num * up(-e)
    &&& num * up(-e) < MANT_END * (den * up(e))
}

/// `m * 2^e`, with a mantissa of `2^53` brought back to 53 bits.
pub open spec fn carried(m: nat, e: int) -> Dyadic {
    if m == MANT_END {
        Dyadic { mant: MANT_LOW as nat, exp: e + 1 }
    } else {
        Dyadic { mant: m, exp: e }
    }
}

/// The double nearest to `num / den`, ties to the even mantissa.
pub open spec fn rounded(num: nat, den: nat) -> Dyadic {
    if num == 0 {
        Dyadic { mant: 0, exp: 0 }
    } else {
        let e = choose|e: int| in_binade(num, den, e);
        carried(nearest_even(num * up(-e), den * up(e)), e)
    }
}

/// The double nearest to a natural number.
pub open spec fn of_nat(n: nat) -> Dyadic {
    rounded(n, 1)
}

/// The double nearest to `a / b`.
pub open spec fn quotient(a: Dyadic, b: Dyadic) -> Dyadic {
    rounded(a.num() * b.den(), a.den() * b.num())
}

/// The double nearest to `a * b`.
pub open spec fn product(a: Dyadic, b: Dyadic) -> Dyadic {
    rounded(a.num() * b.num(), a.den() * b.den())
}

/// The double nearest to `a + b`.
pub open spec fn sum(a: Dyadic, b: Dyadic) -> Dyadic {
    rounded(a.num() * b.den() + b.num() * a.den(), a.den() * b.den())
}

/// The natural number nearest to `d`, the greater one of two equally near.
pub open spec fn nearest_nat(d: Dyadic) -> nat {
    (2 * d.num() + d.den()) / (2 * d.den())
}

/// `d` as a count of units of `10^-places`, ties to even.
pub open spec fn in_units(d: Dyadic, places: nat) -> nat {
    nearest_even(d.num() * power_of_ten(places), d.den())
}

/// `d` in decimal notation with `places` digits after the point.
pub open spec fn fixed(d: Dyadic, places: nat) -> Seq<char> {
    let n = in_units(d, places);
    decimal(n / power_of_ten(places)).push('.') + last_digits(n, places)
}

pub proof fn lemma_up_pos(e: int)
    ensures
        up(e) > 0,
{
    if e > 0 {
        lemma_pow2_pos(e as nat);
    }
}

/// `2^a * 2^b == 2^(a + b)`, over fractions of naturals.
pub proof fn lemma_up_adds(a: int, b: int)
    ensures
        up(a) * up(b) * up(-(a + b)) == up(-a) * up(-b) * up(a + b),
{
    let c = a + b;
    let (ua, ub, uc) = (up(a) as int, up(b) as int, up(c) as int);
    let (va, vb, vc) = (up(-a) as int, up(-b) as int, up(-c) as int);
    if a == 0 || b == 0 {
        assert(ua * ub * vc == va * vb * uc) by (nonlinear_arith)
            requires
                ua == 1 && va == 1 && ub == uc && vb == vc || ub == 1 && vb == 1 && ua == uc && va
                    == vc,
        ;
    } else if a > 0 && b > 0 {
        lemma_pow2_adds(a as nat, b as nat);
        assert(uc == ua * ub);
        assert(ua * ub * 1 == 1 * 1 * (ua * ub)) by (nonlinear_arith);
    } else if a < 0 && b < 0 {
        lemma_pow2_adds((-a) as nat, (-b) as nat);
        assert((-a) as nat + (-b) as nat == (-c) as nat);
        assert(vc == va * vb);
        assert(1 * 1 * (va * vb) == va * vb * 1) by (nonlinear_arith);
    } else if a > 0 {
        if c > 0 {
            lemma_pow2_adds(c as nat, (-b) as nat);
            assert(ua == uc * vb);
            assert(uc * vb * 1 * 1 == 1 * vb * uc) by (nonlinear_arith);
        } else {
            lemma_pow2_adds((-c) as nat, a as nat);
            lemma2_to64();
            assert(vb == vc * ua);
            assert(ua * 1 * vc == 1 * (vc * ua) * 1) by (nonlinear_arith);
        }
    } else {
        if c > 0 {
            lemma_pow2_adds(c as nat, (-a) as nat);
            assert(ub == uc * va);
            assert(1 * (uc * va) * 1 == va * 1 * uc) by (nonlinear_arith);
        } else {
            lemma_pow2_adds((-c) as nat, b as nat);
            lemma2_to64();
            assert(va == vc * ub);
            assert(1 * ub * vc == vc * ub * 1 * 1) by (nonlinear_arith);
        }
    }
}

/// `2^a * 2^b == 2^s * 2^(a + b - s)`, over fractions of naturals.
proof fn lemma_up_split_off(a: int, b: int, s: nat)
    ensures
        up(a) * up(b) * up(-(a + b - s)) == pow2(s) * (up(-a) * up(-b) * up(a + b - s)),
{
    let d = a + b;
    let e = d - s;
    lemma_up_adds(a, b);
    lemma_up_adds(e, s as int);
    lemma2_to64();
    lemma_up_pos(-d);
    let (ua, ub, va, vb) = (up(a) as int, up(b) as int, up(-a) as int, up(-b) as int);
    let (ud, vd, ue, ve, p) = (
        up(d) as int,
        up(-d) as int,
        up(e) as int,
        up(-e) as int,
        pow2(s) as int,
    );
    assert(e + s == d);
    assert(up(s as int) == pow2(s));
    assert(ue * p * vd == ve * 1 * ud);
    let (u, v) = (ua * ub, va * vb);
    assert(vd * (u * ve) == (u * vd) * ve) by (nonlinear_arith);
    assert((v * ud) * ve == v * (ve * 1 * ud)) by (nonlinear_arith);
    assert(v * (ue * p * vd) == vd * (p * (v * ue))) by (nonlinear_arith);
    lemma_mul_equality_converse(vd, ua * ub * ve, p * (va * vb * ue));
}

/// `2^a * 2^b * 2^s == 2^(a + b + s)`, over fractions of naturals.
proof fn lemma_up_join(a: int, b: int, s: nat)
    ensures
        up(a) * up(b) * up(-(a + b + s)) * pow2(s) == up(-a) * up(-b) * up(a + b + s),
{
    let d = a + b;
    let e = d + s;
    lemma_up_adds(a, b);
    lemma_up_adds(d, s as int);
    lemma2_to64();
    lemma_up_pos(-d);
    let (ua, ub, va, vb) = (up(a) as int, up(b) as int, up(-a) as int, up(-b) as int);
    let (ud, vd, ue, ve, p) = (
        up(d) as int,
        up(-d) as int,
        up(e) as int,
        up(-e) as int,
        pow2(s) as int,
    );
    assert(up(s as int) == pow2(s));
    assert(ud * p * ve == vd * 1 * ue);
    let (u, v) = (ua * ub, va * vb);
    assert(vd * (u * ve * p) == (u * vd) * (ve * p)) by (nonlinear_arith);
    assert((v * ud) * (ve * p) == v * (ud * p * ve)) by (nonlinear_arith);
    assert(v * (vd * 1 * ue) == vd * (v * ue)) by (nonlinear_arith);
    lemma_mul_equality_converse(vd, ua * ub * ve * p, va * vb * ue);
}

/// Rounding to an integer depends only on the value of the fraction.
pub proof fn lemma_nearest_even_ratio(a: nat, b: nat, c: nat, d: nat)
    requires
        b > 0,
        d > 0,
        a * d == c * b,
    ensures
        nearest_even(a, b) == nearest_even(c, d),
{
    let q = (a / b) as int;
    let r = (a % b) as int;
    lemma_fundamental_div_mod(a as int, b as int);
    lemma_mod_pos_bound(a as int, b as int);
    let s = c - q * d;
    assert(b * s == r * d) by (nonlinear_arith)
        requires
            a * d == c * b,
            a == b * q + r,
            s == c - q * d,
    ;
    assert(0 <= s < d) by (nonlinear_arith)
        requires
            b * s == r * d,
            0 <= r < b,
            b > 0,
            d > 0,
    ;
    assert(c == q * d + s);
    lemma_fundamental_div_mod_converse(c as int, d as int, q, s);
    assert((2 * r < b) == (2 * s < d)) by (nonlinear_arith)
        requires
            b * s == r * d,
            b > 0,
            d > 0,
    ;
    assert((2 * r == b) == (2 * s == d)) by (nonlinear_arith)
        requires
            b * s == r * d,
            b > 0,
            d > 0,
    ;
}

/// A whole number rounds to itself.
pub proof fn lemma_nearest_even_whole(n: nat)
    ensures
        nearest_even(n, 1) == n,
{
    assert(n / 1 == n && n % 1 == 0) by (nonlinear_arith);
}

/// A fraction lies in at most one binade.
pub proof fn lemma_binade_unique(num: nat, den: nat, e1: int, e2: int)
    requires
        den > 0,
        in_binade(num, den, e1),
        in_binade(num, den, e2),
    ensures
        e1 == e2,
{
    if e1 < e2 {
        lemma_binade_not_above(num, den, e1, e2);
    } else if e2 < e1 {
        lemma_binade_not_above(num, den, e2, e1);
    }
}

proof fn lemma_binade_not_above(num: nat, den: nat, e1: int, e2: int)
    requires
        den > 0,
        e1 < e2,
        in_binade(num, den, e1),
    ensures
        !in_binade(num, den, e2),
{
    let d = e2 - e1;
    lemma_up_adds(e1, d);
    lemma_up_pos(e1);
    lemma_up_pos(-e1);
    lemma_up_pos(e2);
    lemma_up_pos(-e2);
    lemma_pow2_unfold(d as nat);
    lemma_pow2_pos((d - 1) as nat);
    let (a1, b1, a2, b2) = (up(e1) as int, up(-e1) as int, up(e2) as int, up(-e2) as int);
    let k = up(d) as int;
    assert(a1 * k * b2 == b1 * 1 * a2);
    assert(k >= 2);
    let n = num as int;
    let dn = den as int;
    assert(n * b2 < 0x10_0000_0000_0000int * (dn * a2)) by (nonlinear_arith)
        requires
            n >= 0,
            dn > 0,
            a1 > 0,
            b1 > 0,
            a2 > 0,
            b2 > 0,
            k >= 2,
            a1 * k * b2 == b1 * 1 * a2,
            n * b1 < 0x20_0000_0000_0000int * (dn * a1),
    {
        // Bring both bounds over the common factor and compare them.
        if n * b2 >= 0x10_0000_0000_0000int * (dn * a2) {
            assert(n * b1 * b2 < 0x20_0000_0000_0000int * (dn * a1) * b2) by {
                lemma_mul_strict_inequality(n * b1, 0x20_0000_0000_0000int * (dn * a1), b2);
            }
            assert(0x10_0000_0000_0000int * (dn * a2) * b1 <= n * b2 * b1) by {
                lemma_mul_inequality(0x10_0000_0000_0000int * (dn * a2), n * b2, b1);
            }
            assert(n * b1 * b2 == n * b2 * b1);
            assert(0x10_0000_0000_0000int * (dn * a2) * b1 == 0x10_0000_0000_0000int * dn * (b1 * 1
                * a2));
            assert(0x20_0000_0000_0000int * (dn * a1) * b2 == 0x20_0000_0000_0000int * dn * (a1
                * b2));
            let w = a1 * b2;
            assert(w > 0);
            assert(a1 * k * b2 == k * w);
            assert(k * w >= 2 * w);
            assert(dn * (k * w) >= dn * (2 * w));
        }
    }
}

/// Every positive fraction lies in a binade.
pub proof fn lemma_binade_exists(num: nat, den: nat) -> (e: int)
    requires
        num > 0,
        den > 0,
    ensures
        in_binade(num, den, e),
    decreases
            if num < MANT_LOW * den {
                MANT_LOW * den - num
            } else if num >= MANT_END * den {
                num - den
            } else {
                0
            },
{
    lemma2_to64();
    if num < MANT_LOW * den {
        let e = lemma_binade_exists(2 * num, den);
        lemma_binade_step(num, den, e - 1);
        e - 1
    } else if num >= MANT_END * den {
        let e = lemma_binade_exists(num, 2 * den);
        let (n, d, u, v) = (num as int, den as int, up(e) as int, up(-e) as int);
        assert(2 * (n * v) == 2 * n * v) by (nonlinear_arith);
        assert(2 * MANT_LOW * (d * u) == MANT_LOW * (2 * d * u)) by (nonlinear_arith);
        assert(2 * MANT_END * (d * u) == MANT_END * (2 * d * u)) by (nonlinear_arith);
        if e >= 0 {
            lemma_pow2_unfold((e + 1) as nat);
            assert(up(e + 1) == 2 * u);
            assert(up(-(e + 1)) == v);
            assert(d * (2 * u) == 2 * d * u) by (nonlinear_arith);
        } else {
            lemma_pow2_unfold((-e) as nat);
            let w = up(-(e + 1)) as int;
            assert(v == 2 * w);
            assert(up(e + 1) == u);
            assert(n * (2 * w) == 2 * (n * w)) by (nonlinear_arith);
        }
        e + 1
    } else {
        assert(den * up(0) == den && num * up(-0) == num) by (nonlinear_arith)
            requires
                up(0) == 1,
        ;
        assert(in_binade(num, den, 0));
        0
    }
}

proof fn lemma_binade_step(num: nat, den: nat, e: int)
    requires
        in_binade(2 * num, den, e + 1),
    ensures
        in_binade(num, den, e),
{
    lemma2_to64();
    let (n, d) = (num as int, den as int);
    if e >= 0 {
        lemma_pow2_unfold((e + 1) as nat);
        let u = up(e) as int;
        assert(up(e + 1) == 2 * u);
        assert(up(-e) == 1 && up(-(e + 1)) == 1);
        assert(MANT_LOW * (d * (2 * u)) == 2 * (MANT_LOW * (d * u))) by (nonlinear_arith);
        assert(MANT_END * (d * (2 * u)) == 2 * (MANT_END * (d * u))) by (nonlinear_arith);
    } else {
        lemma_pow2_unfold((-e) as nat);
        let w = up(-(e + 1)) as int;
        assert(up(-e) == 2 * w);
        assert(up(e) == 1 && up(e + 1) == 1);
        assert(n * (2 * w) == 2 * n * w) by (nonlinear_arith);
    }
}

/// The quotient of a fraction below one by a denominator of at most 52 bits
/// rounds to a number below one.
pub proof fn lemma_rounded_below_one(num: nat, den: nat)
    requires
        0 < num < den <= MANT_LOW,
    ensures
        rounded(num, den).exp <= -53,
{
    let e0 = lemma_binade_exists(num, den);
    let e = choose|e: int| in_binade(num, den, e);
    assert(in_binade(num, den, e));
    let (n, d, u, v) = (num as int, den as int, up(e) as int, up(-e) as int);
    lemma_up_pos(e);
    lemma_up_pos(-e);
    if e >= -52 {
        lemma2_to64_rest();
        if e < 0 && e > -52 {
            lemma_pow2_strictly_increases((-e) as nat, 52);
        }
        assert(v <= MANT_LOW);
        assert(n * v < MANT_LOW * (d * u)) by (nonlinear_arith)
            requires
                0 < n < d,
                0 < v <= MANT_LOW,
                u >= 1,
        ;
    } else if e == -53 {
        lemma2_to64_rest();
        let x = n * v;
        assert(v == MANT_END);
        assert(x == n * MANT_END);
        assert(x <= d * MANT_END - MANT_END) by (nonlinear_arith)
            requires
                x == n * MANT_END,
                n <= d - 1,
        ;
        lemma_fundamental_div_mod(x, d);
        lemma_mod_pos_bound(x, d);
        let (q, r) = (x / d, x % d);
        assert(q <= MANT_END - 1) by (nonlinear_arith)
            requires
                x == d * q + r,
                r >= 0,
                x <= d * MANT_END - MANT_END,
                d > 0,
                MANT_END > 0,
        ;
        assert(q == MANT_END - 1 ==> 2 * r < d) by (nonlinear_arith)
            requires
                x == d * q + r,
                x <= d * MANT_END - MANT_END,
                d <= MANT_LOW,
                MANT_END == 2 * MANT_LOW,
                r >= 0,
        ;
        assert(d * 1 == d);
    }
}

/// What a fraction rounds to, from its quotient by a power of two: if
/// `num / den == x / y * 2^e` and `x / y` has 53 bits before the point, then
/// the mantissa is `x / y` rounded to an integer.
pub proof fn lemma_rounded_is(num: nat, den: nat, x: nat, y: nat, e: int)
    requires
        den > 0,
        y > 0,
        num * up(-e) * y == x * (den * up(e)),
        MANT_LOW * y <= x < MANT_END * y,
    ensures
        rounded(num, den) == carried(nearest_even(x, y), e),
        in_binade(num, den, e),
        num > 0,
{
    lemma_up_pos(e);
    lemma_up_pos(-e);
    let a = (num * up(-e)) as int;
    let b = (den * up(e)) as int;
    assert(b > 0) by (nonlinear_arith)
        requires
            b == den * up(e),
            den > 0,
            up(e) > 0,
    ;
    let (xi, yi) = (x as int, y as int);
    assert(MANT_LOW * b <= a && a < MANT_END * b) by (nonlinear_arith)
        requires
            a * yi == xi * b,
            b > 0,
            yi > 0,
            MANT_LOW * yi <= xi < MANT_END * yi,
            MANT_LOW == 0x10_0000_0000_0000,
            MANT_END == 0x20_0000_0000_0000,
    {
        if a < MANT_LOW * b {
            assert(a * yi < MANT_LOW * b * yi);
            assert(MANT_LOW * yi * b <= xi * b);
        }
        if a >= MANT_END * b {
            assert(a * yi >= MANT_END * b * yi);
            assert(xi * b < MANT_END * yi * b);
        }
    }
    assert(in_binade(num, den, e));
    assert(num > 0) by (nonlinear_arith)
        requires
            MANT_LOW * b <= num * up(-e),
            b > 0,
            MANT_LOW > 0,
    ;
    let f = choose|f: int| in_binade(num, den, f);
    lemma_binade_unique(num, den, e, f);
    lemma_nearest_even_ratio((num * up(-e)) as nat, (den * up(e)) as nat, x, y);
}

/// Rounding depends only on the value of the fraction.
pub proof fn lemma_rounded_ratio(n1: nat, d1: nat, n2: nat, d2: nat)
    requires
        d1 > 0,
        d2 > 0,
        n1 * d2 == n2 * d1,
    ensures
        rounded(n1, d1) == rounded(n2, d2),
{
    if n1 == 0 || n2 == 0 {
        assert(n1 == 0 && n2 == 0) by (nonlinear_arith)
            requires
                n1 * d2 == n2 * d1,
                n1 == 0 || n2 == 0,
                d1 > 0,
                d2 > 0,
        ;
    } else {
        let e0 = lemma_binade_exists(n1, d1);
        let e = choose|e: int| in_binade(n1, d1, e);
        assert(in_binade(n1, d1, e));
        lemma_up_pos(e);
        let (u, v) = (up(e) as int, up(-e) as int);
        let (a1, b1, a2, b2) = (n1 as int, d1 as int, n2 as int, d2 as int);
        assert(b1 * u > 0) by (nonlinear_arith)
            requires
                b1 > 0,
                u > 0,
        ;
        assert(a2 * v * (b1 * u) == (a2 * b1) * (v * u)) by (nonlinear_arith);
        assert(a1 * v * (b2 * u) == (a1 * b2) * (v * u)) by (nonlinear_arith);
        lemma_rounded_is(n2, d2, (a1 * v) as nat, (b1 * u) as nat, e);
    }
}

/// A non-negative number `mant * 2^exp`.
#[derive(Clone, Copy, Debug, PartialEq, Eq, Structural)]
pub struct Double {
    pub mant: u64,
    pub exp: i32,
}

impl View for Double {
    type V = Dyadic;

    open spec fn view(&self) -> Dyadic {
        Dyadic { mant: self.mant as nat, exp: self.exp as int }
    }
}

/// The integer nearest to `num / den`, ties to even.
pub fn round_quotient(num: u128, den: u128) -> (q: u128)
    requires
        den > 0,
    ensures
        q == nearest_even(num as nat, den as nat),
{
    let q: u128 = num / den;
    let r: u128 = num % den;
    let rest: u128 = den - r;
    if r < rest || (r == rest && q % 2 == 0) {
        q
    } else {
        proof {
            lemma_fundamental_div_mod(num as int, den as int);
            assert(q < u128::MAX) by (nonlinear_arith)
                requires
                    num == den * q + r,
                    r > 0,
                    den > r,
                    num <= u128::MAX,
                    q >= 0,
            ;
        }
        q + 1
    }
}

/// `m * 2^e` for a mantissa of at most `2^53`.
fn carry(m: u128, e: i32) -> (d: Double)
    requires
        m <= MANT_END,
        e < i32::MAX,
    ensures
        d@ == carried(m as nat, e as int),
{
    if m == MANT_END as u128 {
        Double { mant: MANT_LOW, exp: e + 1 }
    } else {
        Double { mant: m as u64, exp: e }
    }
}

/// `2^k`.
fn power_of_two(k: i32) -> (p: u128)
    requires
        0 <= k < 128,
    ensures
        p == pow2(k as nat),
{
    let mut p: u128 = 1;
    let mut i: i32 = 0;
    proof {
        lemma2_to64();
        lemma_pow2_adds(64, 63);
        lemma2_to64_rest();
    }
    while i < k
        invariant
            0 <= i <= k < 128,
            p == pow2(i as nat),
            pow2(127) == 0x8000_0000_0000_0000_0000_0000_0000_0000,
        decreases k - i,
    {
        proof {
            lemma_pow2_unfold((i + 1) as nat);
            if i < 126 {
                lemma_pow2_strictly_increases((i + 1) as nat, 127);
            }
        }
        p = p * 2;
        i = i + 1;
    }
    p
}

/// A normalized number is the double nearest to itself.
pub proof fn lemma_rounded_fixed(d: Dyadic)
    requires
        d.mant == 0 ==> d.exp == 0,
        d.mant == 0 || MANT_LOW <= d.mant < MANT_END,
    ensures
        rounded(d.num(), d.den()) == d,
{
    lemma_up_pos(d.exp);
    lemma_up_pos(-d.exp);
    let (m, u, v) = (d.mant as int, up(d.exp) as int, up(-d.exp) as int);
    if d.mant == 0 {
        assert(m * u == 0) by (nonlinear_arith)
            requires
                m == 0,
        ;
    } else {
        assert(m * u * v * 1 == m * (v * u)) by (nonlinear_arith);
        lemma_rounded_is(d.num(), d.den(), d.mant, 1, d.exp);
        lemma_nearest_even_whole(d.mant);
    }
}

/// A quotient with 53 bits before the point rounds to at most `2^53`.
pub proof fn lemma_nearest_even_bounds(x: nat, y: nat)
    requires
        y > 0,
        MANT_LOW * y <= x < MANT_END * y,
    ensures
        MANT_LOW <= nearest_even(x, y) <= MANT_END,
{
    let q = (x / y) as int;
    lemma_fundamental_div_mod(x as int, y as int);
    lemma_mod_pos_bound(x as int, y as int);
    let (xi, yi, r) = (x as int, y as int, (x % y) as int);
    assert(MANT_LOW <= q < MANT_END) by (nonlinear_arith)
        requires
            xi == yi * q + r,
            0 <= r < yi,
            MANT_LOW * yi <= xi < MANT_END * yi,
    ;
}

/// A fraction below one is less than half a unit in the last place of a number
/// whose exponent is positive.
pub proof fn lemma_sum_absorbs(a: Dyadic, f: Dyadic)
    requires
        MANT_LOW <= a.mant < MANT_END,
        a.exp >= 1,
        f.mant < MANT_END,
        f.exp <= -53,
    ensures
        sum(a, f) == a,
{
    let k = (-f.exp) as nat;
    let ae = a.exp as nat;
    let (am, fm) = (a.mant as int, f.mant as int);
    let (g, p) = (pow2(ae) as int, pow2(k) as int);
    lemma_pow2_unfold(ae);
    lemma_pow2_pos((ae - 1) as nat);
    lemma2_to64_rest();
    if k > 53 {
        lemma_pow2_strictly_increases(53, k);
    }
    assert(fm < p);
    let n = am * g * p + fm * 1;
    let y = g * p;
    assert(a.num() == am * g && a.den() == 1);
    assert(f.num() == fm && f.den() == p);
    assert(y >= 2 * p) by (nonlinear_arith)
        requires
            y == g * p,
            g >= 2,
            p > 0,
    ;
    assert(n == am * y + fm) by (nonlinear_arith)
        requires
            n == am * g * p + fm * 1,
            y == g * p,
    ;
    assert(MANT_LOW * y <= n < MANT_END * y) by (nonlinear_arith)
        requires
            n == am * y + fm,
            0 <= fm < y,
            MANT_LOW <= am <= MANT_END - 1,
    ;
    assert(n * 1 * y == n * (1 * p * g)) by (nonlinear_arith)
        requires
            y == g * p,
    ;
    lemma_rounded_is(n as nat, p as nat, n as nat, y as nat, a.exp);
    lemma_fundamental_div_mod_converse(n, y, am, fm);
}

impl Double {
    /// Whether the mantissa has its full 53 bits, or the number is zero.
    pub open spec fn normal(self) -> bool {
        ||| self.mant == 0 && self.exp == 0
        ||| MANT_LOW <= self.mant < MANT_END
    }

    /// The double nearest to `n`.
    pub fn from_u128(n: u128) -> (d: Double)
        ensures
            d.normal(),
            d@ == of_nat(n as nat),
            n == 0 <==> d.mant == 0,
            n >= 1 ==> -52 <= d.exp <= 76,
            n >= MANT_END ==> d.exp >= 1,
            1 <= n < MANT_END ==> d.exp <= 0 && d.mant == n * pow2((-d.exp) as nat),
    {
        if n == 0 {
            return Double { mant: 0, exp: 0 };
        }
        if n < MANT_LOW as u128 {
            let mut m: u128 = n;
            let mut t: i32 = 0;
            proof {
                lemma2_to64();
                assert(m == n * pow2(0)) by (nonlinear_arith)
                    requires
                        m == n,
                        pow2(0) == 1,
                ;
            }
            while m < MANT_LOW as u128
                invariant
                    0 <= t <= 52,
                    1 <= n < MANT_LOW,
                    m < MANT_END,
                    m == n * pow2(t as nat),
                    m >= pow2(t as nat),
                    m >= 1,
                decreases MANT_END - m,
            {
                proof {
                    lemma_pow2_unfold((t + 1) as nat);
                    assert(n * (2 * pow2(t as nat)) == 2 * (n * pow2(t as nat))) by (nonlinear_arith);
                    if t >= 52 {
                        lemma2_to64_rest();
                        if t > 52 {
                            lemma_pow2_strictly_increases(52, t as nat);
                        }
                    }
                }
                m = m * 2;
                t = t + 1;
            }
            proof {
                lemma_up_pos(-t as int);
                assert(n * up(t as int) * 1 == m * (1 * up(-t as int))) by {
                    if t == 0 {
                    }
                    assert(n * up(t as int) == m);
                }
                lemma_rounded_is(n as nat, 1, m as nat, 1, -t as int);
                lemma_nearest_even_whole(m as nat);
            }
            return Double { mant: m as u64, exp: -t };
        }
        let mut y: u128 = 1;
        let mut s: i32 = 0;
        proof {
            lemma2_to64();
        }
        while n / y >= MANT_END as u128
            invariant
                0 <= s <= 75,
                n >= MANT_LOW,
                y == pow2(s as nat),
                y >= 1,
                MANT_LOW * y <= n,
                s == 0 ==> y == 1,
                n < MANT_END ==> s == 0,
            decreases n - y,
        {
            proof {
                lemma_pow2_unfold((s + 1) as nat);
                lemma_fundamental_div_mod(n as int, y as int);
                assert(MANT_LOW * (2 * y) <= n) by (nonlinear_arith)
                    requires
                        n == y * (n / y) + n % y,
                        n % y >= 0,
                        n / y >= MANT_END,
                        y >= 1,
                        MANT_END == 2 * MANT_LOW,
                ;
                if s >= 75 {
                    lemma_pow2_adds(64, 12);
                    lemma2_to64();
                }
            }
            y = y * 2;
            s = s + 1;
        }
        proof {
            lemma_fundamental_div_mod(n as int, y as int);
            assert(n < MANT_END * y) by (nonlinear_arith)
                requires
                    n == y * (n / y) + n % y,
                    n % y < y,
                    n / y < MANT_END,
                    y >= 1,
            ;
            assert(up(s as int) == y);
            assert(up(-s as int) == 1);
            lemma_rounded_is(n as nat, 1, n as nat, y as nat, s as int);
            lemma_nearest_even_bounds(n as nat, y as nat);
            lemma2_to64();
            if n < MANT_END {
                lemma_nearest_even_whole(n as nat);
                assert(n == n * pow2(0)) by (nonlinear_arith)
                    requires
                        pow2(0) == 1,
                ;
            }
        }
        let q: u128 = round_quotient(n, y);
        carry(q, s)
    }

    /// The double nearest to `self / other`.
    pub fn div(self, other: Double) -> (d: Double)
        requires
            self.normal(),
            other.normal(),
            other.mant > 0,
            -1_000_000_000 <= self.exp <= 1_000_000_000,
            -1_000_000_000 <= other.exp <= 1_000_000_000,
        ensures
            d.normal(),
            d@ == quotient(self@, other@),
            self.mant == 0 <==> d.mant == 0,
            self.mant > 0 ==> self.exp - other.exp - 53 <= d.exp <= self.exp - other.exp - 51,
    {
        if self.mant == 0 {
            proof {
                assert(self@.num() == 0) by (nonlinear_arith)
                    requires
                        self@.num() == self@.mant * up(self@.exp),
                        self@.mant == 0,
                ;
                assert(self@.num() * other@.den() == 0) by (nonlinear_arith)
                    requires
                        self@.num() == 0,
                ;
            }
            return Double { mant: 0, exp: 0 };
        }
        let (p, s): (u128, i32) = if self.mant >= other.mant {
            (MANT_LOW as u128, 52)
        } else {
            (MANT_END as u128, 53)
        };
        let (a, b): (u128, u128) = (self.mant as u128, other.mant as u128);
        proof {
            lemma2_to64_rest();
            assert(a * p <= 0x20_0000_0000_0000 * 0x20_0000_0000_0000) by (nonlinear_arith)
                requires
                    a < 0x20_0000_0000_0000,
                    p <= 0x20_0000_0000_0000,
            ;
            assert(MANT_LOW * b <= a * p < MANT_END * b) by (nonlinear_arith)
                requires
                    MANT_LOW <= a < MANT_END,
                    MANT_LOW <= b < MANT_END,
                    a >= b ==> p == MANT_LOW,
                    a < b ==> p == MANT_END,
                    MANT_END == 2 * MANT_LOW,
                    MANT_LOW > 0,
            ;
            let e = self.exp - other.exp - s;
            lemma_up_split_off(self.exp as int, -other.exp as int, s as nat);
            lemma_up_pos(-self.exp as int);
            lemma_up_pos(other.exp as int);
            let (ua, vb, ve) = (up(self.exp as int) as int, up(-other.exp as int) as int, up(-e) as int);
            let (va, ub, ue) = (up(-self.exp as int) as int, up(other.exp as int) as int, up(e) as int);
            let (num, den) = ((self@.num() * other@.den()) as int, (self@.den() * other@.num()) as int);
            let (am, bm, pm) = (a as int, b as int, p as int);
            assert(-(-other.exp as int) == other.exp);
            assert(ua * vb * ve == pm * (va * ub * ue));
            assert(den > 0) by (nonlinear_arith)
                requires
                    den == va * (bm * ub),
                    va > 0,
                    ub > 0,
                    bm > 0,
            ;
            let (u, v) = (ua * vb * ve, va * ub * ue);
            assert(am * ua * vb * ve == am * u) by (nonlinear_arith)
                requires
                    u == ua * vb * ve,
            ;
            assert(am * u * bm == (am * bm) * u) by (nonlinear_arith);
            assert(va * (bm * ub) * ue == bm * v) by (nonlinear_arith)
                requires
                    v == va * ub * ue,
            ;
            assert(am * pm * (bm * v) == (am * bm) * (pm * v)) by (nonlinear_arith);
            lemma_rounded_is(num as nat, den as nat, (a * p) as nat, b as nat, e);
            lemma_nearest_even_bounds((a * p) as nat, b as nat);
        }
        let q: u128 = round_quotient(a * p, b);
        carry(q, self.exp - other.exp - s)
    }

    /// The double nearest to `self * other`.
    pub fn mul(self, other: Double) -> (d: Double)
        requires
            self.normal(),
            other.normal(),
            -1_000_000_000 <= self.exp <= 1_000_000_000,
            -1_000_000_000 <= other.exp <= 1_000_000_000,
        ensures
            d.normal(),
            d@ == product(self@, other@),
            self.mant == 0 || other.mant == 0 <==> d.mant == 0,
            d.mant > 0 ==> self.exp + other.exp + 52 <= d.exp <= self.exp + other.exp + 54,
    {
        if self.mant == 0 || other.mant == 0 {
            proof {
                assert(self@.num() * other@.num() == 0) by (nonlinear_arith)
                    requires
                        self@.num() == self@.mant * up(self@.exp),
                        other@.num() == other@.mant * up(other@.exp),
                        self@.mant == 0 || other@.mant == 0,
                ;
            }
            return Double { mant: 0, exp: 0 };
        }
        let (a, b): (u128, u128) = (self.mant as u128, other.mant as u128);
        proof {
            assert(0x10_0000_0000_0000 * 0x10_0000_0000_0000 <= a * b < 0x20_0000_0000_0000
                * 0x20_0000_0000_0000) by (nonlinear_arith)
                requires
                    0x10_0000_0000_0000 <= a < 0x20_0000_0000_0000,
                    0x10_0000_0000_0000 <= b < 0x20_0000_0000_0000,
            ;
        }
        let x: u128 = a * b;
        let (y, s): (u128, i32) = if x < 0x200_0000_0000_0000_0000_0000_0000 {
            (MANT_LOW as u128, 52)
        } else {
            (MANT_END as u128, 53)
        };
        proof {
            lemma2_to64_rest();
            let e = self.exp + other.exp + s;
            lemma_up_join(self.exp as int, other.exp as int, s as nat);
            lemma_up_pos(-self.exp as int);
            lemma_up_pos(-other.exp as int);
            let (ua, ub, ve) = (up(self.exp as int) as int, up(other.exp as int) as int, up(-e) as int);
            let (va, vb, ue) = (up(-self.exp as int) as int, up(-other.exp as int) as int, up(e) as int);
            let (num, den) = ((self@.num() * other@.num()) as int, (self@.den() * other@.den()) as int);
            let (am, bm, ym) = (a as int, b as int, y as int);
            assert(ua * ub * ve * ym == va * vb * ue);
            assert(den > 0) by (nonlinear_arith)
                requires
                    den == va * vb,
                    va > 0,
                    vb > 0,
            ;
            let (m, u) = (am * bm, ua * ub);
            assert(am * ua * (bm * ub) == m * u) by (nonlinear_arith)
                requires
                    m == am * bm,
                    u == ua * ub,
            ;
            assert(m * u * ve * ym == m * (u * ve * ym)) by (nonlinear_arith);
            lemma_rounded_is(num as nat, den as nat, x as nat, y as nat, e);
            lemma_nearest_even_bounds(x as nat, y as nat);
        }
        let q: u128 = round_quotient(x, y);
        carry(q, self.exp + other.exp + s)
    }

    /// The double nearest to the sum of a whole number, itself taken as a
    /// double, and a fraction below one.
    pub(crate) fn add_fraction(whole: u128, fraction: Double) -> (d: Double)
        requires
            fraction.normal(),
            fraction.mant > 0 ==> -200 <= fraction.exp <= -53,
        ensures
            d.normal(),
            d@ == sum(of_nat(whole as nat), fraction@),
            whole == 0 && fraction.mant == 0 <==> d.mant == 0,
            -200 <= d.exp <= 76,
    {
        let a = Self::from_u128(whole);
        let ghost f = fraction@;
        proof {
            lemma_up_pos(a.exp as int);
            lemma_up_pos(-a.exp as int);
            lemma_up_pos(f.exp);
            lemma_up_pos(-f.exp);
        }
        if fraction.mant == 0 {
            proof {
                lemma_rounded_fixed(a@);
                assert(f.num() == 0) by (nonlinear_arith)
                    requires
                        f.num() == f.mant * up(f.exp),
                        f.mant == 0,
                ;
                assert(a@.num() * 1 + 0 * a@.den() == a@.num());
            }
            return a;
        }
        if whole == 0 {
            proof {
                lemma_rounded_fixed(f);
                assert(a@.num() == 0);
                assert(0 * f.den() + f.num() * 1 == f.num());
                assert(1 * f.den() == f.den());
            }
            return fraction;
        }
        let k: i32 = -fraction.exp;
        let ghost fm = fraction.mant as int;
        let ghost am = a.mant as int;
        let ghost p = pow2(k as nat) as int;
        proof {
            assert(f.num() == fm);
            assert(f.den() == p);
            lemma2_to64_rest();
            if k > 53 {
                lemma_pow2_strictly_increases(53, k as nat);
            }
            assert(fm < p);
        }
        if whole >= MANT_END as u128 {
            proof {
                lemma_sum_absorbs(a@, f);
            }
            return a;
        }
        let t: i32 = -a.exp;
        if k - t >= 128 {
            // The fraction is far below half a unit in the last place.
            proof {
                let x = am * pow2((k - t) as nat) + fm;
                let y = pow2((k - t) as nat) as int;
                lemma_pow2_strictly_increases(54, (k - t) as nat);
                Self::lemma_sum_aligned(whole as int, am, t as nat, fm, k as nat);
                assert(x == am * y + fm);
                lemma_fundamental_div_mod_converse(x, y, am, fm);
                assert(nearest_even(x as nat, y as nat) == am);
            }
            return a;
        }
        let y: u128 = power_of_two(k - t);
        let low: u128 = fraction.mant as u128;
        proof {
            lemma_pow2_pos((k - t) as nat);
        }
        let r: u128 = low % y;
        let q: u128 = a.mant as u128 + low / y;
        proof {
            let x = am * pow2((k - t) as nat) + fm;
            Self::lemma_sum_aligned(whole as int, am, t as nat, fm, k as nat);
            lemma_fundamental_div_mod(low as int, y as int);
            assert(x == q * y + r) by (nonlinear_arith)
                requires
                    x == am * y + low,
                    low == y * (low / y) + r,
                    q == am + low / y,
            ;
            lemma_fundamental_div_mod_converse(x, y as int, q as int, r as int);
            lemma_nearest_even_bounds(x as nat, y as nat);
        }
        let rest: u128 = y - r;
        if r < rest || (r == rest && q % 2 == 0) {
            carry(q, a.exp)
        } else {
            carry(q + 1, a.exp)
        }
    }

    /// A whole number of fewer than 54 bits plus a fraction below one, over
    /// the unit in the last place of the whole number.
    proof fn lemma_sum_aligned(whole: int, am: int, t: nat, fm: int, k: nat)
        requires
            1 <= whole < MANT_END,
            am == whole * pow2(t),
            MANT_LOW <= am < MANT_END,
            t <= 52,
            53 <= k,
            0 < fm < pow2(k),
        ensures
            ({
                let y = pow2((k - t) as nat);
                let x = (am * y + fm) as nat;
                let a = Dyadic { mant: am as nat, exp: -t };
                let f = Dyadic { mant: fm as nat, exp: -k };
                &&& y > 0
                &&& MANT_LOW * y <= x < MANT_END * y
                &&& sum(a, f) == carried(nearest_even(x, y), -t)
            }),
    {
        let y = pow2((k - t) as nat) as int;
        let x = am * y + fm;
        let a = Dyadic { mant: am as nat, exp: -t };
        let f = Dyadic { mant: fm as nat, exp: -k };
        let (g, p) = (pow2(t) as int, pow2(k) as int);
        lemma_pow2_pos((k - t) as nat);
        lemma_pow2_pos(t);
        lemma_pow2_adds((k - t) as nat, t);
        assert(p == y * g);
        lemma2_to64();
        lemma2_to64_rest();
        assert(up(t as int) == g);
        lemma_pow2_adds(t, (53 - t) as nat);
        let h = pow2((53 - t) as nat) as int;
        assert(g * h == MANT_END);
        assert(whole < h) by (nonlinear_arith)
            requires
                whole * g < g * h,
                g > 0,
        ;
        assert(am + g <= MANT_END) by (nonlinear_arith)
            requires
                am == whole * g,
                whole + 1 <= h,
                g * h == MANT_END,
                g > 0,
        ;
        assert(x < MANT_END * y) by (nonlinear_arith)
            requires
                x == am * y + fm,
                fm < y * g,
                am + g <= MANT_END,
                y > 0,
        ;
        assert(MANT_LOW * y <= x) by (nonlinear_arith)
            requires
                x == am * y + fm,
                fm > 0,
                am >= MANT_LOW,
                y > 0,
        ;
        let n = am * 1 * p + fm * 1 * g;
        let d = g * p;
        assert(a.num() == am * 1);
        assert(f.num() == fm * 1);
        assert(n == g * x) by (nonlinear_arith)
            requires
                n == am * 1 * p + fm * 1 * g,
                p == y * g,
                x == am * y + fm,
        ;
        assert(d > 0) by (nonlinear_arith)
            requires
                d == g * p,
                p == y * g,
                g > 0,
                y > 0,
        ;
        assert(n * g * y == x * (d * 1)) by (nonlinear_arith)
            requires
                n == g * x,
                d == g * p,
                p == y * g,
        ;
        lemma_rounded_is(n as nat, d as nat, x as nat, y as nat, -t);
    }

    /// The nearest integer, ties away from zero, cut off at `usize::MAX`.
    pub fn round_to_usize(self) -> (n: usize)
        requires
            self.normal(),
            i32::MIN < self.exp,
        ensures
            n == if nearest_nat(self@) <= usize::MAX { nearest_nat(self@) } else { usize::MAX as nat },
    {
        let cap: u128 = usize::MAX as u128;
        if self.exp >= 0 {
            let mut v: u128 = self.mant as u128;
            let mut i: i32 = 0;
            proof {
                lemma2_to64();
                assert(self.mant * 1 == self.mant);
            }
            while i < self.exp && v <= cap
                invariant
                    0 <= i <= self.exp,
                    cap == usize::MAX,
                    v == self.mant * pow2(i as nat),
                    v <= 2 * cap + 0x20_0000_0000_0000,
                decreases self.exp - i,
            {
                proof {
                    lemma_pow2_unfold((i + 1) as nat);
                    let p = pow2(i as nat);
                    let m = self.mant as nat;
                    assert(m * (2 * p) == 2 * (m * p)) by (nonlinear_arith);
                }
                v = v * 2;
                i = i + 1;
            }
            proof {
                let m = self.mant as nat;
                let (p, q) = (pow2(i as nat), pow2(self.exp as nat));
                if i < self.exp {
                    lemma_pow2_strictly_increases(i as nat, self.exp as nat);
                }
                assert(m * p <= m * q) by (nonlinear_arith)
                    requires
                        p <= q,
                ;
                assert(self@.num() == m * q);
                let w = m * q;
                assert(self@.den() == 1);
                lemma_fundamental_div_mod_converse((2 * w + 1) as int, 2, w as int, 1);
            }
            return if v > cap {
                usize::MAX
            } else {
                v as usize
            };
        }
        let k: i32 = -self.exp;
        if k >= 64 {
            proof {
                let p = pow2(k as nat) as int;
                lemma2_to64();
                lemma2_to64_rest();
                if k > 64 {
                    lemma_pow2_strictly_increases(64, k as nat);
                }
                let m = self.mant as int;
                assert(self@.num() == m * 1);
                assert((2 * m + p) / (2 * p) == 0) by (nonlinear_arith)
                    requires
                        0 <= 2 * m < p,
                ;
            }
            return 0;
        }
        let p: u128 = power_of_two(k);
        proof {
            lemma_pow2_pos(k as nat);
            lemma2_to64();
            lemma_pow2_strictly_increases(k as nat, 64);
            assert(self@.num() == self.mant * 1);
        }
        let n: u128 = (2 * self.mant as u128 + p) / (2 * p);
        proof {
            let m = self.mant as int;
            assert((2 * m + p) / (2 * p) <= m + 1) by (nonlinear_arith)
                requires
                    m >= 0,
                    p >= 1,
            ;
        }
        if n > cap {
            usize::MAX
        } else {
            n as usize
        }
    }

    /// Appends the number in decimal notation with `places` digits after the
    /// point, rounded to the nearest, ties to even.
    pub fn push_fixed(self, out: &mut String, places: u32)
        requires
            places <= 6,
        ensures
            final(out)@ == old(out)@ + fixed(self@, places as nat),
    {
        let ghost pl = places as nat;
        let mut ten: u128 = 1;
        let mut i: u32 = 0;
        while i < places
            invariant
                i <= places <= 6,
                ten == power_of_ten(i as nat),
                i == 0 ==> ten == 1,
                i == 1 ==> ten == 10,
                i == 2 ==> ten == 100,
                i == 3 ==> ten == 1_000,
                i == 4 ==> ten == 10_000,
                i == 5 ==> ten == 100_000,
                i == 6 ==> ten == 1_000_000,
            decreases places - i,
        {
            ten = ten * 10;
            i = i + 1;
        }
        if self.exp >= 0 {
            push_decimal_scaled(out, self.mant, self.exp as u32);
            out.push('.');
            push_repeated(out, '0', places as usize);
            proof {
                let v = self@.num();
                let p = power_of_ten(pl);
                assert(v == self.mant as nat * pow2(self.exp as nat)) by {
                    lemma2_to64();
                }
                lemma_nearest_even_whole(v * p);
                assert((v * p) / p == v) by (nonlinear_arith)
                    requires
                        p > 0,
                ;
                lemma_last_digits_zero(v, pl);
                assert(out@ =~= old(out)@ + fixed(self@, pl));
            }
            return ;
        }
        let ghost k = -self.exp;
        let n: u128 = if self.exp > -128 {
            proof {
                lemma_pow2_pos(k as nat);
                assert(self.mant * ten <= 0xffff_ffff_ffff_ffff * 1_000_000) by (nonlinear_arith)
                    requires
                        self.mant <= 0xffff_ffff_ffff_ffff,
                        ten <= 1_000_000,
                ;
            }
            round_quotient(self.mant as u128 * ten, power_of_two(-self.exp))
        } else {
            proof {
                let p = pow2(k as nat) as int;
                lemma_pow2_adds(64, 63);
                lemma2_to64();
                lemma2_to64_rest();
                lemma_pow2_strictly_increases(127, k as nat);
                let m = self.mant * ten;
                assert(m <= 0xffff_ffff_ffff_ffff * 1_000_000) by (nonlinear_arith)
                    requires
                        m == self.mant * ten,
                        self.mant <= 0xffff_ffff_ffff_ffff,
                        ten <= 1_000_000,
                ;
                lemma_fundamental_div_mod_converse(m, p, 0, m);
            }
            0
        };
        proof {
            assert(self@.num() == self.mant * 1);
            assert(n == in_units(self@, pl));
        }
        push_decimal(out, n / ten);
        out.push('.');
        push_last_digits(out, n, places);
        assert(out@ =~= old(out)@ + fixed(self@, pl));
    }
}

/// A multiple of `10^places` ends in that many zeros.
proof fn lemma_last_digits_zero(v: nat, places: nat)
    ensures
        last_digits(v * power_of_ten(places), places) == repeated('0', places),
    decreases places,
{
    if places > 0 {
        let p = power_of_ten((places - 1) as nat);
        assert(v * (10 * p) == 10 * (v * p)) by (nonlinear_arith);
        lemma_last_digits_zero(v, (places - 1) as nat);
        assert(last_digits(v * power_of_ten(places), places) =~= repeated('0', places));
    } else {
        assert(last_digits(v * power_of_ten(places), places) =~= repeated('0', places));
    }
}

/// A double of either sign, or one that stands for no finite number.
#[derive(Clone, Copy, Debug, PartialEq, Eq, Structural)]
pub enum Float {
    NotANumber,
    Infinite { negative: bool },
    Finite { negative: bool, magnitude: Double },
}

/// The number that the IEEE 754 binary64 encoding `bits` stands for: a sign
/// bit, eleven bits of exponent and 52 bits of mantissa.
pub open spec fn float_of_bits(bits: u64) -> Float {
    let negative = bits >= 0x8000_0000_0000_0000;
    let rest = bits % 0x8000_0000_0000_0000;
    let biased = rest / MANT_LOW;
    let fraction = rest % MANT_LOW;
    if biased == 0x7ff {
        if fraction == 0 {
            Float::Infinite { negative }
        } else {
            Float::NotANumber
        }
    } else if biased == 0 {
        Float::Finite { negative, magnitude: Double { mant: fraction, exp: (-1074) as i32 } }
    } else {
        Float::Finite {
            negative,
            magnitude: Double {
                mant: (MANT_LOW + fraction) as u64,
                exp: (biased - 1075) as i32,
            },
        }
    }
}

impl Float {
    /// Decodes an IEEE 754 binary64 number.
    pub fn from_bits(bits: u64) -> (f: Float)
        ensures
            f == float_of_bits(bits),
    {
        let negative = bits >= 0x8000_0000_0000_0000;
        let rest: u64 = bits % 0x8000_0000_0000_0000;
        let biased: u64 = rest / MANT_LOW;
        let fraction: u64 = rest % MANT_LOW;
        if biased == 0x7ff {
            if fraction == 0 {
                Float::Infinite { negative }
            } else {
                Float::NotANumber
            }
        } else if biased == 0 {
            Float::Finite { negative, magnitude: Double { mant: fraction, exp: -1074 } }
        } else {
            Float::Finite {
                negative,
                magnitude: Double { mant: MANT_LOW + fraction, exp: biased as i32 - 1075 },
            }
        }
    }
}

} // verus!
