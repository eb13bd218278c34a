//! How far rounded numbers are from exact ones.

use vstd::arithmetic::div_mod::{lemma_fundamental_div_mod, lemma_mod_pos_bound};
use vstd::arithmetic::mul::{lemma_mul_inequality, lemma_mul_inequality_converse};
use vstd::arithmetic::power::{lemma_pow_adds, lemma_pow_positive, pow};
use vstd::arithmetic::power2::{lemma_pow2_pos, pow2};
use vstd::prelude::*;

use crate::double::{
    in_units, lemma_binade_exists, lemma_up_pos, nearest_even, nearest_nat, product, quotient,
    rounded, sum, up, Dyadic, MANT_LOW,
};
use crate::order::{
    lemma_binade_scaled, lemma_carried_scaled, lemma_den_pos, lemma_over_denominators,
    lemma_up_scale,
};
use crate::text::power_of_ten;

verus! {

/// Whether `a` exceeds `b` by no more than `steps` roundings to double
/// precision can make it, each of which is off by less than one part in
/// `2^52`.
pub open spec fn below(a: int, b: int, steps: nat) -> bool {
    a * pow(MANT_LOW - 1, steps) <= b * pow(MANT_LOW as int, steps)
}

/// Whether `steps` roundings to double precision can make `d` of
/// `num / den`.
pub open spec fn near(d: Dyadic, num: nat, den: nat, steps: nat) -> bool {
    &&& below((d.num() * den) as int, (num * d.den()) as int, steps)
    &&& below((num * d.den()) as int, (d.num() * den) as int, steps)
}

/// What `steps` roundings make: at most `2 * steps` parts in `2^52`.
pub proof fn lemma_below_parts(a: int, b: int, steps: nat)
    requires
        below(a, b, steps),
        0 <= a,
        0 <= b,
        steps <= 1000,
    ensures
        a * MANT_LOW <= b * (MANT_LOW + 2 * steps),
{
    let m = MANT_LOW as int;
    let (p, q) = (pow(m - 1, steps), pow(m, steps));
    let k = m + 2 * steps;
    lemma_pow_positive(m - 1, steps);
    lemma_power_bound(steps);
    // Over the common factor: a * m * p <= b * q * m <= b * k * p.
    lemma_mul_inequality(a * p, b * q, m);
    lemma_mul_inequality(q * m, k * p, b);
    assert(a * p * m == a * m * p) by (nonlinear_arith);
    assert(b * q * m == q * m * b) by (nonlinear_arith);
    assert(k * p * b == b * k * p) by (nonlinear_arith);
    lemma_mul_inequality_converse(a * m, b * k, p);
}

/// `(m / (m - 1))^steps <= 1 + 2 * steps / m`.
proof fn lemma_power_bound(steps: nat)
    requires
        steps <= 1000,
    ensures
        pow(MANT_LOW as int, steps) * MANT_LOW <= (MANT_LOW + 2 * steps) * pow(
            MANT_LOW - 1,
            steps,
        ),
    decreases steps,
{
    let m = MANT_LOW as int;
    reveal(pow);
    if steps > 0 {
        let j = (steps - 1) as nat;
        lemma_power_bound(j);
        let (p, q) = (pow(m - 1, j), pow(m, j));
        lemma_pow_positive(m - 1, j);
        let k = m + 2 * j;
        // m * (m + 2 * j) <= (m + 2 * j + 2) * (m - 1)
        assert(m * k <= (k + 2) * (m - 1)) by (nonlinear_arith)
            requires
                k <= m + 2000,
                m == 0x10_0000_0000_0000,
        ;
        lemma_mul_inequality(q * m, k * p, m);
        lemma_mul_inequality(m * k, (k + 2) * (m - 1), p);
        assert(k * p * m == m * k * p) by (nonlinear_arith);
        assert(m * q * m == q * m * m) by (nonlinear_arith);
        assert((k + 2) * (m - 1) * p == (k + 2) * ((m - 1) * p)) by (nonlinear_arith);
    }
}

/// A further step allows for more.
proof fn lemma_below_more(a: int, b: int, steps: nat, more: nat)
    requires
        below(a, b, steps),
        0 <= b,
        steps <= more,
    ensures
        below(a, b, more),
    decreases more - steps,
{
    if steps < more {
        let m = MANT_LOW as int;
        let (p, q) = (pow(m - 1, steps), pow(m, steps));
        reveal(pow);
        lemma_pow_positive(m, steps);
        lemma_mul_inequality(a * p, b * q, m - 1);
        let c = b * q;
        assert(c >= 0) by (nonlinear_arith)
            requires
                c == b * q,
                b >= 0,
                q > 0,
        ;
        assert(c * (m - 1) <= c * m) by (nonlinear_arith)
            requires
                c >= 0,
        ;
        assert(a * p * (m - 1) == a * ((m - 1) * p)) by (nonlinear_arith);
        assert(b * q * m == b * (m * q)) by (nonlinear_arith);
        lemma_below_more(a, b, steps + 1, more);
    }
}

/// Roundings add up.
proof fn lemma_below_transitive(a: int, b: int, c: int, s: nat, t: nat)
    requires
        below(a, b, s),
        below(b, c, t),
    ensures
        below(a, c, s + t),
{
    let m = MANT_LOW as int;
    let (p1, q1, p2, q2) = (pow(m - 1, s), pow(m, s), pow(m - 1, t), pow(m, t));
    lemma_pow_positive(m - 1, t);
    lemma_pow_positive(m, s);
    lemma_pow_adds(m - 1, s, t);
    lemma_pow_adds(m, s, t);
    lemma_mul_inequality(a * p1, b * q1, p2);
    lemma_mul_inequality(b * p2, c * q2, q1);
    assert(a * p1 * p2 == a * (p1 * p2)) by (nonlinear_arith);
    assert(b * q1 * p2 == b * p2 * q1) by (nonlinear_arith);
    assert(c * q2 * q1 == c * (q1 * q2)) by (nonlinear_arith);
}

/// Multiplying both sides keeps the number of roundings.
proof fn lemma_below_times(a: int, b: int, z: int, s: nat)
    requires
        below(a, b, s),
        z >= 0,
    ensures
        below(a * z, b * z, s),
{
    let m = MANT_LOW as int;
    let (p, q) = (pow(m - 1, s), pow(m, s));
    lemma_mul_inequality(a * p, b * q, z);
    assert(a * p * z == a * z * p) by (nonlinear_arith);
    assert(b * q * z == b * z * q) by (nonlinear_arith);
}

/// A common factor can be dropped.
proof fn lemma_below_cancel(a: int, b: int, z: int, s: nat)
    requires
        below(a * z, b * z, s),
        z > 0,
    ensures
        below(a, b, s),
{
    let m = MANT_LOW as int;
    let (p, q) = (pow(m - 1, s), pow(m, s));
    assert(a * z * p == a * p * z) by (nonlinear_arith);
    assert(b * z * q == b * q * z) by (nonlinear_arith);
    lemma_mul_inequality_converse(a * p, b * q, z);
}

/// Sums of numbers are off by no more roundings than the numbers.
proof fn lemma_below_plus(a: int, b: int, c: int, d: int, s: nat)
    requires
        below(a, b, s),
        below(c, d, s),
    ensures
        below(a + c, b + d, s),
{
    let m = MANT_LOW as int;
    let (p, q) = (pow(m - 1, s), pow(m, s));
    assert((a + c) * p == a * p + c * p) by (nonlinear_arith);
    assert((b + d) * q == b * q + d * q) by (nonlinear_arith);
}

/// Products of numbers are off by the roundings of both.
proof fn lemma_below_product(a: int, b: int, c: int, d: int, s: nat, t: nat)
    requires
        below(a, b, s),
        below(c, d, t),
        0 <= b,
        0 <= c,
    ensures
        below(a * c, b * d, s + t),
{
    lemma_below_times(a, b, c, s);
    lemma_below_times(c, d, b, t);
    assert(c * b == b * c && d * b == b * d) by (nonlinear_arith);
    lemma_below_transitive(a * c, b * c, b * d, s, t);
}

/// A rounded fraction is off by one rounding.
pub proof fn lemma_rounded_near(num: nat, den: nat)
    requires
        den > 0,
    ensures
        near(rounded(num, den), num, den, 1),
{
    let r = rounded(num, den);
    let m = MANT_LOW as int;
    reveal(pow);
    reveal_with_fuel(pow, 2);
    assert(pow(m, 1) == m && pow(m - 1, 1) == m - 1) by {
        assert(pow(m, 0) == 1 && pow(m - 1, 0) == 1);
    }
    let (rn, rd, n, d) = (r.num() as int, r.den() as int, num as int, den as int);
    if num == 0 {
        assert(rn * d == 0 && n * rd == 0) by (nonlinear_arith)
            requires
                rn == 0 * up(0),
                n == 0,
        ;
    } else {
        let e = lemma_binade_exists(num, den);
        let c = if e <= 0 { e } else { 0 };
        lemma_binade_scaled(num, den, e, c);
        let (p, s) = (pow2((-c) as nat) as int, pow2((e - c) as nat) as int);
        let (x, y) = (n * p, d * s);
        let q = nearest_even(x as nat, y as nat);
        lemma_carried_scaled(q, e, c);
        lemma_up_scale(r.exp, c);
        lemma_pow2_pos((-c) as nat);
        lemma_up_pos(-r.exp);
        // The mantissa, in units of the last place, is off by at most half.
        lemma_fundamental_div_mod(x, y);
        lemma_mod_pos_bound(x, y);
        let z = q * y;
        assert(2 * z <= 2 * x + y && 2 * x <= 2 * z + y) by (nonlinear_arith)
            requires
                z == q * y,
                x == y * (x / y) + x % y,
                0 <= x % y < y,
                q == x / y && 2 * (x % y) <= y || q == x / y + 1 && 2 * (x % y) >= y,
        ;
        assert(z * (m - 1) <= x * m && x * (m - 1) <= z * m) by (nonlinear_arith)
            requires
                2 * z <= 2 * x + y,
                2 * x <= 2 * z + y,
                m * y <= x,
                m == 0x10_0000_0000_0000,
                y > 0,
        ;
        // Over the common power of two the rounded number is that mantissa.
        let (ru, rs) = (up(r.exp) as int, pow2((r.exp - c) as nat) as int);
        let rm = r.mant as int;
        assert(rn * p == rd * (q * s)) by (nonlinear_arith)
            requires
                rn == rm * ru,
                ru * p == rd * rs,
                rm * rs == q * s,
        ;
        assert(rn * d * p == (rn * p) * d) by (nonlinear_arith);
        assert(rd * (q * s) * d == z * rd) by (nonlinear_arith)
            requires
                z == q * y,
                y == d * s,
        ;
        assert(n * rd * p == x * rd) by (nonlinear_arith)
            requires
                x == n * p,
        ;
        let (a, b) = (rn * d, n * rd);
        assert(a * p == z * rd && b * p == x * rd);
        lemma_mul_inequality(z * (m - 1), x * m, rd);
        lemma_mul_inequality(x * (m - 1), z * m, rd);
        assert(z * (m - 1) * rd == z * rd * (m - 1) && x * m * rd == x * rd * m && x * (m - 1) * rd
            == x * rd * (m - 1) && z * m * rd == z * rd * m) by (nonlinear_arith);
        assert(a * p * (m - 1) == a * (m - 1) * p && b * p * m == b * m * p) by (nonlinear_arith);
        assert(b * p * (m - 1) == b * (m - 1) * p && a * p * m == a * m * p) by (nonlinear_arith);
        lemma_mul_inequality_converse(a * (m - 1), b * m, p);
        lemma_mul_inequality_converse(b * (m - 1), a * m, p);
    }
}

/// Rounding a fraction that is itself off.
proof fn lemma_rounded_again(n: nat, d: nat, num: nat, den: nat, steps: nat)
    requires
        d > 0,
        below((n * den) as int, (num * d) as int, steps),
        below((num * d) as int, (n * den) as int, steps),
    ensures
        near(rounded(n, d), num, den, steps + 1),
{
    let r = rounded(n, d);
    lemma_rounded_near(n, d);
    let (rn, rd) = (r.num() as int, r.den() as int);
    let (ni, di, p, q) = (n as int, d as int, num as int, den as int);
    lemma_below_times(rn * di, ni * rd, q, 1);
    lemma_below_times(ni * rd, rn * di, q, 1);
    lemma_below_times(ni * q, p * di, rd, steps);
    lemma_below_times(p * di, ni * q, rd, steps);
    assert(rn * di * q == rn * q * di) by (nonlinear_arith);
    assert(ni * rd * q == ni * q * rd) by (nonlinear_arith);
    assert(p * di * rd == p * rd * di) by (nonlinear_arith);
    lemma_below_transitive(rn * q * di, ni * q * rd, p * rd * di, 1, steps);
    lemma_below_transitive(p * rd * di, ni * q * rd, rn * q * di, steps, 1);
    lemma_below_cancel(rn * q, p * rd, di, steps + 1);
    lemma_below_cancel(p * rd, rn * q, di, steps + 1);
}

/// A quotient of numbers that are off is off by their roundings and its own.
pub proof fn lemma_quotient_near(
    a: Dyadic,
    b: Dyadic,
    num: nat,
    den: nat,
    s: nat,
    num2: nat,
    den2: nat,
    t: nat,
)
    requires
        near(a, num, den, s),
        near(b, num2, den2, t),
        b.num() > 0,
    ensures
        near(quotient(a, b), num * den2, den * num2, s + t + 1),
{
    lemma_den_pos(a, b);
    let (an, ad, bn, bd) = (a.num() as int, a.den() as int, b.num() as int, b.den() as int);
    let (p, q, r, u) = (num as int, den as int, num2 as int, den2 as int);
    lemma_products_not_negative(p, ad, r, bd);
    lemma_products_not_negative(an, q, bn, u);
    lemma_below_product(an * q, p * ad, r * bd, bn * u, s, t);
    lemma_below_product(p * ad, an * q, bn * u, r * bd, s, t);
    assert((an * q) * (r * bd) == (an * bd) * (q * r)) by (nonlinear_arith);
    assert((p * ad) * (bn * u) == (p * u) * (ad * bn)) by (nonlinear_arith);
    assert(ad * bn > 0) by (nonlinear_arith)
        requires
            ad > 0,
            bn > 0,
    ;
    lemma_rounded_again(
        a.num() * b.den(),
        a.den() * b.num(),
        num * den2,
        den * num2,
        s + t,
    );
}

proof fn lemma_products_not_negative(a: int, b: int, c: int, d: int)
    requires
        0 <= a,
        0 <= b,
        0 <= c,
        0 <= d,
    ensures
        0 <= a * b,
        0 <= c * d,
{
    assert(0 <= a * b && 0 <= c * d) by (nonlinear_arith)
        requires
            0 <= a,
            0 <= b,
            0 <= c,
            0 <= d,
    ;
}

/// A product of numbers that are off is off by their roundings and its own.
pub proof fn lemma_product_near(
    a: Dyadic,
    b: Dyadic,
    num: nat,
    den: nat,
    s: nat,
    num2: nat,
    den2: nat,
    t: nat,
)
    requires
        near(a, num, den, s),
        near(b, num2, den2, t),
    ensures
        near(product(a, b), num * num2, den * den2, s + t + 1),
{
    lemma_den_pos(a, b);
    let (an, ad, bn, bd) = (a.num() as int, a.den() as int, b.num() as int, b.den() as int);
    let (p, q, r, u) = (num as int, den as int, num2 as int, den2 as int);
    lemma_products_not_negative(p, ad, r, bd);
    lemma_products_not_negative(an, q, bn, u);
    lemma_below_product(an * q, p * ad, bn * u, r * bd, s, t);
    lemma_below_product(p * ad, an * q, r * bd, bn * u, s, t);
    assert((an * q) * (bn * u) == (an * bn) * (q * u)) by (nonlinear_arith);
    assert((p * ad) * (r * bd) == (p * r) * (ad * bd)) by (nonlinear_arith);
    lemma_rounded_again(
        a.num() * b.num(),
        a.den() * b.den(),
        num * num2,
        den * den2,
        s + t,
    );
}

/// A sum of numbers that are off is off by their roundings and its own.
pub proof fn lemma_sum_near(
    a: Dyadic,
    b: Dyadic,
    num: nat,
    den: nat,
    num2: nat,
    den2: nat,
    s: nat,
)
    requires
        near(a, num, den, s),
        near(b, num2, den2, s),
    ensures
        near(sum(a, b), num * den2 + num2 * den, den * den2, s + 1),
{
    lemma_den_pos(a, b);
    let (an, ad, bn, bd) = (a.num() as int, a.den() as int, b.num() as int, b.den() as int);
    let (p, q, r, u) = (num as int, den as int, num2 as int, den2 as int);
    lemma_products_not_negative(bd, u, ad, q);
    lemma_below_times(an * q, p * ad, bd * u, s);
    lemma_below_times(p * ad, an * q, bd * u, s);
    lemma_below_times(bn * u, r * bd, ad * q, s);
    lemma_below_times(r * bd, bn * u, ad * q, s);
    lemma_below_plus(
        (an * q) * (bd * u),
        (p * ad) * (bd * u),
        (bn * u) * (ad * q),
        (r * bd) * (ad * q),
        s,
    );
    lemma_below_plus(
        (p * ad) * (bd * u),
        (an * q) * (bd * u),
        (r * bd) * (ad * q),
        (bn * u) * (ad * q),
        s,
    );
    lemma_over_denominators(an, ad, bn, bd, q, u);
    lemma_over_denominators(p, q, r, u, ad, bd);
    assert(bd * u == u * bd && ad * q == q * ad) by (nonlinear_arith);
    lemma_rounded_again(
        a.num() * b.den() + b.num() * a.den(),
        a.den() * b.den(),
        num * den2 + num2 * den,
        den * den2,
        s,
    );
}

/// What is off by some roundings may be off by more.
pub proof fn lemma_near_more(d: Dyadic, num: nat, den: nat, steps: nat, more: nat)
    requires
        near(d, num, den, steps),
        steps <= more,
    ensures
        near(d, num, den, more),
{
    lemma_products_not_negative(
        d.num() as int,
        den as int,
        num as int,
        d.den() as int,
    );
    lemma_below_more((d.num() * den) as int, (num * d.den()) as int, steps, more);
    lemma_below_more((num * d.den()) as int, (d.num() * den) as int, steps, more);
}

/// Whether `n` is `num / den` rounded to an integer, up to one part in `2^47`:
/// `n - 1/2 <= num / den * (1 + 2^-47)` and
/// `num / den <= (n + 1/2) * (1 + 2^-47)`.
pub open spec fn is_nearest(n: nat, num: nat, den: nat) -> bool {
    let t = 0x8000_0000_0000int;
    &&& (2 * n - 1) * (t * den) <= 2 * num * (t + 1)
    &&& 2 * num * t <= (2 * n + 1) * ((t + 1) * den)
}

/// A common factor of the fraction can be dropped.
pub proof fn lemma_is_nearest_reduced(n: nat, num: nat, den: nat, z: nat)
    requires
        z > 0,
        is_nearest(n, num * z, den * z),
    ensures
        is_nearest(n, num, den),
{
    let t = 0x8000_0000_0000int;
    let (k, p, q, zi) = (2 * n - 1, num as int, den as int, z as int);
    assert(k * (t * (q * zi)) == k * (t * q) * zi) by (nonlinear_arith);
    assert(2 * (p * zi) * (t + 1) == 2 * p * (t + 1) * zi) by (nonlinear_arith);
    assert(2 * (p * zi) * t == 2 * p * t * zi) by (nonlinear_arith);
    assert((k + 2) * ((t + 1) * (q * zi)) == (k + 2) * ((t + 1) * q) * zi) by (nonlinear_arith);
    lemma_mul_inequality_converse(k * (t * q), 2 * p * (t + 1), zi);
    lemma_mul_inequality_converse(2 * p * t, (k + 2) * ((t + 1) * q), zi);
}

/// An integer nearest to a number that is off by a few roundings is nearest
/// to the exact number, up to one part in `2^47`.
proof fn lemma_nearest_parts(n: int, a: int, b: int, num: int, den: int, steps: nat)
    requires
        0 <= n,
        0 <= a,
        0 < b,
        0 <= num,
        0 <= den,
        steps <= 16,
        below(a * den, num * b, steps),
        below(num * b, a * den, steps),
        2 * n * b <= 2 * a + b,
        2 * a <= 2 * n * b + b,
    ensures
        is_nearest(n as nat, num as nat, den as nat),
{
    let m = MANT_LOW as int;
    let t = 0x8000_0000_0000int;
    lemma_products_not_negative(a, den, num, b);
    lemma_below_parts(a * den, num * b, steps);
    lemma_below_parts(num * b, a * den, steps);
    let (x, y) = (a * den, num * b);
    assert(x * m <= y * (m + 32)) by (nonlinear_arith)
        requires
            x * m <= y * (m + 2 * steps),
            steps <= 16,
            y >= 0,
    ;
    assert(y * m <= x * (m + 32)) by (nonlinear_arith)
        requires
            y * m <= x * (m + 2 * steps),
            steps <= 16,
            x >= 0,
    ;
    assert(x * t <= y * (t + 1) && y * t <= x * (t + 1)) by (nonlinear_arith)
        requires
            x * m <= y * (m + 32),
            y * m <= x * (m + 32),
            m == 32 * t,
    ;
    // (2n - 1) * b <= 2a, times the denominator.
    assert((2 * n - 1) * b <= 2 * a && 2 * a <= (2 * n + 1) * b) by (nonlinear_arith)
        requires
            2 * n * b <= 2 * a + b,
            2 * a <= 2 * n * b + b,
    ;
    let (dt, du) = (den * t, den * (t + 1));
    assert(dt >= 0 && du >= 0) by (nonlinear_arith)
        requires
            dt == den * t,
            du == den * (t + 1),
            den >= 0,
            t > 0,
    ;
    lemma_mul_inequality((2 * n - 1) * b, 2 * a, dt);
    lemma_mul_inequality(2 * a, (2 * n + 1) * b, du);
    assert(2 * a * dt == 2 * (x * t)) by (nonlinear_arith)
        requires
            dt == den * t,
            x == a * den,
    ;
    assert(2 * a * du == 2 * (x * (t + 1))) by (nonlinear_arith)
        requires
            du == den * (t + 1),
            x == a * den,
    ;
    assert(2 * (y * (t + 1)) == 2 * num * (t + 1) * b) by (nonlinear_arith)
        requires
            y == num * b,
    ;
    assert(2 * (y * t) == 2 * num * t * b) by (nonlinear_arith)
        requires
            y == num * b,
    ;
    assert((2 * n - 1) * b * dt == (2 * n - 1) * (t * den) * b) by (nonlinear_arith)
        requires
            dt == den * t,
    ;
    assert((2 * n + 1) * b * du == (2 * n + 1) * ((t + 1) * den) * b) by (nonlinear_arith)
        requires
            du == den * (t + 1),
    ;
    lemma_mul_inequality_converse((2 * n - 1) * (t * den), 2 * num * (t + 1), b);
    lemma_mul_inequality_converse(2 * num * t, (2 * n + 1) * ((t + 1) * den), b);
}

/// The natural number nearest to a double.
pub proof fn lemma_nearest_nat_near(d: Dyadic, num: nat, den: nat, steps: nat)
    requires
        near(d, num, den, steps),
        steps <= 16,
    ensures
        is_nearest(nearest_nat(d), num, den),
{
    let (a, b) = (d.num() as int, d.den() as int);
    lemma_den_pos(d, d);
    let x = 2 * a + b;
    let n = x / (2 * b);
    lemma_fundamental_div_mod(x, 2 * b);
    lemma_mod_pos_bound(x, 2 * b);
    assert(2 * b * n == 2 * n * b) by (nonlinear_arith);
    assert(0 <= n) by (nonlinear_arith)
        requires
            x == 2 * b * n + x % (2 * b),
            x >= 0,
            x % (2 * b) < 2 * b,
            b > 0,
    ;
    lemma_nearest_parts(n, a, b, num as int, den as int, steps);
}

/// The digits in which a double is shown.
pub proof fn lemma_in_units_near(d: Dyadic, places: nat, num: nat, den: nat, steps: nat)
    requires
        near(d, num, den, steps),
        steps <= 16,
    ensures
        is_nearest(in_units(d, places), num * power_of_ten(places), den),
{
    let (a, b, k) = (d.num() as int, d.den() as int, power_of_ten(places) as int);
    let (p, q) = (num as int, den as int);
    lemma_den_pos(d, d);
    lemma_products_not_negative(a, k, p, k);
    let x = a * k;
    let n = in_units(d, places) as int;
    lemma_fundamental_div_mod(x, b);
    lemma_mod_pos_bound(x, b);
    assert(2 * n * b <= 2 * x + b && 2 * x <= 2 * n * b + b) by (nonlinear_arith)
        requires
            x == b * (x / b) + x % b,
            0 <= x % b < b,
            n == x / b && 2 * (x % b) <= b || n == x / b + 1 && 2 * (x % b) >= b,
    ;
    lemma_below_times(a * q, p * b, k, steps);
    lemma_below_times(p * b, a * q, k, steps);
    assert(a * q * k == x * q) by (nonlinear_arith)
        requires
            x == a * k,
    ;
    assert(p * b * k == p * k * b) by (nonlinear_arith);
    lemma_nearest_parts(n, x, b, p * k, q, steps);
}

} // verus!
