//! Rounding keeps the order of numbers.

use vstd::arithmetic::div_mod::{lemma_fundamental_div_mod, lemma_mod_pos_bound};
use vstd::arithmetic::mul::{
    lemma_mul_inequality, lemma_mul_inequality_converse, lemma_mul_strict_inequality,
    lemma_mul_strict_inequality_converse,
};
use vstd::arithmetic::power2::{
    lemma2_to64, lemma_pow2_adds, lemma_pow2_pos, lemma_pow2_strictly_increases,
    lemma_pow2_unfold, pow2,
};
use vstd::prelude::*;

use crate::double::{
    carried, in_binade, lemma_binade_exists, lemma_binade_unique, lemma_nearest_even_ratio,
    lemma_nearest_even_bounds, lemma_nearest_even_whole, lemma_up_pos, nearest_even, nearest_nat,
    of_nat, product, quotient, rounded, sum, up, Dyadic, MANT_END, MANT_LOW,
};

verus! {

/// Whether `a <= b`.
pub open spec fn at_most(a: Dyadic, b: Dyadic) -> bool {
    a.num() * b.den() <= b.num() * a.den()
}

/// `2^e == 2^(e - c) / 2^(-c)`, over fractions of naturals.
pub proof fn lemma_up_scale(e: int, c: int)
    requires
        c <= e,
        c <= 0,
    ensures
        up(e) * pow2((-c) as nat) == up(-e) * pow2((e - c) as nat),
{
    lemma2_to64();
    if e > 0 {
        lemma_pow2_adds(e as nat, (-c) as nat);
        assert(e as nat + (-c) as nat == (e - c) as nat);
    } else if e < 0 {
        lemma_pow2_adds((-e) as nat, (e - c) as nat);
        assert((-e) as nat + (e - c) as nat == (-c) as nat);
    }
}

/// Two numbers compare as their mantissas do over a common power of two.
proof fn lemma_at_most(a: Dyadic, b: Dyadic, c: int)
    requires
        c <= 0,
        c <= a.exp,
        c <= b.exp,
        a.mant * pow2((a.exp - c) as nat) <= b.mant * pow2((b.exp - c) as nat),
    ensures
        at_most(a, b),
{
    lemma_up_scale(a.exp, c);
    lemma_up_scale(b.exp, c);
    lemma_up_pos(-a.exp);
    lemma_up_pos(-b.exp);
    lemma_pow2_pos((-c) as nat);
    let p = pow2((-c) as nat) as int;
    let (am, ua, va, ea) = (
        a.mant as int,
        up(a.exp) as int,
        up(-a.exp) as int,
        pow2((a.exp - c) as nat) as int,
    );
    let (bm, ub, vb, eb) = (
        b.mant as int,
        up(b.exp) as int,
        up(-b.exp) as int,
        pow2((b.exp - c) as nat) as int,
    );
    let v = va * vb;
    assert(v >= 0) by (nonlinear_arith)
        requires
            v == va * vb,
            va > 0,
            vb > 0,
    ;
    assert(am * ua * vb * p == (am * vb) * (ua * p)) by (nonlinear_arith);
    assert((am * vb) * (va * ea) == (am * ea) * (va * vb)) by (nonlinear_arith);
    assert(bm * ub * va * p == (bm * va) * (ub * p)) by (nonlinear_arith);
    assert((bm * va) * (vb * eb) == (bm * eb) * (va * vb)) by (nonlinear_arith);
    lemma_mul_inequality(am * ea, bm * eb, v);
    lemma_mul_inequality_converse(am * ua * vb, bm * ub * va, p);
}

/// Rounding to an integer keeps the order of fractions.
proof fn lemma_nearest_even_monotone(a: nat, b: nat, c: nat, d: nat)
    requires
        b > 0,
        d > 0,
        a * d <= c * b,
    ensures
        nearest_even(a, b) <= nearest_even(c, d),
{
    let y = b * d;
    let (x1, x2) = (a * d, c * b);
    assert(y > 0) by (nonlinear_arith)
        requires
            y == b * d,
            b > 0,
            d > 0,
    ;
    assert(a * (b * d) == (a * d) * b) by (nonlinear_arith);
    assert(c * (b * d) == (c * b) * d) by (nonlinear_arith);
    lemma_nearest_even_ratio(a, b, x1, y);
    lemma_nearest_even_ratio(c, d, x2, y);
    lemma_fundamental_div_mod(x1 as int, y as int);
    lemma_fundamental_div_mod(x2 as int, y as int);
    lemma_mod_pos_bound(x1 as int, y as int);
    lemma_mod_pos_bound(x2 as int, y as int);
    let (q1, r1) = ((x1 / y) as int, (x1 % y) as int);
    let (q2, r2) = ((x2 / y) as int, (x2 % y) as int);
    assert(q1 <= q2) by (nonlinear_arith)
        requires
            y * q1 + r1 <= y * q2 + r2,
            r1 >= 0,
            r2 < y,
            y > 0,
    ;
}

/// A binade's bounds over a common power of two, and what a fraction in it
/// rounds to.
pub proof fn lemma_binade_scaled(num: nat, den: nat, e: int, c: int)
    requires
        num > 0,
        den > 0,
        in_binade(num, den, e),
        c <= e,
        c <= 0,
    ensures
        ({
            let (p, s) = (pow2((-c) as nat), pow2((e - c) as nat));
            &&& MANT_LOW * (den * s) <= num * p < MANT_END * (den * s)
            &&& den * s > 0
            &&& rounded(num, den) == carried(nearest_even(num * p, den * s), e)
        }),
{
    let (p, s) = (pow2((-c) as nat) as int, pow2((e - c) as nat) as int);
    let (n, d, u, v) = (num as int, den as int, up(e) as int, up(-e) as int);
    lemma_up_scale(e, c);
    lemma_up_pos(e);
    lemma_up_pos(-e);
    lemma_pow2_pos((-c) as nat);
    lemma_pow2_pos((e - c) as nat);
    assert(d * s > 0 && d * u > 0) by (nonlinear_arith)
        requires
            d > 0,
            s > 0,
            u > 0,
    ;
    assert((d * u) * p == d * (u * p)) by (nonlinear_arith);
    assert(d * (v * s) == (d * s) * v) by (nonlinear_arith);
    assert((n * v) * p == (n * p) * v) by (nonlinear_arith);
    let (x, y) = (d * u, d * s);
    assert(x * p == y * v);
    assert(MANT_LOW * x * p == MANT_LOW * y * v) by (nonlinear_arith)
        requires
            x * p == y * v,
    ;
    assert(MANT_END * x * p == MANT_END * y * v) by (nonlinear_arith)
        requires
            x * p == y * v,
    ;
    lemma_mul_inequality(MANT_LOW * x, n * v, p);
    lemma_mul_strict_inequality(n * v, MANT_END * x, p);
    lemma_mul_inequality_converse(MANT_LOW * y, n * p, v);
    lemma_mul_strict_inequality_converse(n * p, MANT_END * y, v);
    assert((n * v) * y == (n * p) * x) by (nonlinear_arith)
        requires
            x * p == y * v,
    ;
    lemma_nearest_even_ratio((n * v) as nat, x as nat, (n * p) as nat, y as nat);
    let f = choose|f: int| in_binade(num, den, f);
    lemma_binade_unique(num, den, e, f);
}

/// Bringing a mantissa back to 53 bits keeps the number.
pub proof fn lemma_carried_scaled(m: nat, e: int, c: int)
    requires
        c <= e,
    ensures
        carried(m, e).mant * pow2((carried(m, e).exp - c) as nat) == m * pow2((e - c) as nat),
        carried(m, e).exp >= e,
{
    if m == MANT_END {
        let s = pow2((e - c) as nat);
        lemma_pow2_unfold((e + 1 - c) as nat);
        assert(pow2((e + 1 - c) as nat) == 2 * s);
        assert(MANT_LOW * (2 * s) == MANT_END * s) by (nonlinear_arith)
            requires
                MANT_END == 2 * MANT_LOW,
        ;
    }
}

/// Rounding to a double keeps the order of fractions.
pub proof fn lemma_rounded_monotone(n1: nat, d1: nat, n2: nat, d2: nat)
    requires
        d1 > 0,
        d2 > 0,
        n1 * d2 <= n2 * d1,
    ensures
        at_most(rounded(n1, d1), rounded(n2, d2)),
{
    if n1 == 0 {
        let (a, b) = (rounded(n1, d1), rounded(n2, d2));
        assert(a.num() == 0 && 0 * b.den() == 0 && b.num() * a.den() >= 0) by (nonlinear_arith)
            requires
                a.num() == 0 * up(0),
        ;
    } else {
        assert(n2 > 0) by (nonlinear_arith)
            requires
                n1 * d2 <= n2 * d1,
                n1 > 0,
                d2 > 0,
        ;
        lemma_rounded_monotone_positive(n1, d1, n2, d2);
    }
}

proof fn lemma_rounded_monotone_positive(n1: nat, d1: nat, n2: nat, d2: nat)
    requires
        n1 > 0,
        d1 > 0,
        n2 > 0,
        d2 > 0,
        n1 * d2 <= n2 * d1,
    ensures
        at_most(rounded(n1, d1), rounded(n2, d2)),
{
    let e1 = lemma_binade_exists(n1, d1);
    let e2 = lemma_binade_exists(n2, d2);
    let low = if e1 <= e2 { e1 } else { e2 };
    let c = if low <= 0 { low } else { 0 };
    lemma_binade_scaled(n1, d1, e1, c);
    lemma_binade_scaled(n2, d2, e2, c);
    let p = pow2((-c) as nat) as int;
    let (s1, s2) = (pow2((e1 - c) as nat) as int, pow2((e2 - c) as nat) as int);
    lemma_pow2_pos((-c) as nat);
    lemma_pow2_pos((e1 - c) as nat);
    lemma_pow2_pos((e2 - c) as nat);
    let (x1, y1, x2, y2) = (n1 * p, d1 * s1, n2 * p, d2 * s2);
    let (a1, a2) = (n1 * d2, n2 * d1);
    assert(x1 * d2 == a1 * p) by (nonlinear_arith)
        requires
            x1 == n1 * p,
            a1 == n1 * d2,
    ;
    assert(x2 * d1 == a2 * p) by (nonlinear_arith)
        requires
            x2 == n2 * p,
            a2 == n2 * d1,
    ;
    lemma_mul_inequality(a1 as int, a2 as int, p);
    if e1 > e2 {
        // The lower bound of the first fraction is beyond the upper bound of
        // the second.
        lemma_pow2_unfold((e2 + 1 - c) as nat);
        if e1 > e2 + 1 {
            lemma_pow2_strictly_increases((e2 + 1 - c) as nat, (e1 - c) as nat);
        }
        let d = d1 * d2;
        assert(d > 0) by (nonlinear_arith)
            requires
                d == d1 * d2,
                d1 > 0,
                d2 > 0,
        ;
        lemma_mul_inequality(MANT_LOW * y1, x1, d2 as int);
        lemma_mul_strict_inequality(x2, MANT_END * y2, d1 as int);
        assert(MANT_LOW * y1 * d2 == MANT_LOW * (d * s1)) by (nonlinear_arith)
            requires
                y1 == d1 * s1,
                d == d1 * d2,
        ;
        assert(MANT_END * y2 * d1 == MANT_END * (d * s2)) by (nonlinear_arith)
            requires
                y2 == d2 * s2,
                d == d1 * d2,
        ;
        assert(d * s1 >= 2 * (d * s2)) by (nonlinear_arith)
            requires
                s1 >= 2 * s2,
                d > 0,
        ;
        assert(false);
    }
    let (m1, m2) = (nearest_even(x1 as nat, y1 as nat), nearest_even(x2 as nat, y2 as nat));
    assert(m1 * s1 <= m2 * s2) by {
        if e1 == e2 {
            assert(x1 * y2 == (x1 * d2) * s2) by (nonlinear_arith)
                requires
                    y2 == d2 * s2,
            ;
            assert(x2 * y1 == (x2 * d1) * s2) by (nonlinear_arith)
                requires
                    y1 == d1 * s2,
            ;
            lemma_mul_inequality(x1 * d2, x2 * d1, s2);
            lemma_nearest_even_monotone(x1 as nat, y1 as nat, x2 as nat, y2 as nat);
            lemma_mul_inequality(m1 as int, m2 as int, s1);
        } else {
            lemma_nearest_even_bounds(x1 as nat, y1 as nat);
            lemma_nearest_even_bounds(x2 as nat, y2 as nat);
            lemma_pow2_unfold((e1 + 1 - c) as nat);
            if e1 + 1 < e2 {
                lemma_pow2_strictly_increases((e1 + 1 - c) as nat, (e2 - c) as nat);
            }
            assert(m1 * s1 <= m2 * s2) by (nonlinear_arith)
                requires
                    m1 <= MANT_END,
                    MANT_LOW <= m2,
                    MANT_END == 2 * MANT_LOW,
                    2 * s1 <= s2,
                    s1 > 0,
            ;
        }
    }
    lemma_carried_scaled(m1, e1, c);
    lemma_carried_scaled(m2, e2, c);
    lemma_at_most(rounded(n1, d1), rounded(n2, d2), c);
}

/// A positive fraction rounds to a number with its full 53 bits.
pub proof fn lemma_rounded_normal(num: nat, den: nat)
    requires
        den > 0,
    ensures
        num == 0 <==> rounded(num, den).mant == 0,
        num > 0 ==> MANT_LOW <= rounded(num, den).mant < MANT_END,
        rounded(num, den).num() == 0 <==> num == 0,
{
    let r = rounded(num, den);
    if num > 0 {
        let e = lemma_binade_exists(num, den);
        let c = if e <= 0 { e } else { 0 };
        lemma_binade_scaled(num, den, e, c);
        lemma_nearest_even_bounds(num * pow2((-c) as nat), den * pow2((e - c) as nat));
    }
    lemma_up_pos(r.exp);
    assert(r.num() == 0 <==> r.mant == 0) by (nonlinear_arith)
        requires
            r.num() == r.mant * up(r.exp),
            up(r.exp) > 0,
    ;
}

/// Natural numbers of up to 53 bits are doubles; from there on a double is a
/// multiple of two.
pub proof fn lemma_of_nat(n: nat)
    ensures
        n <= MANT_END ==> of_nat(n).num() == n * of_nat(n).den(),
        n >= MANT_END ==> of_nat(n).exp >= 1,
{
    lemma2_to64();
    if n > 0 {
        let e = lemma_binade_exists(n, 1);
        let f = choose|f: int| in_binade(n, 1, f);
        lemma_binade_unique(n, 1, e, f);
        if e <= 0 {
            let v = up(-e);
            lemma_up_pos(-e);
            assert(n < MANT_END) by (nonlinear_arith)
                requires
                    n * v < MANT_END,
                    v >= 1,
            ;
            lemma_nearest_even_whole(n * v);
            assert(of_nat(n).num() == (n * v) * 1);
        } else {
            let u = pow2(e as nat);
            lemma_pow2_unfold(e as nat);
            lemma_pow2_pos((e - 1) as nat);
            if n == MANT_END {
                if e > 1 {
                    lemma_pow2_strictly_increases(1, e as nat);
                    lemma_pow2_unfold(2);
                    if e > 2 {
                        lemma_pow2_strictly_increases(2, e as nat);
                    }
                }
                assert(MANT_LOW * u <= MANT_END);
                assert(e == 1);
                assert(n * 1 == n);
                assert(nearest_even(n, 2) == MANT_LOW);
                assert(of_nat(n) == Dyadic { mant: MANT_LOW as nat, exp: 1 });
            } else {
                assert(n > MANT_END) by (nonlinear_arith)
                    requires
                        MANT_LOW * u <= n * 1,
                        n != MANT_END,
                        u >= 2,
                        MANT_END == 2 * MANT_LOW,
                ;
            }
        }
    } else {
        assert(of_nat(0).num() == 0 * 1);
        assert(0 * of_nat(0).den() == 0);
    }
}

/// `a / b + c / d` over the denominators `b * x` and `d * y`.
pub proof fn lemma_over_denominators(a: int, b: int, c: int, d: int, x: int, y: int)
    ensures
        (a * d + c * b) * (x * y) == (a * x) * (d * y) + (c * y) * (b * x),
{
    let (p, q, r) = (a * d, c * b, x * y);
    assert((p + q) * r == p * r + q * r) by (nonlinear_arith);
    assert((a * d) * (x * y) == (a * x) * (d * y)) by (nonlinear_arith);
    assert((c * b) * (x * y) == (c * y) * (b * x)) by (nonlinear_arith);
}

/// A sum keeps the order of its operands.
pub proof fn lemma_sum_monotone(a1: Dyadic, f1: Dyadic, a2: Dyadic, f2: Dyadic)
    requires
        at_most(a1, a2),
        at_most(f1, f2),
    ensures
        at_most(sum(a1, f1), sum(a2, f2)),
{
    lemma_den_pos(a1, f1);
    lemma_den_pos(a2, f2);
    let (an1, ad1, an2, ad2) = (a1.num() as int, a1.den() as int, a2.num() as int, a2.den() as int);
    let (fn1, fd1, fn2, fd2) = (f1.num() as int, f1.den() as int, f2.num() as int, f2.den() as int);
    let (ad, fd) = (ad1 * ad2, fd1 * fd2);
    lemma_over_denominators(an1, ad1, fn1, fd1, ad2, fd2);
    lemma_over_denominators(an2, ad2, fn2, fd2, ad1, fd1);
    assert(ad2 * ad1 == ad && fd2 * fd1 == fd) by (nonlinear_arith)
        requires
            ad == ad1 * ad2,
            fd == fd1 * fd2,
    ;
    lemma_mul_inequality(an1 * ad2, an2 * ad1, fd);
    lemma_mul_inequality(fn1 * fd2, fn2 * fd1, ad);
    lemma_rounded_monotone(
        a1.num() * f1.den() + f1.num() * a1.den(),
        a1.den() * f1.den(),
        a2.num() * f2.den() + f2.num() * a2.den(),
        a2.den() * f2.den(),
    );
}

/// A quotient keeps the order of its dividends.
pub proof fn lemma_quotient_monotone(a1: Dyadic, a2: Dyadic, b: Dyadic)
    requires
        at_most(a1, a2),
        b.num() > 0,
    ensures
        at_most(quotient(a1, b), quotient(a2, b)),
{
    lemma_den_pos(a1, b);
    lemma_den_pos(a2, b);
    let (n1, d1, n2, d2) = (a1.num() as int, a1.den() as int, a2.num() as int, a2.den() as int);
    let (bn, bd) = (b.num() as int, b.den() as int);
    let w = bd * bn;
    assert(w >= 0 && d1 * bn > 0 && d2 * bn > 0) by (nonlinear_arith)
        requires
            w == bd * bn,
            bn > 0,
            bd > 0,
            d1 > 0,
            d2 > 0,
    ;
    assert(n1 * bd * (d2 * bn) == (n1 * d2) * w) by (nonlinear_arith)
        requires
            w == bd * bn,
    ;
    assert(n2 * bd * (d1 * bn) == (n2 * d1) * w) by (nonlinear_arith)
        requires
            w == bd * bn,
    ;
    lemma_mul_inequality(n1 * d2, n2 * d1, w);
    lemma_rounded_monotone(
        a1.num() * b.den(),
        a1.den() * b.num(),
        a2.num() * b.den(),
        a2.den() * b.num(),
    );
}

/// A product keeps the order of its first operands.
pub proof fn lemma_product_monotone(a1: Dyadic, a2: Dyadic, b: Dyadic)
    requires
        at_most(a1, a2),
    ensures
        at_most(product(a1, b), product(a2, b)),
{
    lemma_den_pos(a1, b);
    lemma_den_pos(a2, b);
    let (n1, d1, n2, d2) = (a1.num() as int, a1.den() as int, a2.num() as int, a2.den() as int);
    let (bn, bd) = (b.num() as int, b.den() as int);
    let w = bn * bd;
    assert(w >= 0) by (nonlinear_arith)
        requires
            w == bn * bd,
            bn >= 0,
            bd > 0,
    ;
    assert(n1 * bn * (d2 * bd) == (n1 * d2) * w) by (nonlinear_arith)
        requires
            w == bn * bd,
    ;
    assert(n2 * bn * (d1 * bd) == (n2 * d1) * w) by (nonlinear_arith)
        requires
            w == bn * bd,
    ;
    lemma_mul_inequality(n1 * d2, n2 * d1, w);
    lemma_rounded_monotone(
        a1.num() * b.num(),
        a1.den() * b.den(),
        a2.num() * b.num(),
        a2.den() * b.den(),
    );
}

/// Rounding to the nearest natural number keeps the order.
pub proof fn lemma_nearest_nat_monotone(a: Dyadic, b: Dyadic)
    requires
        at_most(a, b),
    ensures
        nearest_nat(a) <= nearest_nat(b),
{
    lemma_den_pos(a, b);
    let (n1, d1, n2, d2) = (a.num() as int, a.den() as int, b.num() as int, b.den() as int);
    let (x1, x2) = (2 * n1 + d1, 2 * n2 + d2);
    let (y1, y2) = (2 * d1, 2 * d2);
    lemma_fundamental_div_mod(x1, y1);
    lemma_fundamental_div_mod(x2, y2);
    lemma_mod_pos_bound(x1, y1);
    lemma_mod_pos_bound(x2, y2);
    let (q1, q2) = (x1 / y1, x2 / y2);
    if q1 > q2 {
        // Then `b < q2 + 1/2 <= q1 - 1/2 <= a`.
        assert(x1 >= y1 * q1);
        assert(x2 < y2 * (q2 + 1)) by (nonlinear_arith)
            requires
                x2 == y2 * q2 + x2 % y2,
                x2 % y2 < y2,
        ;
        assert(y2 * (q2 + 1) <= y2 * q1) by (nonlinear_arith)
            requires
                q2 + 1 <= q1,
                y2 > 0,
        ;
        assert(2 * n1 >= d1 * (2 * q1 - 1)) by (nonlinear_arith)
            requires
                2 * n1 + d1 >= 2 * d1 * q1,
        ;
        assert(2 * n2 < d2 * (2 * q1 - 1)) by (nonlinear_arith)
            requires
                2 * n2 + d2 < 2 * d2 * q1,
        ;
        let k = 2 * q1 - 1;
        lemma_mul_inequality(d1 * k, 2 * n1, d2);
        lemma_mul_strict_inequality(2 * n2, d2 * k, d1);
        assert(d1 * k * d2 == d2 * k * d1) by (nonlinear_arith);
        assert(2 * n1 * d2 == 2 * (n1 * d2)) by (nonlinear_arith);
        assert(2 * n2 * d1 == 2 * (n2 * d1)) by (nonlinear_arith);
    }
}

/// Denominators, and their products, are positive.
pub proof fn lemma_den_pos(a: Dyadic, b: Dyadic)
    ensures
        a.den() > 0,
        b.den() > 0,
        a.den() * b.den() > 0,
{
    lemma_up_pos(-a.exp);
    lemma_up_pos(-b.exp);
    assert(a.den() * b.den() > 0) by (nonlinear_arith)
        requires
            a.den() > 0,
            b.den() > 0,
    ;
}

} // verus!
