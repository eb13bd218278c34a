//! Points in time and lengths of time, in whole nanoseconds.

use vstd::arithmetic::mul::lemma_mul_inequality;
use vstd::arithmetic::power2::{lemma2_to64_rest, lemma_pow2_strictly_increases};
use vstd::prelude::*;

use crate::accuracy::{
    is_nearest, lemma_in_units_near, lemma_is_nearest_reduced, lemma_near_more,
    lemma_quotient_near, lemma_rounded_near, lemma_sum_near, near,
};
use crate::double::{
    in_units, lemma_rounded_below_one, lemma_rounded_fixed, lemma_rounded_ratio, lemma_sum_absorbs,
    lemma_up_pos, of_nat, quotient, sum, up, Double, Dyadic, MANT_END,
};
use crate::order::{
    at_most, lemma_den_pos, lemma_of_nat, lemma_quotient_monotone, lemma_rounded_monotone,
    lemma_rounded_normal, lemma_sum_monotone,
};
use crate::text::{decimal, power_of_ten, push_decimal};

verus! {

/// Nanoseconds in a second.
pub const NANOS_PER_SEC: u128 = 1_000_000_000;

/// A length of time.
#[derive(Clone, Copy, Debug, PartialEq, Eq, Structural)]
pub struct Duration {
    pub nanos: u128,
}

/// A point in time, counted from the Unix epoch.
#[derive(Clone, Copy, Debug, PartialEq, Eq, Structural)]
pub struct Timestamp {
    pub nanos: i128,
}

/// A number of nanoseconds as seconds in double precision: the whole seconds
/// plus the fraction, each rounded, and their sum rounded.
pub open spec fn seconds(nanos: nat) -> Dyadic {
    sum(
        of_nat(nanos / 1_000_000_000),
        quotient(of_nat(nanos % 1_000_000_000), of_nat(1_000_000_000)),
    )
}

/// Fewer nanoseconds than a second make a fraction below one.
proof fn lemma_fraction_below_one(rest: nat)
    requires
        rest < 1_000_000_000,
    ensures
        ({
            let f = quotient(of_nat(rest), of_nat(1_000_000_000));
            &&& f.num() <= f.den()
            &&& rest == 0 ==> f == Dyadic { mant: 0, exp: 0 }
            &&& rest > 0 ==> f.exp <= -53 && 0 < f.mant < MANT_END
        }),
{
    let g = 1_000_000_000int;
    let n = rest as int;
    let (a, b) = (of_nat(rest), of_nat(1_000_000_000));
    let f = quotient(a, b);
    lemma_of_nat(rest);
    lemma_of_nat(1_000_000_000);
    lemma_den_pos(a, b);
    let (t, u) = (a.den() as int, b.den() as int);
    assert(n * t * u * g == n * (t * (g * u))) by (nonlinear_arith);
    assert(t * (g * u) > 0) by (nonlinear_arith)
        requires
            t > 0,
            u > 0,
            g > 0,
    ;
    lemma_rounded_ratio((n * t * u) as nat, (t * (g * u)) as nat, rest, 1_000_000_000);
    lemma_rounded_normal(rest, 1_000_000_000);
    if rest > 0 {
        lemma_rounded_below_one(rest, 1_000_000_000);
        let k = (-f.exp) as nat;
        lemma2_to64_rest();
        if k > 53 {
            lemma_pow2_strictly_increases(53, k);
        }
        assert(f.num() == f.mant * 1);
    } else {
        assert(f.num() == 0 * 1);
    }
}

/// A length of time has a positive number of seconds unless it is empty.
pub proof fn lemma_seconds_positive(nanos: nat)
    ensures
        nanos == 0 <==> seconds(nanos).num() == 0,
{
    let (whole, rest) = (nanos / 1_000_000_000, nanos % 1_000_000_000);
    let a = of_nat(whole);
    let f = quotient(of_nat(rest), of_nat(1_000_000_000));
    lemma_rounded_normal(whole, 1);
    lemma_fraction_below_one(rest);
    lemma_den_pos(a, f);
    lemma_up_pos(f.exp);
    let (an, ad, fr, fd) = (a.num() as int, a.den() as int, f.num() as int, f.den() as int);
    assert(f.num() == 0 <==> f.mant == 0) by (nonlinear_arith)
        requires
            f.num() == f.mant * up(f.exp),
            up(f.exp) > 0,
    ;
    assert(an * fd + fr * ad == 0 <==> an == 0 && fr == 0) by (nonlinear_arith)
        requires
            an >= 0,
            fr >= 0,
            ad > 0,
            fd > 0,
    ;
    lemma_rounded_normal((an * fd + fr * ad) as nat, (ad * fd) as nat);
}

/// Seconds in double precision are off by four roundings at most.
pub proof fn lemma_seconds_near(nanos: nat)
    ensures
        near(seconds(nanos), nanos, 1_000_000_000, 4),
{
    let (whole, rest) = (nanos / 1_000_000_000, nanos % 1_000_000_000);
    let (a, r, g) = (of_nat(whole), of_nat(rest), of_nat(1_000_000_000));
    lemma_rounded_near(whole, 1);
    lemma_rounded_near(rest, 1);
    lemma_rounded_near(1_000_000_000, 1);
    lemma_rounded_normal(1_000_000_000, 1);
    lemma_quotient_near(r, g, rest, 1, 1, 1_000_000_000, 1, 1);
    lemma_near_more(a, whole, 1, 1, 3);
    lemma_sum_near(a, quotient(r, g), whole, 1, rest, 1_000_000_000, 3);
}

/// Seconds with six decimals are the nanoseconds rounded to microseconds, up
/// to one part in `2^47`.
pub proof fn law_seconds_to_the_microsecond(nanos: nat)
    ensures
        is_nearest(in_units(seconds(nanos), 6), nanos, 1_000),
{
    lemma_seconds_near(nanos);
    lemma_in_units_near(seconds(nanos), 6, nanos, 1_000_000_000, 4);
    reveal_with_fuel(power_of_ten, 7);
    let n = in_units(seconds(nanos), 6);
    assert(power_of_ten(6) == 1_000_000);
    lemma_is_nearest_reduced(n, nanos, 1_000, 1_000_000);
}

/// A longer length of time has no fewer seconds in double precision.
pub proof fn law_seconds_keep_order(shorter: nat, longer: nat)
    requires
        shorter <= longer,
    ensures
        at_most(seconds(shorter), seconds(longer)),
{
    let (w1, r1) = (shorter / 1_000_000_000, shorter % 1_000_000_000);
    let (w2, r2) = (longer / 1_000_000_000, longer % 1_000_000_000);
    let (a, b, g) = (of_nat(w1), of_nat(w2), of_nat(1_000_000_000));
    let (f, h) = (quotient(of_nat(r1), g), quotient(of_nat(r2), g));
    lemma_fraction_below_one(r1);
    lemma_den_pos(a, f);
    lemma_den_pos(b, h);
    lemma_rounded_monotone(w1, 1, w2, 1);
    lemma_of_nat(w1);
    if w1 == w2 {
        lemma_rounded_monotone(r1, 1, r2, 1);
        lemma_rounded_normal(1_000_000_000, 1);
        lemma_quotient_monotone(of_nat(r1), of_nat(r2), g);
        lemma_sum_monotone(a, f, b, h);
    } else {
        let (an, ad, bn, bd) = (a.num() as int, a.den() as int, b.num() as int, b.den() as int);
        let (fr, fd, hn, hd) = (f.num() as int, f.den() as int, h.num() as int, h.den() as int);
        if w1 < MANT_END {
            // The sum is at most `w1 + 1`, which is a double.
            let c = of_nat(w1 + 1);
            let w = w1 as int;
            lemma_of_nat(w1 + 1);
            lemma_rounded_monotone(w1 + 1, 1, w2, 1);
            lemma_den_pos(c, b);
            let cd = c.den() as int;
            assert((w + 1) * bd <= bn) by (nonlinear_arith)
                requires
                    ((w + 1) * cd) * bd <= bn * cd,
                    cd > 0,
            ;
            let (x, y) = (ad * fd, bd * hd);
            assert(an * fd + fr * ad <= (w + 1) * x) by (nonlinear_arith)
                requires
                    an == w * ad,
                    fr <= fd,
                    x == ad * fd,
                    ad > 0,
            ;
            assert((w + 1) * y <= bn * hd + hn * bd) by (nonlinear_arith)
                requires
                    (w + 1) * bd <= bn,
                    y == bd * hd,
                    hd > 0,
                    hn >= 0,
                    bd > 0,
            ;
            lemma_mul_inequality(an * fd + fr * ad, (w + 1) * x, y);
            lemma_mul_inequality((w + 1) * y, bn * hd + hn * bd, x);
            assert((w + 1) * x * y == (w + 1) * y * x) by (nonlinear_arith);
            lemma_rounded_monotone(
                (an * fd + fr * ad) as nat,
                x as nat,
                (bn * hd + hn * bd) as nat,
                y as nat,
            );
        } else {
            // The whole seconds absorb the fraction.
            lemma_rounded_normal(w1, 1);
            lemma_rounded_fixed(a);
            if r1 > 0 {
                lemma_sum_absorbs(a, f);
            } else {
                assert(f.num() == 0 * 1);
                assert(an * fd + fr * ad == an && ad * fd == ad) by (nonlinear_arith)
                    requires
                        fr == 0,
                        fd == 1,
                ;
            }
            assert(seconds(shorter) == a);
            let y = bd * hd;
            assert(an * y <= (bn * hd + hn * bd) * ad) by (nonlinear_arith)
                requires
                    an * bd <= bn * ad,
                    y == bd * hd,
                    hd > 0,
                    hn >= 0,
                    bd > 0,
                    ad > 0,
            ;
            lemma_rounded_monotone(an as nat, ad as nat, (bn * hd + hn * bd) as nat, y as nat);
        }
    }
}

impl Duration {
    /// This length in seconds, in double precision.
    pub fn as_secs(self) -> (d: Double)
        ensures
            d@ == seconds(self.nanos as nat),
            d.normal(),
            self.nanos == 0 <==> d.mant == 0,
            -200 <= d.exp <= 76,
    {
        let whole: u128 = self.nanos / NANOS_PER_SEC;
        let rest: u128 = self.nanos % NANOS_PER_SEC;
        let a = Double::from_u128(rest);
        let b = Double::from_u128(NANOS_PER_SEC);
        let fraction = a.div(b);
        proof {
            lemma_fraction_below_one(rest as nat);
        }
        Double::add_fraction(whole, fraction)
    }
}

/// A count of whole units, and the unit's name.
pub open spec fn in_unit(nanos: nat, unit: nat, name: Seq<char>) -> Seq<char> {
    decimal(nanos / unit) + name
}

/// A length of time as a whole number of the largest unit that it fills.
pub open spec fn pretty(nanos: nat) -> Seq<char> {
    if nanos >= 60_000_000_000 {
        in_unit(nanos, 60_000_000_000, "m "@)
    } else if nanos >= 1_000_000_000 {
        in_unit(nanos, 1_000_000_000, "s "@)
    } else if nanos >= 1_000_000 {
        in_unit(nanos, 1_000_000, "ms"@)
    } else if nanos >= 1_000 {
        in_unit(nanos, 1_000, "μs"@)
    } else {
        in_unit(nanos, 1, "ns"@)
    }
}

/// Formats a length of time as a whole number of the largest unit that it
/// fills, cutting off what remains: `2m `, `10s `, `52ms`, `509μs`, `7ns`.
pub fn pretty_duration(duration: Duration) -> (text: String)
    ensures
        text@ == pretty(duration.nanos as nat),
{
    let nanos: u128 = duration.nanos;
    let (unit, name): (u128, &str) = if nanos >= 60 * NANOS_PER_SEC {
        (60 * NANOS_PER_SEC, "m ")
    } else if nanos >= NANOS_PER_SEC {
        (NANOS_PER_SEC, "s ")
    } else if nanos >= 1_000_000 {
        (1_000_000, "ms")
    } else if nanos >= 1_000 {
        (1_000, "μs")
    } else {
        (1, "ns")
    };
    let mut text = String::new();
    push_decimal(&mut text, nanos / unit);
    text.append(name);
    proof {
        assert(text@ =~= decimal(nanos as nat / unit as nat) + name@);
    }
    text
}

impl Timestamp {
    /// The time that has passed since `earlier`, or `None` where `earlier` is
    /// the later of the two.
    pub fn duration_since(self, earlier: Timestamp) -> (d: Option<Duration>)
        ensures
            d == if self.nanos >= earlier.nanos {
                Some(Duration { nanos: (self.nanos - earlier.nanos) as u128 })
            } else {
                None
            },
    {
        let (a, b): (i128, i128) = (self.nanos, earlier.nanos);
        if a < b {
            None
        } else if b >= 0 || a < 0 {
            Some(Duration { nanos: (a - b) as u128 })
        } else {
            Some(Duration { nanos: a as u128 + (-(b + 1)) as u128 + 1 })
        }
    }
}

} // verus!
