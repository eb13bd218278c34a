//! How numbers and lengths of time are written.

use vstd::arithmetic::div_mod::{lemma_fundamental_div_mod, lemma_mod_pos_bound};
use vstd::prelude::*;

use crate::accuracy::is_nearest;
use crate::double::{
    fixed, float_of_bits, in_units, nearest_even, Double, Dyadic, Float, MANT_END, MANT_LOW,
};
use crate::format::{
    bytes_text, law_sizes_are_exact, law_streaming_duration_is_accurate, peak_rss_line_text,
    signed_delta, signed_kb_text, streaming_duration_text, streaming_rss_text, streaming_value, RssSample,
};
use crate::order::lemma_den_pos;
use crate::text::{decimal, last_digits, padded_left, padded_right, power_of_ten};
use crate::time::pretty;

verus! {

/// Decimal notation: a digit for a number below ten, and a further digit for
/// every further power.
pub proof fn law_decimal_notation(n: nat, d: nat)
    requires
        d < 10,
    ensures
        decimal(d) == seq!["0123456789"@[d as int]],
        n > 0 ==> decimal(10 * n + d) == decimal(n).push("0123456789"@[d as int]),
{
    reveal_strlit("0123456789");
    assert((10 * n + d) / 10 == n && (10 * n + d) % 10 == d);
}

/// Digits after the point: as many as are asked for, a further one for every
/// further power of ten.
pub proof fn law_decimals(n: nat, d: nat, places: nat)
    requires
        d < 10,
    ensures
        last_digits(n, places).len() == places,
        last_digits(10 * n + d, places + 1) == last_digits(n, places).push(
            "0123456789"@[d as int],
        ),
    decreases places,
{
    reveal_strlit("0123456789");
    assert((10 * n + d) / 10 == n && (10 * n + d) % 10 == d);
    if places > 0 {
        law_decimals(n / 10, d, (places - 1) as nat);
    }
}

/// Rounding to an integer: no other is nearer, and of two that are equally
/// near it is the even one.
pub proof fn law_rounding_is_to_the_nearest(num: nat, den: nat)
    requires
        den > 0,
    ensures
        2 * num <= 2 * (nearest_even(num, den) * den) + den,
        2 * (nearest_even(num, den) * den) <= 2 * num + den,
        2 * num == 2 * (nearest_even(num, den) * den) + den || 2 * (nearest_even(num, den) * den)
            == 2 * num + den ==> nearest_even(num, den) % 2 == 0,
{
    let (x, y) = (num as int, den as int);
    let n = nearest_even(num, den) as int;
    lemma_fundamental_div_mod(x, y);
    lemma_mod_pos_bound(x, y);
    let (q, r) = (x / y, x % y);
    assert((q + 1) * y == q * y + y && y * q == q * y) by (nonlinear_arith);
    assert(n == q || n == q + 1);
}

/// A number is shown with `places` digits after the point: as a count of units
/// of the last place that is nearest to it.
pub proof fn law_fixed_notation(d: Dyadic, places: nat)
    ensures
        ({
            let units = in_units(d, places);
            let exact = d.num() * power_of_ten(places);
            &&& fixed(d, places) == decimal(units / power_of_ten(places)) + "."@ + last_digits(
                units,
                places,
            )
            &&& 2 * exact <= 2 * (units * d.den()) + d.den()
            &&& 2 * (units * d.den()) <= 2 * exact + d.den()
        }),
{
    lemma_den_pos(d, d);
    law_rounding_is_to_the_nearest(d.num() * power_of_ten(places), d.den());
    reveal_strlit(".");
    let whole = decimal(in_units(d, places) / power_of_ten(places));
    assert(whole.push('.') =~= whole + "."@);
}

/// What the bits of a double stand for: a sign bit, eleven bits of exponent
/// and 52 bits of mantissa.
pub proof fn law_bits_of_doubles(negative: bool, exponent: u64, mantissa: u64, bits: u64)
    requires
        exponent < 0x800,
        mantissa < MANT_LOW,
        bits == exponent * 0x10_0000_0000_0000 + mantissa + if negative {
            0x8000_0000_0000_0000int
        } else {
            0
        },
    ensures
        0 < exponent < 0x7ff ==> float_of_bits(bits) == (Float::Finite {
            negative,
            magnitude: Double {
                mant: (MANT_LOW + mantissa) as u64,
                exp: (exponent - 1075) as i32,
            },
        }),
        exponent == 0 ==> float_of_bits(bits) == (Float::Finite {
            negative,
            magnitude: Double { mant: mantissa, exp: (-1074) as i32 },
        }),
        exponent == 0x7ff && mantissa == 0 ==> float_of_bits(bits) == (Float::Infinite {
            negative,
        }),
        exponent == 0x7ff && mantissa > 0 ==> float_of_bits(bits) is NotANumber,
{
}

/// Padding keeps the text, adds only spaces, on the right or on the left, and
/// reaches the width.
pub proof fn law_padding(s: Seq<char>, width: nat)
    ensures
        ({
            let (r, l) = (padded_right(s, width), padded_left(s, width));
            let len = if s.len() < width {
                width
            } else {
                s.len()
            };
            &&& r.len() == len && l.len() == len
            &&& r.take(s.len() as int) == s
            &&& l.skip(len - s.len()) == s
            &&& forall|i: int| s.len() <= i < len ==> #[trigger] r[i] == ' '
            &&& forall|i: int| 0 <= i < len - s.len() ==> #[trigger] l[i] == ' '
        }),
{
    let (r, l) = (padded_right(s, width), padded_left(s, width));
    assert(r.take(s.len() as int) =~= s);
    assert(l.skip(l.len() - s.len()) =~= s);
}

/// The timeline shows a length of time as the whole minutes, seconds,
/// milliseconds, microseconds or nanoseconds in it: the largest of these units
/// that it fills.
pub proof fn law_pretty_durations(nanos: nat, count: nat)
    ensures
        60_000_000_000 <= nanos && count * 60_000_000_000 <= nanos < (count + 1) * 60_000_000_000
            ==> pretty(nanos) == decimal(count) + "m "@,
        1_000_000_000 <= nanos < 60_000_000_000 && count * 1_000_000_000 <= nanos < (count + 1)
            * 1_000_000_000 ==> pretty(nanos) == decimal(count) + "s "@,
        1_000_000 <= nanos < 1_000_000_000 && count * 1_000_000 <= nanos < (count + 1) * 1_000_000
            ==> pretty(nanos) == decimal(count) + "ms"@,
        1_000 <= nanos < 1_000_000 && count * 1_000 <= nanos < (count + 1) * 1_000 ==> pretty(nanos)
            == decimal(count) + "μs"@,
        nanos < 1_000 ==> pretty(nanos) == decimal(nanos) + "ns"@,
{
    assert(nanos / 1 == nanos) by (nonlinear_arith);
}

/// Streaming shows a length of time below a microsecond in nanoseconds, and
/// others in hundredths of microseconds, milliseconds, seconds, minutes or
/// hours, rounded to the nearest up to one part in `2^47`.
pub proof fn law_streaming_durations(nanos: nat) -> (hundredths: nat)
    ensures
        nanos < 1_000 ==> streaming_duration_text(nanos) == decimal(nanos) + "ns"@,
        nanos >= 1_000 ==> {
            let (unit, name) = if nanos < 1_000_000 {
                (1_000nat, "μs"@)
            } else if nanos < 1_000_000_000 {
                (1_000_000nat, "ms"@)
            } else if nanos < 60_000_000_000 {
                (1_000_000_000nat, "s"@)
            } else if nanos < 3_600_000_000_000 {
                (60_000_000_000nat, "m"@)
            } else {
                (3_600_000_000_000nat, "h"@)
            };
            &&& is_nearest(hundredths, nanos * 100, unit)
            &&& streaming_duration_text(nanos) == decimal(hundredths / 100) + "."@ + last_digits(
                hundredths,
                2,
            ) + name
        },
{
    reveal_with_fuel(power_of_ten, 3);
    let hundredths = in_units(streaming_value(nanos), 2);
    if nanos >= 1_000 {
        law_streaming_duration_is_accurate(nanos);
        law_fixed_notation(streaming_value(nanos), 2);
    }
    hundredths
}

/// Sizes up to `2^53` kilobytes are shown in hundredths of kilobytes below a
/// megabyte, of megabytes below a gigabyte, and of gigabytes: the nearest
/// hundredth, and of two that are equally near the even one.
pub proof fn law_sizes(kb: nat) -> (hundredths: nat)
    requires
        kb <= MANT_END,
    ensures
        ({
            let (unit, name) = if kb < 1024 {
                (1nat, " KiB"@)
            } else if kb < 1048576 {
                (1024nat, " MiB"@)
            } else {
                (1048576nat, " GiB"@)
            };
            &&& 2 * (hundredths * unit) <= 200 * kb + unit
            &&& 200 * kb <= 2 * (hundredths * unit) + unit
            &&& 2 * (hundredths * unit) == 200 * kb + unit || 200 * kb == 2 * (hundredths * unit)
                + unit ==> hundredths % 2 == 0
            &&& bytes_text(kb) == decimal(hundredths / 100) + "."@ + last_digits(hundredths, 2)
                + name
        }),
{
    let unit = if kb < 1024 {
        1nat
    } else if kb < 1048576 {
        1024nat
    } else {
        1048576nat
    };
    let hundredths = nearest_even(kb * 100, unit);
    law_sizes_are_exact(kb);
    law_rounding_is_to_the_nearest(kb * 100, unit);
    reveal_strlit(".");
    let whole = decimal(hundredths / 100);
    assert(whole.push('.') =~= whole + "."@);
    hundredths
}

/// A change in size is shown with its sign: it is the difference as a 64-bit
/// two's complement number, which is the difference itself between sizes below
/// `2^63` kilobytes.
pub proof fn law_changes(start_kb: u64, end_kb: u64) -> (delta: int)
    ensures
        -0x8000_0000_0000_0000 <= delta < 0x8000_0000_0000_0000,
        delta == end_kb - start_kb || delta == end_kb - start_kb + 0x1_0000_0000_0000_0000 || delta
            == end_kb - start_kb - 0x1_0000_0000_0000_0000,
        delta >= 0 ==> signed_kb_text(start_kb as nat, end_kb as nat) == "+"@ + bytes_text(
            delta as nat,
        ),
        delta < 0 ==> signed_kb_text(start_kb as nat, end_kb as nat) == "-"@ + bytes_text(
            (-delta) as nat,
        ),
{
    signed_delta(start_kb as int, end_kb as int)
}

/// The RAM part of a streaming line shows the change with its sign: what was
/// added where memory did not shrink, and what was freed where it did. The peak
/// is that of the end.
pub proof fn law_change_has_its_sign(start: RssSample, end: RssSample)
    requires
        start.current_kb != 0 || start.peak_kb != 0 || end.current_kb != 0 || end.peak_kb != 0,
        start.current_kb <= i64::MAX,
        end.current_kb <= i64::MAX,
    ensures
        streaming_rss_text(start, end) == "  ── RAM Δ "@ + (if end.current_kb >= start.current_kb {
            "+"@ + bytes_text((end.current_kb - start.current_kb) as nat)
        } else {
            "-"@ + bytes_text((start.current_kb - end.current_kb) as nat)
        }) + " peak "@ + bytes_text(end.peak_kb as nat),
{
}

/// Where nothing was sampled, a streaming line has no RAM part.
pub proof fn law_no_sample_no_change(start: RssSample, end: RssSample)
    requires
        start.current_kb == 0 && start.peak_kb == 0 && end.current_kb == 0 && end.peak_kb == 0,
    ensures
        streaming_rss_text(start, end).len() == 0,
{
}

/// The peak-RSS line: the span's name, the peak in bytes, and the peak as a
/// size. There is none for a peak of zero.
pub proof fn law_peak_lines(name: Seq<char>, peak_kb: nat)
    ensures
        peak_kb == 0 ==> peak_rss_line_text(name, peak_kb) is None,
        0 < peak_kb <= u64::MAX / 1024 ==> peak_rss_line_text(name, peak_kb) == Some(
            "[texray] "@ + name + " peak-rss-bytes="@ + decimal(1024 * peak_kb) + " ("@
                + bytes_text(peak_kb) + ")"@,
        ),
        peak_kb > u64::MAX / 1024 ==> peak_rss_line_text(name, peak_kb) == Some(
            "[texray] "@ + name + " peak-rss-bytes=18446744073709551615 ("@ + bytes_text(peak_kb)
                + ")"@,
        ),
{
    if peak_kb > u64::MAX / 1024 {
        lemma_largest_in_decimal();
        reveal_strlit(" peak-rss-bytes=18446744073709551615 (");
        reveal_strlit(" peak-rss-bytes=");
        reveal_strlit("18446744073709551615");
        reveal_strlit(" (");
        assert(" peak-rss-bytes="@ + "18446744073709551615"@ + " ("@
            =~= " peak-rss-bytes=18446744073709551615 ("@);
        assert("[texray] "@ + name + " peak-rss-bytes="@ + "18446744073709551615"@ + " ("@
            + bytes_text(peak_kb) + ")"@ =~= "[texray] "@ + name + (" peak-rss-bytes="@
            + "18446744073709551615"@ + " ("@) + bytes_text(peak_kb) + ")"@);
    }
}

proof fn lemma_largest_in_decimal()
    ensures
        decimal(18446744073709551615) == "18446744073709551615"@,
{
    reveal_strlit("18446744073709551615");
    reveal_with_fuel(decimal, 21);
    assert(decimal(18446744073709551615) =~= "18446744073709551615"@);
}

} // verus!
