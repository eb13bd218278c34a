//! Human-readable sizes and durations, and the lines of streaming mode.

use vstd::arithmetic::power2::{lemma2_to64, lemma_pow2_pos, pow2};
use vstd::prelude::*;

use crate::accuracy::{
    is_nearest, lemma_in_units_near, lemma_quotient_near, lemma_rounded_near, near,
};
use crate::double::{
    fixed, in_units, lemma_nearest_even_ratio, lemma_rounded_fixed, lemma_rounded_ratio,
    lemma_up_adds, nearest_even, of_nat, quotient, up, Double, Dyadic, MANT_END,
};
use crate::order::{lemma_den_pos, lemma_of_nat, lemma_rounded_normal};
use crate::proc_status::{
    first_word, law_decimal_reads_back, lemma_first_word_is_decimal, parsed_unsigned, starts_with,
};
use crate::text::{decimal, last_digits, power_of_ten, push_decimal};
use crate::time::Duration;

verus! {

/// Snapshot of the process's resident-set size, in kilobytes.
///
/// `current_kb` is `VmRSS` (live RSS at sample time); `peak_kb` is `VmHWM`
/// (the highest RSS the process has reached). Both are zero where nothing was
/// sampled.
#[derive(Clone, Copy, Debug, PartialEq, Eq, Structural)]
pub struct RssSample {
    pub current_kb: u64,
    pub peak_kb: u64,
}

impl Default for RssSample {
    fn default() -> (sample: Self)
        ensures
            sample == (RssSample { current_kb: 0, peak_kb: 0 }),
    {
        RssSample { current_kb: 0, peak_kb: 0 }
    }
}

impl RssSample {
    /// Whether nothing was sampled.
    pub fn is_zero(&self) -> (zero: bool)
        ensures
            zero == (*self == RssSample { current_kb: 0, peak_kb: 0 }),
    {
        self.current_kb == 0 && self.peak_kb == 0
    }
}

/// A number of kilobytes with two decimals, in the unit that suits it.
pub open spec fn bytes_text(kb: nat) -> Seq<char> {
    if kb < 1024 {
        fixed(of_nat(kb), 2) + " KiB"@
    } else if kb < 1024 * 1024 {
        fixed(quotient(of_nat(kb), of_nat(1024)), 2) + " MiB"@
    } else {
        fixed(quotient(of_nat(kb), of_nat(1024 * 1024)), 2) + " GiB"@
    }
}

/// Formats a number of kilobytes: `512.00 KiB`, `2.00 MiB`, `2.00 GiB`.
pub fn format_bytes(kb: u64) -> (text: String)
    ensures
        text@ == bytes_text(kb as nat),
{
    let size = Double::from_u128(kb as u128);
    let mut text = String::new();
    if kb < 1024 {
        size.push_fixed(&mut text, 2);
        text.append(" KiB");
    } else if kb < 1024 * 1024 {
        size.div(Double::from_u128(1024)).push_fixed(&mut text, 2);
        text.append(" MiB");
    } else {
        size.div(Double::from_u128(1024 * 1024)).push_fixed(&mut text, 2);
        text.append(" GiB");
    }
    assert(text@ =~= bytes_text(kb as nat));
    text
}

/// Sizes are shown exactly: in hundredths of their unit, rounded to the
/// nearest, ties to even. Sizes from `2^53` kilobytes on are not all doubles.
pub proof fn law_sizes_are_exact(kb: nat)
    requires
        kb <= MANT_END,
    ensures
        ({
            let (unit, name) = if kb < 1024 {
                (1nat, " KiB"@)
            } else if kb < 1024 * 1024 {
                (1024nat, " MiB"@)
            } else {
                ((1024 * 1024) as nat, " GiB"@)
            };
            let hundredths = nearest_even(kb * 100, unit);
            bytes_text(kb) == decimal(hundredths / 100).push('.') + last_digits(hundredths, 2)
                + name
        }),
{
    reveal_with_fuel(power_of_ten, 3);
    lemma2_to64();
    if kb < 1024 {
        lemma_of_nat(kb);
        lemma_exact_hundredths(of_nat(kb), kb, 1);
    } else if kb < 1024 * 1024 {
        lemma_power_of_two_quotient(kb, 10);
        lemma_exact_hundredths(quotient(of_nat(kb), of_nat(1024)), kb, 1024);
    } else {
        lemma_power_of_two_quotient(kb, 20);
        lemma_exact_hundredths(quotient(of_nat(kb), of_nat(1024 * 1024)), kb, 1024 * 1024);
    }
}

proof fn lemma_exact_hundredths(d: Dyadic, num: nat, den: nat)
    requires
        d.num() * den == num * d.den(),
        den > 0,
    ensures
        in_units(d, 2) == nearest_even(num * 100, den),
{
    reveal_with_fuel(power_of_ten, 3);
    lemma_den_pos(d, d);
    let (a, b) = (d.num(), d.den());
    assert((a * 100) * den == (num * 100) * b) by (nonlinear_arith)
        requires
            a * den == num * b,
    ;
    lemma_nearest_even_ratio(a * 100, b, num * 100, den);
}

/// Dividing by a power of two changes the exponent alone.
proof fn lemma_power_of_two_quotient(n: nat, k: nat)
    requires
        0 < n <= MANT_END,
        0 < k <= 53,
        pow2(k) <= MANT_END,
    ensures
        quotient(of_nat(n), of_nat(pow2(k))).num() * pow2(k) == n * quotient(
            of_nat(n),
            of_nat(pow2(k)),
        ).den(),
{
    let (a, b) = (of_nat(n), of_nat(pow2(k)));
    let p = pow2(k) as int;
    let d = Dyadic { mant: a.mant, exp: a.exp - k };
    lemma_pow2_pos(k);
    lemma_of_nat(n);
    lemma_of_nat(pow2(k));
    lemma_rounded_normal(n, 1);
    lemma_rounded_normal(pow2(k), 1);
    lemma_den_pos(a, b);
    lemma_den_pos(a, d);
    let (an, ad, bn, bd, dn, dd) = (
        a.num() as int,
        a.den() as int,
        b.num() as int,
        b.den() as int,
        d.num() as int,
        d.den() as int,
    );
    // d == a / 2^k
    lemma_up_adds(d.exp, k as int);
    assert(d.exp + k == a.exp);
    let (ua, ud, m) = (up(a.exp) as int, up(d.exp) as int, a.mant as int);
    assert(ud * p * ad == dd * 1 * ua);
    assert(dn * p * ad == dd * an) by (nonlinear_arith)
        requires
            dn == m * ud,
            an == m * ua,
            ud * p * ad == dd * 1 * ua,
    ;
    let i = n as int;
    assert(dn * p == i * dd) by (nonlinear_arith)
        requires
            dn * p * ad == dd * an,
            an == i * ad,
            ad > 0,
    ;
    // a / b and d are the same fraction, and d is a double.
    assert(ad * bn > 0) by (nonlinear_arith)
        requires
            ad > 0,
            bn == p * bd,
            p > 0,
            bd > 0,
    ;
    assert((an * bd) * dd == dn * (ad * bn)) by (nonlinear_arith)
        requires
            an == i * ad,
            bn == p * bd,
            dn * p == i * dd,
    ;
    lemma_rounded_ratio((an * bd) as nat, (ad * bn) as nat, dn as nat, dd as nat);
    lemma_rounded_fixed(d);
}

/// `end - start` as a 64-bit two's complement number.
pub open spec fn signed_delta(start: int, end: int) -> int {
    let d = end - start;
    if d >= 0x8000_0000_0000_0000 {
        d - 0x1_0000_0000_0000_0000
    } else if d < -0x8000_0000_0000_0000 {
        d + 0x1_0000_0000_0000_0000
    } else {
        d
    }
}

/// A change in kilobytes, with its sign.
pub open spec fn signed_kb_text(start_kb: nat, end_kb: nat) -> Seq<char> {
    let d = signed_delta(start_kb as int, end_kb as int);
    if d >= 0 {
        "+"@ + bytes_text(d as nat)
    } else {
        "-"@ + bytes_text((-d) as nat)
    }
}

/// Formats the change from `start_kb` to `end_kb`: `+2.00 MiB`, `-2.00 MiB`.
///
/// The difference is taken in 64-bit two's complement: it wraps where it
/// does not fit.
pub fn format_signed_kb(start_kb: u64, end_kb: u64) -> (text: String)
    ensures
        text@ == signed_kb_text(start_kb as nat, end_kb as nat),
{
    let (sign, mag): (&str, u64) = if end_kb >= start_kb {
        let d: u64 = end_kb - start_kb;
        if d < 0x8000_0000_0000_0000 {
            ("+", d)
        } else {
            ("-", 0xffff_ffff_ffff_ffff - d + 1)
        }
    } else {
        let d: u64 = start_kb - end_kb;
        if d <= 0x8000_0000_0000_0000 {
            ("-", d)
        } else {
            ("+", 0xffff_ffff_ffff_ffff - d + 1)
        }
    };
    let mut text = String::new();
    text.append(sign);
    text.append(format_bytes(mag).as_str());
    assert(text@ =~= sign@ + bytes_text(mag as nat));
    text
}

/// The unit that suits a length of time of a microsecond or more: its
/// nanoseconds, and its name.
pub open spec fn streaming_unit(nanos: nat) -> (nat, Seq<char>) {
    if nanos < 1_000_000 {
        (1_000, "μs"@)
    } else if nanos < 1_000_000_000 {
        (1_000_000, "ms"@)
    } else if nanos < 60_000_000_000 {
        (1_000_000_000, "s"@)
    } else if nanos < 3_600_000_000_000 {
        (60_000_000_000, "m"@)
    } else {
        (3_600_000_000_000, "h"@)
    }
}

/// A length of time of a microsecond or more in the unit that suits it, in
/// double precision. Minutes and hours are computed from the seconds.
pub open spec fn streaming_value(nanos: nat) -> Dyadic {
    let n = of_nat(nanos);
    let secs = quotient(n, of_nat(1_000_000_000));
    if nanos < 1_000_000 {
        quotient(n, of_nat(1_000))
    } else if nanos < 1_000_000_000 {
        quotient(n, of_nat(1_000_000))
    } else if nanos < 60_000_000_000 {
        secs
    } else if nanos < 3_600_000_000_000 {
        quotient(secs, of_nat(60))
    } else {
        quotient(secs, of_nat(3_600))
    }
}

/// A length of time with two decimals, in the unit that suits it; below a
/// microsecond, in whole nanoseconds.
pub open spec fn streaming_duration_text(nanos: nat) -> Seq<char> {
    if nanos < 1_000 {
        decimal(nanos) + "ns"@
    } else {
        fixed(streaming_value(nanos), 2) + streaming_unit(nanos).1
    }
}

/// A streamed length of time is accurate to its last decimal: it is shown in
/// hundredths of its unit, rounded to the nearest, up to one part in `2^47`.
pub proof fn law_streaming_duration_is_accurate(nanos: nat)
    requires
        nanos >= 1_000,
    ensures
        is_nearest(in_units(streaming_value(nanos), 2), nanos * 100, streaming_unit(nanos).0),
{
    let n = of_nat(nanos);
    let v = streaming_value(nanos);
    lemma_rounded_near(nanos, 1);
    reveal_with_fuel(power_of_ten, 3);
    if nanos < 1_000_000 {
        lemma_quotient_of_nat_near(n, nanos, 1, 1, 1_000);
        lemma_in_units_near(v, 2, nanos, 1_000, 3);
    } else if nanos < 1_000_000_000 {
        lemma_quotient_of_nat_near(n, nanos, 1, 1, 1_000_000);
        lemma_in_units_near(v, 2, nanos, 1_000_000, 3);
    } else {
        let secs = quotient(n, of_nat(1_000_000_000));
        lemma_quotient_of_nat_near(n, nanos, 1, 1, 1_000_000_000);
        if nanos < 60_000_000_000 {
            lemma_in_units_near(v, 2, nanos, 1_000_000_000, 3);
        } else if nanos < 3_600_000_000_000 {
            lemma_quotient_of_nat_near(secs, nanos, 1_000_000_000, 3, 60);
            lemma_in_units_near(v, 2, nanos, 60_000_000_000, 5);
        } else {
            lemma_quotient_of_nat_near(secs, nanos, 1_000_000_000, 3, 3_600);
            lemma_in_units_near(v, 2, nanos, 3_600_000_000_000, 5);
        }
    }
}

proof fn lemma_quotient_of_nat_near(a: Dyadic, num: nat, den: nat, steps: nat, divisor: nat)
    requires
        near(a, num, den, steps),
        divisor > 0,
    ensures
        near(quotient(a, of_nat(divisor)), num, den * divisor, steps + 2),
{
    lemma_rounded_near(divisor, 1);
    lemma_rounded_normal(divisor, 1);
    lemma_quotient_near(a, of_nat(divisor), num, den, steps, divisor, 1, 1);
}

/// Streaming-mode duration formatter: `1.23m`, `4.56s`, `789.01ms`, and so on.
/// More precise than the timeline's `pretty_duration`, which cuts off to whole
/// numbers of the largest unit.
pub fn format_streaming_duration(d: Duration) -> (text: String)
    ensures
        text@ == streaming_duration_text(d.nanos as nat),
{
    let nanos: u128 = d.nanos;
    let mut text = String::new();
    if nanos < 1_000 {
        push_decimal(&mut text, nanos);
        text.append("ns");
    } else {
        let n = Double::from_u128(nanos);
        let (value, unit): (Double, &str) = if nanos < 1_000_000 {
            (n.div(Double::from_u128(1_000)), "μs")
        } else if nanos < 1_000_000_000 {
            (n.div(Double::from_u128(1_000_000)), "ms")
        } else {
            let secs = n.div(Double::from_u128(1_000_000_000));
            if nanos < 60_000_000_000 {
                (secs, "s")
            } else if nanos < 3_600_000_000_000 {
                (secs.div(Double::from_u128(60)), "m")
            } else {
                (secs.div(Double::from_u128(3_600)), "h")
            }
        };
        value.push_fixed(&mut text, 2);
        text.append(unit);
    }
    assert(text@ =~= streaming_duration_text(d.nanos as nat));
    text
}

/// The RAM part of a streaming line.
pub open spec fn streaming_rss_text(start: RssSample, end: RssSample) -> Seq<char> {
    let zero = RssSample { current_kb: 0, peak_kb: 0 };
    if start == zero && end == zero {
        Seq::empty()
    } else {
        "  ── RAM Δ "@ + signed_kb_text(start.current_kb as nat, end.current_kb as nat)
            + " peak "@ + bytes_text(end.peak_kb as nat)
    }
}

/// `  ── RAM Δ +X peak Y` suffix, or empty when no RAM data was captured.
pub fn format_streaming_rss(start: RssSample, end: RssSample) -> (text: String)
    ensures
        text@ == streaming_rss_text(start, end),
{
    let mut text = String::new();
    if start.is_zero() && end.is_zero() {
        return text;
    }
    text.append("  ── RAM Δ ");
    text.append(format_signed_kb(start.current_kb, end.current_kb).as_str());
    text.append(" peak ");
    text.append(format_bytes(end.peak_kb).as_str());
    assert(text@ =~= streaming_rss_text(start, end));
    text
}

/// The peak-RSS line of a span, where a peak was sampled.
pub open spec fn peak_rss_line_text(name: Seq<char>, peak_kb: nat) -> Option<Seq<char>> {
    if peak_kb == 0 {
        None
    } else {
        let bytes = if peak_kb * 1024 <= u64::MAX {
            peak_kb * 1024
        } else {
            u64::MAX as nat
        };
        Some(
            "[texray] "@ + name + " peak-rss-bytes="@ + decimal(bytes) + " ("@ + bytes_text(peak_kb)
                + ")"@,
        )
    }
}

/// The characters of an optional string.
pub open spec fn text_of(s: Option<String>) -> Option<Seq<char>> {
    match s {
        Some(s) => Some(s@),
        None => None,
    }
}

/// Machine-readable peak RSS line with a parenthesized human-formatted
/// companion: `peak-rss-bytes=<N> (<X.YZ MiB>)`. The raw integer is for
/// programmatic consumers (CI benchmarks, grep) and the formatted value is
/// for eyeballing the same line. `None` when no RSS was sampled (peak 0).
pub fn format_peak_rss_line(name: &str, peak_kb: u64) -> (line: Option<String>)
    ensures
        text_of(line) == peak_rss_line_text(name@, peak_kb as nat),
{
    if peak_kb == 0 {
        return None;
    }
    let bytes: u64 = match peak_kb.checked_mul(1024) {
        Some(bytes) => bytes,
        None => u64::MAX,
    };
    let mut line = String::new();
    line.append("[texray] ");
    line.append(name);
    line.append(" peak-rss-bytes=");
    push_decimal(&mut line, bytes as u128);
    line.append(" (");
    line.append(format_bytes(peak_kb).as_str());
    line.append(")");
    assert(line@ =~= peak_rss_line_text(name@, peak_kb as nat)->0);
    Some(line)
}

/// The RAM part of a streaming line is there if and only if something was
/// sampled.
pub proof fn law_rss_suffix_needs_a_sample(start: RssSample, end: RssSample)
    ensures
        ({
            let zero = RssSample { current_kb: 0, peak_kb: 0 };
            streaming_rss_text(start, end) == Seq::<char>::empty() <==> start == zero && end == zero
        }),
{
    reveal_strlit("  ── RAM Δ ");
    let zero = RssSample { current_kb: 0, peak_kb: 0 };
    if start != zero || end != zero {
        assert(streaming_rss_text(start, end).len() >= "  ── RAM Δ "@.len());
    }
}

/// The peak-RSS line gives the peak as a single integer: what follows
/// `peak-rss-bytes=`, up to the next space, is the number of bytes.
pub proof fn law_peak_reads_back(name: Seq<char>, peak_kb: u64)
    requires
        peak_kb > 0,
    ensures
        ({
            let line = peak_rss_line_text(name, peak_kb as nat)->0;
            let before = "[texray] "@ + name + " peak-rss-bytes="@;
            let bytes = if peak_kb * 1024 <= u64::MAX {
                (peak_kb * 1024) as nat
            } else {
                u64::MAX as nat
            };
            &&& peak_rss_line_text(name, peak_kb as nat) is Some
            &&& starts_with(line, before)
            &&& parsed_unsigned(first_word(line.skip(before.len() as int)), u64::MAX as nat)
                == Some(bytes)
        }),
{
    let line = peak_rss_line_text(name, peak_kb as nat)->0;
    let before = "[texray] "@ + name + " peak-rss-bytes="@;
    let bytes = if peak_kb * 1024 <= u64::MAX {
        (peak_kb * 1024) as nat
    } else {
        u64::MAX as nat
    };
    reveal_strlit(" (");
    reveal_strlit("(");
    let rest = "("@ + bytes_text(peak_kb as nat) + ")"@;
    assert(" ("@ =~= seq![' '] + "("@);
    assert(line =~= before + (decimal(bytes) + seq![' '] + rest));
    assert(line.take(before.len() as int) =~= before);
    assert(line.skip(before.len() as int) =~= decimal(bytes) + seq![' '] + rest);
    lemma_first_word_is_decimal(bytes, rest);
    law_decimal_reads_back(bytes, u64::MAX as nat);
}

} // verus!
