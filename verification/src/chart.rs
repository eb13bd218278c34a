//! Geometry of the timeline: how wide the chart is and where a bar stands.

use vstd::arithmetic::div_mod::lemma_fundamental_div_mod_converse;
use vstd::prelude::*;

use crate::accuracy::{
    is_nearest, lemma_is_nearest_reduced, lemma_nearest_nat_near, lemma_product_near,
    lemma_quotient_near, lemma_rounded_near,
};
use crate::double::{
    lemma_rounded_fixed, lemma_rounded_ratio, nearest_nat, of_nat, product, quotient, Double,
    MANT_END,
};
use crate::order::{
    lemma_den_pos, lemma_nearest_nat_monotone, lemma_of_nat, lemma_product_monotone,
    lemma_quotient_monotone, lemma_rounded_normal,
};
use crate::text::{push_repeated, repeated};
use crate::time::{
    law_seconds_keep_order, lemma_seconds_near, lemma_seconds_positive, seconds, Duration,
    Timestamp,
};

verus! {

/// Columns by which each level of nesting is indented.
pub const NESTED_EVENT_OFFSET: usize = 2;

/// Columns that a row reserves for the duration.
pub const DURATION_WIDTH: usize = 6;

/// Columns that the keys take at most.
pub const MAX_KEY_WIDTH: usize = 120;

/// Columns of a chart for which the terminal leaves no room.
pub const FALLBACK_CHART_WIDTH: usize = 20;

/// Which rows the timeline has.
#[derive(Clone, Copy, Debug, PartialEq, Eq, Structural)]
pub struct Types {
    pub spans: bool,
    pub events: bool,
}

/// What the output looks like.
#[derive(Clone, Copy, Debug, PartialEq, Eq, Structural)]
pub struct RenderSettings {
    /// Columns of the whole output.
    pub width: usize,
    /// Spans shorter than this get no row.
    pub min_duration: Option<Duration>,
    pub types: Types,
    /// Whether to sample the resident-set size of spans.
    pub track_ram: bool,
    /// Whether to write a line whenever a span closes.
    pub streaming: bool,
}

/// The frame of one timeline.
#[derive(Clone, Copy, Debug, PartialEq, Eq, Structural)]
pub struct RenderConf {
    pub start_ts: Timestamp,
    pub end_ts: Timestamp,
    /// Columns of the keys.
    pub key_width: usize,
    /// Columns of the whole output.
    pub width: usize,
}

/// Nanoseconds from `earlier` to `later`, zero where they are reversed.
pub open spec fn elapsed(later: Timestamp, earlier: Timestamp) -> nat {
    if later.nanos >= earlier.nanos {
        (later.nanos - earlier.nanos) as nat
    } else {
        0
    }
}

impl RenderConf {
    /// Nanoseconds that the chart spans.
    pub open spec fn span(self) -> nat {
        elapsed(self.end_ts, self.start_ts)
    }

    /// Columns that the chart has.
    pub open spec fn columns(self) -> nat {
        if self.key_width + 8 <= self.width {
            (self.width - self.key_width - 8) as nat
        } else {
            20
        }
    }

    /// The length of time that the chart spans.
    pub fn total(&self) -> (d: Duration)
        ensures
            d.nanos == self.span(),
    {
        match self.end_ts.duration_since(self.start_ts) {
            Some(d) => d,
            None => Duration { nanos: 0 },
        }
    }

    /// Columns that are left for the chart besides keys and durations, or 20
    /// where those take up the whole width.
    pub fn chart_width(&self) -> (columns: usize)
        ensures
            columns == self.columns(),
    {
        match self.width.checked_sub(self.key_width) {
            Some(w) => match w.checked_sub(DURATION_WIDTH + 2) {
                Some(w) => w,
                None => FALLBACK_CHART_WIDTH,
            },
            None => FALLBACK_CHART_WIDTH,
        }
    }
}

/// Columns that `inner` nanoseconds take up where `outer` nanoseconds take up
/// `chars`: their ratio in seconds times `chars`, in double precision,
/// rounded to the nearest.
pub open spec fn columns_of(chars: nat, outer: nat, inner: nat) -> nat {
    if inner == 0 || outer == 0 {
        0
    } else {
        let ratio = quotient(seconds(inner), seconds(outer));
        let n = nearest_nat(product(ratio, of_nat(chars)));
        if n <= usize::MAX {
            n
        } else {
            usize::MAX as nat
        }
    }
}

/// Columns that `inner` takes up in a chart of `chars` columns that spans
/// `outer`.
pub fn width(chars: usize, outer: Duration, inner: Duration) -> (columns: usize)
    ensures
        columns == columns_of(chars as nat, outer.nanos as nat, inner.nanos as nat),
{
    if inner.nanos == 0 || outer.nanos == 0 {
        return 0;
    }
    let ratio = inner.as_secs().div(outer.as_secs());
    ratio.mul(Double::from_u128(chars as u128)).round_to_usize()
}

/// Before it is cut off, a width is its share of the chart rounded to an
/// integer, up to one part in `2^47`.
pub proof fn lemma_scale(chars: nat, outer: nat, inner: nat)
    requires
        outer > 0,
    ensures
        inner > 0 ==> is_nearest(
            nearest_nat(product(quotient(seconds(inner), seconds(outer)), of_nat(chars))),
            chars * inner,
            outer,
        ),
{
    if inner > 0 {
        let g = 1_000_000_000nat;
        let (a, b) = (seconds(inner), seconds(outer));
        lemma_seconds_near(inner);
        lemma_seconds_near(outer);
        lemma_seconds_positive(outer);
        lemma_quotient_near(a, b, inner, g, 4, outer, g, 4);
        lemma_rounded_near(chars, 1);
        lemma_product_near(
            quotient(a, b),
            of_nat(chars),
            inner * g,
            g * outer,
            9,
            chars,
            1,
            1,
        );
        let p = product(quotient(a, b), of_nat(chars));
        assert(inner * g * chars == (chars * inner) * g) by (nonlinear_arith);
        assert(g * outer * 1 == outer * g) by (nonlinear_arith);
        lemma_nearest_nat_near(p, (chars * inner) * g, outer * g, 11);
        lemma_is_nearest_reduced(nearest_nat(p), chars * inner, outer, g);
    }
}

/// Bars are drawn to scale: a bar's width is its share of the timeline's
/// length, times the columns of the chart, rounded to an integer, up to one
/// part in `2^47`.
pub proof fn law_drawn_to_scale(chars: nat, outer: nat, inner: nat)
    requires
        outer > 0,
        columns_of(chars, outer, inner) < usize::MAX,
    ensures
        is_nearest(columns_of(chars, outer, inner), chars * inner, outer),
{
    lemma_scale(chars, outer, inner);
    if inner == 0 {
        let t = 0x8000_0000_0000int;
        let (x, o) = ((chars * inner) as int, outer as int);
        assert(x == 0 && -1 * (t * o) <= 2 * x * (t + 1) && 2 * x * t <= 1 * ((t + 1) * o))
            by (nonlinear_arith)
            requires
                x == chars * inner,
                inner == 0,
                o > 0,
                t > 0,
        ;
    }
}

/// A longer span is never drawn narrower.
pub proof fn law_longer_is_not_narrower(chars: nat, outer: nat, shorter: nat, longer: nat)
    requires
        shorter <= longer,
    ensures
        columns_of(chars, outer, shorter) <= columns_of(chars, outer, longer),
{
    if shorter > 0 && outer > 0 {
        let (a, b, total) = (seconds(shorter), seconds(longer), seconds(outer));
        law_seconds_keep_order(shorter, longer);
        lemma_seconds_positive(outer);
        lemma_quotient_monotone(a, b, total);
        let (q1, q2) = (quotient(a, total), quotient(b, total));
        lemma_product_monotone(q1, q2, of_nat(chars));
        lemma_nearest_nat_monotone(product(q1, of_nat(chars)), product(q2, of_nat(chars)));
    }
}

/// A span as long as the whole timeline fills the chart. From `2^53` columns
/// on, not every count is a double.
pub proof fn law_full_length_fills_the_chart(chars: usize, outer: nat)
    requires
        outer > 0,
        chars <= MANT_END,
    ensures
        columns_of(chars as nat, outer, outer) == chars,
{
    let s = seconds(outer);
    let c = of_nat(chars as nat);
    let one = of_nat(1);
    lemma_seconds_positive(outer);
    lemma_den_pos(s, c);
    let (n, d) = (s.num(), s.den());
    assert(n * d > 0 && n * d * 1 == 1 * (d * n)) by (nonlinear_arith)
        requires
            n > 0,
            d > 0,
    ;
    lemma_rounded_ratio(n * d, d * n, 1, 1);
    assert(quotient(s, s) == one);
    lemma_of_nat(1);
    lemma_den_pos(one, c);
    let (on, od, cn, cd) = (one.num(), one.den(), c.num(), c.den());
    assert(on * cn * cd == cn * (od * cd)) by (nonlinear_arith)
        requires
            on == 1 * od,
    ;
    lemma_rounded_ratio(on * cn, od * cd, cn, cd);
    lemma_rounded_normal(chars as nat, 1);
    lemma_rounded_fixed(c);
    assert(product(one, c) == c);
    lemma_of_nat(chars as nat);
    let k = chars as int;
    assert(2 * (k * cd) + cd == k * (2 * cd) + cd) by (nonlinear_arith);
    lemma_fundamental_div_mod_converse((2 * cn + cd) as int, (2 * cd) as int, k, cd as int);
}

/// No part of the timeline is drawn wider than the chart.
pub proof fn law_part_fits_the_chart(chars: usize, outer: nat, inner: nat)
    requires
        inner <= outer,
        chars <= MANT_END,
    ensures
        columns_of(chars as nat, outer, inner) <= chars,
{
    law_longer_is_not_narrower(chars as nat, outer, inner, outer);
    if outer > 0 {
        law_full_length_fills_the_chart(chars, outer);
    }
}

/// The bar of a span that is `n` columns wide.
pub open spec fn bar(n: nat) -> Seq<char> {
    if n == 0 {
        "┆"@
    } else if n == 1 {
        "│"@
    } else if n == 2 {
        "├┤"@
    } else {
        "├"@ + repeated('─', (n - 2) as nat) + "┤"@
    }
}

/// Appends the bar of a span that is `n` columns wide.
pub fn push_bar(out: &mut String, n: usize)
    ensures
        final(out)@ == old(out)@ + bar(n as nat),
{
    if n == 0 {
        out.append("┆");
    } else if n == 1 {
        out.append("│");
    } else if n == 2 {
        out.append("├┤");
    } else {
        out.append("├");
        push_repeated(out, '─', n - 2);
        out.append("┤");
        assert(out@ =~= old(out)@ + bar(n as nat));
    }
}

/// Columns between the start of a span and an event that stands `columns`
/// into it: one less, so that the mark falls inside the bar. The count is
/// taken as a 32-bit two's complement number, and is zero where that is
/// negative.
pub open spec fn event_shift(columns: nat) -> nat {
    let low = columns % 0x1_0000_0000;
    if 1 <= low <= 0x8000_0000 {
        (low - 1) as nat
    } else {
        0
    }
}

/// `a + b` as a `usize`, which wraps.
pub open spec fn wrapped_sum(a: nat, b: nat) -> nat {
    if a + b <= usize::MAX {
        a + b
    } else {
        (a + b - usize::MAX - 1) as nat
    }
}

/// Column of an event's mark: where its span starts, and on from there.
pub fn event_column(base: usize, columns: usize) -> (c: usize)
    ensures
        c == wrapped_sum(base as nat, event_shift(columns as nat)),
{
    let low: u64 = columns as u64 % 0x1_0000_0000;
    let shift: usize = if 1 <= low && low <= 0x8000_0000 {
        (low - 1) as usize
    } else {
        0
    };
    if shift <= usize::MAX - base {
        base + shift
    } else {
        shift - (usize::MAX - base) - 1
    }
}

} // verus!
