//! The geometry of the timeline.

use vstd::arithmetic::mul::lemma_mul_inequality;
use vstd::prelude::*;

use crate::chart::{bar, columns_of, elapsed, event_shift, lemma_scale, wrapped_sum, RenderConf};
use crate::double::{nearest_nat, of_nat, product, quotient};
use crate::time::{seconds, Timestamp};

verus! {

/// Nothing takes no columns, and neither does anything in a timeline without
/// length.
pub proof fn law_nothing_takes_no_columns(chars: nat, outer: nat, inner: nat)
    requires
        inner == 0 || outer == 0,
    ensures
        columns_of(chars, outer, inner) == 0,
{
}

/// A width is cut off at the largest number only where its share of the chart
/// reaches it, up to one part in `2^47`.
pub proof fn law_only_huge_widths_are_cut_off(chars: nat, outer: nat, inner: nat)
    requires
        outer > 0,
        columns_of(chars, outer, inner) == usize::MAX,
    ensures
        (2 * usize::MAX - 1) * (0x8000_0000_0000int * outer) <= 2 * (chars * inner)
            * 0x8000_0000_0001int,
{
    lemma_scale(chars, outer, inner);
    let n = nearest_nat(product(quotient(seconds(inner), seconds(outer)), of_nat(chars)));
    let t = 0x8000_0000_0000int * outer;
    if inner > 0 {
        lemma_mul_inequality(2 * usize::MAX - 1, 2 * n - 1, t);
    }
}

/// A bar is as wide as it is to be, but at least one column. Wide bars have
/// their ends marked, and a line between.
pub proof fn law_shape_of_a_bar(n: nat)
    ensures
        bar(0) == "┆"@,
        bar(1) == "│"@,
        bar(2) == "├┤"@,
        n > 0 ==> bar(n).len() == n,
        n > 2 ==> bar(n)[0] == '├' && bar(n)[n - 1] == '┤',
        forall|i: int| n > 2 && 0 < i < n - 1 ==> #[trigger] bar(n)[i] == '─',
{
    reveal_strlit("│");
    reveal_strlit("├┤");
    reveal_strlit("├");
    reveal_strlit("┤");
}

/// An event's mark stands one column before the end of what its time takes up
/// from the start of its span, and never before that start.
pub proof fn law_marks_of_events(base: nat, columns: nat)
    requires
        base + columns <= i32::MAX,
    ensures
        wrapped_sum(base, event_shift(columns)) == if columns == 0 {
            base
        } else {
            (base + columns - 1) as nat
        },
{
}

/// The chart takes what keys and durations leave of the width, and twenty
/// columns where they leave nothing. It spans the time from its start to its
/// end.
pub proof fn law_room_of_the_chart(conf: RenderConf)
    ensures
        conf.width >= conf.key_width + 8 ==> conf.key_width + 8 + conf.columns() == conf.width,
        conf.width < conf.key_width + 8 ==> conf.columns() == 20,
        conf.start_ts.nanos <= conf.end_ts.nanos ==> conf.start_ts.nanos + conf.span()
            == conf.end_ts.nanos,
        conf.start_ts.nanos > conf.end_ts.nanos ==> conf.span() == 0,
{
}

/// The time between two points, zero where they are reversed.
pub proof fn law_elapsed_time(later: Timestamp, earlier: Timestamp)
    ensures
        earlier.nanos <= later.nanos ==> earlier.nanos + elapsed(later, earlier) == later.nanos,
        earlier.nanos > later.nanos ==> elapsed(later, earlier) == 0,
{
}

} // verus!
