//! What comes of an exit of a span.

use vstd::prelude::*;

use crate::accuracy::is_nearest;
use crate::double::in_units;
use crate::format::{streaming_duration_text, streaming_rss_text, RssSample};
use crate::interest::{exit_record, law_spans_are_independent, InterestModel};
use crate::json_sink::{json_text, read_record};
use crate::laws::numbers::law_fixed_notation;
use crate::laws::records::lemma_record_of_text;
use crate::proc_status::rss_of;
use crate::span::SpanInfo;
use crate::text::{decimal, last_digits, power_of_ten};
use crate::time::{law_seconds_to_the_microsecond, seconds, Timestamp};

verus! {

/// The record of an exit reads back as the span's own name and its seconds,
/// whatever fields and events the span has: the seconds have six decimals, and
/// are rounded to the nearest up to one part in `2^47`. Without a sink there is
/// no record.
pub proof fn law_exit_records_name_and_seconds(
    tracker: InterestModel,
    path: Seq<u64>,
    info: SpanInfo,
    timestamp: Timestamp,
    status: Option<Seq<char>>,
) -> (micros: nat)
    requires
        tracker.at(path).info == Some(info),
        info.start.nanos <= timestamp.nanos,
    ensures
        ({
            let span = tracker.exited_at(path, timestamp, status);
            let record = exit_record(span, true);
            &&& exit_record(span, false) is None
            &&& record is Some
            &&& read_record(record->0) == Some(
                (
                    info.name@,
                    decimal(micros / 1_000_000) + "."@ + last_digits(micros, 6),
                ),
            )
            &&& is_nearest(micros, (timestamp.nanos - info.start.nanos) as nat, 1_000)
        }),
{
    let span = tracker.exited_at(path, timestamp, status);
    let nanos = (timestamp.nanos - info.start.nanos) as nat;
    let micros = in_units(seconds(nanos), 6);
    law_seconds_to_the_microsecond(nanos);
    law_fixed_notation(seconds(nanos), 6);
    reveal_with_fuel(power_of_ten, 7);
    assert(power_of_ten(6) == 1_000_000);
    let text = decimal(micros / 1_000_000) + "."@ + last_digits(micros, 6);
    assert(exit_record(span, true) == Some(json_text(info.name@, text)));
    lemma_record_of_text(info.name@, text);
    micros
}

/// A span that was never opened, or ends before it started, is not recorded.
pub proof fn law_exit_records_ended_spans_only(
    tracker: InterestModel,
    path: Seq<u64>,
    timestamp: Timestamp,
    status: Option<Seq<char>>,
    active: bool,
)
    requires
        tracker.at(path).info matches Some(info) ==> timestamp.nanos < info.start.nanos,
    ensures
        exit_record(tracker.exited_at(path, timestamp, status), active) is None,
        tracker.closing_line(tracker.exited_at(path, timestamp, status)) is None,
{
}

/// In streaming mode an exit gives the line of the span: its own name, the time
/// since its start, and the memory that was sampled at its start and is read
/// from the status now. Without streaming it gives no line.
pub proof fn law_exit_streams_a_line(
    tracker: InterestModel,
    path: Seq<u64>,
    info: SpanInfo,
    timestamp: Timestamp,
    status: Option<Seq<char>>,
)
    requires
        tracker.at(path).info == Some(info),
        info.start.nanos <= timestamp.nanos,
    ensures
        ({
            let span = tracker.exited_at(path, timestamp, status);
            let now = if tracker.render_settings.track_ram && tracker.render_settings.streaming {
                rss_of(status)
            } else {
                RssSample { current_kb: 0, peak_kb: 0 }
            };
            &&& !tracker.render_settings.streaming ==> tracker.closing_line(span) is None
            &&& !tracker.render_settings.streaming ==> tracker.closing_rss_line(span) is None
            &&& tracker.render_settings.streaming ==> tracker.closing_line(span) == Some(
                "[texray] "@ + info.name@ + ": "@ + streaming_duration_text(
                    (timestamp.nanos - info.start.nanos) as nat,
                ) + streaming_rss_text(info.start_rss, now),
            )
            &&& tracker.render_settings.streaming ==> tracker.closing_rss_line(span)
                == crate::format::peak_rss_line_text(info.name@, now.peak_kb as nat)
        }),
{
}

/// An exit ends the span with this path, at that time, and no other. The
/// memory at its end is read from the status only where memory is tracked and
/// streamed.
pub proof fn law_exit_ends_one_span(
    tracker: InterestModel,
    path: Seq<u64>,
    timestamp: Timestamp,
    status: Option<Seq<char>>,
    other: Seq<u64>,
)
    requires
        tracker.valid(),
        path.len() > 0,
    ensures
        ({
            let after = tracker.after_exit(path, timestamp, status);
            &&& other != path ==> after.at(other) == tracker.at(other)
            &&& tracker.at(path).info is None ==> after.at(path).info is None
            &&& tracker.at(path).info is Some ==> {
                let (open, closed) = (tracker.at(path).info->0, after.at(path).info->0);
                let sampling = tracker.render_settings.track_ram
                    && tracker.render_settings.streaming;
                &&& after.at(path).info is Some
                &&& closed.end == Some(timestamp)
                &&& closed.start == open.start
                &&& closed.name == open.name
                &&& closed.start_rss == open.start_rss
                &&& sampling ==> closed.end_rss == rss_of(status)
                &&& !sampling ==> closed.end_rss == (RssSample { current_kb: 0, peak_kb: 0 })
            }
            &&& after.at(path).events == tracker.at(path).events
            &&& after.at(path).metadata == tracker.at(path).metadata
            &&& after.render_settings == tracker.render_settings
            &&& after.field_settings == tracker.field_settings
        }),
{
    let span = tracker.exited_at(path, timestamp, status);
    law_spans_are_independent(tracker, path, span, other);
    law_spans_are_independent(tracker, path, span, path);
}

} // verus!
