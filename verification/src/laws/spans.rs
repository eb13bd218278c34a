//! What is recorded of a span.

use vstd::prelude::*;

use crate::fields::{FieldModel, FilterModel};
use crate::format::{streaming_duration_text, streaming_rss_text, RssSample};
use crate::interest::{law_spans_are_independent, InterestModel};
use crate::span::{EventModel, SpanInfo, SpanModel};
use crate::time::Timestamp;

verus! {

/// A span of which nothing is known has no start, no fields and no events.
pub proof fn law_nothing_is_known_at_first(settings: FilterModel)
    ensures
        SpanModel::fresh(settings).info is None,
        SpanModel::fresh(settings).metadata.len() == 0,
        SpanModel::fresh(settings).events.len() == 0,
        SpanModel::fresh(settings).settings == settings,
{
}

/// Adding an event makes the list of events one longer, with that event last,
/// whatever the state of the span, and changes nothing else.
pub proof fn law_events_are_added_last(span: SpanModel, event: EventModel)
    ensures
        span.with_event(event).events.len() == span.events.len() + 1,
        span.with_event(event).events.last() == event,
        span.with_event(event).events.drop_last() == span.events,
        span.with_event(event).info == span.info,
        span.with_event(event).metadata == span.metadata,
        span.with_event(event).settings == span.settings,
{
    assert(span.with_event(event).events.drop_last() =~= span.events);
}

/// The first open sets what is known of the span's start; later ones change
/// nothing. Events and fields stay.
pub proof fn law_opening_sets_the_start(span: SpanModel, info: SpanInfo)
    ensures
        span.info is None ==> span.opened(info).info == Some(info),
        span.info is Some ==> span.opened(info).info == span.info,
        span.opened(info).events == span.events,
        span.opened(info).metadata == span.metadata,
        span.opened(info).settings == span.settings,
{
}

/// An exit sets the end of an open span and the memory at its end, and
/// replaces those of an earlier exit. Everything else stays, and a span that
/// was never opened stays as it is.
pub proof fn law_exiting_sets_the_end(span: SpanModel, end: Timestamp, end_rss: RssSample)
    ensures
        span.info is None ==> span.exited(end, end_rss).info is None,
        span.info is Some ==> {
            let (before, after) = (span.info->0, span.exited(end, end_rss).info->0);
            &&& span.exited(end, end_rss).info is Some
            &&& after.end == Some(end)
            &&& after.end_rss == end_rss
            &&& after.start == before.start
            &&& after.name == before.name
            &&& after.start_rss == before.start_rss
        },
        span.exited(end, end_rss).events == span.events,
        span.exited(end, end_rss).metadata == span.metadata,
        span.exited(end, end_rss).settings == span.settings,
{
}

/// Fields are added one by one, where the span's settings show them, and
/// change nothing else.
pub proof fn law_fields_are_added_last(
    span: SpanModel,
    offered: Seq<FieldModel>,
    field: FieldModel,
)
    ensures
        span.with_fields(Seq::empty()).metadata == span.metadata,
        span.with_fields(offered.push(field)).metadata == if span.settings.prints(field.0) {
            span.with_fields(offered).metadata.push(field)
        } else {
            span.with_fields(offered).metadata
        },
        span.with_fields(offered).info == span.info,
        span.with_fields(offered).events == span.events,
        span.with_fields(offered).settings == span.settings,
{
    assert(offered.push(field).drop_last() =~= offered);
}

/// Opening a span in a tracker sets its start where it was not open, and
/// changes no other span.
pub proof fn law_tracker_opens_one_span(
    tracker: InterestModel,
    path: Seq<u64>,
    info: SpanInfo,
    other: Seq<u64>,
)
    requires
        tracker.valid(),
        path.len() > 0,
    ensures
        ({
            let after = tracker.after_open(path, info);
            &&& after.valid()
            &&& tracker.at(path).info is None ==> after.at(path).info == Some(info)
            &&& tracker.at(path).info is Some ==> after.at(path).info == tracker.at(path).info
            &&& after.at(path).events == tracker.at(path).events
            &&& after.at(path).metadata == tracker.at(path).metadata
            &&& other != path ==> after.at(other) == tracker.at(other)
            &&& after.render_settings == tracker.render_settings
            &&& after.field_settings == tracker.field_settings
        }),
{
    law_spans_are_independent(tracker, path, tracker.at(path).opened(info), path);
    law_spans_are_independent(tracker, path, tracker.at(path).opened(info), other);
}

/// An event is added to the span with its path, after the earlier ones and
/// whatever the state of the span, and to no other.
pub proof fn law_tracker_adds_one_event(
    tracker: InterestModel,
    path: Seq<u64>,
    event: EventModel,
    other: Seq<u64>,
)
    requires
        tracker.valid(),
        path.len() > 0,
    ensures
        ({
            let after = tracker.after_event(path, event);
            &&& after.valid()
            &&& after.at(path).events == tracker.at(path).events.push(event)
            &&& after.at(path).info == tracker.at(path).info
            &&& after.at(path).metadata == tracker.at(path).metadata
            &&& other != path ==> after.at(other) == tracker.at(other)
            &&& after.render_settings == tracker.render_settings
            &&& after.field_settings == tracker.field_settings
        }),
{
    law_spans_are_independent(tracker, path, tracker.at(path).with_event(event), path);
    law_spans_are_independent(tracker, path, tracker.at(path).with_event(event), other);
}

/// Fields are recorded of the span with their path, where it is known, and of
/// no other.
pub proof fn law_tracker_records_fields_of_one_span(
    tracker: InterestModel,
    path: Seq<u64>,
    offered: Seq<FieldModel>,
    other: Seq<u64>,
)
    requires
        tracker.valid(),
        path.len() > 0,
    ensures
        ({
            let after = tracker.after_fields(path, offered);
            let known = exists|i: int|
                0 <= i < tracker.children.len() && #[trigger] tracker.children[i].path == path;
            &&& after.valid()
            &&& !known ==> after == tracker
            &&& known ==> after.at(path).metadata == tracker.at(path).with_fields(offered).metadata
            &&& known ==> after.at(path).info == tracker.at(path).info
            &&& known ==> after.at(path).events == tracker.at(path).events
            &&& other != path ==> after.at(other) == tracker.at(other)
        }),
{
    law_spans_are_independent(tracker, path, tracker.at(path).with_fields(offered), path);
    law_spans_are_independent(tracker, path, tracker.at(path).with_fields(offered), other);
}

/// A span is timed from its start to its end.
pub proof fn law_time_runs_from_start_to_end(info: SpanInfo, end: Timestamp)
    requires
        info.end == Some(end),
    ensures
        info.start.nanos <= end.nanos ==> info.nanos() is Some && info.start.nanos
            + info.nanos()->0 == end.nanos,
        info.start.nanos > end.nanos ==> info.nanos() is None,
{
}

/// The streaming line of a span that has ended gives its own name, without its
/// fields, the time from its start to its end, and the memory at both.
pub proof fn law_streaming_line(span: SpanModel, info: SpanInfo, end: Timestamp)
    requires
        span.info == Some(info),
        info.end == Some(end),
        info.start.nanos <= end.nanos,
    ensures
        span.streaming_line() == Some(
            "[texray] "@ + info.name@ + ": "@ + streaming_duration_text(
                (end.nanos - info.start.nanos) as nat,
            ) + streaming_rss_text(info.start_rss, info.end_rss),
        ),
{
}

/// The peak-RSS line of a span that has ended is there if and only if a peak
/// was sampled at its end, and leads with the span's own name.
pub proof fn law_peak_line(span: SpanModel, info: SpanInfo)
    requires
        span.info == Some(info),
    ensures
        span.streaming_rss_line() is Some <==> info.end is Some && info.end_rss.peak_kb > 0,
        span.streaming_rss_line() is Some ==> span.streaming_rss_line()
            == crate::format::peak_rss_line_text(info.name@, info.end_rss.peak_kb as nat),
{
}

} // verus!
