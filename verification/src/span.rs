//! What is known of one span: when it was open, what it recorded, and how it
//! is shown.

use vstd::prelude::*;
use vstd::utf8::{decode_utf8, encode_utf8, is_char_boundary};

use crate::chart::{
    bar, columns_of, elapsed, event_column, event_shift, push_bar, width, wrapped_sum, RenderConf,
    RenderSettings, DURATION_WIDTH,
};
use crate::double::{Double, Dyadic};
use crate::fields::{
    fields_of, metadata_text, recorded, FieldModel, FieldSettings, FilterModel, TrackedMetadata,
};
use crate::format::{
    format_peak_rss_line, format_streaming_duration, format_streaming_rss, peak_rss_line_text,
    streaming_duration_text, streaming_rss_text, text_of, RssSample,
};
use crate::proc_status::{read_rss, rss_of, view_of};
use crate::text::{
    padded_left, padded_right, push_padded_left, push_padded_right, push_repeated, repeated,
};
use crate::time::{pretty, pretty_duration, seconds, Duration, Timestamp};

verus! {

/// An event that occurred inside a span.
#[derive(Debug)]
pub struct EventInfo {
    pub timestamp: Timestamp,
    pub metadata: TrackedMetadata,
}

/// What an [`EventInfo`] stands for.
pub struct EventModel {
    pub timestamp: Timestamp,
    pub metadata: Seq<FieldModel>,
}

impl View for EventInfo {
    type V = EventModel;

    open spec fn view(&self) -> EventModel {
        EventModel { timestamp: self.timestamp, metadata: self.metadata@ }
    }
}

impl EventInfo {
    /// An event that occurs now.
    pub fn now(metadata: TrackedMetadata, now: Timestamp) -> (event: EventInfo)
        ensures
            event@ == (EventModel { timestamp: now, metadata: metadata@ }),
    {
        EventInfo { timestamp: now, metadata }
    }

    /// The event's shown fields.
    pub fn to_string(&self, settings: &FieldSettings) -> (text: String)
        ensures
            text@ == metadata_text(self@.metadata, settings@),
    {
        let mut out = String::new();
        self.metadata.write(&mut out, settings);
        assert(out@ =~= metadata_text(self@.metadata, settings@));
        out
    }
}

/// When a span was open, and the memory at its ends.
#[derive(Clone, Copy, Debug)]
pub struct SpanInfo {
    pub start: Timestamp,
    pub end: Option<Timestamp>,
    pub name: &'static str,
    pub start_rss: RssSample,
    pub end_rss: RssSample,
}

/// The memory that is recorded of a moment: what the status text gives, or
/// nothing where it is not to be sampled.
pub open spec fn sampled(sample: bool, status: Option<Seq<char>>) -> RssSample {
    if sample {
        rss_of(status)
    } else {
        RssSample { current_kb: 0, peak_kb: 0 }
    }
}

/// Reads the resident-set size from the status text, where it is to be
/// sampled.
pub fn sample_when(sample: bool, status: Option<&str>) -> (rss: RssSample)
    ensures
        rss == sampled(sample, view_of(status)),
{
    if sample {
        read_rss(status)
    } else {
        RssSample::default()
    }
}

impl SpanInfo {
    /// Nanoseconds that the span was open, once it has ended, and not before
    /// it started.
    pub open spec fn nanos(self) -> Option<nat> {
        match self.end {
            Some(end) => if end.nanos >= self.start.nanos {
                Some((end.nanos - self.start.nanos) as nat)
            } else {
                None
            },
            None => None,
        }
    }

    /// A span that is opened now.
    pub fn for_span(
        name: Option<&'static str>,
        now: Timestamp,
        sample_rss: bool,
        status: Option<&str>,
    ) -> (info: SpanInfo)
        ensures
            info.name@ == (match name {
                Some(name) => name@,
                None => "could-not-find-span"@,
            }),
            name matches Some(name) ==> info.name == name,
            info.start == now,
            info.end == None::<Timestamp>,
            info.start_rss == sampled(sample_rss, view_of(status)),
            info.end_rss == (RssSample { current_kb: 0, peak_kb: 0 }),
    {
        SpanInfo {
            name: match name {
                Some(name) => name,
                None => "could-not-find-span",
            },
            start: now,
            end: None,
            start_rss: sample_when(sample_rss, status),
            end_rss: RssSample::default(),
        }
    }

    /// How long the span was open: `None` unless it has ended, and not before
    /// it started.
    pub fn duration(&self) -> (d: Option<Duration>)
        ensures
            d == match self.nanos() {
                Some(nanos) => Some(Duration { nanos: nanos as u128 }),
                None => None,
            },
    {
        match self.end {
            Some(end) => end.duration_since(self.start),
            None => None,
        }
    }
}

/// Bytes that a text takes up in UTF-8.
pub open spec fn byte_len(s: Seq<char>) -> nat {
    encode_utf8(s).len()
}

/// Whether `s` can be cut to at most `bytes` bytes: it is no longer than
/// that, or a character ends there.
pub open spec fn can_cut(s: Seq<char>, bytes: nat) -> bool {
    byte_len(s) <= bytes || is_char_boundary(encode_utf8(s), bytes as int)
}

/// The first `bytes` bytes of `s`.
pub open spec fn cut(s: Seq<char>, bytes: nat) -> Seq<char> {
    if byte_len(s) <= bytes {
        s
    } else {
        decode_utf8(encode_utf8(s).subrange(0, bytes as int))
    }
}

/// Whether `s` can be cut to at most `bytes` bytes.
pub fn cuts_at_char(s: &str, bytes: usize) -> (b: bool)
    ensures
        b == can_cut(s@, bytes as nat),
{
    s.as_bytes().len() <= bytes || s.is_char_boundary(bytes)
}

/// The first `bytes` bytes of `s`.
pub fn cut_to(s: &str, bytes: usize) -> (t: &str)
    requires
        can_cut(s@, bytes as nat),
    ensures
        t@ == cut(s@, bytes as nat),
{
    if s.as_bytes().len() <= bytes {
        s
    } else {
        let (head, _) = s.split_at(bytes);
        proof {
            vstd::utf8::encode_utf8_decode_utf8(head@);
        }
        head
    }
}

/// Tracker of an individual span.
#[derive(Debug)]
pub struct SpanTracker {
    pub info: Option<SpanInfo>,
    pub metadata: TrackedMetadata,
    pub events: Vec<EventInfo>,
    pub settings: FieldSettings,
}

/// What a [`SpanTracker`] stands for.
pub struct SpanModel {
    pub info: Option<SpanInfo>,
    pub metadata: Seq<FieldModel>,
    pub events: Seq<EventModel>,
    pub settings: FilterModel,
}

/// What each of a list of events stands for.
pub open spec fn events_of(events: Seq<EventInfo>) -> Seq<EventModel> {
    Seq::new(events.len(), |i: int| events[i]@)
}

impl View for SpanTracker {
    type V = SpanModel;

    open spec fn view(&self) -> SpanModel {
        SpanModel {
            info: self.info,
            metadata: self.metadata@,
            events: events_of(self.events@),
            settings: self.settings@,
        }
    }
}

impl SpanModel {
    /// A span of which nothing is known yet.
    pub open spec fn fresh(settings: FilterModel) -> SpanModel {
        SpanModel { info: None, metadata: Seq::empty(), events: Seq::empty(), settings }
    }

    /// The span after it was opened: only the first time counts.
    pub open spec fn opened(self, info: SpanInfo) -> SpanModel {
        SpanModel {
            info: match self.info {
                Some(first) => Some(first),
                None => Some(info),
            },
            ..self
        }
    }

    /// The span after an event.
    pub open spec fn with_event(self, event: EventModel) -> SpanModel {
        SpanModel { events: self.events.push(event), ..self }
    }

    /// The span after fields were offered to it.
    pub open spec fn with_fields(self, offered: Seq<FieldModel>) -> SpanModel {
        SpanModel { metadata: recorded(self.metadata, offered, self.settings), ..self }
    }

    /// The span after it was exited. A span that was never opened stays as it
    /// is.
    pub open spec fn exited(self, timestamp: Timestamp, end_rss: RssSample) -> SpanModel {
        SpanModel {
            info: match self.info {
                Some(info) => Some(SpanInfo { end: Some(timestamp), end_rss, ..info }),
                None => None,
            },
            ..self
        }
    }

    /// The span's name with its shown fields.
    pub open spec fn full_name(self, info: SpanInfo, filter: FilterModel) -> Seq<char> {
        info.name@ + metadata_text(self.metadata, filter)
    }

    /// Columns that the span's row needs for its key at a nesting depth.
    pub open spec fn key_columns(self, depth: nat) -> nat {
        let own = match self.info {
            Some(info) => byte_len(self.full_name(info, self.settings)),
            None => 0,
        };
        (own + 2 * (depth - 1)) as nat
    }

    /// The one-line summary of a span that has ended.
    pub open spec fn streaming_line(self) -> Option<Seq<char>> {
        match self.info {
            Some(info) => match info.nanos() {
                Some(nanos) => Some(
                    "[texray] "@ + info.name@ + ": "@ + streaming_duration_text(nanos)
                        + streaming_rss_text(info.start_rss, info.end_rss),
                ),
                None => None,
            },
            None => None,
        }
    }

    /// The peak-RSS line of a span that has ended.
    pub open spec fn streaming_rss_line(self) -> Option<Seq<char>> {
        match self.info {
            Some(info) => if info.end is Some {
                peak_rss_line_text(info.name@, info.end_rss.peak_kb as nat)
            } else {
                None
            },
            None => None,
        }
    }

    /// Name and seconds of a span that has ended.
    pub open spec fn timing(self) -> Option<(Seq<char>, Dyadic)> {
        match self.info {
            Some(info) => match info.nanos() {
                Some(nanos) => Some((info.name@, seconds(nanos))),
                None => None,
            },
            None => None,
        }
    }
}

/// Only the first open of a span counts.
pub proof fn law_first_open_counts(span: SpanModel, first: SpanInfo, second: SpanInfo)
    ensures
        span.opened(first).opened(second) == span.opened(first),
{
}

/// A span is timed from its first open to its last exit, whatever is recorded
/// of it in between.
pub proof fn law_timed_from_first_open_to_last_exit(
    filter: FilterModel,
    info: SpanInfo,
    again: SpanInfo,
    event: EventModel,
    fields: Seq<FieldModel>,
    early: Timestamp,
    early_rss: RssSample,
    end: Timestamp,
    end_rss: RssSample,
)
    requires
        info.start.nanos <= end.nanos,
    ensures
        SpanModel::fresh(filter).opened(info).with_event(event).with_fields(fields).exited(
            early,
            early_rss,
        ).opened(again).exited(end, end_rss).timing() == Some(
            (info.name@, seconds((end.nanos - info.start.nanos) as nat)),
        ),
{
}

/// A span that has not ended, or has ended before it started, has neither a
/// streaming line nor a timing nor a row.
pub proof fn law_unfinished_span_is_not_shown(
    span: SpanModel,
    info: SpanInfo,
    settings: RenderSettings,
    conf: RenderConf,
    left: nat,
)
    requires
        span.info == Some(info),
        info.nanos() is None,
    ensures
        span.streaming_line() is None,
        span.timing() is None,
        span.row(info, settings, conf, left) == Seq::<char>::empty(),
{
}

/// Where memory is not sampled, neither streaming line speaks of it.
pub proof fn law_no_memory_without_sampling(
    filter: FilterModel,
    info: SpanInfo,
    start_status: Option<Seq<char>>,
    end: Timestamp,
    end_status: Option<Seq<char>>,
)
    requires
        info.start_rss == sampled(false, start_status),
        info.start.nanos <= end.nanos,
    ensures
        ({
            let span = SpanModel::fresh(filter).opened(info).exited(
                end,
                sampled(false, end_status),
            );
            &&& span.streaming_line() == Some(
                "[texray] "@ + info.name@ + ": "@ + streaming_duration_text(
                    (end.nanos - info.start.nanos) as nat,
                ),
            )
            &&& span.streaming_rss_line() is None
        }),
{
    let span = SpanModel::fresh(filter).opened(info).exited(end, sampled(false, end_status));
    let line = "[texray] "@ + info.name@ + ": "@ + streaming_duration_text(
        (end.nanos - info.start.nanos) as nat,
    );
    assert(line + Seq::<char>::empty() =~= line);
}

impl SpanTracker {
    pub fn new(settings: FieldSettings) -> (tracker: SpanTracker)
        ensures
            tracker@ == SpanModel::fresh(settings@),
    {
        let tracker = SpanTracker {
            info: None,
            events: Vec::new(),
            metadata: TrackedMetadata::default(),
            settings,
        };
        assert(events_of(tracker.events@) =~= Seq::empty());
        tracker
    }

    /// Records the offered fields that the settings show.
    pub fn record_metadata(&mut self, values: Vec<(&'static str, String)>)
        ensures
            final(self)@ == old(self)@.with_fields(fields_of(values@)),
    {
        self.metadata.record(values, &self.settings.field_filter);
    }

    /// Adds an event.
    pub fn add_event(&mut self, event: EventInfo)
        ensures
            final(self)@ == old(self)@.with_event(event@),
    {
        self.events.push(event);
        assert(events_of(self.events@) =~= events_of(old(self).events@).push(event@));
    }

    /// Records that the span was opened. Only the first open is recorded;
    /// already-open spans aren't updated.
    pub fn open(&mut self, span_info: SpanInfo)
        ensures
            final(self)@ == old(self)@.opened(span_info),
    {
        if self.info.is_none() {
            self.info = Some(span_info);
        }
    }

    /// Records that the span was exited. Does nothing to a span that was
    /// never opened.
    pub fn exit(&mut self, timestamp: Timestamp, end_rss: RssSample)
        ensures
            final(self)@ == old(self)@.exited(timestamp, end_rss),
    {
        if let Some(info) = self.info {
            self.info = Some(SpanInfo { end: Some(timestamp), end_rss, ..info });
        }
    }

    /// The span's info, once it was opened.
    pub fn span_info(&self) -> (info: Option<&SpanInfo>)
        ensures
            info == (match self@.info {
                Some(info) => Some(&info),
                None => None,
            }),
    {
        self.info.as_ref()
    }

    /// One-line summary for streaming mode: `[texray] <name>: <dur>  ── RAM Δ +X peak Y`.
    /// Returns `None` if the span has no recorded info, hasn't ended, or ended
    /// before it started.
    pub fn streaming_line(&self) -> (line: Option<String>)
        ensures
            text_of(line) == self@.streaming_line(),
    {
        let info = match self.info {
            Some(info) => info,
            None => {
                return None;
            },
        };
        match info.duration() {
            Some(duration) => {
                let mut line = String::new();
                line.append("[texray] ");
                line.append(info.name);
                line.append(": ");
                line.append(format_streaming_duration(duration).as_str());
                line.append(format_streaming_rss(info.start_rss, info.end_rss).as_str());
                assert(line@ =~= self@.streaming_line()->0);
                Some(line)
            },
            None => None,
        }
    }

    /// Machine-readable companion to the streaming line: `[texray] <name>
    /// peak-rss-bytes=<N> (<X.YZ MiB>)`. Lets streaming consumers grep the
    /// peak RSS as a single integer while still being readable to humans.
    /// `None` when the span hasn't ended or no RSS was sampled.
    pub fn streaming_rss_line(&self) -> (line: Option<String>)
        ensures
            text_of(line) == self@.streaming_rss_line(),
    {
        match self.info {
            Some(info) => {
                if info.end.is_none() {
                    return None;
                }
                format_peak_rss_line(info.name, info.end_rss.peak_kb)
            },
            None => None,
        }
    }

    /// Name and seconds of a closed span, the source of the JSON records.
    /// `None` if the span has no recorded info, hasn't ended, or ended before
    /// it started.
    pub fn timing(&self) -> (timing: Option<(&'static str, Double)>)
        ensures
            (match timing {
                Some(t) => Some((t.0@, t.1@)),
                None => None,
            }) == self@.timing(),
    {
        match self.info {
            Some(info) => match info.duration() {
                Some(duration) => Some((info.name, duration.as_secs())),
                None => None,
            },
            None => None,
        }
    }

    /// Columns that the span's row needs for its key at a nesting depth, cut
    /// off at `usize::MAX`.
    pub fn max_key_width(&self, depth: usize) -> (columns: usize)
        requires
            depth >= 1,
        ensures
            columns == if self@.key_columns(depth as nat) <= usize::MAX {
                self@.key_columns(depth as nat)
            } else {
                usize::MAX as nat
            },
    {
        let own: usize = match self.info {
            Some(info) => info.full_name(self, &self.settings).as_str().as_bytes().len(),
            None => 0,
        };
        own.saturating_add(depth - 1).saturating_add(depth - 1)
    }
}

impl SpanModel {
    /// Whether the span's row can be laid out at an indentation: the keys have
    /// room for it, and the cut to that room falls between characters.
    pub open spec fn row_fits(self, info: SpanInfo, conf: RenderConf, left: nat) -> bool {
        &&& left <= conf.key_width
        &&& can_cut(self.full_name(info, self.settings), (conf.key_width - left) as nat)
    }

    /// The span's row of the timeline, at an indentation: its key, its
    /// duration and its bar. Empty for a span that has not ended, and for one
    /// that is too short to be shown.
    pub open spec fn row(
        self,
        info: SpanInfo,
        settings: RenderSettings,
        conf: RenderConf,
        left: nat,
    ) -> Seq<char> {
        let key_columns = (conf.key_width - left) as nat;
        let key = cut(self.full_name(info, self.settings), key_columns);
        match info.nanos() {
            None => Seq::empty(),
            Some(nanos) => if settings.min_duration is Some && nanos
                < settings.min_duration->0.nanos {
                Seq::empty()
            } else {
                let offset = columns_of(
                    conf.columns(),
                    conf.span(),
                    elapsed(info.start, conf.start_ts),
                );
                repeated(' ', left) + padded_right(key, key_columns) + " "@ + padded_left(
                    pretty(nanos),
                    6,
                ) + " "@ + repeated(' ', offset) + bar(
                    columns_of(conf.columns(), conf.span(), nanos),
                ) + "\n"@
            },
        }
    }
}

/// A span has a row if and only if it has ended, and is not shorter than the
/// shortest to be shown. The row is a line of its own.
pub proof fn law_shown_unless_short(
    span: SpanModel,
    info: SpanInfo,
    settings: RenderSettings,
    conf: RenderConf,
    left: nat,
)
    ensures
        span.row(info, settings, conf, left) != Seq::<char>::empty() <==> {
            &&& info.nanos() is Some
            &&& settings.min_duration matches Some(min) ==> min.nanos <= info.nanos()->0
        },
        span.row(info, settings, conf, left) != Seq::<char>::empty() ==> span.row(
            info,
            settings,
            conf,
            left,
        ).last() == '\n',
{
    reveal_strlit("\n");
    let row = span.row(info, settings, conf, left);
    if info.nanos() is Some && !(settings.min_duration is Some && info.nanos()->0
        < settings.min_duration->0.nanos) {
        assert(row.last() == '\n');
        assert(row.len() > 0);
    }
}

impl SpanInfo {
    /// The name of the span with its shown fields.
    pub fn full_name(&self, tracker: &SpanTracker, settings: &FieldSettings) -> (name: String)
        ensures
            name@ == tracker@.full_name(*self, settings@),
    {
        let mut id = self.name.to_owned();
        tracker.metadata.write(&mut id, settings);
        id
    }

    /// Appends the span's row of the timeline.
    pub fn render(
        &self,
        out: &mut String,
        tracker: &SpanTracker,
        settings: &RenderSettings,
        render_conf: &RenderConf,
        left_offset: usize,
    )
        requires
            tracker@.row_fits(*self, *render_conf, left_offset as nat),
        ensures
            final(out)@ == old(out)@ + tracker@.row(
                *self,
                *settings,
                *render_conf,
                left_offset as nat,
            ),
    {
        let name = self.full_name(tracker, &tracker.settings);
        let truncated_key_width: usize = render_conf.key_width - left_offset;
        let key = cut_to(name.as_str(), truncated_key_width);
        let span_len = match self.duration() {
            Some(duration) => duration,
            None => {
                assert(out@ =~= old(out)@ + Seq::<char>::empty());
                return ;
            },
        };
        if let Some(min_duration) = settings.min_duration {
            if span_len.nanos < min_duration.nanos {
                assert(out@ =~= old(out)@ + Seq::<char>::empty());
                return ;
            }
        }
        let mut row = String::new();
        push_repeated(&mut row, ' ', left_offset);
        assert(row@ =~= repeated(' ', left_offset as nat));
        push_padded_right(&mut row, key, truncated_key_width);
        row.append(" ");
        push_padded_left(&mut row, pretty_duration(span_len).as_str(), DURATION_WIDTH);
        row.append(" ");
        let chart_width: usize = render_conf.chart_width();
        let since_start = match self.start.duration_since(render_conf.start_ts) {
            Some(d) => d,
            None => Duration { nanos: 0 },
        };
        let offset: usize = width(chart_width, render_conf.total(), since_start);
        push_repeated(&mut row, ' ', offset);
        push_bar(&mut row, width(chart_width, render_conf.total(), span_len));
        row.append("\n");
        out.append(row.as_str());
    }
}

impl EventModel {
    /// Whether the event's row can be laid out at its span's indentation.
    pub open spec fn row_fits(self, filter: FilterModel, conf: RenderConf, left: nat) -> bool {
        &&& left + 2 <= conf.key_width
        &&& can_cut(metadata_text(self.metadata, filter), (conf.key_width - left - 2) as nat)
    }

    /// The event's row of the timeline, at its span's indentation: its text
    /// and a mark in its span's bar.
    pub open spec fn row(
        self,
        filter: FilterModel,
        conf: RenderConf,
        span_start: Timestamp,
        left: nat,
    ) -> Seq<char> {
        let key_columns = (conf.key_width - left - 2) as nat;
        let key = cut(metadata_text(self.metadata, filter), key_columns);
        let base = columns_of(conf.columns(), conf.span(), elapsed(span_start, conf.start_ts));
        let inside = columns_of(conf.columns(), conf.span(), elapsed(self.timestamp, span_start));
        repeated(' ', left + 1) + ">"@ + padded_right(key, key_columns) + repeated(' ', 8)
            + repeated(' ', wrapped_sum(base, event_shift(inside))) + "┼\n"@
    }
}

/// The rows of a span's events.
pub open spec fn event_rows(
    events: Seq<EventModel>,
    filter: FilterModel,
    conf: RenderConf,
    span_start: Timestamp,
    left: nat,
) -> Seq<char>
    decreases events.len(),
{
    if events.len() == 0 {
        Seq::empty()
    } else {
        event_rows(events.drop_last(), filter, conf, span_start, left) + events.last().row(
            filter,
            conf,
            span_start,
            left,
        )
    }
}

impl EventInfo {
    /// Appends the event's row of the timeline. `base_offset` is the column
    /// at which its span starts.
    pub fn render(
        &self,
        out: &mut String,
        settings: &FieldSettings,
        render_conf: &RenderConf,
        span_start: Timestamp,
        base_offset: usize,
        left_offset: usize,
    )
        requires
            self@.row_fits(settings@, *render_conf, left_offset as nat),
            base_offset == columns_of(
                render_conf.columns(),
                render_conf.span(),
                elapsed(span_start, render_conf.start_ts),
            ),
        ensures
            final(out)@ == old(out)@ + self@.row(
                settings@,
                *render_conf,
                span_start,
                left_offset as nat,
            ),
    {
        let text = self.to_string(settings);
        let truncated_key_width: usize = render_conf.key_width - left_offset - 2;
        let key = cut_to(text.as_str(), truncated_key_width);
        let mut row = String::new();
        push_repeated(&mut row, ' ', left_offset + 1);
        assert(row@ =~= repeated(' ', (left_offset + 1) as nat));
        row.append(">");
        push_padded_right(&mut row, key, truncated_key_width);
        let since_start = match self.timestamp.duration_since(span_start) {
            Some(d) => d,
            None => Duration { nanos: 0 },
        };
        let inside: usize = width(render_conf.chart_width(), render_conf.total(), since_start);
        push_repeated(&mut row, ' ', DURATION_WIDTH + 2);
        push_repeated(&mut row, ' ', event_column(base_offset, inside));
        row.append("┼\n");
        out.append(row.as_str());
    }
}

} // verus!
