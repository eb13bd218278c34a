use tracing_texray::chart::{RenderConf, RenderSettings, Types};
use tracing_texray::fields::{FieldFilter, FieldSettings, TrackedMetadata};
use tracing_texray::format::{format_peak_rss_line, RssSample};
use tracing_texray::interest::{ExitReport, InterestTracker};
use tracing_texray::json_sink::Sink;
use tracing_texray::span::{cuts_at_char, EventInfo, SpanInfo, SpanTracker};
use tracing_texray::time::{Duration, Timestamp};

fn settings(width: usize) -> RenderSettings {
    RenderSettings {
        width,
        min_duration: None,
        types: Types { spans: true, events: true },
        track_ram: false,
        streaming: false,
    }
}

fn micros(n: i128) -> Timestamp {
    Timestamp { nanos: n * 1_000 }
}

fn info(name: &'static str, start: Timestamp) -> SpanInfo {
    SpanInfo::for_span(Some(name), start, false, None)
}

fn tracker(width: usize) -> InterestTracker {
    InterestTracker::new(1, settings(width), FieldSettings::default())
}

fn message(text: &str) -> TrackedMetadata {
    TrackedMetadata { data: vec![("message", text.to_string())] }
}

fn close(t: &mut InterestTracker, path: Vec<u64>, at: Timestamp) -> ExitReport {
    t.exit(path, at, None, &Sink::<()> { file: None })
}

/// A span in microseconds, opened and closed.
fn add(t: &mut InterestTracker, path: &[u64], name: &'static str, start: i128, end: i128) {
    t.open(path.to_vec(), info(name, micros(start)));
    close(t, path.to_vec(), micros(end));
}

fn event(t: &mut InterestTracker, path: &[u64], text: &str, at: i128) {
    t.add_event(path.to_vec(), EventInfo::now(message(text), micros(at)));
}

fn dump(t: &InterestTracker) -> String {
    assert!(t.is_dumpable());
    t.dump()
}

#[test]
fn timeline_of_a_load() {
    let mut t = tracker(80);
    add(&mut t, &[1], "load_data", 0, 52_000);
    add(&mut t, &[1, 2], "download_results", 23_000, 34_000);
    t.record_metadata(&[1, 2], vec![("uri", "www.crates.io".to_string())]);
    event(&mut t, &[1, 2], "URI resolved", 24_000);
    event(&mut t, &[1, 2], "connected", 29_000);
    add(&mut t, &[1, 3], "compute_stats", 35_000, 45_000);
    add(&mut t, &[1, 4], "render_response", 46_000, 52_000);
    assert_eq!(
        dump(&t),
        "
load_data                                52ms ├────────────────────────────────┤
  download_results{uri: www.crates.io}   11ms                ├─────┤
   >URI resolved                                             ┼
   >connected                                                   ┼
  compute_stats                          10ms                        ├─────┤
  render_response                         6ms                               ├──┤
"
    );
}

#[test]
fn timeline_of_tasks() {
    let mut t = tracker(80);
    add(&mut t, &[1], "do_a_thing", 0, 509);
    let tasks = [(77, 169, 104), (211, 247, 212), (288, 323, 289), (384, 420, 385), (461, 496, 462)];
    for (i, (start, end, buzz)) in tasks.into_iter().enumerate() {
        let path = [1, i as u64 + 2];
        add(&mut t, &path, "inner_task", start, end);
        t.record_metadata(&path, vec![("id", i.to_string())]);
        event(&mut t, &path, "buzz", buzz);
    }
    assert_eq!(
        dump(&t),
        "
do_a_thing           509μs ├───────────────────────────────────────────────────┤
  inner_task{id: 0}   92μs         ├────────┤
   >buzz                             ┼
  inner_task{id: 1}   36μs                       ├──┤
   >buzz                                         ┼
  inner_task{id: 2}   35μs                               ├──┤
   >buzz                                                 ┼
  inner_task{id: 3}   36μs                                         ├──┤
   >buzz                                                           ┼
  inner_task{id: 4}   35μs                                                 ├──┤
   >buzz                                                                   ┼
"
    );
}

#[test]
fn nothing_opened_says_so() {
    let mut t = tracker(80);
    assert_eq!(dump(&t), "no events...");
    // Fields, events and exits do not open a span.
    t.record_metadata(&[1], vec![("a", "b".to_string())]);
    event(&mut t, &[1], "early", 5);
    let report = close(&mut t, vec![1], micros(9));
    assert!(report.line.is_none() && report.rss_line.is_none() && report.record.is_none());
    assert!(!report.opened);
    assert_eq!(dump(&t), "no events...");
}

#[test]
fn no_timeline_before_a_span_has_ended() {
    let mut t = tracker(80);
    t.open(vec![1], info("open_forever", micros(0)));
    assert!(!t.is_dumpable());
    add(&mut t, &[1, 2], "inner", 1, 2);
    let bar = format!("├{}┤", "─".repeat(28));
    assert_eq!(dump(&t), format!("\n  inner         1μs {}{bar}\n", " ".repeat(30)));
}

#[test]
fn rows_follow_starts_whatever_the_order_of_calls() {
    let names = |t: &InterestTracker| {
        dump(t)
            .lines()
            .filter_map(|l| l.split_whitespace().next().map(str::to_string))
            .collect::<Vec<_>>()
    };
    let mut t = tracker(80);
    add(&mut t, &[1, 4], "late", 40, 50);
    add(&mut t, &[1, 2, 3], "leaf", 10, 20);
    add(&mut t, &[1, 2], "branch", 10, 30);
    add(&mut t, &[1], "root", 10, 60);
    assert_eq!(names(&t), ["root", "branch", "leaf", "late"]);
    // Spans with the same starts all the way up keep the order in which they
    // were first seen.
    let mut t = tracker(80);
    add(&mut t, &[1], "root", 0, 60);
    add(&mut t, &[1, 9], "first", 5, 6);
    add(&mut t, &[1, 2], "second", 5, 9);
    assert_eq!(names(&t), ["root", "first", "second"]);
}

#[test]
fn spans_without_a_start_are_known() {
    let mut t = tracker(80);
    assert!(!t.knows_starts());
    t.open(vec![1], info("root", micros(1)));
    assert!(t.knows_starts());
    assert!(close(&mut t, vec![1], micros(9)).opened);
    // A span whose parent was never seen.
    add(&mut t, &[1, 2, 3], "leaf", 2, 3);
    assert!(!t.knows_starts());
    t.open(vec![1, 2], info("branch", micros(2)));
    assert!(t.knows_starts());
}

#[test]
fn short_spans_and_row_types_can_be_left_out() {
    let build = |s: RenderSettings| {
        let mut t = InterestTracker::new(1, s, FieldSettings::default());
        add(&mut t, &[1], "long", 0, 100);
        add(&mut t, &[1, 2], "even", 0, 10);
        add(&mut t, &[1, 3], "tiny", 20, 29);
        event(&mut t, &[1, 3], "hi", 21);
        dump(&t)
    };
    let all = build(settings(60));
    assert_eq!(all.lines().count(), 5);
    let min = build(RenderSettings { min_duration: Some(Duration { nanos: 10_000 }), ..settings(60) });
    assert!(min.contains("even") && !min.contains("tiny") && min.contains(">hi"));
    let spans = build(RenderSettings { types: Types { spans: true, events: false }, ..settings(60) });
    assert!(spans.contains("tiny") && !spans.contains(">hi"));
    let events = build(RenderSettings { types: Types { spans: false, events: true }, ..settings(60) });
    assert_eq!(events.lines().count(), 2);
    assert!(events.ends_with("┼\n"));
}

#[test]
fn bars_by_width() {
    let row = |end: i128| {
        let mut t = tracker(28);
        add(&mut t, &[1], "r", 0, 1_900);
        add(&mut t, &[1, 2], "x", 0, end);
        let text = dump(&t);
        text.lines().nth(2).unwrap().split(' ').last().unwrap().to_string()
    };
    // The keys take 3 columns, the durations 8: 17 are left.
    assert_eq!(row(0), "┆");
    assert_eq!(row(55), "┆");
    assert_eq!(row(56), "│");
    assert_eq!(row(223), "├┤");
    assert_eq!(row(280), "├─┤");
    assert_eq!(row(1_900), format!("├{}┤", "─".repeat(15)));
}

#[test]
fn narrow_terminals_get_twenty_columns() {
    let conf = |key_width, width| RenderConf {
        start_ts: micros(0),
        end_ts: micros(7),
        key_width,
        width,
    };
    assert_eq!(conf(10, 100).chart_width(), 82);
    assert_eq!(conf(92, 100).chart_width(), 0);
    assert_eq!(conf(93, 100).chart_width(), 20);
    assert_eq!(conf(120, 100).chart_width(), 20);
    assert_eq!(conf(1, 1).total(), Duration { nanos: 7_000 });
    let reversed = RenderConf { start_ts: micros(9), ..conf(1, 1) };
    assert_eq!(reversed.total(), Duration { nanos: 0 });
}

#[test]
fn long_keys_are_cut_to_120_bytes() {
    let mut t = tracker(140);
    add(&mut t, &[1], "root", 0, 1_000);
    t.record_metadata(&[1], vec![("data", "x".repeat(200))]);
    let text = dump(&t);
    let row = text.lines().nth(1).unwrap();
    let (key, rest) = row.split_at(120);
    assert_eq!(key, format!("root{{data: {}", "x".repeat(109)));
    assert_eq!(rest, "    1ms ├──────────┤");
    // A cut through the middle of a character cannot be laid out.
    let mut t = tracker(140);
    add(&mut t, &[1], "root", 0, 1_000);
    t.record_metadata(&[1], vec![("data", "μ".repeat(100))]);
    assert!(!t.is_dumpable());
    assert!(cuts_at_char("μμ", 4) && cuts_at_char("μμ", 2) && !cuts_at_char("μμ", 3));
}

#[test]
fn nesting_beyond_the_keys_cannot_be_laid_out() {
    let mut t = tracker(80);
    add(&mut t, &[1], "root", 0, 10);
    let deep: Vec<u64> = (1..=62).collect();
    add(&mut t, &deep, "deep", 1, 2);
    assert!(!t.is_dumpable());
    let mut t = tracker(80);
    add(&mut t, &[1], "root", 0, 10);
    let deep: Vec<u64> = (1..=61).collect();
    add(&mut t, &deep, "deep", 1, 2);
    assert!(t.is_dumpable());
    assert!(dump(&t).contains(&format!("\n{} ", " ".repeat(120))));
}

#[test]
fn spans_are_tracked_apart() {
    let mut t = tracker(80);
    t.open(vec![1], info("a", micros(1)));
    t.open(vec![1, 2], info("b", micros(2)));
    t.open(vec![1, 3], info("c", micros(3)));
    close(&mut t, vec![1, 2], micros(9));
    assert!(t.span(vec![1]).info.unwrap().end.is_none());
    assert_eq!(t.span(vec![1, 2]).info.unwrap().end, Some(micros(9)));
    assert!(t.span(vec![1, 3]).info.unwrap().end.is_none());
    assert_eq!(t.spans().len(), 3);
    // Unknown paths are not made by recording fields, and are by opening.
    t.record_metadata(&[1, 7], vec![("a", "b".to_string())]);
    assert_eq!(t.children.len(), 3);
    t.new_span(vec![1, 7]);
    assert_eq!(t.children.len(), 4);
    assert_eq!(t.spans().len(), 3);
}

#[test]
fn only_the_first_open_counts() {
    let mut span = SpanTracker::new(FieldSettings::default());
    assert!(span.span_info().is_none());
    span.exit(micros(3), RssSample::default());
    assert!(span.span_info().is_none() && span.timing().is_none());
    span.open(info("first", micros(5)));
    span.open(info("second", micros(6)));
    assert!(span.streaming_line().is_none() && span.timing().is_none());
    span.exit(micros(7), RssSample::default());
    span.exit(micros(8), RssSample::default());
    assert_eq!(span.span_info().unwrap().name, "first");
    assert_eq!(span.span_info().unwrap().duration(), Some(Duration { nanos: 3_000 }));
    assert_eq!(span.streaming_line(), Some("[texray] first: 3.00μs".to_string()));
    assert_eq!(span.max_key_width(4), 5 + 6);
}

#[test]
fn spans_that_end_before_they_start_are_not_shown() {
    let mut span = SpanTracker::new(FieldSettings::default());
    span.open(info("odd", micros(5)));
    let peak = RssSample { current_kb: 1, peak_kb: 2 };
    span.exit(micros(4), peak);
    assert!(span.streaming_line().is_none() && span.timing().is_none());
    assert_eq!(
        span.streaming_rss_line(),
        Some("[texray] odd peak-rss-bytes=2048 (2.00 KiB)".to_string())
    );
    assert_eq!(span.span_info().unwrap().duration(), None);
}

#[test]
fn unknown_spans_have_a_name_too() {
    assert_eq!(SpanInfo::for_span(None, micros(0), false, None).name, "could-not-find-span");
}

#[test]
fn streaming_lines_with_and_without_memory() {
    let status = |rss: u64, hwm: u64| format!("VmHWM:\t{hwm} kB\nVmRSS:\t{rss} kB\n");
    let run = |track_ram: bool, streaming: bool| {
        let s = RenderSettings { track_ram, streaming, ..settings(80) };
        let mut t = InterestTracker::new(1, s, FieldSettings::default());
        let sample = t.sample_rss();
        t.open(vec![1], SpanInfo::for_span(Some("op"), micros(0), sample, Some(&status(100, 100))));
        let end = status(612, 2048);
        t.exit(vec![1], micros(1_500), Some(&end), &Sink::<()> { file: None })
    };
    let both = run(true, true);
    assert_eq!(
        both.line.unwrap(),
        "[texray] op: 1.50ms  ── RAM Δ +512.00 KiB peak 2.00 MiB"
    );
    assert_eq!(both.rss_line.unwrap(), "[texray] op peak-rss-bytes=2097152 (2.00 MiB)");
    let plain = run(false, true);
    assert_eq!(plain.line.unwrap(), "[texray] op: 1.50ms");
    assert!(plain.rss_line.is_none());
    let quiet = run(true, false);
    assert!(quiet.line.is_none() && quiet.rss_line.is_none());
}

#[test]
fn peak_lines_give_the_bytes_as_one_integer() {
    for (kb, bytes) in [(1, 1024), (4096, 4_194_304), (u64::MAX / 1024, u64::MAX / 1024 * 1024), (u64::MAX, u64::MAX)] {
        let line = format_peak_rss_line("a name", kb).unwrap();
        let rest = line.strip_prefix("[texray] a name peak-rss-bytes=").unwrap();
        assert_eq!(rest.split(' ').next().unwrap().parse::<u64>(), Ok(bytes));
    }
}

#[test]
fn fields_are_recorded_and_shown_by_the_filter() {
    let allow = FieldFilter::AllowList(vec!["a".to_string(), "b".to_string()]);
    let deny = FieldFilter::DenyList(vec!["a".to_string()]);
    assert!(allow.should_print("a") && !allow.should_print("c") && !allow.should_print("message"));
    assert!(!deny.should_print("a") && deny.should_print("message"));
    let offered = || {
        vec![
            ("a", "1".to_string()),
            ("c", "2".to_string()),
            ("b", "3".to_string()),
            ("message", "one\r\ntwo".to_string()),
        ]
    };
    let shown = |recorded: &FieldFilter, shown: FieldFilter| {
        let mut m = TrackedMetadata::default();
        m.record(offered(), recorded);
        let mut out = "name".to_string();
        m.write(&mut out, &FieldSettings::new(shown));
        out
    };
    let all = || FieldFilter::DenyList(vec![]);
    assert_eq!(shown(&all(), all()), "nameone{a: 1, c: 2, b: 3}");
    assert_eq!(shown(&allow, all()), "name{a: 1, b: 3}");
    assert_eq!(shown(&deny, all()), "nameone{c: 2, b: 3}");
    assert_eq!(shown(&all(), allow.clone()), "name{a: 1, b: 3}");
    assert_eq!(shown(&all(), FieldFilter::AllowList(vec![])), "name");
    assert_eq!(
        shown(&all(), FieldSettings::new(allow.clone()).with_message().field_filter),
        "nameone{a: 1, b: 3}"
    );
}

#[test]
fn recorders_filter_field_by_field() {
    let filter = FieldFilter::AllowList(vec!["kept".to_string()]);
    let mut t = InterestTracker::new(1, settings(80), FieldSettings::new(filter));
    let mut m = TrackedMetadata::default();
    let mut recorder = t.field_recorder(&mut m);
    recorder.record_debug("kept", "1".to_string());
    recorder.record_debug("lost", "2".to_string());
    recorder.record_debug("kept", "3".to_string());
    assert_eq!(m.data, [("kept", "1".to_string()), ("kept", "3".to_string())]);
    t.record_metadata(&[1], vec![("lost", "x".to_string()), ("kept", "y".to_string())]);
    assert_eq!(t.span(vec![1]).metadata.data, [("kept", "y".to_string())]);
}

#[test]
fn events_show_their_message_under_an_allow_list() {
    let filter = FieldFilter::AllowList(vec!["kept".to_string()]);
    let mut t = InterestTracker::new(1, settings(60), FieldSettings::new(filter));
    add(&mut t, &[1], "root_span", 0, 10);
    let fields = vec![
        ("message", "hello\nworld".to_string()),
        ("kept", "1".to_string()),
        ("lost", "2".to_string()),
    ];
    t.add_event(vec![1], EventInfo::now(TrackedMetadata { data: fields }, micros(0)));
    // The key has 9 columns, of which the event's text gets 7.
    let text = dump(&t);
    let row = text.lines().nth(2).unwrap();
    assert_eq!(row, format!(" >hello{{k{}┼", " ".repeat(8)));
}

#[test]
fn durations_run_from_earlier_to_later() {
    let at = |nanos| Timestamp { nanos };
    assert_eq!(at(7).duration_since(at(7)), Some(Duration { nanos: 0 }));
    assert_eq!(at(7).duration_since(at(-3)), Some(Duration { nanos: 10 }));
    assert_eq!(at(-7).duration_since(at(-9)), Some(Duration { nanos: 2 }));
    assert_eq!(at(-3).duration_since(at(7)), None);
    assert_eq!(
        at(i128::MAX).duration_since(at(i128::MIN)),
        Some(Duration { nanos: u128::MAX })
    );
}
