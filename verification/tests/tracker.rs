use std::time::Duration as StdDuration;

use tracing_texray::chart::{width, RenderSettings, Types};
use tracing_texray::fields::{FieldSettings, TrackedMetadata};
use tracing_texray::format::{
    format_bytes, format_peak_rss_line, format_signed_kb, format_streaming_duration,
    format_streaming_rss, RssSample,
};
use tracing_texray::interest::InterestTracker;
use tracing_texray::json_sink::Sink;
use tracing_texray::proc_status::{parse_kb, read_rss};
use tracing_texray::span::SpanInfo;
use tracing_texray::time::{Duration, Timestamp};

/// The text of `/proc/self/status` as a Linux process sees it.
fn live_status() -> String {
    "Name:\ttracker\nUmask:\t0022\nState:\tR (running)\nTgid:\t4242\nPid:\t4242\nPPid:\t4200\n\
     VmPeak:\t   77056 kB\nVmSize:\t   77056 kB\nVmLck:\t       0 kB\nVmPin:\t       0 kB\n\
     VmHWM:\t    3572 kB\nVmRSS:\t    3504 kB\nRssAnon:\t     372 kB\nThreads:\t2\n"
        .to_string()
}

fn duration(d: StdDuration) -> Duration {
    Duration { nanos: d.as_nanos() }
}

fn at_secs(secs: i128) -> Timestamp {
    Timestamp { nanos: secs * 1_000_000_000 }
}

fn no_sink() -> Sink<()> {
    Sink { file: None }
}

fn render_settings(track_ram: bool) -> RenderSettings {
    RenderSettings {
        width: 120,
        min_duration: None,
        types: Types { spans: true, events: true },
        track_ram,
        streaming: false,
    }
}

fn info(name: &'static str, start: Timestamp) -> SpanInfo {
    SpanInfo {
        name,
        start,
        end: None,
        start_rss: RssSample::default(),
        end_rss: RssSample::default(),
    }
}

#[test]
fn compute_relative_width() {
    let total = duration(StdDuration::from_secs(10));
    let partial = duration(StdDuration::from_secs(1));
    assert_eq!(width(10, total, partial), 1);

    let total = duration(StdDuration::from_secs(10));
    let partial = duration(StdDuration::from_secs_f64(2.9));
    assert_eq!(width(10, total, partial), 3);

    let total = duration(StdDuration::from_secs_f64(0.045532));
    let partial = duration(StdDuration::from_secs_f64(0.034389));
    assert_eq!(width(120, total, partial), 91);
    let total = duration(StdDuration::from_secs_f64(0.045532));
    let partial = duration(StdDuration::from_secs_f64(0.034489));
    assert_eq!(width(120, total, partial), 91);
}

#[test]
fn render_metadata() {
    let metadata = TrackedMetadata {
        data: vec![("A", "B".to_string()), ("c", "d".to_string())],
    };
    let mut out = String::new();
    metadata.write(&mut out, &FieldSettings::default());
    assert_eq!(out, "{A: B, c: d}");
}

#[test]
fn render_empty_metadata() {
    let metadata = TrackedMetadata { data: vec![] };
    let mut out = String::new();
    metadata.write(&mut out, &FieldSettings::default());
    assert_eq!(out, "");
}

#[test]
fn render_correct_output() {
    let mut tracker = InterestTracker::new(1, render_settings(false), FieldSettings::default());
    tracker.new_span(vec![1]);
    tracker.new_span(vec![1, 2]);
    tracker.open(vec![1], info("test", at_secs(0)));
    tracker.open(vec![1, 2], info("nested", at_secs(2)));
    tracker.exit(vec![1, 2], at_secs(7), None, &no_sink());
    tracker.exit(vec![1], at_secs(10), None, &no_sink());
    assert!(tracker.is_dumpable());
    let output = tracker.dump();
    assert_eq!(
        output,
        r#"
test       10s  ├──────────────────────────────────────────────────────────────────────────────────────────────────────┤
  nested    5s                       ├──────────────────────────────────────────────────┤
"#
    );
}

#[test]
fn format_bytes_units() {
    assert_eq!(format_bytes(0), "0.00 KiB");
    assert_eq!(format_bytes(512), "512.00 KiB");
    assert_eq!(format_bytes(1023), "1023.00 KiB");
    assert_eq!(format_bytes(1024), "1.00 MiB");
    assert_eq!(format_bytes(2048), "2.00 MiB");
    assert_eq!(format_bytes(2 * 1024 * 1024), "2.00 GiB");
}

#[test]
fn format_signed_kb_signs() {
    assert_eq!(format_signed_kb(0, 0), "+0.00 KiB");
    assert_eq!(format_signed_kb(1024, 3072), "+2.00 MiB");
    assert_eq!(format_signed_kb(3072, 1024), "-2.00 MiB");
    assert_eq!(format_signed_kb(100, 100), "+0.00 KiB");
}

#[test]
fn format_streaming_duration_units() {
    assert_eq!(
        format_streaming_duration(duration(StdDuration::from_nanos(500))),
        "500ns"
    );
    assert_eq!(
        format_streaming_duration(duration(StdDuration::from_nanos(1_500))),
        "1.50μs"
    );
    assert_eq!(
        format_streaming_duration(duration(StdDuration::from_micros(1_500))),
        "1.50ms"
    );
    assert_eq!(
        format_streaming_duration(duration(StdDuration::from_millis(1_500))),
        "1.50s"
    );
    assert_eq!(
        format_streaming_duration(duration(StdDuration::from_secs(90))),
        "1.50m"
    );
    assert_eq!(
        format_streaming_duration(duration(StdDuration::from_secs(5_400))),
        "1.50h"
    );
}

#[test]
fn format_streaming_rss_empty_when_zero() {
    assert_eq!(
        format_streaming_rss(RssSample::default(), RssSample::default()),
        ""
    );
}

#[test]
fn format_streaming_rss_renders_delta_and_peak() {
    let start = RssSample { current_kb: 1024, peak_kb: 1024 };
    let end = RssSample { current_kb: 3072, peak_kb: 4096 };
    assert_eq!(
        format_streaming_rss(start, end),
        "  ── RAM Δ +2.00 MiB peak 4.00 MiB"
    );
}

#[test]
fn format_peak_rss_line_bytes_with_human_suffix() {
    // 4096 KiB peak -> 4194304 raw bytes plus a parenthesized human form.
    assert_eq!(
        format_peak_rss_line("load_data", 4096),
        Some("[texray] load_data peak-rss-bytes=4194304 (4.00 MiB)".to_string())
    );
    // Zero peak (RAM tracking off) emits nothing.
    assert_eq!(format_peak_rss_line("load_data", 0), None);
}

#[test]
fn rss_sample_is_zero() {
    assert!(RssSample::default().is_zero());
    assert!(!RssSample { current_kb: 1, peak_kb: 0 }.is_zero());
    assert!(!RssSample { current_kb: 0, peak_kb: 1 }.is_zero());
}

#[test]
fn parse_kb_handles_status_format() {
    assert_eq!(parse_kb(" 12345 kB"), 12345);
    assert_eq!(parse_kb("\t  42  kB\n"), 42);
    assert_eq!(parse_kb("0 kB"), 0);
    assert_eq!(parse_kb("garbage"), 0);
}

#[test]
fn read_rss_returns_live_sample() {
    // The test process is real; VmRSS must be non-zero and VmHWM >= VmRSS.
    let sample = read_rss(Some(&live_status()));
    assert!(
        sample.current_kb > 0,
        "expected non-zero current RSS, got {sample:?}"
    );
    assert!(
        sample.peak_kb >= sample.current_kb,
        "peak ({}) should be >= current ({})",
        sample.peak_kb,
        sample.current_kb
    );
}

#[test]
fn read_rss_returns_zero_off_linux() {
    // Where there is no status file there is nothing to read.
    assert!(read_rss(None).is_zero());
}

#[test]
fn span_info_for_span_samples_when_enabled() {
    let status = live_status();
    let sampled = SpanInfo::for_span(Some("x"), at_secs(0), true, Some(&status)).start_rss;
    let unsampled = SpanInfo::for_span(Some("x"), at_secs(0), false, Some(&status)).start_rss;
    assert!(unsampled.is_zero());
    assert!(!sampled.is_zero());
}

#[test]
fn interest_tracker_exit_samples_when_tracking_and_streaming() {
    // exit() records a non-zero end_rss only when track_ram and streaming
    // are both on (RSS is consumed by the streaming lines).
    let mut tracker = InterestTracker::new(
        1,
        RenderSettings { streaming: true, ..render_settings(true) },
        FieldSettings::default(),
    );
    tracker.new_span(vec![1]);
    tracker.open(vec![1], info("x", at_secs(0)));
    tracker.exit(vec![1], at_secs(1), Some(&live_status()), &no_sink());
    let span = tracker.span(vec![1]);
    let info = span.info.as_ref().expect("info set after open");
    assert!(
        !info.end_rss.is_zero(),
        "expected real RSS sample on Linux, got {:?}",
        info.end_rss
    );
}

#[test]
fn interest_tracker_exit_skips_sampling_when_disabled() {
    let mut tracker = InterestTracker::new(1, render_settings(false), FieldSettings::default());
    tracker.new_span(vec![1]);
    tracker.open(vec![1], info("x", at_secs(0)));
    tracker.exit(vec![1], at_secs(1), Some(&live_status()), &no_sink());
    let span = tracker.span(vec![1]);
    let info = span.info.as_ref().expect("info set after open");
    assert!(info.end_rss.is_zero());
}

#[test]
fn interest_tracker_exit_skips_sampling_without_streaming() {
    // track_ram on but streaming off: nothing would render the samples, so
    // sample_rss() is false and exit() must not read RSS.
    let mut tracker = InterestTracker::new(1, render_settings(true), FieldSettings::default());
    tracker.new_span(vec![1]);
    tracker.open(vec![1], info("x", at_secs(0)));
    tracker.exit(vec![1], at_secs(1), Some(&live_status()), &no_sink());
    let span = tracker.span(vec![1]);
    let info = span.info.as_ref().expect("info set after open");
    assert!(
        info.end_rss.is_zero(),
        "track_ram without streaming should not sample RSS: {:?}",
        info.end_rss
    );
}
