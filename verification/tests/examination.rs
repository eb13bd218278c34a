use tracing_texray::chart::{RenderSettings, Types};
use tracing_texray::fields::FieldSettings;
use tracing_texray::interest::ExitReport;
use tracing_texray::json_sink::Sink;
use tracing_texray::root::{Action, RootTracker, SpanSettings};
use tracing_texray::rss_sampler::{
    bump_peak, current_tree_rss_bytes, peak_tree_rss_bytes, start, ProcessEntry, Sampler,
};
use tracing_texray::span::SpanInfo;
use tracing_texray::time::Timestamp;

const STATUS: &str = "Name:\ttest\nVmHWM:\t    3572 kB\nVmRSS:\t    3504 kB\n";

fn millis(n: i128) -> Timestamp {
    Timestamp { nanos: n * 1_000_000 }
}

/// What a subscriber does when a span is entered.
fn enter(root: &mut RootTracker, ids: &[u64], name: &'static str, at: Timestamp) {
    root.if_interested(ids, |tracker, path| {
        let sample = tracker.sample_rss();
        tracker.open(path.to_vec(), SpanInfo::for_span(Some(name), at, sample, Some(STATUS)));
        Action::DoNothing
    });
}

/// What a subscriber does when a span is exited: the lines and the records
/// that come, and the timeline where the examined span itself is exited.
fn leave<F>(root: &mut RootTracker, ids: &[u64], at: Timestamp, sink: &Sink<F>) -> String {
    let reports = std::cell::RefCell::new(Vec::<ExitReport>::new());
    let forgotten = root.if_interested(ids, |tracker, path| {
        reports.borrow_mut().push(tracker.exit(path.to_vec(), at, Some(STATUS), sink));
        if path.len() == 1 {
            Action::ForgetSpan
        } else {
            Action::DoNothing
        }
    });
    let mut out = String::new();
    for report in reports.into_inner() {
        for line in [report.line, report.rss_line, report.record].into_iter().flatten() {
            out.push_str(line.trim_end());
            out.push('\n');
        }
    }
    if let Some(tracker) = forgotten {
        assert!(root.end_tracking(ids[ids.len() - 1]));
        assert!(tracker.is_dumpable());
        out.push_str(&tracker.dump());
    }
    out
}

fn settings(streaming: bool, track_ram: bool) -> SpanSettings {
    SpanSettings {
        render: RenderSettings {
            width: 80,
            min_duration: None,
            types: Types { spans: true, events: true },
            track_ram,
            streaming,
        },
        fields: FieldSettings::default(),
    }
}

/// A span that is examined from inside, with a span inside it.
fn instrumented_work<F>(name: &'static str, settings: SpanSettings, sink: &Sink<F>) -> String {
    let mut root = RootTracker::new();
    let mut output = String::new();
    enter(&mut root, &[1], name, millis(0));
    assert!(root.register_interest(1, settings));
    root.populate_examined_root(1, name, millis(0), Some(STATUS));
    enter(&mut root, &[1, 2], "inner", millis(1));
    output.push_str(&leave(&mut root, &[1, 2], millis(2), sink));
    output.push_str(&leave(&mut root, &[1], millis(3), sink));
    output
}

#[test]
fn examine_current_dumps_instrumented_span() {
    let output = instrumented_work("instrumented_outer", settings(false, false), &Sink::<()> { file: None });
    assert!(
        output.contains("instrumented_outer"),
        "expected outer span name in dump:\n{output}"
    );
    assert!(
        output.contains("inner"),
        "expected nested span in dump:\n{output}"
    );
}

#[test]
fn streaming_emits_line_per_span_close() {
    let output = instrumented_work("outer", settings(true, true), &Sink::<()> { file: None });
    // Streaming lines should appear for each tracked span as it closes.
    assert!(
        output.contains("[texray] outer:"),
        "expected outer span streaming line:\n{output}"
    );
    assert!(
        output.contains("[texray] inner:"),
        "expected inner span streaming line:\n{output}"
    );
    // Streaming lines should fire *before* the texray graph prints: the inner
    // span closes first, then outer (which also triggers the print).
    let inner_pos = output
        .find("[texray] inner:")
        .expect("inner streaming line missing");
    let outer_pos = output
        .find("[texray] outer:")
        .expect("outer streaming line missing");
    assert!(
        inner_pos < outer_pos,
        "expected inner streaming line before outer:\n{output}"
    );
    // RAM tracking is enabled, and there is a status to read.
    assert!(
        output.contains("── RAM Δ"),
        "expected RAM suffix on streaming lines with track_ram on Linux:\n{output}"
    );
}

#[test]
fn records_examined_span_timing() {
    let contents = instrumented_work("phase/demo", settings(false, false), &Sink { file: Some(()) });
    assert!(
        contents.contains("\"span\":\"phase/demo\"") && contents.contains("\"seconds\":"),
        "sink did not record the span: {contents:?}",
    );
}

#[test]
fn tree_peak_includes_child_process() {
    let process = |pid: u32, ppid: u32, rss_kb: u64| ProcessEntry {
        pid,
        status: format!("PPid:\t{ppid}\nVmRSS:\t{rss_kb} kB\n"),
    };
    let mut sampler = Sampler { started: false, peak: 0 };
    start(&mut sampler, &vec![process(70, 1, 3_000)], 70);
    // A child that touches ~200 MB.
    let scan = vec![process(70, 1, 3_000), process(71, 70, 200 * 1024)];
    bump_peak(&mut sampler, current_tree_rss_bytes(&scan, 70));
    let peak = peak_tree_rss_bytes(&sampler);
    assert!(
        peak >= 150 * 1024 * 1024,
        "tree peak {peak} bytes did not reflect the child's ~200 MB",
    );
}
