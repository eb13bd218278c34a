use tracing_texray::chart::{RenderSettings, Types};
use tracing_texray::fields::FieldSettings;
use tracing_texray::root::{
    Action, Interest, RootTracker, SpanSettings, TrackedSpans, MAX_EXAMINED_SPANS,
};
use tracing_texray::span::SpanInfo;
use tracing_texray::time::Timestamp;

fn settings(sample: bool) -> SpanSettings {
    SpanSettings {
        render: RenderSettings {
            width: 80,
            min_duration: None,
            types: Types { spans: true, events: true },
            track_ram: sample,
            streaming: sample,
        },
        fields: FieldSettings::default(),
    }
}

fn at(nanos: i128) -> Timestamp {
    Timestamp { nanos }
}

#[test]
fn tracked_spans_have_a_limit() {
    let mut spans = TrackedSpans::new(2);
    assert!(!spans.contains(7));
    assert_eq!(spans.insert(7), Ok(()));
    assert_eq!(spans.insert(8), Ok(()));
    assert_eq!(spans.insert(9), Err(()));
    assert_eq!(spans.insert(7), Ok(()));
    assert!(spans.contains(7) && spans.contains(8) && !spans.contains(9));
    assert!(spans.remove(7));
    assert!(!spans.remove(7));
    assert_eq!(spans.insert(9), Ok(()));
    assert_eq!(TrackedSpans::new(0).insert(1), Err(()));
}

#[test]
fn too_many_examined_spans_are_refused() {
    let mut root = RootTracker::new();
    for id in 1..=MAX_EXAMINED_SPANS as u64 {
        assert!(root.register_interest(id, settings(false)));
    }
    assert!(!root.register_interest(5_000, settings(false)));
    assert!(!root.end_tracking(5_000));
    assert!(!root.span_metadata.contains_key(&5_000));
    assert!(root.end_tracking(1));
    assert!(!root.end_tracking(1));
    assert!(root.register_interest(5_000, settings(false)));
}

#[test]
fn examined_roots_are_opened_once() {
    let mut root = RootTracker::new();
    root.populate_examined_root(3, "nobody", at(1), None);
    assert!(root.span_metadata.is_empty());
    root.register_interest(3, settings(true));
    root.populate_examined_root(3, "first", at(2), Some("VmRSS: 6 kB\n"));
    root.populate_examined_root(3, "second", at(4), Some("VmRSS: 8 kB\n"));
    let info = root.span_metadata[&3].children[0].span.info.unwrap();
    assert_eq!((info.name, info.start, info.end), ("first", at(2), None));
    assert_eq!((info.start_rss.current_kb, info.end_rss.current_kb), (6, 0));
    // Without sampling nothing is read.
    root.register_interest(4, settings(false));
    root.populate_examined_root(4, "quiet", at(5), Some("VmRSS: 6 kB\n"));
    assert!(root.span_metadata[&4].children[0].span.info.unwrap().start_rss.is_zero());
}

#[test]
fn interest_starts_at_the_first_examined_span() {
    let mut root = RootTracker::new();
    root.register_interest(3, settings(false));
    root.register_interest(4, settings(false));
    let seen = root.if_interested(&[1, 2], |_, _| unreachable!());
    assert!(seen.is_none());
    let kept = root.if_interested(&[1, 3, 4, 5], |t, path| {
        assert_eq!(path, [3, 4, 5]);
        t.open(path.to_vec(), SpanInfo::for_span(Some("deep"), at(1), false, None));
        Action::DoNothing
    });
    assert!(kept.is_none());
    assert_eq!(root.span_metadata[&3].children.len(), 2);
    assert_eq!(root.span_metadata[&4].children.len(), 1);
    let forgotten = root.if_interested(&[3], |_, path| {
        assert_eq!(path, [3]);
        Action::ForgetSpan
    });
    assert_eq!(forgotten.unwrap().spans()[0].name, "deep");
    assert!(!root.span_metadata.contains_key(&3));
    assert!(root.span_metadata.contains_key(&4));
    // The tracker is gone, and the span still examined: nothing is called.
    assert!(root.if_interested(&[3, 4], |_, _| unreachable!()).is_none());
    assert!(root.end_tracking(3));
    assert!(root.if_interested(&[3, 4], |_, _| Action::ForgetSpan).is_some());
}

#[test]
fn trackers_are_taken_and_settled() {
    let mut root = RootTracker::new();
    root.register_interest(3, settings(false));
    assert!(matches!(root.take_interested(&[1, 2]), Interest::NotExamined));
    let Interest::Examined { place, tracker } = root.take_interested(&[1, 3, 4]) else {
        panic!("span 3 is examined");
    };
    assert_eq!(place, 1);
    // While the tracker is out, the examined spans can change.
    assert!(matches!(root.take_interested(&[3]), Interest::Lost));
    assert!(root.end_tracking(3));
    assert!(root.settle(3, tracker, Action::DoNothing).is_none());
    assert!(root.span_metadata.contains_key(&3));
    assert!(matches!(root.take_interested(&[3]), Interest::NotExamined));
    root.register_interest(5, settings(false));
    let Interest::Examined { place: 0, tracker } = root.take_interested(&[5]) else {
        panic!("span 5 is examined");
    };
    assert_eq!(root.settle(5, tracker, Action::ForgetSpan).unwrap().children[0].path, [5]);
    assert!(!root.span_metadata.contains_key(&5));
}
