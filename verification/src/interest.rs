//! All that is tracked of one examined span and its descendants.

use vstd::prelude::*;

use crate::chart::RenderSettings;
use crate::double::{fixed, Float};
use crate::fields::{
    fields_of, FieldFilterTracked, FieldModel, FieldSettings, FilterModel, TrackedMetadata,
};
use crate::format::text_of;
use crate::json_sink::{is_active, json_text, record, Sink};
use crate::proc_status::view_of;
use crate::span::{sample_when, sampled, EventInfo, EventModel, SpanInfo, SpanModel, SpanTracker};
use crate::time::Timestamp;

verus! {

/// A span below the examined one, by the ids from the examined span down to
/// it.
#[derive(Debug)]
pub struct Child {
    pub path: Vec<u64>,
    pub span: SpanTracker,
}

/// What a [`Child`] stands for.
pub struct ChildModel {
    pub path: Seq<u64>,
    pub span: SpanModel,
}

impl View for Child {
    type V = ChildModel;

    open spec fn view(&self) -> ChildModel {
        ChildModel { path: self.path@, span: self.span@ }
    }
}

/// What each of a list of children stands for.
pub open spec fn children_of(children: Seq<Child>) -> Seq<ChildModel> {
    Seq::new(children.len(), |i: int| children[i]@)
}

/// Whether a child has this path.
pub open spec fn has_path(children: Seq<ChildModel>, path: Seq<u64>) -> bool {
    exists|i: int| 0 <= i < children.len() && #[trigger] children[i].path == path
}

/// The place of the child with this path.
pub open spec fn place_of(children: Seq<ChildModel>, path: Seq<u64>) -> int {
    choose|i: int| 0 <= i < children.len() && #[trigger] children[i].path == path
}

/// Whether the paths are not empty, and no path occurs twice.
pub open spec fn paths_valid(children: Seq<ChildModel>) -> bool {
    &&& forall|i: int| 0 <= i < children.len() ==> #[trigger] children[i].path.len() > 0
    &&& forall|i: int, j: int|
        0 <= i < children.len() && 0 <= j < children.len() && #[trigger] children[i].path
            == #[trigger] children[j].path ==> i == j
}

/// What is known of the span with this path: nothing, before it is seen.
pub open spec fn span_at(
    children: Seq<ChildModel>,
    path: Seq<u64>,
    settings: FilterModel,
) -> SpanModel {
    if has_path(children, path) {
        children[place_of(children, path)].span
    } else {
        SpanModel::fresh(settings)
    }
}

/// The children with `span` in place of what is known of the span with this
/// path; a path that was not seen before goes last.
pub open spec fn with_span(
    children: Seq<ChildModel>,
    path: Seq<u64>,
    span: SpanModel,
) -> Seq<ChildModel> {
    if has_path(children, path) {
        children.update(place_of(children, path), ChildModel { path, span })
    } else {
        children.push(ChildModel { path, span })
    }
}

pub proof fn lemma_place_of(children: Seq<ChildModel>, i: int)
    requires
        paths_valid(children),
        0 <= i < children.len(),
    ensures
        has_path(children, children[i].path),
        place_of(children, children[i].path) == i,
{
    let p = children[i].path;
    assert(children[i].path == p);
    let j = place_of(children, p);
    assert(children[j].path == p);
}

/// Setting a span keeps the paths valid.
pub proof fn lemma_with_span_valid(children: Seq<ChildModel>, path: Seq<u64>, span: SpanModel)
    requires
        paths_valid(children),
        path.len() > 0,
    ensures
        paths_valid(with_span(children, path, span)),
{
    let after = with_span(children, path, span);
    if has_path(children, path) {
        let p = place_of(children, path);
        assert(children[p].path == path);
        assert forall|i: int| 0 <= i < after.len() implies #[trigger] after[i].path
            == children[i].path by {}
        assert forall|i: int, j: int|
            0 <= i < after.len() && 0 <= j < after.len() && #[trigger] after[i].path
                == #[trigger] after[j].path implies i == j by {
            assert(children[i].path == children[j].path);
        }
    } else {
        assert forall|i: int, j: int|
            0 <= i < after.len() && 0 <= j < after.len() && #[trigger] after[i].path
                == #[trigger] after[j].path implies i == j by {
            if i < children.len() && j < children.len() {
                assert(children[i].path == children[j].path);
            } else if i < children.len() {
                assert(children[i].path == path);
            } else if j < children.len() {
                assert(children[j].path == path);
            }
        }
    }
}

/// What is set of a span is what is found of it, and nothing changes for the
/// other spans.
pub proof fn law_spans_are_independent(
    tracker: InterestModel,
    path: Seq<u64>,
    span: SpanModel,
    other: Seq<u64>,
)
    requires
        tracker.valid(),
        path.len() > 0,
    ensures
        tracker.with(path, span).valid(),
        tracker.with(path, span).at(other) == if other == path {
            span
        } else {
            tracker.at(other)
        },
{
    let before = tracker.children;
    let after = with_span(before, path, span);
    lemma_with_span_valid(before, path, span);
    let place = if has_path(before, path) {
        place_of(before, path)
    } else {
        before.len() as int
    };
    assert(after[place].path == path);
    lemma_place_of(after, place);
    if other != path {
        if has_path(before, other) {
            let k = place_of(before, other);
            assert(before[k].path == other);
            assert(after[k] == before[k]);
            lemma_place_of(after, k);
        } else if has_path(after, other) {
            let k = place_of(after, other);
            assert(after[k].path == other);
            assert(before[k].path == other);
        }
    }
}

/// Tracker of an examined span and its descendants.
#[derive(Debug)]
pub struct InterestTracker {
    pub field_settings: FieldSettings,
    pub render_settings: RenderSettings,
    pub children: Vec<Child>,
}

/// What an [`InterestTracker`] stands for.
pub struct InterestModel {
    pub field_settings: FilterModel,
    pub render_settings: RenderSettings,
    pub children: Seq<ChildModel>,
}

impl View for InterestTracker {
    type V = InterestModel;

    open spec fn view(&self) -> InterestModel {
        InterestModel {
            field_settings: self.field_settings@,
            render_settings: self.render_settings,
            children: children_of(self.children@),
        }
    }
}

impl InterestModel {
    /// Whether the paths are not empty, and no path occurs twice.
    pub open spec fn valid(self) -> bool {
        paths_valid(self.children)
    }

    /// What is known of the span with this path.
    pub open spec fn at(self, path: Seq<u64>) -> SpanModel {
        span_at(self.children, path, self.field_settings)
    }

    /// The tracker with `span` in place of what is known of the span with
    /// this path.
    pub open spec fn with(self, path: Seq<u64>, span: SpanModel) -> InterestModel {
        InterestModel { children: with_span(self.children, path, span), ..self }
    }

    /// The tracker after the span with this path was opened.
    pub open spec fn after_open(self, path: Seq<u64>, info: SpanInfo) -> InterestModel {
        self.with(path, self.at(path).opened(info))
    }

    /// The tracker after an event in the span with this path.
    pub open spec fn after_event(self, path: Seq<u64>, event: EventModel) -> InterestModel {
        self.with(path, self.at(path).with_event(event))
    }

    /// The tracker after fields were offered to the span with this path.
    /// Fields of unknown spans are dropped.
    pub open spec fn after_fields(self, path: Seq<u64>, offered: Seq<FieldModel>) -> InterestModel {
        if has_path(self.children, path) {
            self.with(path, self.at(path).with_fields(offered))
        } else {
            self
        }
    }

    /// Whether resident-set sizes are sampled: only where RAM tracking and
    /// streaming are both on.
    pub open spec fn samples_rss(self) -> bool {
        self.render_settings.track_ram && self.render_settings.streaming
    }

    /// A tracker that has seen nothing but the examined span's id.
    pub open spec fn fresh(
        id: u64,
        settings: RenderSettings,
        field_settings: FilterModel,
    ) -> InterestModel {
        InterestModel {
            field_settings,
            render_settings: settings,
            children: seq![ChildModel { path: seq![id], span: SpanModel::fresh(field_settings) }],
        }
    }
}

fn same_path(a: &Vec<u64>, b: &[u64]) -> (same: bool)
    ensures
        same == (a@ == b@),
{
    if a.len() != b.len() {
        return false;
    }
    let mut i: usize = 0;
    while i < a.len()
        invariant
            i <= a@.len(),
            a@.len() == b@.len(),
            forall|j: int| 0 <= j < i ==> a@[j] == b@[j],
        decreases a@.len() - i,
    {
        if a[i] != b[i] {
            return false;
        }
        i = i + 1;
    }
    assert(a@ =~= b@);
    true
}

/// The place of the child with this path.
pub fn find(children: &Vec<Child>, path: &[u64]) -> (place: Option<usize>)
    requires
        paths_valid(children_of(children@)),
    ensures
        place is Some <==> has_path(children_of(children@), path@),
        place matches Some(i) ==> i < children@.len() && i == place_of(
            children_of(children@),
            path@,
        ) && children@[i as int].path@ == path@,
{
    let mut i: usize = 0;
    while i < children.len()
        invariant
            i <= children@.len(),
            paths_valid(children_of(children@)),
            forall|j: int| 0 <= j < i ==> #[trigger] children_of(children@)[j].path != path@,
        decreases children@.len() - i,
    {
        assert(children_of(children@)[i as int].path == children@[i as int].path@);
        if same_path(&children[i].path, path) {
            proof {
                lemma_place_of(children_of(children@), i as int);
            }
            return Some(i);
        }
        i = i + 1;
    }
    None
}

impl InterestTracker {
    /// A tracker of the examined span `id`.
    pub fn new(id: u64, settings: RenderSettings, field_settings: FieldSettings) -> (tracker:
        InterestTracker)
        ensures
            tracker@ == InterestModel::fresh(id, settings, field_settings@),
            tracker@.valid(),
    {
        let mut children: Vec<Child> = Vec::new();
        let mut path: Vec<u64> = Vec::new();
        path.push(id);
        children.push(Child { path, span: SpanTracker::new(field_settings.clone()) });
        let tracker = InterestTracker { children, field_settings, render_settings: settings };
        assert(path@ =~= seq![id]);
        assert(tracker@.children =~= InterestModel::fresh(
            id,
            settings,
            field_settings@,
        ).children);
        tracker
    }

    /// A recorder that adds to `metadata` the fields that this tracker shows.
    pub fn field_recorder<'a>(&'a self, metadata: &'a mut TrackedMetadata) -> (recorder:
        FieldFilterTracked<'a>)
        ensures
            recorder.field_filter@ == self@.field_settings,
            recorder.tracked_metadata@ == old(metadata)@,
            *final(recorder.tracked_metadata) == *final(metadata),
    {
        FieldFilterTracked {
            field_filter: &self.field_settings.field_filter,
            tracked_metadata: metadata,
        }
    }

    /// The tracker of the span with this path, made where the path is new.
    pub fn span(&mut self, path: Vec<u64>) -> (span: &mut SpanTracker)
        requires
            old(self)@.valid(),
            path@.len() > 0,
        ensures
            span@ == old(self)@.at(path@),
            final(self)@ == old(self)@.with(path@, final(span)@),
            final(self)@.valid(),
    {
        let ghost before = self@;
        let place: usize = match find(&self.children, path.as_slice()) {
            Some(i) => i,
            None => {
                let settings = self.field_settings.clone();
                self.children.push(Child { path, span: SpanTracker::new(settings) });
                self.children.len() - 1
            },
        };
        let ghost listed = self.children@;
        proof {
            assert forall|c: Child| c.path == listed[place as int].path implies {
                let after = #[trigger] children_of(listed.update(place as int, c));
                after == with_span(before.children, path@, c.span@) && paths_valid(after)
            } by {
                let after = children_of(listed.update(place as int, c));
                assert(after =~= with_span(before.children, path@, c.span@));
                lemma_with_span_valid(before.children, path@, c.span@);
            }
        }
        &mut self.children[place].span
    }

    /// The tracker of the span with this path, made where the path is new.
    pub fn new_span(&mut self, path: Vec<u64>) -> (span: &mut SpanTracker)
        requires
            old(self)@.valid(),
            path@.len() > 0,
        ensures
            span@ == old(self)@.at(path@),
            final(self)@ == old(self)@.with(path@, final(span)@),
            final(self)@.valid(),
    {
        self.span(path)
    }

    /// Records fields of the span with this path. Does nothing where the path
    /// is unknown.
    pub fn record_metadata(&mut self, path: &[u64], fields: Vec<(&'static str, String)>)
        requires
            old(self)@.valid(),
        ensures
            final(self)@.valid(),
            final(self)@ == old(self)@.after_fields(path@, fields_of(fields@)),
    {
        let ghost before = self@;
        if let Some(place) = find(&self.children, path) {
            let ghost listed = self.children@;
            self.children[place].span.record_metadata(fields);
            proof {
                let span = self.children@[place as int].span@;
                assert(self@.children =~= with_span(before.children, path@, span));
                assert(before.children[place as int].path == path@);
                lemma_with_span_valid(before.children, path@, span);
            }
        }
    }

    /// Records that the span with this path was opened.
    pub fn open(&mut self, path: Vec<u64>, span_info: SpanInfo)
        requires
            old(self)@.valid(),
            path@.len() > 0,
        ensures
            final(self)@.valid(),
            final(self)@ == old(self)@.after_open(path@, span_info),
    {
        self.span(path).open(span_info);
    }

    /// Adds an event to the span with this path.
    pub fn add_event(&mut self, path: Vec<u64>, event: EventInfo)
        requires
            old(self)@.valid(),
            path@.len() > 0,
        ensures
            final(self)@.valid(),
            final(self)@ == old(self)@.after_event(path@, event@),
    {
        self.span(path).add_event(event);
    }

    /// Whether to sample RSS: only when RAM tracking and streaming are both
    /// on. The streaming close lines are the only consumer of RSS samples, so
    /// with streaming off the per-span reads would be wasted.
    pub fn sample_rss(&self) -> (b: bool)
        ensures
            b == self@.samples_rss(),
    {
        self.render_settings.track_ram && self.render_settings.streaming
    }
}

/// What is to be written when a span is exited.
#[derive(Debug)]
pub struct ExitReport {
    /// Whether the span was opened before. Spans that are exited without
    /// having been opened stay as they are.
    pub opened: bool,
    /// Record for the JSON sink.
    pub record: Option<String>,
    /// Line of streaming mode.
    pub line: Option<String>,
    /// Peak-RSS line of streaming mode.
    pub rss_line: Option<String>,
}

/// The JSON record of a span, where a sink is set and the span has ended.
pub open spec fn exit_record(span: SpanModel, active: bool) -> Option<Seq<char>> {
    match span.timing() {
        Some((name, secs)) => if active {
            Some(json_text(name, fixed(secs, 6)))
        } else {
            None
        },
        None => None,
    }
}

impl InterestModel {
    /// The span with this path after it is exited.
    pub open spec fn exited_at(
        self,
        path: Seq<u64>,
        timestamp: Timestamp,
        status: Option<Seq<char>>,
    ) -> SpanModel {
        self.at(path).exited(timestamp, sampled(self.samples_rss(), status))
    }

    /// The tracker after the span with this path was exited.
    pub open spec fn after_exit(
        self,
        path: Seq<u64>,
        timestamp: Timestamp,
        status: Option<Seq<char>>,
    ) -> InterestModel {
        self.with(path, self.exited_at(path, timestamp, status))
    }

    /// The line of streaming mode for a span that is exited.
    pub open spec fn closing_line(self, span: SpanModel) -> Option<Seq<char>> {
        if self.render_settings.streaming {
            span.streaming_line()
        } else {
            None
        }
    }

    /// The peak-RSS line of streaming mode for a span that is exited.
    pub open spec fn closing_rss_line(self, span: SpanModel) -> Option<Seq<char>> {
        if self.render_settings.streaming {
            span.streaming_rss_line()
        } else {
            None
        }
    }
}

impl InterestTracker {
    /// Records that the span with this path was exited, and tells what is to
    /// be written of it. `status` is the text of the process's status file,
    /// used where memory is sampled.
    pub fn exit<F>(
        &mut self,
        path: Vec<u64>,
        timestamp: Timestamp,
        status: Option<&str>,
        sink: &Sink<F>,
    ) -> (report: ExitReport)
        requires
            old(self)@.valid(),
            path@.len() > 0,
        ensures
            final(self)@.valid(),
            ({
                let span = old(self)@.exited_at(path@, timestamp, view_of(status));
                &&& final(self)@ == old(self)@.after_exit(path@, timestamp, view_of(status))
                &&& report.opened == span.info is Some
                &&& text_of(report.record) == exit_record(span, sink.file is Some)
                &&& text_of(report.line) == old(self)@.closing_line(span)
                &&& text_of(report.rss_line) == old(self)@.closing_rss_line(span)
            }),
    {
        let end_rss = sample_when(self.sample_rss(), status);
        let streaming = self.render_settings.streaming;
        let span = self.span(path);
        span.exit(timestamp, end_rss);
        let opened = span.info.is_some();
        let json = if is_active(sink) {
            match span.timing() {
                Some((name, secs)) => record(
                    sink,
                    name,
                    Float::Finite { negative: false, magnitude: secs },
                ),
                None => None,
            }
        } else {
            None
        };
        let (line, rss_line) = if streaming {
            (span.streaming_line(), span.streaming_rss_line())
        } else {
            (None, None)
        };
        ExitReport { opened, record: json, line, rss_line }
    }

    /// The infos of all spans that were opened.
    pub fn spans(&self) -> (infos: Vec<SpanInfo>)
        ensures
            infos@ == infos_of(self@.children),
    {
        let mut infos: Vec<SpanInfo> = Vec::new();
        let mut i: usize = 0;
        while i < self.children.len()
            invariant
                i <= self.children@.len(),
                infos@ == infos_of(self@.children.take(i as int)),
            decreases self.children@.len() - i,
        {
            proof {
                assert(self@.children.take(i + 1).drop_last() =~= self@.children.take(i as int));
                assert(self@.children.take(i + 1).last() == self.children@[i as int]@);
            }
            if let Some(info) = self.children[i].span.span_info() {
                infos.push(*info);
            }
            i = i + 1;
        }
        assert(self@.children.take(i as int) =~= self@.children);
        infos
    }
}

/// The infos of the children that were opened.
pub open spec fn infos_of(children: Seq<ChildModel>) -> Seq<SpanInfo>
    decreases children.len(),
{
    if children.len() == 0 {
        Seq::empty()
    } else {
        let before = infos_of(children.drop_last());
        match children.last().span.info {
            Some(info) => before.push(info),
            None => before,
        }
    }
}

} // verus!
