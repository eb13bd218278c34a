//! Which spans are examined, and their trackers.

use std::collections::{HashMap, HashSet};

use vstd::prelude::*;

use crate::chart::RenderSettings;
use crate::fields::{FieldSettings, FilterModel};
use crate::format::RssSample;
use crate::interest::{InterestModel, InterestTracker};
use crate::proc_status::view_of;
use crate::span::{sampled, SpanInfo};
use crate::time::Timestamp;

verus! {

broadcast use vstd::std_specs::hash::group_hash_axioms;

/// Number of spans that can be examined at a time.
pub const MAX_EXAMINED_SPANS: usize = 1024;

/// What becomes of a tracker after it was used.
#[derive(Clone, Copy, Debug, PartialEq, Eq, Structural)]
pub enum Action {
    ForgetSpan,
    DoNothing,
}

/// A set of span ids with a limited number of members.
#[derive(Debug)]
pub struct TrackedSpans {
    ids: HashSet<u64>,
    limit: usize,
}

impl View for TrackedSpans {
    type V = Set<u64>;

    closed spec fn view(&self) -> Set<u64> {
        self.ids@
    }
}

impl TrackedSpans {
    /// Number of members that the set can have.
    pub closed spec fn capacity(&self) -> nat {
        self.limit as nat
    }

    /// Whether the set has no more members than it can have.
    pub open spec fn within_limit(&self) -> bool {
        self@.finite() && self@.len() <= self.capacity()
    }

    /// An empty set for up to `limit` ids.
    pub fn new(limit: usize) -> (spans: TrackedSpans)
        ensures
            spans.within_limit(),
            spans@ == Set::<u64>::empty(),
            spans.capacity() == limit,
    {
        TrackedSpans { ids: HashSet::new(), limit }
    }

    /// Whether `id` is in the set.
    pub fn contains(&self, id: u64) -> (b: bool)
        ensures
            b == self@.contains(id),
    {
        self.ids.contains(&id)
    }

    /// Adds `id`. Fails where it would be a member too many.
    pub fn insert(&mut self, id: u64) -> (r: Result<(), ()>)
        ensures
            final(self).capacity() == old(self).capacity(),
            old(self).within_limit() ==> final(self).within_limit(),
            r is Err <==> !old(self)@.contains(id) && old(self)@.len() >= old(self).capacity(),
            final(self)@ == if r is Ok {
                old(self)@.insert(id)
            } else {
                old(self)@
            },
    {
        if !self.ids.contains(&id) && self.ids.len() >= self.limit {
            return Err(());
        }
        self.ids.insert(id);
        Ok(())
    }

    /// Takes `id` out of the set. Returns whether it was there.
    pub fn remove(&mut self, id: u64) -> (was_there: bool)
        ensures
            final(self).capacity() == old(self).capacity(),
            old(self).within_limit() ==> final(self).within_limit(),
            was_there == old(self)@.contains(id),
            final(self)@ == old(self)@.remove(id),
    {
        self.ids.remove(&id)
    }
}

/// What is found of the first examined span in a list of ids.
#[derive(Debug)]
pub enum Interest {
    /// No span in the list is examined.
    NotExamined,
    /// The span is examined, and has no tracker.
    Lost,
    /// The span's place in the list, and its tracker.
    Examined { place: usize, tracker: InterestTracker },
}

/// How an examined span is shown.
#[derive(Debug)]
pub struct SpanSettings {
    pub render: RenderSettings,
    pub fields: FieldSettings,
}

/// The examined spans and their trackers.
#[derive(Debug)]
pub struct RootTracker {
    pub examined_spans: TrackedSpans,
    pub span_metadata: HashMap<u64, InterestTracker>,
}

/// What a [`RootTracker`] stands for.
pub struct RootModel {
    /// The examined spans.
    pub examined: Set<u64>,
    /// Number of spans that can be examined at a time.
    pub capacity: nat,
    /// The trackers by the examined span's id.
    pub trackers: Map<u64, InterestModel>,
}

impl View for RootTracker {
    type V = RootModel;

    open spec fn view(&self) -> RootModel {
        RootModel {
            examined: self.examined_spans@,
            capacity: self.examined_spans.capacity(),
            trackers: self.span_metadata@.map_values(|tracker: InterestTracker| tracker@),
        }
    }
}

impl RootModel {
    /// Whether a span can be examined: it is already, or there is room.
    pub open spec fn has_room_for(self, id: u64) -> bool {
        self.examined.contains(id) || self.examined.len() < self.capacity
    }

    /// The examined spans after a call to examine a span.
    pub open spec fn registered(
        self,
        id: u64,
        render: RenderSettings,
        fields: FilterModel,
    ) -> RootModel {
        if self.has_room_for(id) {
            RootModel {
                examined: self.examined.insert(id),
                trackers: self.trackers.insert(id, InterestModel::fresh(id, render, fields)),
                ..self
            }
        } else {
            self
        }
    }

    /// The examined spans after the examination of a span has ended.
    pub open spec fn ended(self, id: u64) -> RootModel {
        RootModel { examined: self.examined.remove(id), ..self }
    }

    /// The examined spans after an examined span was opened as of now.
    pub open spec fn populated(
        self,
        id: u64,
        name: &'static str,
        now: Timestamp,
        status: Option<Seq<char>>,
    ) -> RootModel {
        if self.trackers.contains_key(id) {
            let tracker = self.trackers[id];
            let info = SpanInfo {
                name,
                start: now,
                end: None,
                start_rss: sampled(tracker.samples_rss(), status),
                end_rss: RssSample { current_kb: 0, peak_kb: 0 },
            };
            RootModel {
                trackers: self.trackers.insert(id, tracker.after_open(seq![id], info)),
                ..self
            }
        } else {
            self
        }
    }
}

/// Whether every tracker's paths are valid.
pub open spec fn all_valid(trackers: Map<u64, InterestTracker>) -> bool {
    forall|id: u64| #[trigger] trackers.contains_key(id) ==> trackers[id]@.valid()
}

/// Place of the first examined span in a list of ids; the length of the list
/// where there is none.
pub open spec fn first_examined(ids: Seq<u64>, examined: Set<u64>) -> nat
    decreases ids.len(),
{
    if ids.len() == 0 || examined.contains(ids[0]) {
        0
    } else {
        1 + first_examined(ids.drop_first(), examined)
    }
}

/// The ids from the first examined span on.
pub open spec fn examined_path(ids: Seq<u64>, examined: Set<u64>) -> Seq<u64> {
    ids.skip(first_examined(ids, examined) as int)
}

/// The trackers after the one of the examined span `root` was used: it is
/// forgotten, or kept as it was left.
pub open spec fn after_action(
    trackers: Map<u64, InterestTracker>,
    root: u64,
    tracker: InterestTracker,
    action: Action,
) -> Map<u64, InterestTracker> {
    match action {
        Action::ForgetSpan => trackers.remove(root),
        Action::DoNothing => trackers.insert(root, tracker),
    }
}

/// Events and changes of spans outside an examined one are of no interest.
/// Those inside are handed on with the path from the examined span, which is
/// what remains of the ids when those before it are dropped.
pub proof fn law_paths_start_at_the_examined_span(ids: Seq<u64>, examined: Set<u64>, n: int)
    requires
        0 <= n <= ids.len(),
        forall|i: int| 0 <= i < n ==> !examined.contains(#[trigger] ids[i]),
        n < ids.len() ==> examined.contains(ids[n]),
    ensures
        examined_path(ids, examined) == ids.skip(n),
{
    law_first_examined(ids, examined);
    let k = first_examined(ids, examined) as int;
    if k < n {
        assert(!examined.contains(ids[k]));
    } else if n < k {
        assert(!examined.contains(ids[n]));
    }
}

/// After an examined span's tracker was used, it is gone where the span is to
/// be forgotten, and else is what was left of it. The other trackers stay.
pub proof fn law_actions(
    trackers: Map<u64, InterestTracker>,
    root: u64,
    tracker: InterestTracker,
    other: u64,
)
    ensures
        !after_action(trackers, root, tracker, Action::ForgetSpan).contains_key(root),
        after_action(trackers, root, tracker, Action::DoNothing).contains_key(root),
        after_action(trackers, root, tracker, Action::DoNothing)[root] == tracker,
        other != root ==> forall|action: Action|
            {
                let after = #[trigger] after_action(trackers, root, tracker, action);
                after.contains_key(other) == trackers.contains_key(other) && after[other]
                    == trackers[other]
            },
{
}

/// The first examined span is examined, and none before it is.
pub proof fn law_first_examined(ids: Seq<u64>, examined: Set<u64>)
    ensures
        first_examined(ids, examined) <= ids.len(),
        first_examined(ids, examined) < ids.len() ==> examined.contains(
            ids[first_examined(ids, examined) as int],
        ),
        forall|i: int|
            0 <= i < first_examined(ids, examined) ==> !examined.contains(#[trigger] ids[i]),
    decreases ids.len(),
{
    if ids.len() > 0 && !examined.contains(ids[0]) {
        let rest = ids.drop_first();
        law_first_examined(rest, examined);
        assert forall|i: int| 0 <= i < first_examined(ids, examined) implies !examined.contains(
            #[trigger] ids[i],
        ) by {
            if i > 0 {
                assert(rest[i - 1] == ids[i]);
            }
        }
    }
}

impl RootTracker {
    /// Whether no more spans are examined than can be, and every tracker's
    /// paths are valid.
    pub open spec fn valid(&self) -> bool {
        &&& self.examined_spans.within_limit()
        &&& all_valid(self.span_metadata@)
    }

    pub fn new() -> (tracker: RootTracker)
        ensures
            tracker.examined_spans@ == Set::<u64>::empty(),
            tracker.examined_spans.capacity() == 1024,
            tracker.span_metadata@ == Map::<u64, InterestTracker>::empty(),
            tracker.valid(),
    {
        RootTracker {
            examined_spans: TrackedSpans::new(MAX_EXAMINED_SPANS),
            span_metadata: HashMap::new(),
        }
    }

    /// Ends the examination of a span. Returns true if this span was tracked.
    pub fn end_tracking(&mut self, id: u64) -> (was_tracked: bool)
        ensures
            old(self).valid() ==> final(self).valid(),
            final(self)@ == old(self)@.ended(id),
            was_tracked == old(self).examined_spans@.contains(id),
            final(self).examined_spans@ == old(self).examined_spans@.remove(id),
            final(self).examined_spans.capacity() == old(self).examined_spans.capacity(),
            final(self).span_metadata == old(self).span_metadata,
    {
        self.examined_spans.remove(id)
    }

    /// Starts to examine a span. Returns false, and changes nothing, where
    /// too many spans are examined already.
    pub fn register_interest(&mut self, id: u64, settings: SpanSettings) -> (registered: bool)
        requires
            old(self).valid(),
        ensures
            final(self).valid(),
            final(self)@ == old(self)@.registered(id, settings.render, settings.fields@),
            registered == old(self)@.has_room_for(id),
            registered == (old(self).examined_spans@.contains(id) || old(self).examined_spans@.len()
                < old(self).examined_spans.capacity()),
            final(self).examined_spans.capacity() == old(self).examined_spans.capacity(),
            registered ==> {
                &&& final(self).examined_spans@ == old(self).examined_spans@.insert(id)
                &&& final(self).span_metadata@.contains_key(id)
                &&& final(self).span_metadata@[id]@ == InterestModel::fresh(
                    id,
                    settings.render,
                    settings.fields@,
                )
                &&& final(self).span_metadata@.remove(id) == old(self).span_metadata@.remove(id)
            },
            !registered ==> {
                &&& final(self).examined_spans@ == old(self).examined_spans@
                &&& final(self).span_metadata == old(self).span_metadata
            },
    {
        if self.examined_spans.insert(id).is_err() {
            return false;
        }
        let ghost before = old(self)@;
        let ghost fresh = InterestModel::fresh(id, settings.render, settings.fields@);
        let tracker = InterestTracker::new(id, settings.render, settings.fields);
        self.span_metadata.insert(id, tracker);
        assert(self.span_metadata@.remove(id) =~= old(self).span_metadata@.remove(id));
        assert(self@.trackers =~= before.trackers.insert(id, fresh));
        true
    }

    /// Opens an examined span that was entered before it was examined, as of
    /// now. The start is slightly later than the real entry, by the overhead
    /// of the call. Does nothing where the span is not tracked, or is open
    /// already.
    pub fn populate_examined_root(
        &mut self,
        id: u64,
        name: &'static str,
        now: Timestamp,
        status: Option<&str>,
    )
        requires
            old(self).valid(),
        ensures
            final(self).valid(),
            final(self)@ == old(self)@.populated(id, name, now, view_of(status)),
            final(self).examined_spans == old(self).examined_spans,
            !old(self).span_metadata@.contains_key(id) ==> final(self).span_metadata@
                == old(self).span_metadata@,
            old(self).span_metadata@.contains_key(id) ==> {
                let before = old(self).span_metadata@[id]@;
                let zero = RssSample { current_kb: 0, peak_kb: 0 };
                let info = SpanInfo {
                    name,
                    start: now,
                    end: None,
                    start_rss: sampled(before.samples_rss(), view_of(status)),
                    end_rss: zero,
                };
                &&& final(self).span_metadata@.contains_key(id)
                &&& final(self).span_metadata@[id]@ == before.with(
                    seq![id],
                    before.at(seq![id]).opened(info),
                )
                &&& final(self).span_metadata@.remove(id) == old(self).span_metadata@.remove(id)
            },
    {
        if let Some(mut tracker) = self.span_metadata.remove(&id) {
            let ghost before = tracker@;
            let info = SpanInfo::for_span(Some(name), now, tracker.sample_rss(), status);
            let mut key: Vec<u64> = Vec::new();
            key.push(id);
            assert(key@ =~= seq![id]);
            tracker.open(key, info);
            self.span_metadata.insert(id, tracker);
            assert(self.span_metadata@.remove(id) =~= old(self).span_metadata@.remove(id));
            assert(self@.trackers =~= old(self)@.populated(
                id,
                name,
                now,
                view_of(status),
            ).trackers);
        } else {
            assert(self.span_metadata@ =~= old(self).span_metadata@);
        }
    }

    /// Place of the first examined span in a list of ids.
    fn find_root(&self, ids: &[u64]) -> (place: usize)
        ensures
            place == first_examined(ids@, self.examined_spans@),
            place <= ids@.len(),
    {
        let mut i: usize = 0;
        assert(ids@.skip(0) =~= ids@);
        while i < ids.len() && !self.examined_spans.contains(ids[i])
            invariant
                i <= ids@.len(),
                first_examined(ids@, self.examined_spans@) == i + first_examined(
                    ids@.skip(i as int),
                    self.examined_spans@,
                ),
            decreases ids@.len() - i,
        {
            assert(ids@.skip(i as int).drop_first() =~= ids@.skip(i + 1));
            i = i + 1;
        }
        i
    }

    /// Takes out the tracker of the first examined span in `ids`, for use
    /// outside. [`RootTracker::settle`] puts it back.
    pub fn take_interested(&mut self, ids: &[u64]) -> (found: Interest)
        requires
            old(self).valid(),
        ensures
            final(self).valid(),
            final(self).examined_spans == old(self).examined_spans,
            ({
                let first = first_examined(ids@, old(self).examined_spans@) as int;
                let before = old(self).span_metadata@;
                let after = final(self).span_metadata@;
                match found {
                    Interest::NotExamined => first == ids@.len() && after == before,
                    Interest::Lost => first < ids@.len() && !before.contains_key(ids@[first])
                        && after == before,
                    Interest::Examined { place, tracker } => {
                        &&& place == first < ids@.len()
                        &&& before.contains_key(ids@[first])
                        &&& tracker == before[ids@[first]]
                        &&& tracker@.valid()
                        &&& after == before.remove(ids@[first])
                    },
                }
            }),
    {
        let place: usize = self.find_root(ids);
        if place == ids.len() {
            return Interest::NotExamined;
        }
        match self.span_metadata.remove(&ids[place]) {
            Some(tracker) => Interest::Examined { place, tracker },
            None => {
                assert(self.span_metadata@ =~= old(self).span_metadata@);
                Interest::Lost
            },
        }
    }

    /// Puts back the tracker of the examined span `root`, or returns it where
    /// the span is to be forgotten.
    pub fn settle(&mut self, root: u64, tracker: InterestTracker, action: Action) -> (forgotten:
        Option<InterestTracker>)
        requires
            old(self).valid(),
            tracker@.valid(),
        ensures
            final(self).valid(),
            final(self).examined_spans == old(self).examined_spans,
            match action {
                Action::ForgetSpan => final(self).span_metadata@ == old(self).span_metadata@
                    && forgotten == Some(tracker),
                Action::DoNothing => final(self).span_metadata@ == old(self).span_metadata@.insert(
                    root,
                    tracker,
                ) && forgotten is None,
            },
            !old(self).span_metadata@.contains_key(root) ==> final(self).span_metadata@
                == after_action(old(self).span_metadata@, root, tracker, action),
    {
        if action == Action::ForgetSpan {
            return Some(tracker);
        }
        self.span_metadata.insert(root, tracker);
        None
    }

    /// Hands the tracker of the first examined span in `ids`, and the ids
    /// from it on, to `f`. Where `f` asks to forget the span, its tracker is
    /// taken out and returned. Does nothing where no span in `ids` is
    /// examined, or the examined one has no tracker.
    pub fn if_interested<F: Fn(&mut InterestTracker, &[u64]) -> Action>(
        &mut self,
        ids: &[u64],
        f: F,
    ) -> (forgotten: Option<InterestTracker>)
        requires
            old(self).valid(),
            forall|t: &mut InterestTracker, path: &[u64]|
                t@.valid() && path@.len() > 0 ==> #[trigger] f.requires((t, path)),
            forall|t: &mut InterestTracker, path: &[u64], action: Action|
                t@.valid() && path@.len() > 0 && #[trigger] f.ensures((t, path), action)
                    ==> final(t)@.valid(),
        ensures
            final(self).valid(),
            final(self).examined_spans == old(self).examined_spans,
            ({
                let place = first_examined(ids@, old(self).examined_spans@) as int;
                let root = ids@[place];
                let before = old(self).span_metadata@;
                if place == ids@.len() || !before.contains_key(root) {
                    final(self).span_metadata@ == before && forgotten is None
                } else {
                    exists|t: &mut InterestTracker, path: &[u64], action: Action|
                        {
                            &&& #[trigger] f.ensures((t, path), action)
                            &&& *t == before[root]
                            &&& path@ == ids@.skip(place)
                            &&& path@ == examined_path(ids@, old(self).examined_spans@)
                            &&& final(self).span_metadata@ == after_action(
                                before,
                                root,
                                *final(t),
                                action,
                            )
                            &&& action == Action::ForgetSpan ==> final(self).span_metadata@
                                == before.remove(root) && forgotten == Some(*final(t))
                            &&& action == Action::DoNothing ==> final(self).span_metadata@
                                == before.insert(root, *final(t)) && forgotten is None
                        }
                }
            }),
    {
        match self.take_interested(ids) {
            Interest::Examined { place, mut tracker } => {
                let path = vstd::slice::slice_subrange(ids, place, ids.len());
                assert(path@ =~= ids@.skip(place as int));
                let action = f(&mut tracker, path);
                let forgotten = self.settle(ids[place], tracker, action);
                proof {
                    let root = ids@[place as int];
                    let before = old(self).span_metadata@;
                    assert(before.remove(root).insert(root, tracker) =~= before.insert(
                        root,
                        tracker,
                    ));
                }
                forgotten
            },
            _ => None,
        }
    }
}

} // verus!
