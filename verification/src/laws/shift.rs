//! The timeline does not depend on when it all happened.

use vstd::prelude::*;

use crate::chart::RenderConf;
use crate::dump::{
    earliest, is_order, key_less, key_of, latest, law_children_have_an_order, order_of,
    shown_before, start_known, start_of, starts_known, widest,
};
use crate::fields::FilterModel;
use crate::interest::{infos_of, lemma_place_of, paths_valid, place_of, ChildModel, InterestModel};
use crate::span::{event_rows, EventModel, SpanInfo, SpanModel};
use crate::time::Timestamp;

verus! {

/// Whether `t` can be moved by `d` nanoseconds.
pub open spec fn movable(t: Timestamp, d: int) -> bool {
    i128::MIN <= t.nanos + d <= i128::MAX
}

/// `t` moved by `d` nanoseconds.
pub open spec fn moved(t: Timestamp, d: int) -> Timestamp {
    Timestamp { nanos: (t.nanos + d) as i128 }
}

/// A span's times moved by `d` nanoseconds.
pub open spec fn moved_info(info: SpanInfo, d: int) -> SpanInfo {
    SpanInfo {
        start: moved(info.start, d),
        end: match info.end {
            Some(end) => Some(moved(end, d)),
            None => None,
        },
        ..info
    }
}

/// Events moved by `d` nanoseconds.
pub open spec fn moved_events(events: Seq<EventModel>, d: int) -> Seq<EventModel> {
    Seq::new(
        events.len(),
        |i: int| EventModel { timestamp: moved(events[i].timestamp, d), ..events[i] },
    )
}

/// A span and its events moved by `d` nanoseconds.
pub open spec fn moved_span(span: SpanModel, d: int) -> SpanModel {
    SpanModel {
        info: match span.info {
            Some(info) => Some(moved_info(info, d)),
            None => None,
        },
        events: moved_events(span.events, d),
        ..span
    }
}

/// All spans moved by `d` nanoseconds.
pub open spec fn moved_children(children: Seq<ChildModel>, d: int) -> Seq<ChildModel> {
    Seq::new(
        children.len(),
        |i: int| ChildModel { span: moved_span(children[i].span, d), ..children[i] },
    )
}

/// All that a tracker knows, moved by `d` nanoseconds.
pub open spec fn moved_tracker(tracker: InterestModel, d: int) -> InterestModel {
    InterestModel { children: moved_children(tracker.children, d), ..tracker }
}

/// Whether a span's times can be moved by `d` nanoseconds.
pub open spec fn span_movable(span: SpanModel, d: int) -> bool {
    &&& span.info matches Some(info) ==> movable(info.start, d) && (info.end matches Some(end)
        ==> movable(end, d))
    &&& forall|i: int| 0 <= i < span.events.len() ==> movable(#[trigger] span.events[i].timestamp, d)
}

/// Whether all times of a list of children can be moved by `d` nanoseconds.
pub open spec fn children_movable(children: Seq<ChildModel>, d: int) -> bool {
    forall|i: int| 0 <= i < children.len() ==> span_movable(#[trigger] children[i].span, d)
}

/// Moving all times by the same amount leaves the timeline as it is: it depends
/// on the times between the starts, the ends and the events only.
pub proof fn law_timeline_does_not_depend_on_the_date(tracker: InterestModel, d: int)
    requires
        tracker.valid(),
        starts_known(tracker.children),
        tracker.children.len() <= usize::MAX,
        children_movable(tracker.children, d),
        latest(infos_of(tracker.children)) is Some,
    ensures
        moved_tracker(tracker, d).dumped() == tracker.dumped(),
{
    let after = moved_tracker(tracker, d);
    let (a, b) = (tracker.children, after.children);
    lemma_infos_moved(a, d);
    let infos = infos_of(a);
    lemma_infos_movable(a, d);
    lemma_extent_moved(infos, d);
    lemma_widest_moved(a, d);
    assert(infos.len() > 0);
    lemma_order_moved(a, d);
    lemma_rows_moved(tracker, d, order_of(a));
}

proof fn lemma_infos_moved(children: Seq<ChildModel>, d: int)
    ensures
        infos_of(moved_children(children, d)) == Seq::new(
            infos_of(children).len(),
            |k: int| moved_info(infos_of(children)[k], d),
        ),
    decreases children.len(),
{
    let after = moved_children(children, d);
    let want = Seq::new(
        infos_of(children).len(),
        |k: int| moved_info(infos_of(children)[k], d),
    );
    if children.len() > 0 {
        assert(after.drop_last() =~= moved_children(children.drop_last(), d));
        lemma_infos_moved(children.drop_last(), d);
    }
    assert(infos_of(after) =~= want);
}

spec fn infos_movable(infos: Seq<SpanInfo>, d: int) -> bool {
    forall|k: int|
        0 <= k < infos.len() ==> movable((#[trigger] infos[k]).start, d) && (
        infos[k].end matches Some(end) ==> movable(end, d))
}

proof fn lemma_infos_movable(children: Seq<ChildModel>, d: int)
    requires
        children_movable(children, d),
    ensures
        infos_movable(infos_of(children), d),
    decreases children.len(),
{
    if children.len() > 0 {
        let shorter = children.drop_last();
        assert forall|i: int| 0 <= i < shorter.len() implies span_movable(
            #[trigger] shorter[i].span,
            d,
        ) by {
            assert(shorter[i] == children[i]);
        }
        lemma_infos_movable(shorter, d);
        assert(span_movable(children[children.len() - 1].span, d));
    }
}

proof fn lemma_extent_moved(infos: Seq<SpanInfo>, d: int)
    requires
        infos_movable(infos, d),
    ensures
        ({
            let after = Seq::new(infos.len(), |k: int| moved_info(infos[k], d));
            &&& infos.len() > 0 ==> earliest(after) == moved(earliest(infos), d) && movable(
                earliest(infos),
                d,
            )
            &&& latest(after) == match latest(infos) {
                Some(end) => Some(moved(end, d)),
                None => None,
            }
            &&& latest(infos) matches Some(end) ==> movable(end, d)
        }),
    decreases infos.len(),
{
    let after = Seq::new(infos.len(), |k: int| moved_info(infos[k], d));
    if infos.len() > 0 {
        let shorter = infos.drop_last();
        assert forall|k: int| 0 <= k < shorter.len() implies movable(
            (#[trigger] shorter[k]).start,
            d,
        ) && (shorter[k].end matches Some(end) ==> movable(end, d)) by {
            assert(shorter[k] == infos[k]);
        }
        lemma_extent_moved(shorter, d);
        assert(after.drop_last() =~= Seq::new(shorter.len(), |k: int| moved_info(shorter[k], d)));
        let last = infos[infos.len() - 1];
        assert(movable(last.start, d));
        assert(after.last() == moved_info(last, d));
    }
}

proof fn lemma_widest_moved(children: Seq<ChildModel>, d: int)
    ensures
        widest(moved_children(children, d)) == widest(children),
    decreases children.len(),
{
    if children.len() > 0 {
        let after = moved_children(children, d);
        assert(after.drop_last() =~= moved_children(children.drop_last(), d));
        lemma_widest_moved(children.drop_last(), d);
    }
}

proof fn lemma_valid_moved(children: Seq<ChildModel>, d: int)
    requires
        paths_valid(children),
    ensures
        paths_valid(moved_children(children, d)),
{
    let after = moved_children(children, d);
    assert forall|i: int| 0 <= i < after.len() implies #[trigger] after[i].path.len() > 0 by {
        assert(children[i].path.len() > 0);
    }
    assert forall|i: int, j: int|
        0 <= i < after.len() && 0 <= j < after.len() && #[trigger] after[i].path
            == #[trigger] after[j].path implies i == j by {
        assert(children[i].path == children[j].path);
    }
}

proof fn lemma_start_moved(children: Seq<ChildModel>, d: int, path: Seq<u64>)
    requires
        paths_valid(children),
        children_movable(children, d),
        start_known(children, path),
    ensures
        start_of(moved_children(children, d), path) == start_of(children, path) + d,
{
    let after = moved_children(children, d);
    lemma_valid_moved(children, d);
    let p = place_of(children, path);
    assert(children[p].path == path);
    assert(after[p].path == path);
    lemma_place_of(after, p);
    assert(span_movable(children[p].span, d));
}

proof fn lemma_key_moved(children: Seq<ChildModel>, d: int, i: int)
    requires
        paths_valid(children),
        children_movable(children, d),
        starts_known(children),
        0 <= i < children.len(),
    ensures
        ({
            let path = children[i].path;
            let (a, b) = (key_of(children, path), key_of(moved_children(children, d), path));
            a.len() == b.len() && forall|k: int| 0 <= k < a.len() ==> #[trigger] b[k] == a[k] + d
        }),
{
    let path = children[i].path;
    let (a, b) = (key_of(children, path), key_of(moved_children(children, d), path));
    assert forall|k: int| 0 <= k < a.len() implies #[trigger] b[k] == a[k] + d by {
        assert(start_known(children, children[i].path.take(path.len() - k)));
        lemma_start_moved(children, d, path.take(path.len() - k));
    }
}

proof fn lemma_key_less_moved(
    a: Seq<i128>,
    b: Seq<i128>,
    a2: Seq<i128>,
    b2: Seq<i128>,
    d: int,
)
    requires
        a.len() == a2.len(),
        b.len() == b2.len(),
        forall|k: int| 0 <= k < a.len() ==> #[trigger] a2[k] == a[k] + d,
        forall|k: int| 0 <= k < b.len() ==> #[trigger] b2[k] == b[k] + d,
    ensures
        key_less(a, b) == key_less(a2, b2),
        a == b <==> a2 == b2,
    decreases a.len(),
{
    if a == b {
        assert(a2 =~= b2);
    }
    if a2 == b2 {
        assert forall|k: int| 0 <= k < a.len() implies a[k] == b[k] by {
            assert(a2[k] == b2[k]);
        }
        assert(a =~= b);
    }
    if a.len() > 0 && b.len() > 0 {
        assert(a2[0] == a[0] + d && b2[0] == b[0] + d);
        let (s, t, s2, t2) = (a.drop_first(), b.drop_first(), a2.drop_first(), b2.drop_first());
        assert forall|k: int| 0 <= k < s.len() implies #[trigger] s2[k] == s[k] + d by {
            assert(a2[k + 1] == a[k + 1] + d);
        }
        assert forall|k: int| 0 <= k < t.len() implies #[trigger] t2[k] == t[k] + d by {
            assert(b2[k + 1] == b[k + 1] + d);
        }
        lemma_key_less_moved(s, t, s2, t2, d);
    }
}

proof fn lemma_order_moved(children: Seq<ChildModel>, d: int)
    requires
        paths_valid(children),
        children_movable(children, d),
        starts_known(children),
        children.len() <= usize::MAX,
    ensures
        order_of(moved_children(children, d)) == order_of(children),
        is_order(children, order_of(children)),
{
    let after = moved_children(children, d);
    law_children_have_an_order(children);
    law_children_have_an_order(after);
    let order = order_of(children);
    assert forall|i: int, j: int|
        0 <= i < children.len() && 0 <= j < children.len() implies shown_before(children, i, j)
        == shown_before(after, i, j) by {
        lemma_key_moved(children, d, i);
        lemma_key_moved(children, d, j);
        assert(after[i].path == children[i].path && after[j].path == children[j].path);
        lemma_key_less_moved(
            key_of(children, children[i].path),
            key_of(children, children[j].path),
            key_of(after, children[i].path),
            key_of(after, children[j].path),
            d,
        );
    }
    assert(is_order(after, order)) by {
        assert forall|k: int, l: int| 0 <= k < l < order.len() implies shown_before(
            after,
            #[trigger] order[k] as int,
            #[trigger] order[l] as int,
        ) by {
            assert(shown_before(children, order[k] as int, order[l] as int));
        }
    }
}

proof fn lemma_events_moved(
    events: Seq<EventModel>,
    d: int,
    filter: FilterModel,
    conf: RenderConf,
    conf2: RenderConf,
    start: Timestamp,
    left: nat,
)
    requires
        forall|i: int| 0 <= i < events.len() ==> movable(#[trigger] events[i].timestamp, d),
        movable(start, d),
        movable(conf.start_ts, d),
        movable(conf.end_ts, d),
        conf2 == (RenderConf {
            start_ts: moved(conf.start_ts, d),
            end_ts: moved(conf.end_ts, d),
            ..conf
        }),
    ensures
        event_rows(moved_events(events, d), filter, conf2, moved(start, d), left) == event_rows(
            events,
            filter,
            conf,
            start,
            left,
        ),
    decreases events.len(),
{
    let after = moved_events(events, d);
    if events.len() > 0 {
        let shorter = events.drop_last();
        assert forall|i: int| 0 <= i < shorter.len() implies movable(
            #[trigger] shorter[i].timestamp,
            d,
        ) by {
            assert(shorter[i] == events[i]);
        }
        assert(after.drop_last() =~= moved_events(shorter, d));
        lemma_events_moved(shorter, d, filter, conf, conf2, start, left);
        assert(movable(events[events.len() - 1].timestamp, d));
    }
}

proof fn lemma_rows_moved(tracker: InterestModel, d: int, order: Seq<usize>)
    requires
        children_movable(tracker.children, d),
        latest(infos_of(tracker.children)) is Some,
        forall|k: int| 0 <= k < order.len() ==> #[trigger] order[k] < tracker.children.len(),
    ensures
        moved_tracker(tracker, d).all_rows(order) == tracker.all_rows(order),
    decreases order.len(),
{
    if order.len() > 0 {
        lemma_rows_moved(tracker, d, order.drop_last());
        let after = moved_tracker(tracker, d);
        let i = order[order.len() - 1] as int;
        let (a, b) = (tracker.children[i], after.children[i]);
        let infos = infos_of(tracker.children);
        lemma_infos_moved(tracker.children, d);
        lemma_infos_movable(tracker.children, d);
        lemma_extent_moved(infos, d);
        lemma_widest_moved(tracker.children, d);
        let (conf, conf2) = (tracker.frame(), after.frame());
        assert(infos.len() > 0);
        assert(conf2 == (RenderConf {
            start_ts: moved(conf.start_ts, d),
            end_ts: moved(conf.end_ts, d),
            ..conf
        }));
        assert(span_movable(a.span, d));
        if a.span.info is Some {
            lemma_events_moved(
                a.span.events,
                d,
                tracker.field_settings.with_message(),
                conf,
                conf2,
                a.span.info->0.start,
                crate::dump::indent(a),
            );
        }
    }
}

} // verus!
