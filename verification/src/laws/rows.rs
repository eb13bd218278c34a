//! The rows of the timeline.

use vstd::prelude::*;

use crate::chart::{
    bar, columns_of, elapsed, event_shift, wrapped_sum, RenderConf, RenderSettings,
};
use crate::dump::{law_every_span_has_its_rows, lemma_info_listed, order_of, widest};
use crate::fields::{metadata_text, FilterModel};
use crate::interest::{has_path, infos_of, place_of, ChildModel, InterestModel};
use crate::laws::timeline::spaces;
use crate::span::{cut, event_rows, EventModel, SpanInfo, SpanModel};
use crate::text::{padded_left, padded_right};
use crate::time::{pretty, Timestamp};

verus! {

/// The row of a span that has ended: its name and its fields behind an
/// indentation, in the room that keys have; how long it was; and its bar, as
/// many columns from the left as its start is from the start of the frame, and
/// as wide as it is long. A span that starts with the frame has its bar at the
/// left.
pub proof fn law_row_of_a_span(
    span: SpanModel,
    info: SpanInfo,
    settings: RenderSettings,
    conf: RenderConf,
    left: nat,
    end: Timestamp,
) -> (offset: nat)
    requires
        info.end == Some(end),
        info.start.nanos <= end.nanos,
        settings.min_duration matches Some(min) ==> min.nanos <= end.nanos - info.start.nanos,
        left <= conf.key_width,
    ensures
        ({
            let room = (conf.key_width - left) as nat;
            let name = info.name@ + metadata_text(span.metadata, span.settings);
            let nanos = (end.nanos - info.start.nanos) as nat;
            let width = columns_of(conf.columns(), conf.span(), nanos);
            &&& span.row(info, settings, conf, left) == spaces(left) + padded_right(
                cut(name, room),
                room,
            ) + " "@ + padded_left(pretty(nanos), 6) + " "@ + spaces(offset) + bar(width) + "\n"@
            &&& info.start.nanos <= conf.start_ts.nanos ==> offset == 0
            &&& info.start.nanos >= conf.start_ts.nanos ==> offset == columns_of(
                conf.columns(),
                conf.span(),
                (info.start.nanos - conf.start_ts.nanos) as nat,
            )
        }),
{
    let offset = columns_of(conf.columns(), conf.span(), elapsed(info.start, conf.start_ts));
    assert(crate::text::repeated(' ', left) =~= spaces(left));
    assert(crate::text::repeated(' ', offset) =~= spaces(offset));
    offset
}

/// The row of an event: its text behind an indentation, two columns further in
/// than its span, and a mark at the column where its span starts and as many
/// on as its time inside the span takes up, less one.
pub proof fn law_row_of_an_event(
    event: EventModel,
    filter: FilterModel,
    conf: RenderConf,
    span_start: Timestamp,
    left: nat,
) -> (column: nat)
    requires
        left + 2 <= conf.key_width,
        conf.start_ts.nanos <= span_start.nanos,
    ensures
        ({
            let room = (conf.key_width - left - 2) as nat;
            let text = cut(metadata_text(event.metadata, filter), room);
            let base = columns_of(
                conf.columns(),
                conf.span(),
                (span_start.nanos - conf.start_ts.nanos) as nat,
            );
            let inside = columns_of(
                conf.columns(),
                conf.span(),
                (event.timestamp.nanos - span_start.nanos) as nat,
            );
            &&& event.row(filter, conf, span_start, left) == spaces(left + 1) + ">"@ + padded_right(
                text,
                room,
            ) + spaces(8) + spaces(column) + "┼\n"@
            &&& event.timestamp.nanos <= span_start.nanos ==> column == base
            &&& event.timestamp.nanos > span_start.nanos && base + inside <= i32::MAX ==> column
                == if inside == 0 {
                base
            } else {
                (base + inside - 1) as nat
            }
        }),
{
    let base = columns_of(conf.columns(), conf.span(), elapsed(span_start, conf.start_ts));
    let inside = columns_of(conf.columns(), conf.span(), elapsed(event.timestamp, span_start));
    let column = wrapped_sum(base, event_shift(inside));
    assert(crate::text::repeated(' ', left + 1) =~= spaces(left + 1));
    assert(crate::text::repeated(' ', 8) =~= spaces(8));
    assert(crate::text::repeated(' ', column) =~= spaces(column));
    column
}

/// A span without events has its own row, where spans are shown. A span that
/// was never opened has none.
pub proof fn law_rows_of_a_span(tracker: InterestModel, child: ChildModel)
    requires
        child.path.len() > 0,
    ensures
        child.span.info is None ==> tracker.rows(child).len() == 0,
        child.span.info is Some && child.span.events.len() == 0 ==> tracker.rows(child)
            == if tracker.render_settings.types.spans {
            child.span.row(
                child.span.info->0,
                tracker.render_settings,
                tracker.frame(),
                (2 * (child.path.len() - 1)) as nat,
            )
        } else {
            Seq::empty()
        },
{
    if child.span.info is Some && child.span.events.len() == 0 {
        let own = if tracker.render_settings.types.spans {
            child.span.row(
                child.span.info->0,
                tracker.render_settings,
                tracker.frame(),
                (2 * (child.path.len() - 1)) as nat,
            )
        } else {
            Seq::empty()
        };
        assert(own + Seq::<char>::empty() =~= own);
    }
}

/// A further event adds its row below the rows of its span, where events are
/// shown.
pub proof fn law_event_adds_its_row(
    tracker: InterestModel,
    child: ChildModel,
    info: SpanInfo,
    event: EventModel,
)
    requires
        child.path.len() > 0,
        child.span.info == Some(info),
    ensures
        tracker.rows(ChildModel { span: child.span.with_event(event), ..child }) == tracker.rows(
            child,
        ) + if tracker.render_settings.types.events {
            event.row(
                tracker.field_settings.with_message(),
                tracker.frame(),
                info.start,
                (2 * (child.path.len() - 1)) as nat,
            )
        } else {
            Seq::empty()
        },
{
    let after = child.span.with_event(event);
    let left = (2 * (child.path.len() - 1)) as nat;
    let filter = tracker.field_settings.with_message();
    assert(after.events.drop_last() =~= child.span.events);
    let own = if tracker.render_settings.types.spans {
        child.span.row(info, tracker.render_settings, tracker.frame(), left)
    } else {
        Seq::empty()
    };
    let more = event.row(filter, tracker.frame(), info.start, left);
    if tracker.render_settings.types.events {
        let events = event_rows(child.span.events, filter, tracker.frame(), info.start, left);
        assert(own + (events + more) =~= own + events + more);
    } else {
        assert(own + Seq::<char>::empty() + Seq::<char>::empty() =~= own + Seq::<char>::empty());
    }
}

proof fn lemma_same_infos(a: Seq<ChildModel>, b: Seq<ChildModel>)
    requires
        a.len() == b.len(),
        forall|i: int|
            0 <= i < a.len() ==> {
                &&& (#[trigger] a[i]).path == b[i].path
                &&& a[i].span.info == b[i].span.info
                &&& a[i].span.metadata == b[i].span.metadata
                &&& a[i].span.settings == b[i].span.settings
            },
    ensures
        infos_of(a) == infos_of(b),
        widest(a) == widest(b),
    decreases a.len(),
{
    if a.len() > 0 {
        assert(a.drop_last() =~= a.take(a.len() - 1));
        assert forall|i: int| 0 <= i < a.drop_last().len() implies {
            &&& (#[trigger] a.drop_last()[i]).path == b.drop_last()[i].path
            &&& a.drop_last()[i].span.info == b.drop_last()[i].span.info
            &&& a.drop_last()[i].span.metadata == b.drop_last()[i].span.metadata
            &&& a.drop_last()[i].span.settings == b.drop_last()[i].span.settings
        } by {
            assert(a.drop_last()[i] == a[i] && b.drop_last()[i] == b[i]);
        }
        lemma_same_infos(a.drop_last(), b.drop_last());
        assert(a[a.len() - 1].path == b[a.len() - 1].path);
    }
}

/// An event that is added to an opened span stands in the timeline, whether or
/// not the span has ended, and leaves the frame of the timeline as it is.
pub proof fn law_event_is_shown(
    tracker: InterestModel,
    path: Seq<u64>,
    info: SpanInfo,
    event: EventModel,
) -> (around: (Seq<char>, Seq<char>))
    requires
        tracker.valid(),
        tracker.at(path).info == Some(info),
        tracker.render_settings.types.events,
        tracker.children.len() <= usize::MAX,
    ensures
        ({
            let after = tracker.with(path, tracker.at(path).with_event(event));
            &&& after.frame() == tracker.frame()
            &&& after.dumped() == around.0 + event.row(
                tracker.field_settings.with_message(),
                tracker.frame(),
                info.start,
                (2 * (path.len() - 1)) as nat,
            ) + around.1
        }),
{
    assert(has_path(tracker.children, path));
    let p = place_of(tracker.children, path);
    let child = tracker.children[p];
    assert(child.path == path);
    let after = tracker.with(path, tracker.at(path).with_event(event));
    let changed = ChildModel { span: child.span.with_event(event), ..child };
    assert(after.children[p] == changed);
    lemma_same_infos(tracker.children, after.children);
    assert(after.frame() == tracker.frame());
    lemma_info_listed(tracker.children, p);
    law_event_adds_its_row(after, child, info, event);
    let (before, tail) = law_every_span_has_its_rows(after, p as usize);
    let rows = after.rows(child);
    let more = event.row(
        tracker.field_settings.with_message(),
        tracker.frame(),
        info.start,
        (2 * (path.len() - 1)) as nat,
    );
    assert(before + (rows + more) + tail =~= (before + rows) + more + tail);
    (before + rows, tail)
}

/// The rows of the children listed in `order`.
pub open spec fn listed_rows(tracker: InterestModel, order: Seq<usize>) -> Seq<Seq<char>> {
    Seq::new(order.len(), |k: int| tracker.rows(tracker.children[order[k] as int]))
}

/// The timeline is a blank line and the rows of all spans, one after another
/// and nothing else; or says that there is nothing, where no span was opened.
pub proof fn law_timeline_is_its_rows(tracker: InterestModel)
    ensures
        (forall|i: int|
            0 <= i < tracker.children.len() ==> (#[trigger] tracker.children[i]).span.info is None)
            ==> tracker.dumped() == "no events..."@,
        (exists|i: int|
            0 <= i < tracker.children.len() && (#[trigger] tracker.children[i]).span.info is Some)
            ==> tracker.dumped() == "\n"@ + listed_rows(
            tracker,
            order_of(tracker.children),
        ).flatten_alt(),
{
    lemma_some_info(tracker.children);
    lemma_listed_rows(tracker, order_of(tracker.children));
}

pub proof fn lemma_some_info(children: Seq<ChildModel>)
    ensures
        infos_of(children).len() > 0 <==> exists|i: int|
            0 <= i < children.len() && (#[trigger] children[i]).span.info is Some,
    decreases children.len(),
{
    if children.len() > 0 {
        let shorter = children.drop_last();
        lemma_some_info(shorter);
        if infos_of(shorter).len() > 0 {
            let i = choose|i: int|
                0 <= i < shorter.len() && (#[trigger] shorter[i]).span.info is Some;
            assert(children[i].span.info is Some);
        } else if children.last().span.info is Some {
            assert(children[children.len() - 1].span.info is Some);
        } else {
            assert forall|i: int| 0 <= i < children.len() implies (
            #[trigger] children[i]).span.info is None by {
                if i < shorter.len() {
                    assert(shorter[i] == children[i]);
                }
            }
        }
    }
}

proof fn lemma_listed_rows(tracker: InterestModel, order: Seq<usize>)
    ensures
        tracker.all_rows(order) == listed_rows(tracker, order).flatten_alt(),
    decreases order.len(),
{
    if order.len() > 0 {
        lemma_listed_rows(tracker, order.drop_last());
        assert(listed_rows(tracker, order).drop_last() =~= listed_rows(
            tracker,
            order.drop_last(),
        ));
    }
}

} // verus!
