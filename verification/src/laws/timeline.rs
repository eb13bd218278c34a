//! The timeline of an examined span.

use vstd::prelude::*;
use vstd::utf8::{encode_utf8, is_char_boundary};

use crate::chart::RenderSettings;
use crate::dump::{
    earliest, is_order, key_of, latest, lemma_earliest, lemma_info_listed, lemma_latest,
    shown_before, start_known, start_of, widest,
};
use crate::fields::{metadata_text, FilterModel};
use crate::interest::{
    has_path, infos_of, lemma_place_of, paths_valid, place_of, ChildModel, InterestModel,
};
use crate::span::{can_cut, cut, SpanInfo, SpanModel};

verus! {

/// `n` spaces.
pub open spec fn spaces(n: nat) -> Seq<char> {
    Seq::new(n, |i: int| ' ')
}

/// A new tracker knows the examined span's id, and nothing of any span.
pub proof fn law_new_trackers_know_nothing(
    id: u64,
    settings: RenderSettings,
    fields: FilterModel,
    path: Seq<u64>,
)
    ensures
        ({
            let tracker = InterestModel::fresh(id, settings, fields);
            &&& tracker.valid()
            &&& tracker.at(path) == SpanModel::fresh(fields)
            &&& tracker.children.len() == 1
            &&& tracker.children[0].path == seq![id]
            &&& tracker.render_settings == settings
            &&& tracker.field_settings == fields
        }),
{
    let tracker = InterestModel::fresh(id, settings, fields);
    if has_path(tracker.children, path) {
        let p = place_of(tracker.children, path);
        assert(tracker.children[p].path == path);
    }
}

/// Spans are listed in the order in which they were first seen, each once.
pub proof fn law_spans_are_listed_as_seen(
    tracker: InterestModel,
    path: Seq<u64>,
    span: SpanModel,
    i: int,
)
    requires
        tracker.valid(),
        0 <= i < tracker.children.len(),
    ensures
        ({
            let after = tracker.with(path, span);
            &&& after.children[i].path == tracker.children[i].path
            &&& tracker.children[i].path != path ==> after.children[i] == tracker.children[i]
            &&& tracker.children[i].path == path ==> after.children[i].span == span
                && after.children.len() == tracker.children.len()
            &&& !has_path(tracker.children, path) ==> after.children
                == tracker.children.push(ChildModel { path, span })
            &&& after.render_settings == tracker.render_settings
            &&& after.field_settings == tracker.field_settings
        }),
{
    if tracker.children[i].path == path {
        lemma_place_of(tracker.children, i);
    } else if has_path(tracker.children, path) {
        let p = place_of(tracker.children, path);
        assert(tracker.children[p].path == path);
    }
}

/// A span's start is the one that was recorded when it was opened.
pub proof fn law_starts_of_spans(tracker: InterestModel, i: int, info: SpanInfo)
    requires
        tracker.valid(),
        0 <= i < tracker.children.len(),
        tracker.children[i].span.info == Some(info),
    ensures
        start_of(tracker.children, tracker.children[i].path) == info.start.nanos,
{
    lemma_place_of(tracker.children, i);
}

/// The start of a span that was never opened, or never seen, counts as the
/// epoch, and is not known.
pub proof fn law_unknown_starts(tracker: InterestModel, path: Seq<u64>)
    requires
        tracker.valid(),
    ensures
        start_known(tracker.children, path) <==> tracker.at(path).info is Some && exists|i: int|
            0 <= i < tracker.children.len() && #[trigger] tracker.children[i].path == path,
        !start_known(tracker.children, path) ==> start_of(tracker.children, path) == 0,
        start_known(tracker.children, path) ==> start_of(tracker.children, path) == tracker.at(
            path,
        ).info->0.start.nanos,
{
}

/// Spans that started at the same time, inside spans that did, are shown in
/// the order in which they were first seen.
pub proof fn law_ties_are_shown_as_seen(
    children: Seq<ChildModel>,
    order: Seq<usize>,
    k: int,
    l: int,
)
    requires
        is_order(children, order),
        0 <= k < order.len(),
        0 <= l < order.len(),
        order[k] < order[l],
        ({
            let (p, q) = (children[order[k] as int].path, children[order[l] as int].path);
            &&& p.len() == q.len()
            &&& forall|n: int|
                1 <= n <= p.len() ==> start_of(children, #[trigger] p.take(n)) == start_of(
                    children,
                    q.take(n),
                )
        }),
    ensures
        k < l,
{
    let (p, q) = (children[order[k] as int].path, children[order[l] as int].path);
    let (a, b) = (key_of(children, p), key_of(children, q));
    assert forall|i: int| 0 <= i < a.len() implies a[i] == b[i] by {
        assert(start_of(children, p.take(p.len() - i)) == start_of(children, q.take(p.len() - i)));
    }
    assert(a =~= b);
    crate::dump::lemma_key_less_irreflexive(a);
    if l < k {
        assert(shown_before(children, order[l] as int, order[k] as int));
    }
}

/// Whether `s` can be cut after `bytes` bytes.
pub open spec fn cuts(s: Seq<char>, bytes: int) -> bool {
    encode_utf8(s).len() <= bytes || is_char_boundary(encode_utf8(s), bytes)
}

/// Whether `s` has room behind an indentation, where keys have `keys` columns:
/// it can be cut to what is left.
pub open spec fn has_room(s: Seq<char>, keys: usize, left: nat) -> bool {
    left <= keys && cuts(s, keys - left)
}

/// Whether the rows of a child that are shown have room: its own, and those of
/// its events, which stand two columns further in.
pub open spec fn rows_have_room(tracker: InterestModel, child: ChildModel) -> bool {
    let keys = tracker.frame().key_width;
    let left = (2 * (child.path.len() - 1)) as nat;
    let filter = tracker.field_settings.with_message();
    &&& tracker.render_settings.types.spans ==> has_room(
        child.span.info->0.name@ + metadata_text(child.span.metadata, child.span.settings),
        keys,
        left,
    )
    &&& tracker.render_settings.types.events ==> forall|k: int|
        0 <= k < child.span.events.len() ==> has_room(
            metadata_text((#[trigger] child.span.events[k]).metadata, filter),
            keys,
            left + 2,
        )
}

/// A timeline can be laid out if and only if no span was opened; or one has
/// ended, and of every span that was opened the rows that are shown have room
/// behind their indentation and can be cut to it between characters.
pub proof fn law_timelines_that_can_be_laid_out(tracker: InterestModel)
    ensures
        tracker.can_dump() <==> {
            ||| forall|i: int|
                0 <= i < tracker.children.len() ==> (
                #[trigger] tracker.children[i]).span.info is None
            ||| {
                &&& exists|i: int|
                    0 <= i < tracker.children.len() && (
                    #[trigger] tracker.children[i]).span.info is Some
                        && tracker.children[i].span.info->0.end is Some
                &&& forall|i: int|
                    0 <= i < tracker.children.len() && (
                    #[trigger] tracker.children[i]).span.info is Some ==> rows_have_room(
                        tracker,
                        tracker.children[i],
                    )
            }
        },
{
    crate::laws::rows::lemma_some_info(tracker.children);
    lemma_some_end(tracker.children);
    assert forall|i: int| 0 <= i < tracker.children.len() implies tracker.rows_fit(
        #[trigger] tracker.children[i],
    ) == (tracker.children[i].span.info is Some ==> rows_have_room(tracker, tracker.children[i])) by {
        lemma_rows_have_room(tracker, tracker.children[i]);
    }
}

proof fn lemma_rows_have_room(tracker: InterestModel, child: ChildModel)
    ensures
        tracker.rows_fit(child) == (child.span.info is Some ==> rows_have_room(tracker, child)),
{
    if child.span.info is Some {
        let keys = tracker.frame().key_width;
        let left = (2 * (child.path.len() - 1)) as nat;
        let filter = tracker.field_settings.with_message();
        assert forall|k: int| 0 <= k < child.span.events.len() implies (
        #[trigger] child.span.events[k]).row_fits(filter, tracker.frame(), left) == has_room(
            metadata_text(child.span.events[k].metadata, filter),
            keys,
            left + 2,
        ) by {}
        if tracker.render_settings.types.events {
            let events = child.span.events;
            if !crate::dump::events_fit(events, filter, tracker.frame(), left) {
                let k = choose|k: int|
                    0 <= k < events.len() && !(#[trigger] events[k]).row_fits(
                        filter,
                        tracker.frame(),
                        left,
                    );
                assert(!has_room(metadata_text(events[k].metadata, filter), keys, left + 2));
            }
        }
    }
}

proof fn lemma_some_end(children: Seq<ChildModel>)
    ensures
        latest(infos_of(children)) is Some <==> exists|i: int|
            0 <= i < children.len() && (#[trigger] children[i]).span.info is Some
                && children[i].span.info->0.end is Some,
{
    let infos = infos_of(children);
    if latest(infos) is Some {
        let k = lemma_latest_attained(infos);
        let i = lemma_info_source(children, k);
        assert(children[i].span.info is Some);
    }
    if exists|i: int|
        0 <= i < children.len() && (#[trigger] children[i]).span.info is Some
            && children[i].span.info->0.end is Some {
        let i = choose|i: int|
            0 <= i < children.len() && (#[trigger] children[i]).span.info is Some
                && children[i].span.info->0.end is Some;
        lemma_info_listed(children, i);
        let k = choose|k: int| 0 <= k < infos.len() && infos[k] == children[i].span.info->0;
        lemma_latest(infos, k);
    }
}

/// The order of the rows lists every span once.
pub proof fn law_order_lists_each_once(children: Seq<ChildModel>, order: Seq<usize>)
    requires
        is_order(children, order),
    ensures
        order.len() == children.len(),
        forall|i: usize| i < children.len() ==> #[trigger] order.contains(i),
        forall|k: int| 0 <= k < order.len() ==> #[trigger] order[k] < children.len(),
        order.no_duplicates(),
{
    assert forall|k: int, l: int| 0 <= k < l < order.len() implies order[k] != order[l] by {
        if order[k] == order[l] {
            assert(shown_before(children, order[k] as int, order[l] as int));
            crate::dump::lemma_key_less_irreflexive(
                key_of(children, children[order[k] as int].path),
            );
        }
    }
}

proof fn lemma_info_source(children: Seq<ChildModel>, k: int) -> (i: int)
    requires
        0 <= k < infos_of(children).len(),
    ensures
        0 <= i < children.len(),
        children[i].span.info == Some(infos_of(children)[k]),
    decreases children.len(),
{
    let shorter = children.drop_last();
    if k < infos_of(shorter).len() {
        let i = lemma_info_source(shorter, k);
        assert(children[i] == shorter[i]);
        i
    } else {
        children.len() - 1
    }
}

proof fn lemma_earliest_attained(infos: Seq<SpanInfo>) -> (k: int)
    requires
        infos.len() > 0,
    ensures
        0 <= k < infos.len(),
        infos[k].start == earliest(infos),
    decreases infos.len(),
{
    if infos.len() == 1 {
        0
    } else {
        let before = earliest(infos.drop_last());
        if infos.last().start.nanos < before.nanos {
            infos.len() - 1
        } else {
            let k = lemma_earliest_attained(infos.drop_last());
            assert(infos[k] == infos.drop_last()[k]);
            k
        }
    }
}

proof fn lemma_latest_attained(infos: Seq<SpanInfo>) -> (k: int)
    requires
        latest(infos) is Some,
    ensures
        0 <= k < infos.len(),
        infos[k].end == latest(infos),
    decreases infos.len(),
{
    if infos.last().end == latest(infos) {
        infos.len() - 1
    } else {
        let k = lemma_latest_attained(infos.drop_last());
        assert(infos[k] == infos.drop_last()[k]);
        k
    }
}

/// The frame of the timeline runs from the start of the span that starts first
/// to the end of the span that ends last: it starts where one of the spans
/// starts and ends where one of them ends, and no span starts before or ends
/// after it.
pub proof fn law_frame_is_attained(tracker: InterestModel, i: int) -> (ends: (int, int))
    requires
        0 <= i < tracker.children.len(),
        tracker.children[i].span.info is Some,
        tracker.children[i].span.info->0.end is Some,
    ensures
        ({
            let (frame, children) = (tracker.frame(), tracker.children);
            let (first, last) = ends;
            &&& 0 <= first < children.len() && children[first].span.info is Some
            &&& 0 <= last < children.len() && children[last].span.info is Some
            &&& frame.start_ts == children[first].span.info->0.start
            &&& Some(frame.end_ts) == children[last].span.info->0.end
            &&& frame.width == tracker.render_settings.width
            &&& forall|j: int|
                0 <= j < children.len() && (#[trigger] children[j]).span.info is Some ==> {
                    let info = children[j].span.info->0;
                    &&& frame.start_ts.nanos <= info.start.nanos
                    &&& info.end matches Some(end) ==> end.nanos <= frame.end_ts.nanos
                }
        }),
{
    let children = tracker.children;
    let infos = infos_of(children);
    assert forall|j: int|
        0 <= j < children.len() && (#[trigger] children[j]).span.info is Some implies {
        let info = children[j].span.info->0;
        &&& earliest(infos).nanos <= info.start.nanos
        &&& info.end matches Some(end) ==> latest(infos) is Some && end.nanos
            <= latest(infos)->0.nanos
    } by {
        let info = children[j].span.info->0;
        lemma_info_listed(children, j);
        let k = choose|k: int| 0 <= k < infos.len() && infos[k] == info;
        lemma_earliest(infos, k);
        if info.end is Some {
            lemma_latest(infos, k);
        }
    }
    lemma_info_listed(children, i);
    assert(latest(infos) is Some) by {
        assert(children[i].span.info is Some);
    }
    let earliest_at = lemma_earliest_attained(infos);
    let latest_at = lemma_latest_attained(infos);
    let first = lemma_info_source(children, earliest_at);
    let last = lemma_info_source(children, latest_at);
    (first, last)
}

/// Bytes that the key of a child's row takes up: its indentation, its name and
/// its fields.
pub open spec fn key_bytes(child: ChildModel) -> nat {
    (2 * (child.path.len() - 1) + match child.span.info {
        Some(info) => encode_utf8(
            info.name@ + metadata_text(child.span.metadata, child.span.settings),
        ).len(),
        None => 0,
    }) as nat
}

/// The keys of the timeline get the room that the widest of them needs, and no
/// more than 120 columns.
pub proof fn law_room_of_the_keys(tracker: InterestModel) -> (widest: int)
    requires
        tracker.valid(),
        tracker.children.len() > 0,
    ensures
        0 <= widest < tracker.children.len(),
        forall|i: int|
            0 <= i < tracker.children.len() ==> key_bytes(#[trigger] tracker.children[i])
                <= key_bytes(tracker.children[widest]),
        tracker.frame().key_width == if key_bytes(tracker.children[widest]) <= 120 {
            key_bytes(tracker.children[widest])
        } else {
            120
        },
{
    lemma_widest(tracker.children)
}

proof fn lemma_widest(children: Seq<ChildModel>) -> (k: int)
    requires
        paths_valid(children),
        children.len() > 0,
    ensures
        0 <= k < children.len(),
        widest(children) == key_bytes(children[k]),
        forall|i: int|
            0 <= i < children.len() ==> key_bytes(#[trigger] children[i]) <= key_bytes(children[k]),
    decreases children.len(),
{
    let shorter = children.drop_last();
    let n = children.len() - 1;
    assert(children[n].path.len() > 0);
    assert(children.last().span.key_columns(children.last().path.len()) == key_bytes(children[n]));
    if shorter.len() == 0 {
        assert(widest(shorter) == 0);
        n
    } else {
        assert(paths_valid(shorter)) by {
            assert forall|i: int| 0 <= i < shorter.len() implies #[trigger] shorter[i].path.len()
                > 0 by {
                assert(children[i].path.len() > 0);
            }
            assert forall|i: int, j: int|
                0 <= i < shorter.len() && 0 <= j < shorter.len() && #[trigger] shorter[i].path
                    == #[trigger] shorter[j].path implies i == j by {
                assert(children[i].path == children[j].path);
            }
        }
        let k = lemma_widest(shorter);
        assert(children[k] == shorter[k]);
        assert forall|i: int| 0 <= i < children.len() implies key_bytes(#[trigger] children[i])
            <= widest(children) by {
            if i < shorter.len() {
                assert(shorter[i] == children[i]);
            }
        }
        if key_bytes(children[n]) > widest(shorter) {
            n
        } else {
            k
        }
    }
}

/// A text that is cut keeps its beginning: all of it where it fits, and else as
/// many bytes as fit.
pub proof fn law_cut_texts(s: Seq<char>, bytes: nat)
    requires
        can_cut(s, bytes),
    ensures
        encode_utf8(s).len() <= bytes ==> cut(s, bytes) == s,
        encode_utf8(s).len() > bytes ==> encode_utf8(cut(s, bytes)) == encode_utf8(s).take(
            bytes as int,
        ),
{
    if encode_utf8(s).len() > bytes {
        let all = encode_utf8(s);
        let head = all.subrange(0, bytes as int);
        vstd::utf8::encode_utf8_valid_utf8(s);
        vstd::utf8::valid_utf8_split(all, bytes as int);
        vstd::utf8::decode_utf8_encode_utf8(head);
        assert(all.take(bytes as int) =~= head);
    }
}

} // verus!
