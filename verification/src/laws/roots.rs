//! Examined spans.

use vstd::prelude::*;

use crate::chart::RenderSettings;
use crate::fields::FilterModel;
use crate::interest::law_spans_are_independent;
use crate::laws::timeline::law_new_trackers_know_nothing;
use crate::proc_status::rss_of;
use crate::root::RootModel;
use crate::span::SpanModel;
use crate::time::Timestamp;

verus! {

/// Examining a span adds it to the examined spans, with a tracker that knows
/// nothing of any span, and changes nothing for the others. There is no room
/// for more spans than the capacity, and where there is none nothing changes.
pub proof fn law_registering(
    root: RootModel,
    id: u64,
    render: RenderSettings,
    fields: FilterModel,
    other: u64,
    path: Seq<u64>,
)
    requires
        root.examined.finite(),
        root.examined.len() <= root.capacity,
    ensures
        ({
            let after = root.registered(id, render, fields);
            &&& root.has_room_for(id) <==> root.examined.contains(id) || root.examined.len()
                < root.capacity
            &&& !root.has_room_for(id) ==> after == root
            &&& root.has_room_for(id) ==> {
                &&& after.examined.contains(id)
                &&& after.trackers.contains_key(id)
                &&& after.trackers[id].at(path) == SpanModel::fresh(fields)
                &&& after.trackers[id].render_settings == render
                &&& after.trackers[id].field_settings == fields
            }
            &&& other != id ==> {
                &&& after.examined.contains(other) == root.examined.contains(other)
                &&& after.trackers.contains_key(other) == root.trackers.contains_key(other)
                &&& after.trackers[other] == root.trackers[other]
            }
            &&& after.examined.len() <= after.capacity
            &&& after.capacity == root.capacity
        }),
{
    law_new_trackers_know_nothing(id, render, fields, path);
}

/// Ending the examination of a span takes it out of the examined spans, and
/// nothing else.
pub proof fn law_ending(root: RootModel, id: u64, other: u64)
    ensures
        !root.ended(id).examined.contains(id),
        other != id ==> root.ended(id).examined.contains(other) == root.examined.contains(other),
        root.ended(id).trackers == root.trackers,
        root.ended(id).capacity == root.capacity,
{
}

/// An examined span that is not open yet is opened now, under the given name,
/// with the memory that the status gives where it is sampled. Open spans, other
/// spans, and spans without a tracker stay as they are.
pub proof fn law_populating(
    root: RootModel,
    id: u64,
    name: &'static str,
    now: Timestamp,
    status: Option<Seq<char>>,
    other: u64,
    path: Seq<u64>,
)
    requires
        root.trackers.contains_key(id) ==> root.trackers[id].valid(),
    ensures
        ({
            let after = root.populated(id, name, now, status);
            &&& after.examined == root.examined
            &&& after.capacity == root.capacity
            &&& !root.trackers.contains_key(id) ==> after == root
            &&& other != id ==> after.trackers.contains_key(other) == root.trackers.contains_key(
                other,
            ) && after.trackers[other] == root.trackers[other]
            &&& root.trackers.contains_key(id) ==> {
                let (t, u) = (root.trackers[id], after.trackers[id]);
                &&& after.trackers.contains_key(id)
                &&& path != seq![id] ==> u.at(path) == t.at(path)
                &&& t.at(seq![id]).info is Some ==> u.at(seq![id]) == t.at(seq![id])
                &&& t.at(seq![id]).info is None ==> {
                    let info = u.at(seq![id]).info->0;
                    &&& u.at(seq![id]).info is Some
                    &&& info.name == name
                    &&& info.start == now
                    &&& info.end is None
                    &&& info.end_rss.current_kb == 0 && info.end_rss.peak_kb == 0
                    &&& t.render_settings.track_ram && t.render_settings.streaming
                        ==> info.start_rss == rss_of(status)
                    &&& !(t.render_settings.track_ram && t.render_settings.streaming)
                        ==> info.start_rss.current_kb == 0 && info.start_rss.peak_kb == 0
                }
            }
        }),
{
    if root.trackers.contains_key(id) {
        let t = root.trackers[id];
        let info = crate::span::SpanInfo {
            name,
            start: now,
            end: None,
            start_rss: crate::span::sampled(t.samples_rss(), status),
            end_rss: crate::format::RssSample { current_kb: 0, peak_kb: 0 },
        };
        law_spans_are_independent(t, seq![id], t.at(seq![id]).opened(info), path);
        law_spans_are_independent(t, seq![id], t.at(seq![id]).opened(info), seq![id]);
    }
}

} // verus!
