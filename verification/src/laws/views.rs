//! What the models hold of the data.

use vstd::prelude::*;

use crate::fields::{fields_of, FieldSettings, TrackedMetadata};
use crate::format::text_of;
use crate::interest::InterestTracker;
use crate::proc_status::view_of;
use crate::span::{EventInfo, SpanTracker};

verus! {

/// Optional texts are modelled by their characters.
pub proof fn law_models_of_texts(s: String, t: &str)
    ensures
        text_of(Some(s)) == Some(s@),
        text_of(None) is None,
        view_of(Some(t)) == Some(t@),
        view_of(None) is None,
{
}

/// Fields are modelled by the characters of their names and values, in order.
pub proof fn law_models_of_fields(data: Seq<(&'static str, String)>, i: int)
    ensures
        fields_of(data).len() == data.len(),
        0 <= i < data.len() ==> fields_of(data)[i] == (data[i].0@, data[i].1@),
{
}

/// Recorded fields are modelled by all of them, and settings by their filter.
pub proof fn law_models_of_settings(metadata: TrackedMetadata, settings: FieldSettings)
    ensures
        metadata@ == fields_of(metadata.data@),
        settings@ == settings.field_filter@,
{
}

/// A span is modelled by all that is recorded of it, its events in order.
pub proof fn law_models_of_spans(span: SpanTracker, event: EventInfo, i: int)
    ensures
        span@.info == span.info,
        span@.metadata == span.metadata@,
        span@.settings == span.settings@,
        span@.events.len() == span.events@.len(),
        0 <= i < span.events@.len() ==> span@.events[i] == span.events@[i]@,
        event@.timestamp == event.timestamp,
        event@.metadata == event.metadata@,
{
}

/// A tracker is modelled by its settings and all its spans, in order.
pub proof fn law_models_of_trackers(tracker: InterestTracker, i: int)
    ensures
        tracker@.render_settings == tracker.render_settings,
        tracker@.field_settings == tracker.field_settings@,
        tracker@.children.len() == tracker.children@.len(),
        0 <= i < tracker.children@.len() ==> tracker@.children[i].path
            == tracker.children@[i].path@ && tracker@.children[i].span
            == tracker.children@[i].span@,
{
}

} // verus!
