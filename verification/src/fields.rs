//! Recorded fields of spans and events, and which of them to show.

use vstd::prelude::*;

use crate::proc_status::{chars_of, first_line, split_line};
use crate::text::same_text;

verus! {

/// Which fields to show, by name.
#[derive(Debug)]
pub enum FieldFilter {
    /// Only the named fields.
    AllowList(Vec<String>),
    /// All but the named fields.
    DenyList(Vec<String>),
}

/// What a [`FieldFilter`] stands for.
pub enum FilterModel {
    Allow(Set<Seq<char>>),
    Deny(Set<Seq<char>>),
}

impl FilterModel {
    /// Whether a field of that name is shown.
    pub open spec fn prints(self, name: Seq<char>) -> bool {
        match self {
            FilterModel::Allow(names) => names.contains(name),
            FilterModel::Deny(names) => !names.contains(name),
        }
    }

    /// The filter that shows messages besides.
    pub open spec fn with_message(self) -> FilterModel {
        match self {
            FilterModel::Allow(names) => FilterModel::Allow(names.insert("message"@)),
            FilterModel::Deny(names) => self,
        }
    }
}

/// The set of names in a list.
pub open spec fn names_of(list: Seq<String>) -> Set<Seq<char>> {
    Set::new(|name: Seq<char>| exists|i: int| 0 <= i < list.len() && #[trigger] list[i]@ == name)
}

impl View for FieldFilter {
    type V = FilterModel;

    open spec fn view(&self) -> FilterModel {
        match *self {
            FieldFilter::AllowList(list) => FilterModel::Allow(names_of(list@)),
            FieldFilter::DenyList(list) => FilterModel::Deny(names_of(list@)),
        }
    }
}

/// Whether `list` holds `name`.
fn lists(list: &Vec<String>, name: &str) -> (b: bool)
    ensures
        b == names_of(list@).contains(name@),
{
    let mut i: usize = 0;
    while i < list.len()
        invariant
            i <= list@.len(),
            forall|j: int| 0 <= j < i ==> #[trigger] list@[j]@ != name@,
        decreases list@.len() - i,
    {
        if same_text(list[i].as_str(), name) {
            assert(list@[i as int]@ == name@);
            return true;
        }
        i = i + 1;
    }
    false
}

fn copy_list(list: &Vec<String>) -> (copy: Vec<String>)
    ensures
        copy@ == list@,
{
    let mut copy: Vec<String> = Vec::new();
    let mut i: usize = 0;
    while i < list.len()
        invariant
            i <= list@.len(),
            copy@ =~= list@.take(i as int),
        decreases list@.len() - i,
    {
        copy.push(list[i].clone());
        i = i + 1;
    }
    copy
}

impl Clone for FieldFilter {
    fn clone(&self) -> (copy: Self)
        ensures
            copy@ == self@,
    {
        match self {
            FieldFilter::AllowList(list) => FieldFilter::AllowList(copy_list(list)),
            FieldFilter::DenyList(list) => FieldFilter::DenyList(copy_list(list)),
        }
    }
}

impl FieldFilter {
    /// Whether a field of that name is shown.
    pub fn should_print(&self, name: &str) -> (b: bool)
        ensures
            b == self@.prints(name@),
    {
        match self {
            FieldFilter::AllowList(list) => lists(list, name),
            FieldFilter::DenyList(list) => !lists(list, name),
        }
    }
}

/// How fields are shown.
#[derive(Debug)]
pub struct FieldSettings {
    pub field_filter: FieldFilter,
}

impl View for FieldSettings {
    type V = FilterModel;

    open spec fn view(&self) -> FilterModel {
        self.field_filter@
    }
}

impl Clone for FieldSettings {
    fn clone(&self) -> (copy: Self)
        ensures
            copy@ == self@,
    {
        FieldSettings { field_filter: self.field_filter.clone() }
    }
}

impl Default for FieldSettings {
    /// Shows every field.
    fn default() -> (settings: Self)
        ensures
            settings@ == FilterModel::Deny(Set::empty()),
    {
        let settings = FieldSettings { field_filter: FieldFilter::DenyList(Vec::new()) };
        assert(names_of(Seq::<String>::empty()) =~= Set::empty());
        settings
    }
}

impl FieldSettings {
    pub fn new(field_filter: FieldFilter) -> (settings: FieldSettings)
        ensures
            settings@ == field_filter@,
    {
        FieldSettings { field_filter }
    }

    /// These settings, with messages shown besides.
    pub fn with_message(&self) -> (settings: FieldSettings)
        ensures
            settings@ == self@.with_message(),
    {
        let mut settings = self.clone();
        if let FieldFilter::AllowList(list) = &mut settings.field_filter {
            let ghost before = list@;
            list.push("message".to_owned());
            proof {
                let after = list@;
                assert(names_of(after) =~= names_of(before).insert("message"@)) by {
                    assert(after[before.len() as int]@ == "message"@);
                    assert forall|name: Seq<char>| names_of(before).contains(name) implies names_of(
                        after,
                    ).contains(name) by {
                        let i = choose|i: int| 0 <= i < before.len() && before[i]@ == name;
                        assert(after[i]@ == name);
                    }
                    assert forall|name: Seq<char>| names_of(after).contains(name) implies names_of(
                        before,
                    ).insert("message"@).contains(name) by {
                        let i = choose|i: int| 0 <= i < after.len() && after[i]@ == name;
                        if i < before.len() {
                            assert(before[i]@ == name);
                        }
                    }
                }
            }
        }
        settings
    }
}

/// A field's name and its value.
pub type FieldModel = (Seq<char>, Seq<char>);

/// The fields recorded of a span or an event, in the order of recording.
#[derive(Debug)]
pub struct TrackedMetadata {
    pub data: Vec<(&'static str, String)>,
}

/// The name and the value of each recorded field.
pub open spec fn fields_of(data: Seq<(&'static str, String)>) -> Seq<FieldModel> {
    Seq::new(data.len(), |i: int| (data[i].0@, data[i].1@))
}

impl View for TrackedMetadata {
    type V = Seq<FieldModel>;

    open spec fn view(&self) -> Seq<FieldModel> {
        fields_of(self.data@)
    }
}

impl Default for TrackedMetadata {
    fn default() -> (metadata: Self)
        ensures
            metadata@ == Seq::<FieldModel>::empty(),
    {
        let metadata = TrackedMetadata { data: Vec::new() };
        assert(metadata@ =~= Seq::empty());
        metadata
    }
}

/// The first message among the shown fields.
pub open spec fn shown_message(fields: Seq<FieldModel>, filter: FilterModel) -> Option<Seq<char>>
    decreases fields.len(),
{
    if fields.len() == 0 {
        None
    } else if fields[0].0 == "message"@ && filter.prints("message"@) {
        Some(fields[0].1)
    } else {
        shown_message(fields.drop_first(), filter)
    }
}

/// The shown fields other than messages.
pub open spec fn shown_fields(fields: Seq<FieldModel>, filter: FilterModel) -> Seq<FieldModel>
    decreases fields.len(),
{
    if fields.len() == 0 {
        Seq::empty()
    } else {
        let before = shown_fields(fields.drop_last(), filter);
        if filter.prints(fields.last().0) && fields.last().0 != "message"@ {
            before.push(fields.last())
        } else {
            before
        }
    }
}

/// `name: value` for each field, separated by commas.
pub open spec fn joined(fields: Seq<FieldModel>) -> Seq<char>
    decreases fields.len(),
{
    if fields.len() == 0 {
        Seq::empty()
    } else {
        let before = if fields.len() == 1 {
            Seq::empty()
        } else {
            joined(fields.drop_last()) + ", "@
        };
        before + fields.last().0 + ": "@ + fields.last().1
    }
}

/// How recorded fields are shown: the first line of the message, and the
/// other fields in braces.
pub open spec fn metadata_text(fields: Seq<FieldModel>, filter: FilterModel) -> Seq<char> {
    let message = match shown_message(fields, filter) {
        Some(message) => first_line(message),
        None => Seq::empty(),
    };
    let others = shown_fields(fields, filter);
    if others.len() == 0 {
        message
    } else {
        message + "{"@ + joined(others) + "}"@
    }
}

/// The fields of a list after those that are offered and shown.
pub open spec fn recorded(
    fields: Seq<FieldModel>,
    offered: Seq<FieldModel>,
    filter: FilterModel,
) -> Seq<FieldModel>
    decreases offered.len(),
{
    if offered.len() == 0 {
        fields
    } else {
        let before = recorded(fields, offered.drop_last(), filter);
        if filter.prints(offered.last().0) {
            before.push(offered.last())
        } else {
            before
        }
    }
}

/// Recording keeps what was recorded before, and adds only fields that the
/// filter shows.
pub proof fn law_only_shown_fields_are_recorded(
    fields: Seq<FieldModel>,
    offered: Seq<FieldModel>,
    filter: FilterModel,
)
    ensures
        recorded(fields, offered, filter).len() >= fields.len(),
        recorded(fields, offered, filter).take(fields.len() as int) == fields,
        forall|i: int|
            fields.len() <= i < recorded(fields, offered, filter).len() ==> {
                let field = #[trigger] recorded(fields, offered, filter)[i];
                filter.prints(field.0) && offered.contains(field)
            },
    decreases offered.len(),
{
    let after = recorded(fields, offered, filter);
    if offered.len() == 0 {
        assert(after.take(fields.len() as int) =~= fields);
    } else {
        let shorter = offered.drop_last();
        let before = recorded(fields, shorter, filter);
        law_only_shown_fields_are_recorded(fields, shorter, filter);
        assert(after.take(fields.len() as int) =~= before.take(fields.len() as int));
        assert forall|i: int| fields.len() <= i < after.len() implies {
            let field = #[trigger] after[i];
            filter.prints(field.0) && offered.contains(field)
        } by {
            if i < before.len() {
                let k = choose|k: int| 0 <= k < shorter.len() && shorter[k] == before[i];
                assert(offered[k] == after[i]);
            } else {
                assert(offered[offered.len() - 1] == after[i]);
            }
        }
    }
}

/// A filter that denies nothing, which is the default, records every field.
pub proof fn law_default_records_everything(fields: Seq<FieldModel>, offered: Seq<FieldModel>)
    ensures
        recorded(fields, offered, FilterModel::Deny(Set::empty())) == fields + offered,
    decreases offered.len(),
{
    if offered.len() == 0 {
        assert(fields + offered =~= fields);
    } else {
        law_default_records_everything(fields, offered.drop_last());
        assert(fields + offered =~= (fields + offered.drop_last()).push(offered.last()));
    }
}

/// Fields of which the filter shows none leave no trace in the text.
pub proof fn law_hidden_fields_leave_no_trace(fields: Seq<FieldModel>, filter: FilterModel)
    requires
        forall|i: int| 0 <= i < fields.len() ==> !filter.prints(#[trigger] fields[i].0),
    ensures
        metadata_text(fields, filter) == Seq::<char>::empty(),
{
    lemma_hidden_message(fields, filter);
    lemma_hidden_fields(fields, filter);
}

proof fn lemma_hidden_message(fields: Seq<FieldModel>, filter: FilterModel)
    requires
        forall|i: int| 0 <= i < fields.len() ==> !filter.prints(#[trigger] fields[i].0),
    ensures
        shown_message(fields, filter) is None,
    decreases fields.len(),
{
    if fields.len() > 0 {
        assert(!filter.prints(fields[0].0));
        assert forall|i: int| 0 <= i < fields.drop_first().len() implies !filter.prints(
            #[trigger] fields.drop_first()[i].0,
        ) by {
            assert(fields.drop_first()[i] == fields[i + 1]);
        }
        lemma_hidden_message(fields.drop_first(), filter);
    }
}

proof fn lemma_hidden_fields(fields: Seq<FieldModel>, filter: FilterModel)
    requires
        forall|i: int| 0 <= i < fields.len() ==> !filter.prints(#[trigger] fields[i].0),
    ensures
        shown_fields(fields, filter).len() == 0,
    decreases fields.len(),
{
    if fields.len() > 0 {
        assert(!filter.prints(fields[fields.len() - 1].0));
        lemma_hidden_fields(fields.drop_last(), filter);
    }
}

fn push_chars(out: &mut String, chars: &[char])
    ensures
        final(out)@ == old(out)@ + chars@,
{
    let mut i: usize = 0;
    while i < chars.len()
        invariant
            i <= chars@.len(),
            out@ =~= old(out)@ + chars@.take(i as int),
        decreases chars@.len() - i,
    {
        out.push(chars[i]);
        i = i + 1;
    }
    assert(chars@.take(chars@.len() as int) =~= chars@);
}

impl TrackedMetadata {
    /// Appends the shown fields: the first line of the message, and the other
    /// fields as `{name: value, name: value}`.
    pub fn write(&self, f: &mut String, settings: &FieldSettings)
        ensures
            final(f)@ == old(f)@ + metadata_text(self@, settings@),
    {
        self.write_message(f, settings);
        let ghost start = f@;
        let mut shown: bool = false;
        let mut i: usize = 0;
        while i < self.data.len()
            invariant
                i <= self.data@.len(),
                ({
                    let others = shown_fields(self@.take(i as int), settings@);
                    &&& shown == (others.len() > 0)
                    &&& !shown ==> f@ == start
                    &&& shown ==> f@ =~= start + "{"@ + joined(others)
                }),
            decreases self.data@.len() - i,
        {
            let (name, value) = (self.data[i].0, &self.data[i].1);
            let ghost before = shown_fields(self@.take(i as int), settings@);
            let ghost after = shown_fields(self@.take(i + 1), settings@);
            proof {
                assert(self@.take(i + 1).drop_last() =~= self@.take(i as int));
                assert(self@.take(i + 1).last() == self@[i as int]);
            }
            if settings.field_filter.should_print(name) && !same_text(name, "message") {
                if shown {
                    f.append(", ");
                } else {
                    f.append("{");
                }
                f.append(name);
                f.append(": ");
                f.append(value.as_str());
                shown = true;
                proof {
                    assert(after.drop_last() =~= before);
                    assert(f@ =~= start + "{"@ + joined(after));
                }
            }
            i = i + 1;
        }
        assert(self@.take(self@.len() as int) =~= self@);
        if shown {
            f.append("}");
        }
        assert(f@ =~= old(f)@ + metadata_text(self@, settings@));
    }

    /// Appends the first line of the first shown message.
    fn write_message(&self, f: &mut String, settings: &FieldSettings)
        ensures
            final(f)@ == old(f)@ + (match shown_message(self@, settings@) {
                Some(message) => first_line(message),
                None => Seq::empty(),
            }),
    {
        let mut i: usize = 0;
        assert(self@.skip(0) =~= self@);
        while i < self.data.len()
            invariant
                i <= self.data@.len(),
                f@ == old(f)@,
                shown_message(self@, settings@) == shown_message(
                    self@.skip(i as int),
                    settings@,
                ),
            decreases self.data@.len() - i,
        {
            let (name, value) = (self.data[i].0, &self.data[i].1);
            assert(self@.skip(i as int)[0] == self@[i as int]);
            assert(self@.skip(i as int).drop_first() =~= self@.skip(i + 1));
            if same_text(name, "message") && settings.field_filter.should_print(name) {
                let chars = chars_of(value.as_str());
                let (line, _) = split_line(chars.as_slice());
                push_chars(f, line);
                return ;
            }
            i = i + 1;
        }
        assert(f@ =~= old(f)@ + Seq::<char>::empty());
    }

    /// Records the offered fields that the filter shows.
    pub fn record(&mut self, offered: Vec<(&'static str, String)>, filter: &FieldFilter)
        ensures
            final(self)@ == recorded(old(self)@, fields_of(offered@), filter@),
    {
        let mut i: usize = 0;
        let ghost all = fields_of(offered@);
        while i < offered.len()
            invariant
                i <= offered@.len(),
                all == fields_of(offered@),
                self@ == recorded(old(self)@, all.take(i as int), filter@),
            decreases offered@.len() - i,
        {
            let (name, value) = (offered[i].0, &offered[i].1);
            let ghost before = self@;
            if filter.should_print(name) {
                self.data.push((name, value.clone()));
                assert(self@ =~= before.push(all[i as int]));
            }
            proof {
                assert(all.take(i + 1).drop_last() =~= all.take(i as int));
                assert(all.take(i + 1).last() == all[i as int]);
            }
            i = i + 1;
        }
        assert(all.take(i as int) =~= all);
    }
}

/// Records into `tracked_metadata` the fields that `field_filter` shows.
pub struct FieldFilterTracked<'a> {
    pub field_filter: &'a FieldFilter,
    pub tracked_metadata: &'a mut TrackedMetadata,
}

impl<'a> FieldFilterTracked<'a> {
    /// Records one field, given its name and its formatted value, where the
    /// filter shows it.
    pub fn record_debug(&mut self, name: &'static str, value: String)
        ensures
            final(self).field_filter == old(self).field_filter,
            *final(final(self).tracked_metadata) == *final(old(self).tracked_metadata),
            final(self).tracked_metadata@ == recorded(
                old(self).tracked_metadata@,
                seq![(name@, value@)],
                old(self).field_filter@,
            ),
    {
        let ghost before = self.tracked_metadata@;
        let ghost field = (name@, value@);
        proof {
            reveal_with_fuel(recorded, 2);
            assert(seq![field].drop_last() =~= Seq::<FieldModel>::empty());
        }
        if self.field_filter.should_print(name) {
            self.tracked_metadata.data.push((name, value));
            assert(self.tracked_metadata@ =~= before.push(field));
        }
    }
}

} // verus!
