//! Which fields are shown, and how.

use vstd::prelude::*;

use crate::fields::{
    joined, metadata_text, shown_fields, shown_message, FieldFilter, FieldModel, FilterModel,
};
use crate::proc_status::first_line;

verus! {

/// A filter that allows shows the names in its list and no others; one that
/// denies shows the others and none in its list.
pub proof fn law_filters_go_by_their_list(list: Vec<String>, name: Seq<char>)
    ensures
        FieldFilter::AllowList(list)@.prints(name) <==> exists|i: int|
            0 <= i < list@.len() && #[trigger] list@[i]@ == name,
        FieldFilter::DenyList(list)@.prints(name) <==> forall|i: int|
            0 <= i < list@.len() ==> #[trigger] list@[i]@ != name,
{
}

/// Events show their message even where the filter would hide it, unless the
/// filter denies it. Other fields are shown as before.
pub proof fn law_messages_are_shown_besides(filter: FilterModel, name: Seq<char>)
    ensures
        name != "message"@ ==> filter.with_message().prints(name) == filter.prints(name),
        filter is Allow ==> filter.with_message().prints("message"@),
        filter is Deny ==> filter.with_message() == filter,
{
}

/// Nothing is shown of no fields.
pub proof fn law_no_fields_no_text(filter: FilterModel)
    ensures
        metadata_text(Seq::empty(), filter) == Seq::<char>::empty(),
{
}

/// A further field that the filter hides changes nothing.
pub proof fn law_hidden_field_changes_nothing(
    fields: Seq<FieldModel>,
    field: FieldModel,
    filter: FilterModel,
)
    requires
        !filter.prints(field.0),
    ensures
        metadata_text(fields.push(field), filter) == metadata_text(fields, filter),
{
    assert(fields.push(field).drop_last() =~= fields);
    lemma_message_of_push(fields, field, filter);
}

/// A further field that is shown stands last in the braces, which it opens
/// where it is the first.
pub proof fn law_shown_field_stands_last(
    fields: Seq<FieldModel>,
    field: FieldModel,
    filter: FilterModel,
)
    requires
        filter.prints(field.0),
        field.0 != "message"@,
    ensures
        ({
            let (before, after) = (
                metadata_text(fields, filter),
                metadata_text(fields.push(field), filter),
            );
            let entry = field.0 + ": "@ + field.1 + "}"@;
            if exists|i: int|
                0 <= i < fields.len() && filter.prints(#[trigger] fields[i].0) && fields[i].0
                    != "message"@ {
                after == before.drop_last() + ", "@ + entry
            } else {
                after == before + "{"@ + entry
            }
        }),
{
    let all = fields.push(field);
    let (old, new) = (shown_fields(fields, filter), shown_fields(all, filter));
    assert(all.drop_last() =~= fields);
    assert(new == old.push(field));
    assert(new.drop_last() =~= old);
    lemma_message_of_push(fields, field, filter);
    lemma_some_shown(fields, filter);
    reveal_strlit("}");
    let (before, after) = (metadata_text(fields, filter), metadata_text(all, filter));
    let entry = field.0 + ": "@ + field.1 + "}"@;
    let message = match shown_message(fields, filter) {
        Some(message) => first_line(message),
        None => Seq::empty(),
    };
    if old.len() > 0 {
        assert(before.drop_last() =~= message + "{"@ + joined(old));
        assert(joined(new) == joined(old) + ", "@ + field.0 + ": "@ + field.1);
        assert(after =~= before.drop_last() + ", "@ + entry);
    } else {
        assert(joined(new) =~= field.0 + ": "@ + field.1);
        assert(after =~= before + "{"@ + entry);
    }
}

/// The first message that is shown leads, with its first line; later ones
/// change nothing.
pub proof fn law_first_message_leads(
    fields: Seq<FieldModel>,
    text: Seq<char>,
    filter: FilterModel,
)
    requires
        filter.prints("message"@),
    ensures
        ({
            let (before, after) = (
                metadata_text(fields, filter),
                metadata_text(fields.push(("message"@, text)), filter),
            );
            if exists|i: int| 0 <= i < fields.len() && #[trigger] fields[i].0 == "message"@ {
                after == before
            } else {
                after == first_line(text) + before
            }
        }),
{
    let field = ("message"@, text);
    let all = fields.push(field);
    assert(all.drop_last() =~= fields);
    lemma_message_of_push(fields, field, filter);
    lemma_some_message(fields, filter);
    let (before, after) = (metadata_text(fields, filter), metadata_text(all, filter));
    if shown_message(fields, filter) is None {
        assert(after =~= first_line(text) + before);
    }
}

proof fn lemma_message_of_push(fields: Seq<FieldModel>, field: FieldModel, filter: FilterModel)
    ensures
        shown_message(fields.push(field), filter) == if shown_message(fields, filter) is Some {
            shown_message(fields, filter)
        } else if field.0 == "message"@ && filter.prints("message"@) {
            Some(field.1)
        } else {
            None
        },
    decreases fields.len(),
{
    let all = fields.push(field);
    if fields.len() > 0 {
        assert(all.drop_first() =~= fields.drop_first().push(field));
        assert(all[0] == fields[0]);
        lemma_message_of_push(fields.drop_first(), field, filter);
    } else {
        assert(all.drop_first() =~= Seq::<FieldModel>::empty());
        assert(shown_message(all.drop_first(), filter) is None);
    }
}

proof fn lemma_some_message(fields: Seq<FieldModel>, filter: FilterModel)
    requires
        filter.prints("message"@),
    ensures
        shown_message(fields, filter) is Some <==> exists|i: int|
            0 <= i < fields.len() && #[trigger] fields[i].0 == "message"@,
    decreases fields.len(),
{
    if fields.len() > 0 {
        let rest = fields.drop_first();
        lemma_some_message(rest, filter);
        if fields[0].0 != "message"@ {
            if shown_message(rest, filter) is Some {
                let i = choose|i: int| 0 <= i < rest.len() && #[trigger] rest[i].0 == "message"@;
                assert(fields[i + 1].0 == "message"@);
            }
            assert forall|i: int|
                0 <= i < fields.len() && #[trigger] fields[i].0 == "message"@ implies shown_message(
                rest,
                filter,
            ) is Some by {
                assert(rest[i - 1].0 == "message"@);
            }
        }
    }
}

proof fn lemma_some_shown(fields: Seq<FieldModel>, filter: FilterModel)
    ensures
        shown_fields(fields, filter).len() > 0 <==> exists|i: int|
            0 <= i < fields.len() && filter.prints(#[trigger] fields[i].0) && fields[i].0
                != "message"@,
    decreases fields.len(),
{
    if fields.len() > 0 {
        let rest = fields.drop_last();
        lemma_some_shown(rest, filter);
        if shown_fields(rest, filter).len() > 0 {
            let i = choose|i: int|
                0 <= i < rest.len() && filter.prints(#[trigger] rest[i].0) && rest[i].0
                    != "message"@;
            assert(filter.prints(fields[i].0));
        }
        if filter.prints(fields.last().0) && fields.last().0 != "message"@ {
            assert(filter.prints(fields[fields.len() - 1].0));
        }
        assert forall|i: int|
            0 <= i < fields.len() && filter.prints(#[trigger] fields[i].0) && fields[i].0
                != "message"@ implies shown_fields(fields, filter).len() > 0 by {
            if i < rest.len() {
                assert(filter.prints(rest[i].0));
            }
        }
    }
}

} // verus!
