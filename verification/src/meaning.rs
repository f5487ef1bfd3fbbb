//! What the library's notions mean in terms of the messages themselves: how
//! a member is found, when two messages are duplicates, what counts as a tool
//! payload, and which messages each cleaning keeps because of that.
use vstd::prelude::*;

use crate::dedup::{
    adjacent_keeps, deduped_adjacent, deduped_global, first_occurrence, without_empty,
};
use crate::json::{field, lookup, Json, JsonView};
use crate::laws::{law_remove_empty_idempotent, law_remove_empty_keeps_tool_payloads};
use crate::message::{has_tool_payload, is_blank, retained, same_message, white_space};

verus! {

/// The model of a value follows its structure: scalars keep their value or
/// text, arrays keep each item in place, objects keep each entry's name and
/// value in place.
pub proof fn law_view_follows_structure(j: Json)
    ensures
        j matches Json::Null ==> j@ == JsonView::Null,
        j matches Json::Bool(b) ==> j@ == JsonView::Bool(b),
        j matches Json::Number(n) ==> j@ == JsonView::Number(n@),
        j matches Json::Str(s) ==> j@ == JsonView::Str(s@),
        j matches Json::Array(items) ==> {
            &&& j@ is Array
            &&& j@->Array_0.len() == items.len()
            &&& forall|k: int| 0 <= k < items.len() ==> #[trigger] j@->Array_0[k] == items[k]@
        },
        j matches Json::Object(entries) ==> {
            &&& j@ is Object
            &&& j@->Object_0.len() == entries.len()
            &&& forall|k: int|
                0 <= k < entries.len() ==> #[trigger] j@->Object_0[k] == (entries[k].0@, entries[k].1@)
        },
{
}

/// A member is found wherever it stands among the entries: the value of the
/// first entry with that name.
pub proof fn law_lookup_finds_first_entry(entries: Seq<(Seq<char>, JsonView)>, name: Seq<char>, k: int)
    requires
        0 <= k < entries.len(),
        entries[k].0 == name,
        forall|j: int| 0 <= j < k ==> entries[j].0 != name,
    ensures
        lookup(entries, name) == Some(entries[k].1),
    decreases k,
{
    if k > 0 {
        let rest = entries.drop_first();
        assert forall|j: int| 0 <= j < k - 1 implies rest[j].0 != name by {
            assert(rest[j] == entries[j + 1]);
        }
        assert(entries[0].0 != name);
        law_lookup_finds_first_entry(rest, name, k - 1);
    }
}

/// A member is missing only when no entry has its name.
pub proof fn law_lookup_missing(entries: Seq<(Seq<char>, JsonView)>, name: Seq<char>)
    ensures
        lookup(entries, name) is None <==> forall|j: int| 0 <= j < entries.len() ==> entries[j].0 != name,
    decreases entries.len(),
{
    if entries.len() > 0 {
        let rest = entries.drop_first();
        law_lookup_missing(rest, name);
        if entries[0].0 != name {
            if lookup(rest, name) is None {
                assert forall|j: int| 0 <= j < entries.len() implies entries[j].0 != name by {
                    if j > 0 {
                        assert(rest[j - 1] == entries[j]);
                    }
                }
            } else {
                let j = choose|j: int| 0 <= j < rest.len() && rest[j].0 == name;
                assert(entries[j + 1] == rest[j]);
            }
        }
    }
}

/// The member `name` of a value: in an object, the value of the first entry
/// with that name, wherever it stands; missing when no entry has the name;
/// and missing in anything other than an object.
pub proof fn law_field_meaning(v: JsonView, name: Seq<char>)
    ensures
        !(v is Object) ==> field(v, name) is None,
        v is Object ==> (field(v, name) is None <==> forall|j: int|
            0 <= j < v->Object_0.len() ==> v->Object_0[j].0 != name),
        forall|k: int|
            v is Object && 0 <= k < v->Object_0.len() && #[trigger] v->Object_0[k].0 == name && (forall|j: int|
                0 <= j < k ==> v->Object_0[j].0 != name) ==> field(v, name) == Some(v->Object_0[k].1),
{
    if let JsonView::Object(entries) = v {
        law_lookup_missing(entries, name);
        assert forall|k: int|
            0 <= k < entries.len() && #[trigger] entries[k].0 == name && (forall|j: int|
                0 <= j < k ==> entries[j].0 != name) implies lookup(entries, name) == Some(entries[k].1) by {
            law_lookup_finds_first_entry(entries, name, k);
        }
    }
}

/// The member `name` of a message is missing or null.
pub open spec fn null_or_absent(message: JsonView, name: Seq<char>) -> bool {
    field(message, name) is None || field(message, name) == Some(JsonView::Null)
}

/// Two messages agree on the member `name`: both have it with the same value,
/// or neither has it other than as null.
pub open spec fn agree_on(a: JsonView, b: JsonView, name: Seq<char>) -> bool {
    field(a, name) == field(b, name) || (null_or_absent(a, name) && null_or_absent(b, name))
}

/// Two messages are duplicates exactly when they agree on their role and on
/// their whole content: contents that differ anywhere, in any character or
/// in any nested item, make different messages.
pub proof fn law_duplicates_agree_on_role_and_content(a: JsonView, b: JsonView)
    ensures
        same_message(a, b) <==> agree_on(a, b, "role"@) && agree_on(a, b, "content"@),
{
}

/// Global dedup keeps every message that does not agree on role and content
/// with any earlier message.
pub proof fn law_dedup_global_keeps_new_messages(s: Seq<Json>)
    ensures
        forall|i: int|
            0 <= i < s.len() && (forall|j: int|
                0 <= j < i ==> !(agree_on(#[trigger] s[j]@, s[i]@, "role"@) && agree_on(
                    s[j]@,
                    s[i]@,
                    "content"@,
                ))) ==> deduped_global(s).contains(#[trigger] s[i]),
{
    assert forall|i: int|
        0 <= i < s.len() && (forall|j: int|
            0 <= j < i ==> !(agree_on(#[trigger] s[j]@, s[i]@, "role"@) && agree_on(
                s[j]@,
                s[i]@,
                "content"@,
            ))) implies deduped_global(s).contains(#[trigger] s[i]) by {
        assert forall|j: int| 0 <= j < i implies !same_message(#[trigger] s[j]@, s[i]@) by {
            law_duplicates_agree_on_role_and_content(s[j]@, s[i]@);
        }
        assert(first_occurrence(s, i));
        crate::laws::law_dedup_global_keeps_first_occurrences(s);
    }
}

/// Adjacent dedup keeps the first message and every message that does not
/// agree on role and content with the message just before it.
pub proof fn law_dedup_adjacent_keeps_changes(s: Seq<Json>)
    ensures
        forall|i: int|
            0 <= i < s.len() && (i == 0 || !(agree_on(s[i - 1]@, s[i]@, "role"@) && agree_on(
                s[i - 1]@,
                s[i]@,
                "content"@,
            ))) ==> deduped_adjacent(s).contains(#[trigger] s[i]),
{
    let keep = |i: int| adjacent_keeps(s, i);
    let out = deduped_adjacent(s);
    let idx = crate::laws::lemma_select_positions(s, keep);
    assert forall|i: int|
        0 <= i < s.len() && (i == 0 || !(agree_on(s[i - 1]@, s[i]@, "role"@) && agree_on(
            s[i - 1]@,
            s[i]@,
            "content"@,
        ))) implies out.contains(#[trigger] s[i]) by {
        if i > 0 {
            law_duplicates_agree_on_role_and_content(s[i - 1]@, s[i]@);
        }
        assert(keep(i));
        let k = choose|k: int| 0 <= k < idx.len() && idx[k] == i;
        assert(out[k] == s[i]);
    }
}

/// A history in which no two messages agree on both role and content has no
/// repeats: both dedups return it unchanged, so it has no duplicates to count.
pub proof fn law_distinct_history_unchanged(s: Seq<Json>)
    requires
        forall|i: int, j: int|
            0 <= i < j < s.len() ==> !(agree_on(#[trigger] s[i]@, #[trigger] s[j]@, "role"@)
                && agree_on(s[i]@, s[j]@, "content"@)),
    ensures
        deduped_global(s) == s,
        deduped_adjacent(s) == s,
        s.len() - deduped_global(s).len() == 0,
{
    assert forall|i: int| 0 <= i < s.len() implies #[trigger] first_occurrence(s, i) by {
        assert forall|j: int| 0 <= j < i implies !same_message(#[trigger] s[j]@, s[i]@) by {
            law_duplicates_agree_on_role_and_content(s[j]@, s[i]@);
        }
    }
    assert forall|i: int| 0 <= i < s.len() implies #[trigger] adjacent_keeps(s, i) by {
        if i > 0 {
            law_duplicates_agree_on_role_and_content(s[i - 1]@, s[i]@);
        }
    }
    crate::laws::lemma_select_all(s, |i: int| first_occurrence(s, i));
    crate::laws::lemma_select_all(s, |i: int| adjacent_keeps(s, i));
}

/// A message carries a tool payload exactly when its `tool_calls` member is
/// an array of one call or more, or its `tool_call_id` member is a string of
/// one character or more.
pub proof fn law_tool_payload_meaning(m: JsonView)
    ensures
        has_tool_payload(m) <==> (field(m, "tool_calls"@) matches Some(JsonView::Array(calls))
            && calls.len() >= 1) || (field(m, "tool_call_id"@) matches Some(JsonView::Str(id))
            && id.len() >= 1),
{
}

/// `remove_empty` keeps every message whose `tool_calls` member is an array
/// of any number of calls above zero, and every message whose `tool_call_id`
/// is a non-empty string, whatever its content.
pub proof fn law_remove_empty_keeps_tool_messages(s: Seq<Json>)
    ensures
        forall|i: int|
            0 <= i < s.len() && ((field(#[trigger] s[i]@, "tool_calls"@) matches Some(
                JsonView::Array(calls),
            ) && calls.len() >= 1) || (field(s[i]@, "tool_call_id"@) matches Some(
                JsonView::Str(id),
            ) && id.len() >= 1)) ==> without_empty(s).contains(s[i]),
{
    law_remove_empty_keeps_tool_payloads(s);
    assert forall|i: int|
        0 <= i < s.len() && ((field(#[trigger] s[i]@, "tool_calls"@) matches Some(
            JsonView::Array(calls),
        ) && calls.len() >= 1) || (field(s[i]@, "tool_call_id"@) matches Some(JsonView::Str(id))
            && id.len() >= 1)) implies without_empty(s).contains(s[i]) by {
        law_tool_payload_meaning(s[i]@);
        assert(has_tool_payload(s[i]@));
    }
}

/// `remove_empty` keeps every message whose content is a string holding a
/// character that is not white space, and every message whose content is
/// neither a string nor null (an array of blocks, a number, a boolean, an
/// object).
pub proof fn law_remove_empty_keeps_content(s: Seq<Json>)
    ensures
        forall|i: int|
            0 <= i < s.len() && ((field(#[trigger] s[i]@, "content"@) matches Some(
                JsonView::Str(text),
            ) && exists|k: int| 0 <= k < text.len() && !white_space(text[k])) || (field(
                s[i]@,
                "content"@,
            ) matches Some(v) && !(v is Str) && !(v is Null))) ==> without_empty(s).contains(s[i]),
{
    let keep = |i: int| retained(s[i]@);
    let out = without_empty(s);
    let idx = crate::laws::lemma_select_positions(s, keep);
    assert forall|i: int|
        0 <= i < s.len() && ((field(#[trigger] s[i]@, "content"@) matches Some(JsonView::Str(text))
            && exists|k: int| 0 <= k < text.len() && !white_space(text[k])) || (field(
            s[i]@,
            "content"@,
        ) matches Some(v) && !(v is Str) && !(v is Null))) implies out.contains(s[i]) by {
        if let Some(JsonView::Str(text)) = field(s[i]@, "content"@) {
            let k = choose|k: int| 0 <= k < text.len() && !white_space(text[k]);
            assert(!is_blank(text));
        }
        assert(keep(i));
        let k = choose|k: int| 0 <= k < idx.len() && idx[k] == i;
        assert(out[k] == s[i]);
    }
}

/// Every message that `remove_empty` returns has a tool payload, or content
/// that is a string with a character other than white space, or content that
/// is neither a string nor null: a message with missing, null, empty or
/// whitespace-only content and no tool payload is never returned.
pub proof fn law_remove_empty_returns_no_empty_message(s: Seq<Json>)
    ensures
        forall|k: int|
            0 <= k < without_empty(s).len() ==> {
                let m = #[trigger] without_empty(s)[k]@;
                ||| field(m, "tool_calls"@) matches Some(JsonView::Array(calls)) && calls.len() >= 1
                ||| field(m, "tool_call_id"@) matches Some(JsonView::Str(id)) && id.len() >= 1
                ||| field(m, "content"@) matches Some(JsonView::Str(text)) && exists|c: int|
                    0 <= c < text.len() && !white_space(text[c])
                ||| field(m, "content"@) matches Some(v) && !(v is Str) && !(v is Null)
            },
{
    law_remove_empty_idempotent(s);
    let out = without_empty(s);
    assert forall|k: int| 0 <= k < out.len() implies {
        let m = #[trigger] out[k]@;
        ||| field(m, "tool_calls"@) matches Some(JsonView::Array(calls)) && calls.len() >= 1
        ||| field(m, "tool_call_id"@) matches Some(JsonView::Str(id)) && id.len() >= 1
        ||| field(m, "content"@) matches Some(JsonView::Str(text)) && exists|c: int|
            0 <= c < text.len() && !white_space(text[c])
        ||| field(m, "content"@) matches Some(v) && !(v is Str) && !(v is Null)
    } by {
        let m = out[k]@;
        assert(retained(m));
        law_tool_payload_meaning(m);
        if let Some(JsonView::Str(text)) = field(m, "content"@) {
            if !has_tool_payload(m) {
                assert(!is_blank(text));
            }
        }
    }
}

} // verus!
