//! What the library reads of one message: its identity (role and content),
//! whether its content is blank, and whether it carries a tool payload.
use vstd::prelude::*;

use crate::json::{field, get_field, json_eq, Json, JsonView};

verus! {

/// The member `name` of a message, where a missing member reads as JSON null.
pub open spec fn member(message: JsonView, name: Seq<char>) -> JsonView {
    match field(message, name) {
        Some(v) => v,
        None => JsonView::Null,
    }
}

/// The identity of a message: its role and its content, each a missing
/// member read as null. Two messages are duplicates exactly when their
/// identities are equal.
pub open spec fn identity(message: JsonView) -> (JsonView, JsonView) {
    (member(message, "role"@), member(message, "content"@))
}

/// Two messages are duplicates: same role and identical content, compared as
/// JSON values (so the string `"5"` and the number `5` differ).
pub open spec fn same_message(a: JsonView, b: JsonView) -> bool {
    identity(a) == identity(b)
}

/// Whether a character has the Unicode White_Space property, the property
/// that `char::is_whitespace` tests: tab, line feed, vertical tab, form feed,
/// carriage return, space, next line, no-break space, ogham space mark, the
/// spaces from en quad to hair space, line separator, paragraph separator,
/// narrow no-break space, medium mathematical space and ideographic space.
pub open spec fn white_space(c: char) -> bool {
    let n = c as u32;
    ||| 0x09 <= n <= 0x0d
    ||| n == 0x20
    ||| n == 0x85
    ||| n == 0xa0
    ||| n == 0x1680
    ||| 0x2000 <= n <= 0x200a
    ||| n == 0x2028
    ||| n == 0x2029
    ||| n == 0x202f
    ||| n == 0x205f
    ||| n == 0x3000
}

/// A text is blank when every character of it is white space, i.e. when
/// trimming the white space from both ends leaves nothing.
pub open spec fn is_blank(text: Seq<char>) -> bool {
    forall|k: int| 0 <= k < text.len() ==> white_space(#[trigger] text[k])
}

/// A message carries a tool payload: a non-empty `tool_calls` array or a
/// non-empty `tool_call_id` string.
pub open spec fn has_tool_payload(message: JsonView) -> bool {
    ||| field(message, "tool_calls"@) matches Some(JsonView::Array(calls)) && calls.len() > 0
    ||| field(message, "tool_call_id"@) matches Some(JsonView::Str(id)) && id.len() > 0
}

/// Whether the content of a message is a blank string.
pub open spec fn content_blank(message: JsonView) -> bool {
    match field(message, "content"@) {
        Some(JsonView::Str(text)) => is_blank(text),
        _ => false,
    }
}

/// The rule of `remove_empty`, given whether the content is a blank string: a
/// message with string content is kept when that content is not blank, a
/// message with null or absent content is dropped, and either is kept anyway
/// when it carries a tool payload; any other content is kept.
pub open spec fn retention(message: JsonView, blank: bool) -> bool {
    match field(message, "content"@) {
        Some(JsonView::Str(_)) => !blank || has_tool_payload(message),
        Some(JsonView::Null) => has_tool_payload(message),
        None => has_tool_payload(message),
        _ => true,
    }
}

/// Whether `remove_empty` keeps a message.
pub open spec fn retained(message: JsonView) -> bool {
    retention(message, content_blank(message))
}

/// The member names that the library looks up, held once per call.
pub(crate) struct FieldNames {
    pub(crate) role: String,
    pub(crate) content: String,
    pub(crate) tool_calls: String,
    pub(crate) tool_call_id: String,
}

impl FieldNames {
    pub(crate) open spec fn wf(&self) -> bool {
        &&& self.role@ == "role"@
        &&& self.content@ == "content"@
        &&& self.tool_calls@ == "tool_calls"@
        &&& self.tool_call_id@ == "tool_call_id"@
    }

    pub(crate) fn new() -> (names: Self)
        ensures
            names.wf(),
    {
        FieldNames {
            role: String::from_str("role"),
            content: String::from_str("content"),
            tool_calls: String::from_str("tool_calls"),
            tool_call_id: String::from_str("tool_call_id"),
        }
    }
}

/// Compares the member `name` of two messages, a missing member read as null.
fn member_eq(a: &Json, b: &Json, name: &String) -> (same: bool)
    ensures
        same == (member(a@, name@) == member(b@, name@)),
{
    let null = Json::Null;
    let x = match get_field(a, name) {
        Some(v) => v,
        None => &null,
    };
    let y = match get_field(b, name) {
        Some(v) => v,
        None => &null,
    };
    json_eq(x, y)
}

/// Whether two messages are duplicates of each other.
pub(crate) fn same_identity(a: &Json, b: &Json, names: &FieldNames) -> (same: bool)
    requires
        names.wf(),
    ensures
        same == same_message(a@, b@),
{
    let same_role = member_eq(a, b, &names.role);
    let same_content = member_eq(a, b, &names.content);
    same_role && same_content
}

/// Calls `char::is_whitespace`, which tells whether a character has the
/// Unicode White_Space property; the contract states that property as the
/// fixed set of code points that `white_space` lists.
#[verifier::external_body]
fn is_whitespace(c: char) -> (ws: bool)
    ensures
        ws == white_space(c),
{
    c.is_whitespace()
}

/// Whether every character of `text` is white space.
fn is_blank_text(text: &str) -> (blank: bool)
    ensures
        blank == is_blank(text@),
{
    for c in it: text.chars()
        invariant
            it.seq() == text@,
            forall|k: int| 0 <= k < it.index() ==> white_space(#[trigger] text@[k]),
    {
        if !is_whitespace(c) {
            return false;
        }
    }
    true
}

/// Whether a message carries a tool payload.
fn tool_payload(message: &Json, names: &FieldNames) -> (found: bool)
    requires
        names.wf(),
    ensures
        found == has_tool_payload(message@),
{
    match get_field(message, &names.tool_calls) {
        Some(Json::Array(calls)) => {
            if calls.len() > 0 {
                return true;
            }
        },
        _ => {},
    }
    match get_field(message, &names.tool_call_id) {
        Some(Json::Str(id)) => !id.as_str().is_empty(),
        _ => false,
    }
}

/// Whether the content of a message is a blank string.
pub(crate) fn is_content_blank(message: &Json, names: &FieldNames) -> (blank: bool)
    requires
        names.wf(),
    ensures
        blank == content_blank(message@),
{
    match get_field(message, &names.content) {
        Some(Json::Str(text)) => is_blank_text(text.as_str()),
        _ => false,
    }
}

/// Decides whether `remove_empty` keeps `message`, given whether its content
/// is a blank string.
pub fn keeps_message(message: &Json, content_is_blank: bool) -> (kept: bool)
    ensures
        kept == retention(message@, content_is_blank),
{
    let names = FieldNames::new();
    decide_keep(message, content_is_blank, &names)
}

pub(crate) fn decide_keep(message: &Json, content_is_blank: bool, names: &FieldNames) -> (kept: bool)
    requires
        names.wf(),
    ensures
        kept == retention(message@, content_is_blank),
{
    match get_field(message, &names.content) {
        Some(Json::Str(_)) => !content_is_blank || tool_payload(message, names),
        Some(Json::Null) => tool_payload(message, names),
        None => tool_payload(message, names),
        Some(_) => true,
    }
}

} // verus!
