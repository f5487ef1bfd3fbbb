use llm_message_dedup::{
    dedup, dedup_adjacent, dedup_global, duplicate_count, keeps_message, remove_empty,
    unique_count, DedupScope, Json,
};

fn text(s: &str) -> Json {
    Json::Str(s.to_string())
}

fn num(s: &str) -> Json {
    Json::Number(s.to_string())
}

fn obj(entries: Vec<(&str, Json)>) -> Json {
    Json::Object(entries.into_iter().map(|(k, v)| (k.to_string(), v)).collect())
}

fn msg(role: &str, content: Json) -> Json {
    obj(vec![("role", text(role)), ("content", content)])
}

fn u(s: &str) -> Json {
    msg("user", text(s))
}

fn a(s: &str) -> Json {
    msg("assistant", text(s))
}

fn text_blocks() -> Json {
    msg(
        "user",
        Json::Array(vec![obj(vec![("type", text("text")), ("text", text("hi"))])]),
    )
}

fn role_of(m: &Json) -> &str {
    match m.get("role") {
        Some(Json::Str(r)) => r.as_str(),
        _ => panic!("message without a string role"),
    }
}

#[test]
fn dedup_adjacent_removes_consecutive() {
    let msgs = vec![u("hi"), u("hi"), a("hello")];
    let out = dedup_adjacent(msgs);
    assert_eq!(out.len(), 2);
}

#[test]
fn dedup_adjacent_keeps_non_consecutive_dups() {
    let msgs = vec![u("hi"), a("ok"), u("hi")];
    let out = dedup_adjacent(msgs);
    assert_eq!(out.len(), 3);
}

#[test]
fn dedup_adjacent_empty() {
    assert!(dedup_adjacent(vec![]).is_empty());
}

#[test]
fn dedup_adjacent_no_dups() {
    let msgs = vec![u("a"), a("b"), u("c")];
    let out = dedup_adjacent(msgs.clone());
    assert_eq!(out.len(), 3);
}

#[test]
fn dedup_global_removes_all_dups() {
    let msgs = vec![u("hi"), a("ok"), u("hi")];
    let out = dedup_global(msgs);
    assert_eq!(out.len(), 2);
}

#[test]
fn dedup_global_keeps_first() {
    let msgs = vec![u("first"), u("second"), u("first")];
    let out = dedup_global(msgs);
    assert_eq!(out[0].get("content"), Some(&text("first")));
    assert_eq!(out[1].get("content"), Some(&text("second")));
}

#[test]
fn different_roles_not_deduped() {
    let msgs = vec![
        msg("user", text("hello")),
        msg("assistant", text("hello")),
    ];
    let out = dedup_adjacent(msgs);
    assert_eq!(out.len(), 2);
}

#[test]
fn remove_empty_strips_blank_content() {
    let msgs = vec![u("hello"), msg("user", text("   ")), a("ok")];
    let out = remove_empty(msgs);
    assert_eq!(out.len(), 2);
}

#[test]
fn remove_empty_keeps_non_empty() {
    let msgs = vec![u("a"), a("b")];
    let out = remove_empty(msgs);
    assert_eq!(out.len(), 2);
}

#[test]
fn remove_empty_null_content() {
    let msgs = vec![msg("user", Json::Null), u("ok")];
    let out = remove_empty(msgs);
    assert_eq!(out.len(), 1);
}

#[test]
fn duplicate_count_zero() {
    assert_eq!(duplicate_count(&[u("a"), a("b")]), 0);
}

#[test]
fn duplicate_count_counts_extras() {
    let msgs = [u("hi"), u("hi"), u("hi")];
    assert_eq!(duplicate_count(&msgs), 2);
}

#[test]
fn triple_consecutive_dedup_adjacent() {
    let msgs = vec![u("x"), u("x"), u("x"), a("y")];
    let out = dedup_adjacent(msgs);
    assert_eq!(out.len(), 2);
}

#[test]
fn dedup_dispatches_to_adjacent() {
    let msgs = vec![u("hi"), a("ok"), u("hi")];
    assert_eq!(dedup(msgs, DedupScope::Adjacent).len(), 3);
}

#[test]
fn dedup_dispatches_to_global() {
    let msgs = vec![u("hi"), a("ok"), u("hi")];
    assert_eq!(dedup(msgs, DedupScope::Global).len(), 2);
}

#[test]
fn dedup_global_matches_structured_content() {
    let blocks = text_blocks();
    let msgs = vec![blocks.clone(), blocks];
    assert_eq!(dedup_global(msgs).len(), 1);
}

#[test]
fn unique_count_counts_distinct() {
    let msgs = [u("a"), u("a"), a("b")];
    assert_eq!(unique_count(&msgs), 2);
}

#[test]
fn unique_and_duplicate_counts_are_complementary() {
    let msgs = [u("a"), u("a"), u("a"), a("b")];
    assert_eq!(unique_count(&msgs) + duplicate_count(&msgs), msgs.len());
}

#[test]
fn remove_empty_keeps_tool_call_message_with_null_content() {
    let msgs = vec![
        u("hello"),
        obj(vec![
            ("role", text("assistant")),
            ("content", Json::Null),
            ("tool_calls", Json::Array(vec![obj(vec![("id", text("c1"))])])),
        ]),
    ];
    let out = remove_empty(msgs);
    assert_eq!(out.len(), 2);
}

#[test]
fn remove_empty_keeps_tool_result_message() {
    let msgs = vec![
        obj(vec![
            ("role", text("tool")),
            ("content", text("")),
            ("tool_call_id", text("c1")),
        ]),
        msg("user", text("   ")),
    ];
    let out = remove_empty(msgs);
    assert_eq!(out.len(), 1);
    assert_eq!(out[0].get("role"), Some(&text("tool")));
}

#[test]
fn remove_empty_drops_empty_tool_calls_array() {
    let msgs = vec![obj(vec![
        ("role", text("assistant")),
        ("content", Json::Null),
        ("tool_calls", Json::Array(vec![])),
    ])];
    assert!(remove_empty(msgs).is_empty());
}

#[test]
fn string_and_number_content_are_distinct() {
    let msgs = vec![msg("user", text("5")), msg("user", num("5"))];
    assert_eq!(dedup_global(msgs.clone()).len(), 2);
    assert_eq!(duplicate_count(&msgs), 0);
}

#[test]
fn string_and_bool_content_are_distinct() {
    let msgs = vec![msg("user", text("true")), msg("user", Json::Bool(true))];
    assert_eq!(dedup_global(msgs).len(), 2);
}

#[test]
fn delimiter_collision_is_avoided() {
    let msgs = vec![msg("user", text("a:b")), msg("user:a", text("b"))];
    assert_eq!(dedup_global(msgs).len(), 2);
}

#[test]
fn identical_string_content_still_deduped() {
    let msgs = vec![u("hi"), u("hi")];
    assert_eq!(dedup_global(msgs).len(), 1);
}

#[test]
fn identical_structured_content_still_deduped() {
    let blocks = text_blocks();
    let msgs = vec![blocks.clone(), blocks];
    assert_eq!(dedup_global(msgs).len(), 1);
}

#[test]
fn end_to_end_pipeline() {
    let history = vec![
        msg("system", text("You are a helpful assistant.")),
        msg("system", text("You are a helpful assistant.")),
        msg("user", text("What's the weather?")),
        msg("user", text("What's the weather?")),
        msg("user", text("   ")),
        obj(vec![
            ("role", text("assistant")),
            ("content", Json::Null),
            ("tool_calls", Json::Array(vec![obj(vec![("id", text("call_1"))])])),
        ]),
        obj(vec![
            ("role", text("tool")),
            ("content", text("sunny")),
            ("tool_call_id", text("call_1")),
        ]),
    ];

    let cleaned = remove_empty(history);
    assert_eq!(
        cleaned.len(),
        6,
        "only the whitespace-only message is removed"
    );

    let deduped = dedup(cleaned, DedupScope::Global);
    let roles: Vec<&str> = deduped.iter().map(role_of).collect();
    assert_eq!(roles, ["system", "user", "assistant", "tool"]);
}

#[test]
fn adjacent_vs_global_agree_on_pure_runs() {
    let msgs = vec![u("a"), u("a"), u("b")];
    assert_eq!(
        dedup_adjacent(msgs.clone()),
        dedup_global(msgs),
        "for purely consecutive duplicates the two scopes produce the same result"
    );
}

#[test]
fn counts_describe_the_input() {
    let msgs = [u("x"), u("x"), a("y")];
    assert_eq!(unique_count(&msgs), 2);
    assert_eq!(duplicate_count(&msgs), 1);
    assert_eq!(dedup_global(msgs.to_vec()).len(), unique_count(&msgs));
}

#[test]
fn dedup_scope_is_copy_and_comparable() {
    let scope = DedupScope::Global;
    let also = scope;
    assert_eq!(scope, also);
    assert_ne!(DedupScope::Adjacent, DedupScope::Global);
}

#[test]
fn content_type_is_significant() {
    let msgs = vec![
        msg("user", text("5")),
        msg("user", num("5")),
        msg("user", text("5")),
    ];
    assert_eq!(unique_count(&msgs), 2);
    assert_eq!(dedup_global(msgs).len(), 2);
}
