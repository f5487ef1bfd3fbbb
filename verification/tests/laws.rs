use llm_message_dedup::{
    dedup, dedup_adjacent, dedup_global, duplicate_count, keeps_message, remove_empty,
    unique_count, DedupScope, Json,
};

fn text(s: &str) -> Json {
    Json::Str(s.to_string())
}

fn num(s: &str) -> Json {
    Json::Number(s.to_string())
}

fn obj(entries: Vec<(&str, Json)>) -> Json {
    Json::Object(entries.into_iter().map(|(k, v)| (k.to_string(), v)).collect())
}

fn msg(role: &str, content: Json) -> Json {
    obj(vec![("role", text(role)), ("content", content)])
}

fn u(s: &str) -> Json {
    msg("user", text(s))
}

fn a(s: &str) -> Json {
    msg("assistant", text(s))
}

fn history() -> Vec<Json> {
    vec![u("a"), u("a"), a("b"), u("a"), u("c"), a("b"), a("b")]
}

#[test]
fn global_keeps_first_occurrences_in_order() {
    assert_eq!(dedup_global(history()), vec![u("a"), a("b"), u("c")]);
}

#[test]
fn adjacent_collapses_runs_only() {
    assert_eq!(
        dedup_adjacent(history()),
        vec![u("a"), a("b"), u("a"), u("c"), a("b")]
    );
}

#[test]
fn dedup_follows_its_scope() {
    assert_eq!(dedup(history(), DedupScope::Adjacent), dedup_adjacent(history()));
    assert_eq!(dedup(history(), DedupScope::Global), dedup_global(history()));
}

#[test]
fn global_dedup_is_idempotent() {
    let once = dedup_global(history());
    assert_eq!(dedup_global(once.clone()), once);
}

#[test]
fn adjacent_dedup_is_idempotent() {
    let once = dedup_adjacent(history());
    assert_eq!(dedup_adjacent(once.clone()), once);
}

#[test]
fn global_result_has_no_repeats() {
    let out = dedup_global(history());
    assert_eq!(unique_count(&out), out.len());
    assert_eq!(duplicate_count(&out), 0);
}

#[test]
fn global_after_adjacent_equals_global() {
    let adjacent = dedup_adjacent(history());
    assert_eq!(dedup_global(adjacent), dedup_global(history()));
}

#[test]
fn runs_dedup_alike() {
    let runs = vec![u("a"), u("a"), a("b"), a("b"), a("b"), u("c")];
    assert_eq!(dedup_adjacent(runs.clone()), dedup_global(runs.clone()));
    assert_eq!(dedup_global(runs), vec![u("a"), a("b"), u("c")]);
}

#[test]
fn counts_add_up() {
    let msgs = history();
    assert_eq!(unique_count(&msgs), 3);
    assert_eq!(duplicate_count(&msgs), 4);
    assert_eq!(unique_count(&msgs) + duplicate_count(&msgs), msgs.len());
    assert_eq!(unique_count(&[]), 0);
    assert_eq!(duplicate_count(&[]), 0);
}

#[test]
fn empty_history_stays_empty() {
    assert!(dedup_global(vec![]).is_empty());
    assert!(remove_empty(vec![]).is_empty());
    assert!(dedup(vec![], DedupScope::Global).is_empty());
}

#[test]
fn missing_role_and_content_read_as_null() {
    let msgs = vec![
        obj(vec![("content", text("x"))]),
        obj(vec![("role", Json::Null), ("content", text("x"))]),
        obj(vec![("role", text("user"))]),
        obj(vec![("role", text("user")), ("content", Json::Null)]),
    ];
    assert_eq!(dedup_global(msgs.clone()).len(), 2);
    assert_eq!(dedup_adjacent(msgs).len(), 2);
}

#[test]
fn messages_that_are_not_objects_share_the_null_identity() {
    let msgs = vec![Json::Null, num("3"), obj(vec![])];
    assert_eq!(unique_count(&msgs), 1);
}

#[test]
fn number_texts_are_compared_as_written() {
    let msgs = vec![msg("user", num("5")), msg("user", num("5.0")), msg("user", num("5"))];
    assert_eq!(dedup_global(msgs).len(), 2);
}

#[test]
fn extra_members_do_not_change_identity() {
    let msgs = vec![
        u("same"),
        obj(vec![
            ("role", text("user")),
            ("content", text("same")),
            ("name", text("bob")),
        ]),
    ];
    assert_eq!(dedup_global(msgs).len(), 1);
}

#[test]
fn whitespace_of_every_kind_is_blank() {
    let msgs = vec![
        u("\t\n \u{a0}\u{2003}"),
        u(""),
        u(" x "),
        u("\u{200b}"),
    ];
    let out = remove_empty(msgs);
    assert_eq!(out, vec![u(" x "), u("\u{200b}")]);
}

#[test]
fn remove_empty_keeps_structured_and_number_content() {
    let msgs = vec![
        msg("user", Json::Array(vec![])),
        msg("user", num("0")),
        msg("user", Json::Bool(false)),
        obj(vec![("role", text("user"))]),
        Json::Null,
    ];
    let out = remove_empty(msgs);
    assert_eq!(
        out,
        vec![
            msg("user", Json::Array(vec![])),
            msg("user", num("0")),
            msg("user", Json::Bool(false)),
        ]
    );
}

#[test]
fn empty_or_misshapen_tool_fields_are_no_payload() {
    let msgs = vec![
        obj(vec![("role", text("tool")), ("content", text("")), ("tool_call_id", text(""))]),
        obj(vec![("role", text("tool")), ("content", Json::Null), ("tool_call_id", num("1"))]),
        obj(vec![("role", text("assistant")), ("tool_calls", text("call"))]),
        obj(vec![("role", text("assistant")), ("tool_calls", Json::Array(vec![Json::Null]))]),
    ];
    let out = remove_empty(msgs);
    assert_eq!(
        out,
        vec![obj(vec![("role", text("assistant")), ("tool_calls", Json::Array(vec![Json::Null]))])]
    );
}

#[test]
fn remove_empty_is_idempotent() {
    let msgs = vec![u("x"), u("  "), msg("user", Json::Null), a("y")];
    let once = remove_empty(msgs);
    assert_eq!(once, vec![u("x"), a("y")]);
    assert_eq!(remove_empty(once.clone()), once);
}

#[test]
fn keeps_message_decides_from_the_blank_flag() {
    assert!(keeps_message(&u("   "), false));
    assert!(!keeps_message(&u("   "), true));
    assert!(!keeps_message(&msg("user", Json::Null), false));
    assert!(keeps_message(&msg("user", num("1")), true));
    let tool = obj(vec![("role", text("tool")), ("content", text(" ")), ("tool_call_id", text("c"))]);
    assert!(keeps_message(&tool, true));
}

#[test]
fn json_get_and_equality() {
    let m = obj(vec![("role", text("user")), ("role", text("other"))]);
    assert_eq!(m.get("role"), Some(&text("user")));
    assert_eq!(m.get("content"), None);
    assert_eq!(text("x").get("role"), None);
    assert_eq!(m.clone(), m);
    assert_ne!(text("5"), num("5"));
    assert_ne!(obj(vec![("a", Json::Null)]), obj(vec![("b", Json::Null)]));
    assert_ne!(
        Json::Array(vec![Json::Null]),
        Json::Array(vec![Json::Null, Json::Null])
    );
}

#[test]
fn unique_count_ignores_order() {
    let msgs = history();
    let mut reversed = msgs.clone();
    reversed.reverse();
    assert_eq!(unique_count(&reversed), unique_count(&msgs));
    let rotated = vec![a("b"), u("c"), u("a"), a("b"), u("a"), a("b"), u("a")];
    assert_eq!(unique_count(&rotated), 3);
}

#[test]
fn unique_count_counts_role_content_pairs() {
    let msgs = vec![
        u("x"),
        a("x"),
        msg("user", Json::Null),
        obj(vec![("role", text("user"))]),
        obj(vec![("role", text("user")), ("content", text("x")), ("id", num("1"))]),
    ];
    assert_eq!(unique_count(&msgs), 3);
    assert_eq!(duplicate_count(&msgs), 2);
}
