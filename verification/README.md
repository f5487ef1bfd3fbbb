# llm-message-dedup

Removes duplicate and blank messages from LLM conversation histories. The
functions under `src/` carry contracts that are proved, with one exception
taken on trust: the test of a single character for Unicode white space calls
`char::is_whitespace`, whose contract lists the White_Space code points.
`app/` is unproved conversion code.

- `src/json.rs`: the `Json` value that messages are made of, its model
  `JsonView`, member lookup and structural equality.
- `src/message.rs`: what is read of one message: its identity (role and
  content), whether its content is blank, whether it carries a tool payload.
- `src/dedup.rs`: `dedup`, `dedup_adjacent`, `dedup_global`, `remove_empty`,
  `unique_count`, `duplicate_count`, specified through `select`.
- `src/laws.rs`: proofs of what holds across them (only removal, no repeats
  left, idempotence, counts, agreement of the scopes).
- `app/lib.rs`: the same functions over `serde_json::Value`, converting to
  and from the `Json` model.
