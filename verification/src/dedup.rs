//! Removing repeated and blank messages from a conversation history.
use vstd::prelude::*;

use crate::json::Json;
use crate::message::{
    decide_keep, is_content_blank, retained, same_identity, same_message, FieldNames,
};

verus! {

/// Selects how aggressively [`dedup`] removes repeated messages.
#[derive(Clone, Copy, Debug, PartialEq, Eq, Hash, Structural)]
pub enum DedupScope {
    /// Remove only consecutive duplicates (same as [`dedup_adjacent`]).
    Adjacent,
    /// Remove every repeated message, keeping the first occurrence
    /// (same as [`dedup_global`]).
    Global,
}

/// The elements of `s` at the positions that `keep` selects, in their order.
pub open spec fn select<T>(s: Seq<T>, keep: spec_fn(int) -> bool) -> Seq<T>
    decreases s.len(),
{
    if s.len() == 0 {
        Seq::empty()
    } else {
        let rest = select(s.drop_last(), keep);
        if keep(s.len() - 1) {
            rest.push(s.last())
        } else {
            rest
        }
    }
}

/// Adjacent mode keeps message `i` unless it repeats the message just before it.
pub open spec fn adjacent_keeps(s: Seq<Json>, i: int) -> bool {
    i == 0 || !same_message(s[i - 1]@, s[i]@)
}

/// Message `i` repeats no earlier message: global mode keeps it.
pub open spec fn first_occurrence(s: Seq<Json>, i: int) -> bool {
    forall|j: int| 0 <= j < i ==> !same_message(#[trigger] s[j]@, s[i]@)
}

/// The history with consecutive duplicates removed.
pub open spec fn deduped_adjacent(s: Seq<Json>) -> Seq<Json> {
    select(s, |i: int| adjacent_keeps(s, i))
}

/// The history with every repeat removed, first occurrences kept.
pub open spec fn deduped_global(s: Seq<Json>) -> Seq<Json> {
    select(s, |i: int| first_occurrence(s, i))
}

/// The history without its empty messages.
pub open spec fn without_empty(s: Seq<Json>) -> Seq<Json> {
    select(s, |i: int| retained(s[i]@))
}

/// Selections by predicates that agree on the positions of `s` are equal.
pub proof fn lemma_select_congruent<T>(s: Seq<T>, k1: spec_fn(int) -> bool, k2: spec_fn(int) -> bool)
    requires
        forall|i: int| 0 <= i < s.len() ==> #[trigger] k1(i) == k2(i),
    ensures
        select(s, k1) == select(s, k2),
    decreases s.len(),
{
    if s.len() > 0 {
        lemma_select_congruent(s.drop_last(), k1, k2);
    }
}

/// A selection is never longer than the sequence it selects from.
pub proof fn lemma_select_len<T>(s: Seq<T>, keep: spec_fn(int) -> bool)
    ensures
        select(s, keep).len() <= s.len(),
    decreases s.len(),
{
    if s.len() > 0 {
        lemma_select_len(s.drop_last(), keep);
    }
}

/// Keeps the items whose flag is set, in their order.
fn retain_flagged(items: Vec<Json>, keep: &Vec<bool>) -> (kept: Vec<Json>)
    requires
        keep.len() == items.len(),
    ensures
        kept@ == select(items@, |i: int| keep@[i]),
{
    let ghost s = items@;
    let mut kept: Vec<Json> = Vec::new();
    let mut idx: usize = 0;
    for item in it: items
        invariant
            it.seq() == s,
            idx == it.index(),
            keep.len() == s.len(),
            kept@ == select(s.take(idx as int), |i: int| keep@[i]),
    {
        assert(s.take(idx + 1).drop_last() =~= s.take(idx as int));
        if keep[idx] {
            kept.push(item);
        }
        idx += 1;
    }
    assert(s.take(s.len() as int) =~= s);
    kept
}

/// Flags each message that adjacent mode keeps.
fn adjacent_flags(messages: &[Json], names: &FieldNames) -> (flags: Vec<bool>)
    requires
        names.wf(),
    ensures
        flags.len() == messages.len(),
        forall|i: int| 0 <= i < messages.len() ==> flags@[i] == adjacent_keeps(messages@, i),
{
    let mut flags: Vec<bool> = Vec::new();
    let mut i: usize = 0;
    while i < messages.len()
        invariant
            0 <= i <= messages.len(),
            names.wf(),
            flags.len() == i,
            forall|k: int| 0 <= k < i ==> flags@[k] == adjacent_keeps(messages@, k),
        decreases messages.len() - i,
    {
        let keep = i == 0 || !same_identity(&messages[i - 1], &messages[i], names);
        flags.push(keep);
        i += 1;
    }
    flags
}

/// Whether some listed earlier message is a duplicate of `messages[i]`.
fn repeats_one_of(messages: &[Json], firsts: &Vec<usize>, i: usize, names: &FieldNames) -> (found: bool)
    requires
        names.wf(),
        i < messages.len(),
        forall|t: int| 0 <= t < firsts.len() ==> firsts@[t] < i,
    ensures
        found == covered(messages@, firsts@, i as int),
{
    let mut t: usize = 0;
    while t < firsts.len()
        invariant
            0 <= t <= firsts.len(),
            names.wf(),
            i < messages.len(),
            forall|u: int| 0 <= u < firsts.len() ==> firsts@[u] < i,
            forall|u: int|
                0 <= u < t ==> !same_message(
                    messages@[#[trigger] firsts@[u] as int]@,
                    messages@[i as int]@,
                ),
        decreases firsts.len() - t,
    {
        if same_identity(&messages[firsts[t]], &messages[i], names) {
            return true;
        }
        t += 1;
    }
    false
}

/// Message `j` of `s` has a duplicate among the messages at `positions`.
pub open spec fn covered(s: Seq<Json>, positions: Seq<usize>, j: int) -> bool {
    exists|t: int|
        0 <= t < positions.len() && same_message(#[trigger] s[positions[t] as int]@, s[j]@)
}

proof fn lemma_covered_push(s: Seq<Json>, positions: Seq<usize>, x: usize, j: int)
    requires
        covered(s, positions, j),
    ensures
        covered(s, positions.push(x), j),
{
    let t = choose|t: int|
        0 <= t < positions.len() && same_message(#[trigger] s[positions[t] as int]@, s[j]@);
    assert(positions.push(x)[t] == positions[t]);
}

/// With every earlier message covered by earlier positions, message `i` is a
/// first occurrence exactly when no listed position holds a duplicate of it.
proof fn lemma_first_occurrence_by_positions(s: Seq<Json>, positions: Seq<usize>, i: int)
    requires
        0 <= i < s.len(),
        forall|t: int| 0 <= t < positions.len() ==> positions[t] < i,
        forall|j: int| 0 <= j < i ==> #[trigger] covered(s, positions, j),
    ensures
        first_occurrence(s, i) == !covered(s, positions, i),
{
    if covered(s, positions, i) {
        let t = choose|t: int|
            0 <= t < positions.len() && same_message(#[trigger] s[positions[t] as int]@, s[i]@);
        let j = positions[t] as int;
        assert(same_message(s[j]@, s[i]@));
    } else {
        assert forall|j: int| 0 <= j < i implies !same_message(#[trigger] s[j]@, s[i]@) by {
            assert(covered(s, positions, j));
            let t = choose|t: int|
                0 <= t < positions.len() && same_message(
                    #[trigger] s[positions[t] as int]@,
                    s[j]@,
                );
            if same_message(s[j]@, s[i]@) {
                assert(same_message(s[positions[t] as int]@, s[i]@));
            }
        }
    }
}

/// Flags each message that repeats no earlier message.
fn first_occurrence_flags(messages: &[Json], names: &FieldNames) -> (flags: Vec<bool>)
    requires
        names.wf(),
    ensures
        flags.len() == messages.len(),
        forall|i: int| 0 <= i < messages.len() ==> flags@[i] == first_occurrence(messages@, i),
{
    let ghost s = messages@;
    let mut flags: Vec<bool> = Vec::new();
    // Positions of the first occurrences met so far: one per identity.
    let mut firsts: Vec<usize> = Vec::new();
    let mut i: usize = 0;
    while i < messages.len()
        invariant
            0 <= i <= messages.len(),
            s == messages@,
            names.wf(),
            flags.len() == i,
            forall|k: int| 0 <= k < i ==> flags@[k] == first_occurrence(s, k),
            forall|t: int| 0 <= t < firsts.len() ==> firsts@[t] < i,
            forall|j: int| 0 <= j < i ==> #[trigger] covered(s, firsts@, j),
        decreases messages.len() - i,
    {
        let found = repeats_one_of(messages, &firsts, i, names);
        proof {
            lemma_first_occurrence_by_positions(s, firsts@, i as int);
        }
        let ghost old_firsts = firsts@;
        flags.push(!found);
        if !found {
            firsts.push(i);
            proof {
                assert forall|j: int| 0 <= j < i implies #[trigger] covered(s, firsts@, j) by {
                    lemma_covered_push(s, old_firsts, i, j);
                }
                assert(firsts@[old_firsts.len() as int] == i);
                assert(same_message(s[firsts@[old_firsts.len() as int] as int]@, s[i as int]@));
                assert(covered(s, firsts@, i as int));
            }
        }
        i += 1;
    }
    flags
}

/// Flags each message that `remove_empty` keeps.
fn retention_flags(messages: &[Json], names: &FieldNames) -> (flags: Vec<bool>)
    requires
        names.wf(),
    ensures
        flags.len() == messages.len(),
        forall|i: int| 0 <= i < messages.len() ==> flags@[i] == retained(messages@[i]@),
{
    let mut flags: Vec<bool> = Vec::new();
    let mut i: usize = 0;
    while i < messages.len()
        invariant
            0 <= i <= messages.len(),
            names.wf(),
            flags.len() == i,
            forall|k: int| 0 <= k < i ==> flags@[k] == retained(messages@[k]@),
        decreases messages.len() - i,
    {
        let blank = is_content_blank(&messages[i], names);
        flags.push(decide_keep(&messages[i], blank, names));
        i += 1;
    }
    flags
}

/// Remove repeated messages according to the given [`DedupScope`].
///
/// This is a convenience wrapper over [`dedup_adjacent`] and [`dedup_global`].
pub fn dedup(messages: Vec<Json>, scope: DedupScope) -> (deduped: Vec<Json>)
    ensures
        scope == DedupScope::Adjacent ==> deduped@ == deduped_adjacent(messages@),
        scope == DedupScope::Global ==> deduped@ == deduped_global(messages@),
{
    match scope {
        DedupScope::Adjacent => dedup_adjacent(messages),
        DedupScope::Global => dedup_global(messages),
    }
}

/// Remove consecutive duplicate messages (same role + content).
///
/// Non-adjacent repeats are preserved; use [`dedup_global`] to remove those.
pub fn dedup_adjacent(messages: Vec<Json>) -> (deduped: Vec<Json>)
    ensures
        deduped@ == deduped_adjacent(messages@),
{
    let ghost s = messages@;
    let names = FieldNames::new();
    let flags = adjacent_flags(messages.as_slice(), &names);
    let deduped = retain_flagged(messages, &flags);
    proof {
        lemma_select_congruent(s, |i: int| flags@[i], |i: int| adjacent_keeps(s, i));
    }
    deduped
}

/// Remove all duplicate messages, keeping the first occurrence.
pub fn dedup_global(messages: Vec<Json>) -> (deduped: Vec<Json>)
    ensures
        deduped@ == deduped_global(messages@),
{
    let ghost s = messages@;
    let names = FieldNames::new();
    let flags = first_occurrence_flags(messages.as_slice(), &names);
    let deduped = retain_flagged(messages, &flags);
    proof {
        lemma_select_congruent(s, |i: int| flags@[i], |i: int| first_occurrence(s, i));
    }
    deduped
}

/// Remove messages whose `content` is empty or whitespace-only.
///
/// A message is dropped when its `content` is an empty string, a
/// whitespace-only string, JSON `null`, or absent, unless the message
/// carries a tool payload (a non-empty `tool_calls` array or a non-empty
/// `tool_call_id`), which is preserved so tool invocations and their results
/// are never lost. Non-string, non-null content (for example an array of
/// content blocks) is always kept.
pub fn remove_empty(messages: Vec<Json>) -> (kept: Vec<Json>)
    ensures
        kept@ == without_empty(messages@),
{
    let ghost s = messages@;
    let names = FieldNames::new();
    let flags = retention_flags(messages.as_slice(), &names);
    let kept = retain_flagged(messages, &flags);
    proof {
        lemma_select_congruent(s, |i: int| flags@[i], |i: int| retained(s[i]@));
    }
    kept
}

/// Count how many distinct messages exist (by role + content).
pub fn unique_count(messages: &[Json]) -> (count: usize)
    ensures
        count == deduped_global(messages@).len(),
{
    let ghost s = messages@;
    let names = FieldNames::new();
    let flags = first_occurrence_flags(messages, &names);
    let mut count: usize = 0;
    let mut i: usize = 0;
    while i < flags.len()
        invariant
            0 <= i <= flags.len(),
            flags.len() == s.len(),
            count == select(s.take(i as int), |k: int| flags@[k]).len(),
        decreases flags.len() - i,
    {
        assert(s.take(i + 1).drop_last() =~= s.take(i as int));
        proof {
            lemma_select_len(s.take(i as int), |k: int| flags@[k]);
        }
        if flags[i] {
            count += 1;
        }
        i += 1;
    }
    proof {
        assert(s.take(s.len() as int) =~= s);
        lemma_select_congruent(s, |k: int| flags@[k], |k: int| first_occurrence(s, k));
    }
    count
}

/// Count how many duplicate messages exist (total minus unique).
///
/// This counts repeats only; the first occurrence of each distinct message is
/// not counted. It equals `messages.len() - unique_count(messages)`.
pub fn duplicate_count(messages: &[Json]) -> (count: usize)
    ensures
        count == messages@.len() - deduped_global(messages@).len(),
{
    let unique = unique_count(messages);
    proof {
        lemma_select_len(messages@, |k: int| first_occurrence(messages@, k));
    }
    messages.len() - unique
}

} // verus!
