//! What holds of the library as a whole: the cleaning functions only remove
//! messages and never reorder them, global mode leaves no repeat behind,
//! adjacent mode leaves no consecutive repeat, each cleaning is idempotent,
//! and the two counts add up to the length of the history.
use vstd::prelude::*;

use crate::dedup::{
    adjacent_keeps, deduped_adjacent, deduped_global, first_occurrence, select, without_empty,
};
use crate::json::{Json, JsonView};
use crate::message::{has_tool_payload, identity, retained, same_message};

verus! {

/// `idx` lists, for each element of `sub`, its position in `s`, and these
/// positions strictly increase.
pub open spec fn positions_of<T>(sub: Seq<T>, s: Seq<T>, idx: Seq<int>) -> bool {
    &&& idx.len() == sub.len()
    &&& forall|k: int| 0 <= k < idx.len() ==> 0 <= #[trigger] idx[k] < s.len() && sub[k] == s[idx[k]]
    &&& forall|a: int, b: int| 0 <= a < b < idx.len() ==> #[trigger] idx[a] < #[trigger] idx[b]
}

/// `sub` is `s` with some elements removed and the others in their order.
pub open spec fn is_subsequence<T>(sub: Seq<T>, s: Seq<T>) -> bool {
    exists|idx: Seq<int>| positions_of(sub, s, idx)
}

/// The positions that a selection keeps: those where `keep` holds, each of
/// them, in order.
pub(crate) proof fn lemma_select_positions<T>(s: Seq<T>, keep: spec_fn(int) -> bool) -> (idx: Seq<int>)
    ensures
        positions_of(select(s, keep), s, idx),
        forall|k: int| 0 <= k < idx.len() ==> #[trigger] keep(idx[k]),
        forall|i: int| 0 <= i < s.len() && #[trigger] keep(i) ==> exists|k: int| 0 <= k < idx.len() && idx[k] == i,
    decreases s.len(),
{
    if s.len() == 0 {
        Seq::empty()
    } else {
        let prev = lemma_select_positions(s.drop_last(), keep);
        let last = s.len() - 1;
        if keep(last) {
            let idx = prev.push(last);
            assert forall|i: int| 0 <= i < s.len() && #[trigger] keep(i) implies exists|k: int|
                0 <= k < idx.len() && idx[k] == i by {
                if i == last {
                    assert(idx[idx.len() - 1] == i);
                } else {
                    let k = choose|k: int| 0 <= k < prev.len() && prev[k] == i;
                    assert(idx[k] == i);
                }
            }
            idx
        } else {
            prev
        }
    }
}

/// A selection by a predicate that holds everywhere keeps every element.
pub(crate) proof fn lemma_select_all<T>(s: Seq<T>, keep: spec_fn(int) -> bool)
    requires
        forall|i: int| 0 <= i < s.len() ==> #[trigger] keep(i),
    ensures
        select(s, keep) == s,
    decreases s.len(),
{
    if s.len() > 0 {
        lemma_select_all(s.drop_last(), keep);
        assert(s.drop_last().push(s.last()) =~= s);
    }
}

/// A selection by a weaker predicate keeps at least the elements that a
/// stronger one keeps, in the same order.
proof fn lemma_select_weaker<T>(s: Seq<T>, strong: spec_fn(int) -> bool, weak: spec_fn(int) -> bool) -> (idx: Seq<int>)
    requires
        forall|i: int| 0 <= i < s.len() && #[trigger] strong(i) ==> weak(i),
    ensures
        positions_of(select(s, strong), select(s, weak), idx),
    decreases s.len(),
{
    if s.len() == 0 {
        Seq::empty()
    } else {
        let prev = lemma_select_weaker(s.drop_last(), strong, weak);
        let last = s.len() - 1;
        let w = select(s.drop_last(), weak);
        if strong(last) {
            prev.push(w.len() as int)
        } else {
            prev
        }
    }
}

/// Within a stretch of messages that adjacent mode drops after position `a`,
/// every message repeats the one at `a`.
proof fn lemma_dropped_run(s: Seq<Json>, a: int, m: int)
    requires
        0 <= a <= m < s.len(),
        forall|j: int| a < j <= m ==> !#[trigger] adjacent_keeps(s, j),
    ensures
        same_message(s[a]@, s[m]@),
    decreases m - a,
{
    if m > a {
        lemma_dropped_run(s, a, m - 1);
        assert(!adjacent_keeps(s, m));
    }
}

/// Adjacent dedup only removes messages: what it returns is the history with
/// some messages left out and the rest in their order.
pub proof fn law_dedup_adjacent_only_removes(s: Seq<Json>)
    ensures
        is_subsequence(deduped_adjacent(s), s),
{
    let idx = lemma_select_positions(s, |i: int| adjacent_keeps(s, i));
    assert(positions_of(deduped_adjacent(s), s, idx));
}

/// Global dedup only removes messages, and never reorders them.
pub proof fn law_dedup_global_only_removes(s: Seq<Json>)
    ensures
        is_subsequence(deduped_global(s), s),
{
    let idx = lemma_select_positions(s, |i: int| first_occurrence(s, i));
    assert(positions_of(deduped_global(s), s, idx));
}

/// Removing empty messages only removes messages, and never reorders them.
pub proof fn law_remove_empty_only_removes(s: Seq<Json>)
    ensures
        is_subsequence(without_empty(s), s),
{
    let idx = lemma_select_positions(s, |i: int| retained(s[i]@));
    assert(positions_of(without_empty(s), s, idx));
}

/// After global dedup no two messages are duplicates of each other.
pub proof fn law_dedup_global_no_repeats(s: Seq<Json>)
    ensures
        forall|a: int, b: int|
            0 <= a < b < deduped_global(s).len() ==> !same_message(
                #[trigger] deduped_global(s)[a]@,
                #[trigger] deduped_global(s)[b]@,
            ),
{
    let keep = |i: int| first_occurrence(s, i);
    let out = deduped_global(s);
    let idx = lemma_select_positions(s, keep);
    assert forall|a: int, b: int| 0 <= a < b < out.len() implies !same_message(
        #[trigger] out[a]@,
        #[trigger] out[b]@,
    ) by {
        assert(idx[a] < idx[b]);
        assert(keep(idx[b]));
        assert(out[a] == s[idx[a]]);
        assert(out[b] == s[idx[b]]);
        assert(!same_message(s[idx[a]]@, s[idx[b]]@));
    }
}

/// Global dedup keeps the first occurrence of every message, and every
/// message of the history has a duplicate (possibly itself) in the result.
pub proof fn law_dedup_global_keeps_first_occurrences(s: Seq<Json>)
    ensures
        forall|i: int| 0 <= i < s.len() && first_occurrence(s, i) ==> deduped_global(s).contains(#[trigger] s[i]),
        forall|i: int|
            0 <= i < s.len() ==> exists|k: int|
                0 <= k < deduped_global(s).len() && same_message(deduped_global(s)[k]@, #[trigger] s[i]@),
{
    let keep = |i: int| first_occurrence(s, i);
    let out = deduped_global(s);
    let idx = lemma_select_positions(s, keep);
    assert forall|i: int| 0 <= i < s.len() && first_occurrence(s, i) implies out.contains(#[trigger] s[i]) by {
        assert(keep(i));
        let k = choose|k: int| 0 <= k < idx.len() && idx[k] == i;
        assert(out[k] == s[i]);
    }
    assert forall|j: int| 0 <= j < s.len() && #[trigger] first_occurrence(s, j) implies exists|k: int|
        0 <= k < idx.len() && idx[k] == j by {
        assert(keep(j));
    }
    assert forall|i: int| 0 <= i < s.len() implies exists|k: int|
        0 <= k < out.len() && same_message(out[k]@, #[trigger] s[i]@) by {
        lemma_global_covers(s, idx, i);
    }
}

proof fn lemma_global_covers(s: Seq<Json>, idx: Seq<int>, i: int)
    requires
        0 <= i < s.len(),
        positions_of(deduped_global(s), s, idx),
        forall|j: int|
            0 <= j < s.len() && #[trigger] first_occurrence(s, j) ==> exists|k: int|
                0 <= k < idx.len() && idx[k] == j,
    ensures
        exists|k: int| 0 <= k < deduped_global(s).len() && same_message(deduped_global(s)[k]@, s[i]@),
    decreases i,
{
    let out = deduped_global(s);
    if first_occurrence(s, i) {
        let k = choose|k: int| 0 <= k < idx.len() && idx[k] == i;
        assert(out[k] == s[i]);
    } else {
        let j = choose|j: int| 0 <= j < i && same_message(#[trigger] s[j]@, s[i]@);
        lemma_global_covers(s, idx, j);
        let k = choose|k: int| 0 <= k < out.len() && same_message(out[k]@, s[j]@);
        assert(same_message(out[k]@, s[i]@));
    }
}

/// After adjacent dedup no message repeats the one just before it.
pub proof fn law_dedup_adjacent_no_consecutive_repeats(s: Seq<Json>)
    ensures
        forall|k: int|
            0 <= k < deduped_adjacent(s).len() - 1 ==> !same_message(
                #[trigger] deduped_adjacent(s)[k]@,
                deduped_adjacent(s)[k + 1]@,
            ),
{
    let keep = |i: int| adjacent_keeps(s, i);
    let out = deduped_adjacent(s);
    let idx = lemma_select_positions(s, keep);
    assert forall|k: int| 0 <= k < out.len() - 1 implies !same_message(
        #[trigger] out[k]@,
        out[k + 1]@,
    ) by {
        let a = idx[k];
        let b = idx[k + 1];
        assert(a < b);
        assert forall|j: int| a < j <= b - 1 implies !#[trigger] adjacent_keeps(s, j) by {
            if adjacent_keeps(s, j) {
                assert(keep(j));
                let m = choose|m: int| 0 <= m < idx.len() && idx[m] == j;
                if m <= k {
                    if m < k {
                        assert(idx[m] < idx[k]);
                    }
                } else {
                    if m > k + 1 {
                        assert(idx[k + 1] < idx[m]);
                    }
                }
            }
        }
        lemma_dropped_run(s, a, b - 1);
        assert(keep(b));
        assert(!same_message(s[b - 1]@, s[b]@));
        assert(out[k] == s[a]);
        assert(out[k + 1] == s[b]);
    }
}

/// When every repeat in the history directly follows a duplicate of itself
/// (repeats come in runs), adjacent and global dedup give the same result.
pub proof fn law_runs_dedup_alike(s: Seq<Json>)
    requires
        forall|i: int, j: int|
            0 <= i < j < s.len() && same_message(#[trigger] s[i]@, #[trigger] s[j]@)
                ==> same_message(s[j - 1]@, s[j]@),
    ensures
        deduped_adjacent(s) == deduped_global(s),
{
    assert forall|j: int| 0 <= j < s.len() implies #[trigger] adjacent_keeps(s, j) == first_occurrence(s, j) by {
        if j > 0 && !adjacent_keeps(s, j) {
            assert(same_message(s[j - 1]@, s[j]@));
        }
        if !first_occurrence(s, j) {
            let i = choose|i: int| 0 <= i < j && same_message(#[trigger] s[i]@, s[j]@);
            assert(same_message(s[j - 1]@, s[j]@));
        }
    }
    crate::dedup::lemma_select_congruent(s, |i: int| adjacent_keeps(s, i), |i: int| first_occurrence(s, i));
}

/// Global dedup removes at least the messages that adjacent dedup removes:
/// its result is what adjacent dedup returns, with some messages left out.
pub proof fn law_dedup_global_within_adjacent(s: Seq<Json>)
    ensures
        is_subsequence(deduped_global(s), deduped_adjacent(s)),
{
    assert forall|i: int| 0 <= i < s.len() && #[trigger] first_occurrence(s, i) implies adjacent_keeps(s, i) by {
        if i > 0 {
            assert(!same_message(s[i - 1]@, s[i]@));
        }
    }
    let idx = lemma_select_weaker(s, |i: int| first_occurrence(s, i), |i: int| adjacent_keeps(s, i));
    assert(positions_of(deduped_global(s), deduped_adjacent(s), idx));
}

/// Global dedup is idempotent: deduplicating its result changes nothing.
pub proof fn law_dedup_global_idempotent(s: Seq<Json>)
    ensures
        deduped_global(deduped_global(s)) == deduped_global(s),
{
    let out = deduped_global(s);
    law_dedup_global_no_repeats(s);
    assert forall|i: int| 0 <= i < out.len() implies #[trigger] first_occurrence(out, i) by {}
    lemma_select_all(out, |i: int| first_occurrence(out, i));
}

/// Adjacent dedup is idempotent: deduplicating its result changes nothing.
pub proof fn law_dedup_adjacent_idempotent(s: Seq<Json>)
    ensures
        deduped_adjacent(deduped_adjacent(s)) == deduped_adjacent(s),
{
    let out = deduped_adjacent(s);
    law_dedup_adjacent_no_consecutive_repeats(s);
    assert forall|i: int| 0 <= i < out.len() implies #[trigger] adjacent_keeps(out, i) by {
        if i > 0 {
            assert(!same_message(out[i - 1]@, out[(i - 1) + 1]@));
        }
    }
    lemma_select_all(out, |i: int| adjacent_keeps(out, i));
}

/// Every message that `remove_empty` returns is one it keeps, so removing
/// empty messages twice removes nothing more.
pub proof fn law_remove_empty_idempotent(s: Seq<Json>)
    ensures
        forall|k: int| 0 <= k < without_empty(s).len() ==> retained(#[trigger] without_empty(s)[k]@),
        without_empty(without_empty(s)) == without_empty(s),
{
    let keep = |i: int| retained(s[i]@);
    let out = without_empty(s);
    let idx = lemma_select_positions(s, keep);
    assert forall|k: int| 0 <= k < out.len() implies retained(#[trigger] out[k]@) by {
        assert(keep(idx[k]));
        assert(out[k] == s[idx[k]]);
    }
    lemma_select_all(out, |i: int| retained(out[i]@));
}

/// A message that carries a tool payload is never removed as empty.
pub proof fn law_remove_empty_keeps_tool_payloads(s: Seq<Json>)
    ensures
        forall|i: int| 0 <= i < s.len() && has_tool_payload(#[trigger] s[i]@) ==> without_empty(s).contains(s[i]),
{
    let keep = |i: int| retained(s[i]@);
    let out = without_empty(s);
    let idx = lemma_select_positions(s, keep);
    assert forall|i: int| 0 <= i < s.len() && has_tool_payload(#[trigger] s[i]@) implies out.contains(s[i]) by {
        assert(keep(i));
        let k = choose|k: int| 0 <= k < idx.len() && idx[k] == i;
        assert(out[k] == s[i]);
    }
}

/// A selection by a predicate and the selection by its negation split the
/// sequence: their lengths add up to its length.
proof fn lemma_select_split<T>(s: Seq<T>, keep: spec_fn(int) -> bool)
    ensures
        select(s, keep).len() + select(s, |i: int| !keep(i)).len() == s.len(),
    decreases s.len(),
{
    if s.len() > 0 {
        lemma_select_split(s.drop_last(), keep);
    }
}

/// The repeats that `duplicate_count` counts are the messages that repeat an
/// earlier one: the history's length less its distinct messages is the
/// number of those, and never negative.
pub proof fn law_counts_complementary(s: Seq<Json>)
    ensures
        deduped_global(s).len() <= s.len(),
        s.len() - deduped_global(s).len() == select(s, |i: int| !first_occurrence(s, i)).len(),
{
    let keep = |i: int| first_occurrence(s, i);
    lemma_select_split(s, keep);
    crate::dedup::lemma_select_congruent(s, |i: int| !keep(i), |i: int| !first_occurrence(s, i));
}

/// The identities (role and content) that occur in a history.
pub open spec fn identities(s: Seq<Json>) -> Set<(JsonView, JsonView)> {
    s.map_values(|m: Json| identity(m@)).to_set()
}

/// The number of distinct messages is the number of distinct (role, content)
/// pairs in the history.
pub proof fn law_unique_count_is_number_of_identities(s: Seq<Json>)
    ensures
        deduped_global(s).len() == identities(s).len(),
{
    let out = deduped_global(s);
    let ids = out.map_values(|m: Json| identity(m@));
    let all = s.map_values(|m: Json| identity(m@));
    law_dedup_global_no_repeats(s);
    law_dedup_global_keeps_first_occurrences(s);
    let idx = lemma_select_positions(s, |i: int| first_occurrence(s, i));
    assert(ids.no_duplicates()) by {
        assert forall|a: int, b: int| 0 <= a < ids.len() && 0 <= b < ids.len() && a != b implies ids[a]
            != ids[b] by {
            if a < b {
                assert(!same_message(out[a]@, out[b]@));
            } else {
                assert(!same_message(out[b]@, out[a]@));
            }
        }
    }
    ids.unique_seq_to_set();
    assert forall|x: (JsonView, JsonView)| ids.to_set().contains(x) <==> all.to_set().contains(x) by {
        if ids.to_set().contains(x) {
            let k = choose|k: int| 0 <= k < ids.len() && ids[k] == x;
            assert(out[k] == s[idx[k]]);
            assert(all[idx[k]] == x);
        }
        if all.to_set().contains(x) {
            let i = choose|i: int| 0 <= i < all.len() && all[i] == x;
            assert(identity(s[i]@) == x);
            let k = choose|k: int| 0 <= k < out.len() && same_message(out[k]@, #[trigger] s[i]@);
            assert(ids[k] == x);
        }
    }
    assert(ids.to_set() =~= all.to_set());
}

/// The number of distinct messages does not depend on the order of the
/// history: histories holding the same messages, each as often, have as many.
pub proof fn law_unique_count_ignores_order(s1: Seq<Json>, s2: Seq<Json>)
    requires
        s1.to_multiset() == s2.to_multiset(),
    ensures
        deduped_global(s1).len() == deduped_global(s2).len(),
{
    broadcast use vstd::seq_lib::group_to_multiset_ensures;

    law_unique_count_is_number_of_identities(s1);
    law_unique_count_is_number_of_identities(s2);
    let a1 = s1.map_values(|m: Json| identity(m@));
    let a2 = s2.map_values(|m: Json| identity(m@));
    assert forall|x: (JsonView, JsonView)| a1.to_set().contains(x) implies a2.to_set().contains(x) by {
        let i = choose|i: int| 0 <= i < a1.len() && a1[i] == x;
        assert(s1.contains(s1[i]));
        assert(s1.to_multiset().count(s1[i]) > 0);
        assert(s2.to_multiset().count(s1[i]) > 0);
        assert(s2.contains(s1[i]));
        let j = choose|j: int| 0 <= j < s2.len() && s2[j] == s1[i];
        assert(a2[j] == x);
    }
    assert forall|x: (JsonView, JsonView)| a2.to_set().contains(x) implies a1.to_set().contains(x) by {
        let j = choose|j: int| 0 <= j < a2.len() && a2[j] == x;
        assert(s2.contains(s2[j]));
        assert(s2.to_multiset().count(s2[j]) > 0);
        assert(s1.to_multiset().count(s2[j]) > 0);
        assert(s1.contains(s2[j]));
        let i = choose|i: int| 0 <= i < s1.len() && s1[i] == s2[j];
        assert(a1[i] == x);
    }
    assert(a1.to_set() =~= a2.to_set());
}

/// Every message has a duplicate (possibly itself) among what adjacent
/// dedup keeps.
proof fn lemma_adjacent_covers(s: Seq<Json>, idx: Seq<int>, i: int)
    requires
        0 <= i < s.len(),
        positions_of(deduped_adjacent(s), s, idx),
        forall|j: int|
            0 <= j < s.len() && #[trigger] adjacent_keeps(s, j) ==> exists|k: int|
                0 <= k < idx.len() && idx[k] == j,
    ensures
        exists|k: int| 0 <= k < deduped_adjacent(s).len() && same_message(deduped_adjacent(s)[k]@, s[i]@),
    decreases i,
{
    let out = deduped_adjacent(s);
    if adjacent_keeps(s, i) {
        let k = choose|k: int| 0 <= k < idx.len() && idx[k] == i;
        assert(out[k] == s[i]);
    } else {
        lemma_adjacent_covers(s, idx, i - 1);
        let k = choose|k: int| 0 <= k < out.len() && same_message(out[k]@, s[i - 1]@);
        assert(same_message(out[k]@, s[i]@));
    }
}

/// Global dedup of a history that gained a last message.
proof fn lemma_global_push(s: Seq<Json>, x: Json)
    ensures
        deduped_global(s.push(x)) == if (forall|j: int| 0 <= j < s.len() ==> !same_message(#[trigger] s[j]@, x@)) {
            deduped_global(s).push(x)
        } else {
            deduped_global(s)
        },
{
    let t = s.push(x);
    assert(t.drop_last() =~= s);
    crate::dedup::lemma_select_congruent(s, |i: int| first_occurrence(t, i), |i: int| first_occurrence(s, i));
    assert(first_occurrence(t, s.len() as int) == (forall|j: int| 0 <= j < s.len() ==> !same_message(#[trigger] s[j]@, x@))) by {
        assert forall|j: int| 0 <= j < s.len() implies t[j] == s[j] by {}
    }
}

/// Adjacent dedup of a history that gained a last message.
proof fn lemma_adjacent_push(s: Seq<Json>, x: Json)
    ensures
        deduped_adjacent(s.push(x)) == if s.len() == 0 || !same_message(s.last()@, x@) {
            deduped_adjacent(s).push(x)
        } else {
            deduped_adjacent(s)
        },
{
    let t = s.push(x);
    assert(t.drop_last() =~= s);
    crate::dedup::lemma_select_congruent(s, |i: int| adjacent_keeps(t, i), |i: int| adjacent_keeps(s, i));
}

/// Global dedup after adjacent dedup gives what global dedup alone gives.
pub proof fn law_dedup_global_after_adjacent(s: Seq<Json>)
    ensures
        deduped_global(deduped_adjacent(s)) == deduped_global(s),
    decreases s.len(),
{
    if s.len() == 0 {
        assert(deduped_adjacent(s) =~= s);
    } else {
        let p = s.drop_last();
        let x = s.last();
        assert(p.push(x) =~= s);
        law_dedup_global_after_adjacent(p);
        lemma_adjacent_push(p, x);
        lemma_global_push(p, x);
        let t = deduped_adjacent(p);
        if p.len() == 0 || !same_message(p.last()@, x@) {
            lemma_global_push(t, x);
            let idx = lemma_select_positions(p, |i: int| adjacent_keeps(p, i));
            assert forall|j: int| 0 <= j < p.len() && #[trigger] adjacent_keeps(p, j) implies exists|k: int|
                0 <= k < idx.len() && idx[k] == j by {
                let keep = |i: int| adjacent_keeps(p, i);
                assert(keep(j));
            }
            let fresh_t = forall|k: int| 0 <= k < t.len() ==> !same_message(#[trigger] t[k]@, x@);
            let fresh_p = forall|j: int| 0 <= j < p.len() ==> !same_message(#[trigger] p[j]@, x@);
            if fresh_t {
                assert forall|j: int| 0 <= j < p.len() implies !same_message(#[trigger] p[j]@, x@) by {
                    lemma_adjacent_covers(p, idx, j);
                    let k = choose|k: int| 0 <= k < t.len() && same_message(t[k]@, p[j]@);
                    assert(!same_message(t[k]@, x@));
                }
            }
            if fresh_p {
                assert forall|k: int| 0 <= k < t.len() implies !same_message(#[trigger] t[k]@, x@) by {
                    assert(t[k] == p[idx[k]]);
                }
            }
            assert(fresh_t == fresh_p);
        } else {
            assert(!(forall|j: int| 0 <= j < p.len() ==> !same_message(#[trigger] p[j]@, x@))) by {
                assert(same_message(p[p.len() - 1]@, x@));
            }
        }
    }
}

} // verus!
