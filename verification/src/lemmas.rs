//! Proofs about the training model and the fallback lookup.

use vstd::prelude::*;

verus! {

use crate::model::{
    fallback_key, matched_order, occurrences, occurrences_upto, partial_successors, partial_table,
    successors_of, successors_upto, trained_table, window_matches,
};
use crate::State;

/// Positions at or beyond the end of the input contribute no successors.
pub(crate) proof fn lemma_successors_upto_stable(input: Seq<State>, key: Seq<State>, end: int)
    requires
        input.len() <= end,
    ensures
        successors_upto(input, key, end) == successors_of(input, key),
    decreases end,
{
    if end > key.len() && end > input.len() {
        assert(!window_matches(input, key, end - 1));
        lemma_successors_upto_stable(input, key, end - 1);
    }
}

/// Before any window is processed, the partial table is empty.
pub(crate) proof fn lemma_partial_empty(input: Seq<State>)
    ensures
        partial_table(input, 0, 0) == Map::<Seq<State>, Seq<State>>::empty(),
{
    assert(partial_table(input, 0, 0) =~= Map::<Seq<State>, Seq<State>>::empty());
}

/// Recording the window whose successor stands at position `j` appends that
/// successor to the entry for the window's key.
pub(crate) proof fn lemma_partial_step(input: Seq<State>, o: int, j: int)
    requires
        0 <= o <= j < input.len(),
    ensures
        ({
            let k0 = input.subrange(j - o, j);
            partial_table(input, o, j + 1) == partial_table(input, o, j).insert(
                k0,
                successors_upto(input, k0, j).push(input[j]),
            )
        }),
{
    let k0 = input.subrange(j - o, j);
    assert(k0.len() == o);
    assert(window_matches(input, k0, j));
    assert(successors_upto(input, k0, j + 1) == successors_upto(input, k0, j).push(input[j]));
    assert forall|k: Seq<State>| k.len() == o && k != k0 implies successors_upto(input, k, j + 1)
        == successors_upto(input, k, j) by {
        assert(!window_matches(input, k, j));
    }
    assert(partial_table(input, o, j + 1) =~= partial_table(input, o, j).insert(
        k0,
        successors_upto(input, k0, j).push(input[j]),
    ));
}

/// Once every window of the current order is processed, the partial table is
/// the one from which the next order starts.
pub(crate) proof fn lemma_partial_next_order(input: Seq<State>, o: int, p: int)
    requires
        0 <= o <= p,
        input.len() <= p,
    ensures
        partial_table(input, o, p) == partial_table(input, o + 1, o + 1),
{
    assert forall|k: Seq<State>| #[trigger] partial_successors(input, k, o, p)
        == partial_successors(input, k, o + 1, o + 1) by {
        if k.len() == o {
            lemma_successors_upto_stable(input, k, p);
        }
    }
    assert(partial_table(input, o, p) =~= partial_table(input, o + 1, o + 1));
}

/// After the last order, the partial table is the trained table.
pub(crate) proof fn lemma_partial_complete(input: Seq<State>, max_order: int)
    requires
        0 <= max_order,
    ensures
        partial_table(input, max_order, max_order) == trained_table(max_order, input),
{
    assert(partial_table(input, max_order, max_order) =~= trained_table(max_order, input));
}

/// A matching window with successor position `j` puts `input[j]` among the
/// successors collected up to any later bound.
proof fn lemma_match_in_successors(input: Seq<State>, key: Seq<State>, j: int, end: int)
    requires
        window_matches(input, key, j),
        j < end,
    ensures
        successors_upto(input, key, end).contains(input[j]),
    decreases end,
{
    let s = successors_upto(input, key, end - 1);
    if end - 1 == j {
        assert(s.push(input[j])[s.len() as int] == input[j]);
    } else {
        lemma_match_in_successors(input, key, j, end - 1);
        if window_matches(input, key, end - 1) {
            let i: int = choose|i: int| 0 <= i < s.len() && s[i] == input[j];
            assert(s.push(input[end - 1])[i] == input[j]);
        }
    }
}

/// The multiset of successors collected up to a bound counts each state as
/// often as it occurs as a successor below that bound.
proof fn lemma_successors_count(input: Seq<State>, key: Seq<State>, v: State, end: int)
    ensures
        successors_upto(input, key, end).to_multiset().count(v) == occurrences_upto(
            input,
            key,
            v,
            end,
        ),
    decreases end,
{
    broadcast use vstd::seq_lib::group_to_multiset_ensures;

    if end <= key.len() {
        assert(!successors_upto(input, key, end).contains(v));
    } else {
        lemma_successors_count(input, key, v, end - 1);
        let s = successors_upto(input, key, end - 1);
        if window_matches(input, key, end - 1) {
            let x = input[end - 1];
            assert(s.push(x).to_multiset() =~= s.to_multiset().insert(x));
            if x == v {
                vstd::multiset::lemma_insert_increases_count_by_1(s.to_multiset(), x);
            } else {
                vstd::multiset::lemma_insert_other_elements_unchanged(s.to_multiset(), x, v);
            }
        }
    }
}

/// Training completeness: every window of length `order + 1` in the input,
/// at every order below the maximum, is recorded.  The window's key is in
/// the trained table, and the entry counts the window's successor once for
/// each window that pairs the key with it.
pub proof fn lemma_training_completeness(max_order: int, input: Seq<State>, order: int, j: int)
    requires
        0 <= order < max_order,
        order <= j < input.len(),
    ensures
        ({
            let key = input.subrange(j - order, j);
            &&& trained_table(max_order, input).contains_key(key)
            &&& trained_table(max_order, input)[key] == successors_of(input, key)
            &&& successors_of(input, key).to_multiset().count(input[j]) == occurrences(
                input,
                key,
                input[j],
            )
            &&& occurrences(input, key, input[j]) >= 1
        }),
{
    broadcast use vstd::seq_lib::group_to_multiset_ensures;

    let key = input.subrange(j - order, j);
    assert(window_matches(input, key, j));
    lemma_match_in_successors(input, key, j, input.len() as int);
    lemma_successors_count(input, key, input[j], input.len() as int);
    assert(successors_of(input, key).to_multiset().count(input[j]) > 0);
    assert(successors_of(input, key).len() > 0);
}

/// Bounded order: the trained table never holds a key as long as the
/// maximum order.
pub proof fn lemma_bounded_order(max_order: int, input: Seq<State>, key: Seq<State>)
    requires
        trained_table(max_order, input).contains_key(key),
    ensures
        key.len() < max_order,
{
}

/// Every successor collected for a key below any bound occurs in the input.
proof fn lemma_successors_from_input(input: Seq<State>, key: Seq<State>, end: int, v: State)
    requires
        successors_upto(input, key, end).contains(v),
    ensures
        input.contains(v),
    decreases end,
{
    if end <= key.len() {
        assert(false);
    } else {
        let s = successors_upto(input, key, end - 1);
        if window_matches(input, key, end - 1) {
            let full = s.push(input[end - 1]);
            let i: int = choose|i: int| 0 <= i < full.len() && full[i] == v;
            if i < s.len() {
                assert(s[i] == v);
                lemma_successors_from_input(input, key, end - 1, v);
            } else {
                assert(input[end - 1] == v);
            }
        } else {
            lemma_successors_from_input(input, key, end - 1, v);
        }
    }
}

/// Generation returns trained values only: whatever state the trained table
/// records as a successor occurs literally in the training input.
pub proof fn lemma_trained_values_only(max_order: int, input: Seq<State>, key: Seq<State>, v: State)
    requires
        trained_table(max_order, input).contains_key(key),
        trained_table(max_order, input)[key].contains(v),
    ensures
        input.contains(v),
{
    lemma_successors_from_input(input, key, input.len() as int, v);
}

/// Fallback monotonicity: when the table holds the fallback key of window
/// length `k`, the search from any ceiling at or above `k` matches at `k` or
/// at a longer window, never at a shorter one.
pub proof fn lemma_fallback_monotonicity(
    table: Map<Seq<State>, Seq<State>>,
    history: Seq<State>,
    order: int,
    k: int,
)
    requires
        0 <= k <= order,
        table.contains_key(fallback_key(history, k)),
    ensures
        matched_order(table, history, order) >= k,
    decreases order,
{
    if order > k && !table.contains_key(fallback_key(history, order)) {
        lemma_fallback_monotonicity(table, history, order - 1, k);
    }
}

/// The empty key collects every position of the input as a successor.
proof fn lemma_empty_key_successors(input: Seq<State>, end: int)
    requires
        0 <= end <= input.len(),
    ensures
        successors_upto(input, Seq::empty(), end).len() == end,
    decreases end,
{
    if end > 0 {
        lemma_empty_key_successors(input, end - 1);
        assert(input.subrange(end - 1, end - 1) =~= Seq::<State>::empty());
        assert(window_matches(input, Seq::empty(), end - 1));
    }
}

/// Graceful degradation: the fallback search bottoms out at the empty
/// window, and that window is trained exactly when the maximum order is
/// positive and the training input is non-empty.  A search with ceiling zero
/// therefore matches if and only if the model saw any input at all.
pub proof fn lemma_graceful_degradation(max_order: int, input: Seq<State>, history: Seq<State>)
    ensures
        matched_order(trained_table(max_order, input), history, 0) >= 0 <==> (max_order >= 1
            && input.len() > 0),
{
    assert(fallback_key(history, 0) =~= Seq::<State>::empty());
    lemma_empty_key_successors(input, input.len() as int);
}

} // verus!
