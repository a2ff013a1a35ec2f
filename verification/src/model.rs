//! The mathematical model of training and of the fallback lookup.
//!
//! Training is described by `trained_table`: the map from each history window
//! (a key) to the sequence of states observed to follow it in the input, in
//! order of appearance and with duplicates kept.  The fallback lookup is
//! described by `matched_order`: the longest window length, from a given
//! ceiling down to the empty window, whose lookup key is present in a table.

use vstd::prelude::*;

verus! {

use crate::State;

/// True when position `j` of `input` is the successor of an occurrence of
/// `key`: the elements just before `j` spell out `key`.
pub open spec fn window_matches(input: Seq<State>, key: Seq<State>, j: int) -> bool {
    &&& key.len() <= j < input.len()
    &&& input.subrange(j - key.len(), j) == key
}

/// The successors of `key` contributed by positions of `input` below `end`,
/// in order of appearance, duplicates kept.
pub open spec fn successors_upto(input: Seq<State>, key: Seq<State>, end: int) -> Seq<State>
    decreases end,
{
    if end <= key.len() {
        Seq::empty()
    } else if window_matches(input, key, end - 1) {
        successors_upto(input, key, end - 1).push(input[end - 1])
    } else {
        successors_upto(input, key, end - 1)
    }
}

/// All successors of `key` in `input`: one occurrence for each window of
/// `input` whose leading elements spell out `key`.
pub open spec fn successors_of(input: Seq<State>, key: Seq<State>) -> Seq<State> {
    successors_upto(input, key, input.len() as int)
}

/// How many positions of `input` below `end` follow an occurrence of `key`
/// with the state `v`.
pub open spec fn occurrences_upto(input: Seq<State>, key: Seq<State>, v: State, end: int) -> nat
    decreases end,
{
    if end <= key.len() {
        0
    } else if window_matches(input, key, end - 1) && input[end - 1] == v {
        occurrences_upto(input, key, v, end - 1) + 1
    } else {
        occurrences_upto(input, key, v, end - 1)
    }
}

/// How many windows of `input` pair `key` with the successor `v`.
pub open spec fn occurrences(input: Seq<State>, key: Seq<State>, v: State) -> nat {
    occurrences_upto(input, key, v, input.len() as int)
}

/// The table that training on `input` with the given maximum order builds:
/// every key shorter than `max_order` that occurs with a successor, mapped to
/// all its successors.
pub open spec fn trained_table(max_order: int, input: Seq<State>) -> Map<Seq<State>, Seq<State>> {
    Map::new(
        |key: Seq<State>| key.len() < max_order && successors_of(input, key).len() > 0,
        |key: Seq<State>| successors_of(input, key),
    )
}

/// The table built part way through training: orders below `order` are done,
/// and at `order` itself only the windows whose successor position lies below
/// `pos` have been recorded.
pub(crate) open spec fn partial_successors(
    input: Seq<State>,
    key: Seq<State>,
    order: int,
    pos: int,
) -> Seq<State> {
    if key.len() < order {
        successors_of(input, key)
    } else if key.len() == order {
        successors_upto(input, key, pos)
    } else {
        Seq::empty()
    }
}

/// The map form of `partial_successors`: keys with at least one recorded
/// successor, mapped to what has been recorded so far.
pub(crate) open spec fn partial_table(input: Seq<State>, order: int, pos: int) -> Map<
    Seq<State>,
    Seq<State>,
> {
    Map::new(
        |key: Seq<State>| partial_successors(input, key, order, pos).len() > 0,
        |key: Seq<State>| partial_successors(input, key, order, pos),
    )
}

/// The lookup key tried at window length `r`: the suffix of `history` of
/// length `r`, or all of `history` when it is shorter than `r`.
pub open spec fn fallback_key(history: Seq<State>, r: int) -> Seq<State>
    recommends
        r >= 0,
{
    if history.len() < r {
        history
    } else {
        history.subrange(history.len() - r, history.len() as int)
    }
}

/// The longest window length in `[0, r]` whose fallback key is present in
/// `table`, or -1 when none is, not even the empty window.
pub open spec fn matched_order(
    table: Map<Seq<State>, Seq<State>>,
    history: Seq<State>,
    r: int,
) -> int
    decreases r,
{
    if r <= 0 {
        if table.contains_key(fallback_key(history, 0)) {
            0
        } else {
            -1
        }
    } else if table.contains_key(fallback_key(history, r)) {
        r
    } else {
        matched_order(table, history, r - 1)
    }
}

} // verus!
