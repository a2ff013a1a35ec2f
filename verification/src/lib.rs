//! A variable-order Markov chain over discrete states.
//!
//! Training slides windows of every length from one up to a configured
//! maximum across the input and records, for each window, the key (all but
//! the window's last element) together with the successor (the last element).
//! Generation looks the history up at the longest window length first and
//! falls back to shorter windows, down to the empty one, then picks uniformly
//! at random among the successors recorded for the first key that matches.

use vstd::prelude::*;

pub mod lemmas;
pub mod model;
mod table;

verus! {

use crate::model::{fallback_key, matched_order, successors_upto, trained_table};
use crate::table::{
    entries_table, entries_wf, find_key, lemma_entries_table_absent, lemma_entries_table_at,
    Entry,
};

/// A discrete state of the chain, identified by an integer code chosen by the
/// caller (a character, a word id, an event tag).
pub type State = u64;

/// A trained variable-order Markov chain: a table from history windows to the
/// successors observed after them, immutable once built.
pub struct MarkovChain {
    chains: Vec<Entry>,
    max_chain_length: usize,
}

impl MarkovChain {
    /// The table of this model: each trained key mapped to the successors
    /// observed after it, in order of appearance and with duplicates kept.
    pub closed spec fn table(self) -> Map<Seq<State>, Seq<State>> {
        entries_table(self.chains@)
    }

    /// The maximum window length this model was built with.
    pub closed spec fn max_order(self) -> int {
        self.max_chain_length as int
    }

    #[verifier::type_invariant]
    spec fn wf(self) -> bool {
        entries_wf(self.chains@)
    }

    /// Train a model on `input`: for every window length from one up to
    /// `max_chain_length`, record each window of the input under its key (the
    /// window without its last element) with its successor (the last
    /// element).  Short input simply contributes fewer windows; this never
    /// fails.
    pub fn new(max_chain_length: usize, input: Vec<State>) -> (result: Self)
        ensures
            result.max_order() == max_chain_length,
            result.table() == trained_table(max_chain_length as int, input@),
    {
        let mut chains: Vec<Entry> = Vec::new();
        proof {
            crate::table::lemma_entries_table_empty();
            crate::lemmas::lemma_partial_empty(input@);
        }
        let mut iteration: usize = 0;
        while iteration < max_chain_length
            invariant
                iteration <= max_chain_length,
                entries_wf(chains@),
                entries_table(chains@) == crate::model::partial_table(
                    input@,
                    iteration as int,
                    iteration as int,
                ),
            decreases max_chain_length - iteration,
        {
            if iteration < input.len() {
                let mut j: usize = iteration;
                while j < input.len()
                    invariant
                        iteration <= j <= input@.len(),
                        entries_wf(chains@),
                        entries_table(chains@) == crate::model::partial_table(
                            input@,
                            iteration as int,
                            j as int,
                        ),
                    decreases input@.len() - j,
                {
                    let start: usize = j - iteration;
                    let key = crate::table::copy_slice(&input, start, j);
                    let next_state: State = input[j];
                    let ghost chains0 = chains@;
                    proof {
                        crate::lemmas::lemma_partial_step(input@, iteration as int, j as int);
                    }
                    match find_key(&chains, &key) {
                        Some(idx) => {
                            proof {
                                lemma_entries_table_at(chains0, idx as int);
                            }
                            let mut e = chains.remove(idx);
                            e.successors.push(next_state);
                            proof {
                                crate::table::lemma_entries_update(chains0, idx as int, e);
                            }
                            chains.push(e);
                        },
                        None => {
                            proof {
                                lemma_entries_table_absent(chains0, key@);
                            }
                            let mut succ: Vec<State> = Vec::new();
                            succ.push(next_state);
                            let e = Entry { key, successors: succ };
                            proof {
                                crate::table::lemma_entries_push(chains0, e);
                                assert(successors_upto(input@, e.key@, j as int) =~= Seq::<
                                    State,
                                >::empty());
                                assert(e.successors@ =~= successors_upto(
                                    input@,
                                    e.key@,
                                    j as int,
                                ).push(input@[j as int]));
                            }
                            chains.push(e);
                        },
                    }
                    j += 1;
                }
                proof {
                    crate::lemmas::lemma_partial_next_order(
                        input@,
                        iteration as int,
                        input@.len() as int,
                    );
                }
            } else {
                proof {
                    crate::lemmas::lemma_partial_next_order(
                        input@,
                        iteration as int,
                        iteration as int,
                    );
                }
            }
            iteration += 1;
        }
        proof {
            crate::lemmas::lemma_partial_complete(input@, max_chain_length as int);
        }
        MarkovChain { chains, max_chain_length }
    }

    /// Predict a state to follow the given history, using this model's
    /// maximum chain length as the window-length ceiling.
    pub fn generate(&self, state: &Vec<State>) -> (result: Option<State>)
        ensures
            match result {
                Some(v) => {
                    let m = matched_order(self.table(), state@, self.max_order());
                    &&& m >= 0
                    &&& self.table().contains_key(fallback_key(state@, m))
                    &&& self.table()[fallback_key(state@, m)].contains(v)
                },
                None => matched_order(self.table(), state@, self.max_order()) == -1,
            },
    {
        self.generate_with_length(self.max_chain_length, state)
    }

    /// Predict a state to follow the given history, trying window lengths
    /// from the given ceiling (clamped to this model's maximum) down to the
    /// empty window, and picking a random recorded successor of the first
    /// matching key.  A history shorter than the window length tried is
    /// looked up whole, not rejected.
    pub fn generate_with_length(&self, max_chain_length: usize, state: &Vec<State>) -> (result:
        Option<State>)
        ensures
            ({
                let limit = vstd::math::min(self.max_order(), max_chain_length as int);
                match result {
                    Some(v) => {
                        let m = matched_order(self.table(), state@, limit);
                        &&& m >= 0
                        &&& self.table().contains_key(fallback_key(state@, m))
                        &&& self.table()[fallback_key(state@, m)].contains(v)
                    },
                    None => matched_order(self.table(), state@, limit) == -1,
                }
            }),
    {
        proof {
            use_type_invariant(&*self);
        }
        let limit: usize = if self.max_chain_length < max_chain_length {
            self.max_chain_length
        } else {
            max_chain_length
        };
        let mut remaining: usize = limit;
        loop
            invariant
                remaining <= limit,
                limit as int == vstd::math::min(self.max_order(), max_chain_length as int),
                entries_wf(self.chains@),
                matched_order(self.table(), state@, limit as int) == matched_order(
                    self.table(),
                    state@,
                    remaining as int,
                ),
            decreases remaining,
        {
            let from: usize = if state.len() < remaining {
                0
            } else {
                state.len() - remaining
            };
            let key = crate::table::copy_slice(state, from, state.len());
            proof {
                if state@.len() < remaining {
                    assert(state@.subrange(0, state@.len() as int) =~= state@);
                }
                assert(key@ == fallback_key(state@, remaining as int));
            }
            match find_key(&self.chains, &key) {
                Some(i) => {
                    proof {
                        lemma_entries_table_at(self.chains@, i as int);
                    }
                    let successors: &Vec<State> = &self.chains[i].successors;
                    let idx: usize = random_index(successors.len());
                    proof {
                        assert(self.table()[key@][idx as int] == successors@[idx as int]);
                    }
                    return Some(successors[idx]);
                },
                None => {
                    proof {
                        lemma_entries_table_absent(self.chains@, key@);
                    }
                    if remaining == 0 {
                        return None;
                    }
                    remaining = remaining - 1;
                },
            }
        }
    }

    /// The successors recorded for an exact key, if that key was trained:
    /// each observed occurrence, in order of appearance.
    pub fn successors(&self, key: &Vec<State>) -> (result: Option<&Vec<State>>)
        ensures
            match result {
                Some(v) => self.table().contains_key(key@) && v@ == self.table()[key@],
                None => !self.table().contains_key(key@),
            },
    {
        proof {
            use_type_invariant(&*self);
        }
        match find_key(&self.chains, key) {
            Some(i) => {
                proof {
                    lemma_entries_table_at(self.chains@, i as int);
                }
                Some(&self.chains[i].successors)
            },
            None => {
                proof {
                    lemma_entries_table_absent(self.chains@, key@);
                }
                None
            },
        }
    }
}

impl Clone for MarkovChain {
    /// A clone predicts exactly as the original does: same table, same
    /// maximum order.
    fn clone(&self) -> (result: Self)
        ensures
            result.table() == self.table(),
            result.max_order() == self.max_order(),
    {
        proof {
            use_type_invariant(&*self);
        }
        let mut chains: Vec<Entry> = Vec::new();
        let n: usize = self.chains.len();
        let mut i: usize = 0;
        while i < n
            invariant
                n == self.chains@.len(),
                i <= n,
                chains@.len() == i,
                entries_wf(self.chains@),
                forall|k: int|
                    0 <= k < i ==> (#[trigger] chains@[k]).key@ == self.chains@[k].key@
                        && chains@[k].successors@ == self.chains@[k].successors@,
            decreases n - i,
        {
            let entry = &self.chains[i];
            let key = crate::table::copy_slice(&entry.key, 0, entry.key.len());
            let successors = crate::table::copy_slice(&entry.successors, 0, entry.successors.len());
            proof {
                assert(key@ =~= entry.key@);
                assert(successors@ =~= entry.successors@);
            }
            chains.push(Entry { key, successors });
            i += 1;
        }
        proof {
            crate::table::lemma_entries_same_views(chains@, self.chains@);
        }
        MarkovChain { chains, max_chain_length: self.max_chain_length }
    }
}

/// Relies on rand::Rng::gen_range over the integer range `0..len`: it returns
/// a uniformly random value of that range, and panics only when the range is
/// empty, which `len > 0` rules out.
#[verifier::external_body]
fn random_index(len: usize) -> (r: usize)
    requires
        len > 0,
    ensures
        r < len,
{
    rand::Rng::gen_range(&mut rand::thread_rng(), 0..len)
}

} // verus!
