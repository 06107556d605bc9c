//! Training of a subword vocabulary by iterative byte-pair-encoding merges,
//! and greedy longest-prefix tokenization with the learned vocabulary.

pub mod basics;
pub mod vocab;
pub mod trie_store;
pub mod tokenizer;

use vstd::prelude::*;

verus! {

/// True when every span length in `s` is at least one.
pub open spec fn all_positive(s: Seq<usize>) -> bool {
    forall|i: int| 0 <= i < s.len() ==> s[i] >= 1
}

} // verus!
