//! Trusted boundary to the `trie_rs` crate, which supplies the prefix
//! index over the vocabulary. The trie and its builder are opaque here;
//! what they hold is named by `trie_entries` and `builder_entries`, and
//! each wrapper states over those names what the crate's source shows.

use vstd::prelude::*;

verus! {

#[verifier::external_type_specification]
#[verifier::external_body]
#[verifier::reject_recursive_types(Label)]
pub struct ExTrie<Label>(trie_rs::Trie<Label>);

#[verifier::external_type_specification]
#[verifier::external_body]
#[verifier::reject_recursive_types(Label)]
pub struct ExTrieBuilder<Label>(trie_rs::TrieBuilder<Label>);

/// The set of entries a trie was built with.
pub uninterp spec fn trie_entries(t: trie_rs::Trie<u32>) -> Set<Seq<u32>>;

/// The set of entries pushed into a builder so far.
pub uninterp spec fn builder_entries(b: trie_rs::TrieBuilder<u32>) -> Set<Seq<u32>>;

/// Relies on trie_rs::TrieBuilder::new: a fresh builder holds no entries.
#[verifier::external_body]
pub(crate) fn builder_new() -> (b: trie_rs::TrieBuilder<u32>)
    ensures
        builder_entries(b) == Set::<Seq<u32>>::empty(),
{
    trie_rs::TrieBuilder::new()
}

/// Relies on trie_rs::TrieBuilder::push: adds the one given entry. The
/// entry must be non-empty: the crate's insertion panics on an empty one.
#[verifier::external_body]
pub(crate) fn builder_push(b: &mut trie_rs::TrieBuilder<u32>, t: &Vec<u32>)
    requires
        t@.len() >= 1,
    ensures
        builder_entries(*final(b)) == builder_entries(*old(b)).insert(t@),
{
    b.push(t)
}

/// Relies on trie_rs::TrieBuilder::build: the trie holds exactly the
/// entries that were pushed.
#[verifier::external_body]
pub(crate) fn builder_build(b: trie_rs::TrieBuilder<u32>) -> (t: trie_rs::Trie<u32>)
    ensures
        trie_entries(t) == builder_entries(b),
{
    b.build()
}

/// Relies on trie_rs::Trie::common_prefix_search: it returns the entries
/// of the trie that are prefixes of the query, and nothing else.
#[verifier::external_body]
pub(crate) fn prefix_entries(t: &trie_rs::Trie<u32>, q: &[u32]) -> (r: Vec<Vec<u32>>)
    ensures
        forall|i: int|
            0 <= i < r@.len() ==> trie_entries(*t).contains((#[trigger] r@[i])@) && (
            r@[i]@).is_prefix_of(q@),
        forall|s: Seq<u32>|
            trie_entries(*t).contains(s) && s.is_prefix_of(q@) ==> exists|i: int|
                0 <= i < r@.len() && (#[trigger] r@[i])@ == s,
{
    t.common_prefix_search::<Vec<u32>, _>(q).collect()
}

} // verus!
