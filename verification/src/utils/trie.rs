//! The prefix tree that the decoder looks codewords up in.
//!
//! The tree is `trie_rs::Trie`, made by `trie_rs::TrieBuilder`. Its words are
//! codewords: sequences of bits, one `u8` for each bit.

use trie_rs::{Trie, TrieBuilder};
use vstd::prelude::*;

verus! {

/// `trie_rs::Trie`, taken as it is: nothing is known of what is inside a
/// tree but through the functions below.
#[verifier::external_type_specification]
#[verifier::external_body]
#[verifier::reject_recursive_types(Label)]
pub struct ExTrie<Label>(Trie<Label>);

/// `trie_rs::TrieBuilder`, taken as it is.
#[verifier::external_type_specification]
#[verifier::external_body]
#[verifier::reject_recursive_types(Label)]
pub struct ExTrieBuilder<Label>(TrieBuilder<Label>);

/// The words that the tree holds.
pub uninterp spec fn trie_words(trie: Trie<u8>) -> Set<Seq<u8>>;

/// The words that were given to the builder.
pub uninterp spec fn builder_words(builder: TrieBuilder<u8>) -> Set<Seq<u8>>;

/// `TrieBuilder::new`: the builder that it makes holds no word.
#[verifier::external_body]
pub(crate) fn builder_new() -> (builder: TrieBuilder<u8>)
    ensures
        builder_words(builder) == Set::<Seq<u8>>::empty(),
{
    TrieBuilder::new()
}

/// `TrieBuilder::push`: the builder holds one more word, the one given. The
/// word is not empty: the builder does not take an empty one.
#[verifier::external_body]
pub(crate) fn builder_push(builder: &mut TrieBuilder<u8>, entry: &[u8])
    requires
        entry@.len() > 0,
    ensures
        builder_words(*final(builder)) == builder_words(*old(builder)).insert(entry@),
{
    builder.push(entry)
}

/// `TrieBuilder::build`: the tree holds the words of the builder.
#[verifier::external_body]
pub(crate) fn builder_build(builder: TrieBuilder<u8>) -> (trie: Trie<u8>)
    ensures
        trie_words(trie) == builder_words(builder),
{
    builder.build()
}

/// `Trie::exact_match`: whether `query` is a word of the tree. An empty query
/// is none.
#[verifier::external_body]
pub(crate) fn trie_exact_match(trie: &Trie<u8>, query: &[u8]) -> (found: bool)
    ensures
        found == (query@.len() > 0 && trie_words(*trie).contains(query@)),
{
    trie.exact_match(query)
}

} // verus!
