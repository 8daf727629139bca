//! The dictionary index: an ordered map from words to frequencies, kept in
//! a finite state transducer of the `fst` crate.
//!
//! The transducer is opaque to the proofs. What it holds has a name,
//! `index_words`, and each operation on it is described by what it does to
//! that name. These descriptions are taken on trust from the crate.

use vstd::prelude::*;
use vstd::utf8::is_ascii_chars;
use crate::distance::within_edits;
use crate::order::Entry;
use crate::sorting::{entries_view, has_word};

verus! {

/// `fst::Map`, an immutable ordered map from byte strings to integers,
/// carried through as an opaque value.
#[verifier::external_type_specification]
#[verifier::external_body]
#[verifier::reject_recursive_types(D)]
pub struct ExMap<D>(fst::Map<D>);

/// The entries of the index whose keys are valid UTF-8, as words with their
/// values, in ascending order of the keys' bytes.
pub uninterp spec fn index_words(index: fst::Map<Vec<u8>>) -> Seq<(Seq<char>, u64)>;

/// The entries that lie within `distance` edits of `query`.
pub open spec fn near(query: Seq<char>, distance: u32) -> spec_fn(Entry) -> bool {
    |e: Entry| within_edits(e.0, query, distance)
}

/// `fst::Map::from_iter` on the entries, each word as its UTF-8 bytes.
///
/// The call succeeds only on keys that ascend strictly, and the map then
/// holds exactly the pairs it was given, so its entries in key order are the
/// given entries. Nothing is claimed about when the call succeeds.
#[verifier::external_body]
pub(crate) fn build_index(entries: &Vec<(String, u64)>) -> (built: Option<fst::Map<Vec<u8>>>)
    ensures
        built matches Some(index) ==> index_words(index) == entries_view(entries@),
{
    fst::Map::from_iter(entries.iter().map(|e| (e.0.as_str(), e.1))).ok()
}

/// `fst::Map::contains_key` on the word's UTF-8 bytes: whether the word is
/// a key of the index.
#[verifier::external_body]
pub(crate) fn index_contains(index: &fst::Map<Vec<u8>>, word: &str) -> (found: bool)
    ensures
        found == has_word(index_words(*index), word@),
{
    index.contains_key(word)
}

/// `fst::automaton::Levenshtein::new` for the query and distance, then
/// `fst::Map::search` with that automaton, `into_stream` and `into_str_vec`.
///
/// The automaton accepts the words within `distance` insertions, deletions
/// and substitutions of characters from the query, and the stream hands out
/// the accepted entries in key order. Nothing is claimed about when the
/// automaton can be built. The query must be ASCII: around a character of
/// several bytes this automaton drops the transitions of other characters
/// that share its first byte, and words are then missed. The distance must
/// be less than `u32::MAX`: the automaton counts one beyond it in a `usize`.
#[verifier::external_body]
pub(crate) fn index_search(index: &fst::Map<Vec<u8>>, query: &str, distance: u32) -> (found:
    Option<Vec<(String, u64)>>)
    requires
        is_ascii_chars(query@),
        distance < u32::MAX,
    ensures
        found matches Some(entries) ==> entries_view(entries@) == index_words(*index).filter(
            near(query@, distance),
        ),
{
    match fst::automaton::Levenshtein::new(query, distance) {
        Ok(automaton) => {
            fst::IntoStreamer::into_stream(index.search(automaton)).into_str_vec().ok()
        },
        Err(_) => None,
    }
}

} // verus!
