//! The spell checker: a dictionary of words with frequencies, and the
//! queries on it.

use vstd::prelude::*;
use crate::distance::{within_distance, within_edits};
use crate::index::{build_index, index_contains, index_search, index_words, near};
use crate::order::{ascending_words, lemma_order_total, lemma_word_key_injective, lex_leq, lex_less,
    word_key, Entry, Order};
use crate::sorting::{entries_view, find_word, has_word, sort_entries};
use crate::tokenizer::{token_views, tokens_of, Token, TokenView, Tokenizer};
use crate::unicode::{lowercase, str_to_lowercase};
use crate::utils::{chars_of, match_str_case, recase};

verus! {

/// No two entries have the same word.
pub open spec fn distinct_words(entries: Seq<Entry>) -> bool {
    forall|i: int, j: int| 0 <= i < j < entries.len() ==> entries[i].0 != entries[j].0
}

/// The entries within `distance` edits of `query`, in the order of `entries`.
pub open spec fn matches(entries: Seq<Entry>, query: Seq<char>, distance: u32) -> Seq<Entry> {
    entries.filter(near(query, distance))
}

/// Entries by descending frequency; entries of one frequency by ascending
/// bytes of the word.
pub open spec fn ranked(found: Seq<Entry>) -> Seq<Entry> {
    found.sort_by(Order::Rank.relation())
}

/// The word of an entry in the casing of `pattern`.
pub open spec fn recased(pattern: Seq<char>) -> spec_fn(Entry) -> Seq<char> {
    |e: Entry| recase(pattern, e.0)
}

/// The suggestions for `word`: the entries within `distance` edits of its
/// lowercase form, ranked, cut to the `limit` best, each in the casing of `word`.
pub open spec fn corrections(
    entries: Seq<Entry>,
    word: Seq<char>,
    distance: u32,
    limit: nat,
) -> Seq<Seq<char>> {
    let best = ranked(matches(entries, lowercase(word), distance));
    let count = if limit <= best.len() { limit } else { best.len() };
    best.take(count as int).map_values(recased(word))
}

/// Whether `suggestion` is a dictionary word within `distance` edits of the
/// lowercase form of `word`, in the casing of `word`.
pub open spec fn is_suggestion(
    entries: Seq<Entry>,
    word: Seq<char>,
    distance: u32,
    suggestion: Seq<char>,
) -> bool {
    exists|i: int|
        0 <= i < entries.len() && within_edits((#[trigger] entries[i]).0, lowercase(word), distance)
            && suggestion == recase(word, entries[i].0)
}

/// The contents of a vector of strings.
pub open spec fn strings_view(v: Seq<String>) -> Seq<Seq<char>> {
    Seq::new(v.len(), |i: int| v[i]@)
}

/// A sequence with one more element is filtered by filtering what was there
/// and keeping the new element if it passes.
pub proof fn lemma_filter_push<A>(s: Seq<A>, x: A, pred: spec_fn(A) -> bool)
    ensures
        s.push(x).filter(pred) == if pred(x) {
            s.filter(pred).push(x)
        } else {
            s.filter(pred)
        },
        Seq::<A>::empty().filter(pred) == Seq::<A>::empty(),
{
    reveal(Seq::filter);
    assert(s.push(x).drop_last() == s);
}

/// Whether `first` stands somewhere in `s` and `second` somewhere after it.
pub open spec fn in_order<A>(s: Seq<A>, first: A, second: A) -> bool {
    exists|i: int, j: int|
        0 <= i < j < s.len() && #[trigger] s[i] == first && #[trigger] s[j] == second
}

/// Filtering keeps the order: of two elements of the result, the earlier one
/// also stands earlier in the sequence that was filtered.
pub proof fn lemma_filter_keeps_order<A>(s: Seq<A>, pred: spec_fn(A) -> bool, k: int, l: int)
    requires
        0 <= k < l < s.filter(pred).len(),
    ensures
        in_order(s, s.filter(pred)[k], s.filter(pred)[l]),
    decreases s.len(),
{
    reveal(Seq::filter);
    let kept = s.filter(pred);
    let shorter = s.drop_last();
    if pred(s.last()) && l == kept.len() - 1 {
        shorter.lemma_filter_contains_rev(pred, kept[k]);
        let i = choose|i: int| 0 <= i < shorter.len() && shorter[i] == kept[k];
        assert(s[i] == kept[k] && s[s.len() - 1] == kept[l]);
    } else {
        lemma_filter_keeps_order(shorter, pred, k, l);
        let (i, j) = choose|i: int, j: int|
            0 <= i < j < shorter.len() && #[trigger] shorter[i] == kept[k] && #[trigger] shorter[j]
                == kept[l];
        assert(s[i] == kept[k] && s[j] == kept[l]);
    }
}

/// The dictionary that `SpellChecker::new` builds from distinct words holds
/// the given entries and no others, its words are distinct, and they ascend
/// strictly in the order of their bytes.
pub proof fn lemma_dictionary_sorted(given: Seq<Entry>)
    requires
        distinct_words(given),
    ensures
        ({
            let kept = given.sort_by(Order::Word.relation());
            &&& kept.to_multiset() == given.to_multiset()
            &&& distinct_words(kept)
            &&& forall|word: Seq<char>| has_word(kept, word) <==> has_word(given, word)
            &&& ascending_words(kept)
        }),
{
    let rel = Order::Word.relation();
    let kept = given.sort_by(rel);
    lemma_order_total(Order::Word);
    given.lemma_sort_by_ensures(rel);
    given.to_multiset_ensures();
    kept.to_multiset_ensures();
    assert(given.no_duplicates());
    given.lemma_multiset_has_no_duplicates();
    kept.lemma_multiset_has_no_duplicates_conv();
    assert forall|i: int| 0 <= i < kept.len() implies given.contains(#[trigger] kept[i]) by {
        assert(kept.contains(kept[i]));
        assert(kept.to_multiset().count(kept[i]) > 0);
        assert(given.to_multiset().count(kept[i]) > 0);
    }
    assert forall|i: int| 0 <= i < given.len() implies kept.contains(#[trigger] given[i]) by {
        assert(given.contains(given[i]));
        assert(given.to_multiset().count(given[i]) > 0);
        assert(kept.to_multiset().count(given[i]) > 0);
    }
    assert forall|i: int, j: int| 0 <= i < j < kept.len() implies kept[i].0 != kept[j].0 by {
        assert(given.contains(kept[i]) && given.contains(kept[j]));
        let p = choose|p: int| 0 <= p < given.len() && given[p] == kept[i];
        let q = choose|q: int| 0 <= q < given.len() && given[q] == kept[j];
        assert(kept[i] != kept[j]);
    }
    assert forall|word: Seq<char>| has_word(kept, word) <==> has_word(given, word) by {
        if has_word(kept, word) {
            let i = choose|i: int| 0 <= i < kept.len() && (#[trigger] kept[i]).0 == word;
            assert(given.contains(kept[i]));
            let p = choose|p: int| 0 <= p < given.len() && given[p] == kept[i];
            assert(given[p].0 == word);
        }
        if has_word(given, word) {
            let p = choose|p: int| 0 <= p < given.len() && (#[trigger] given[p]).0 == word;
            assert(kept.contains(given[p]));
            let i = choose|i: int| 0 <= i < kept.len() && kept[i] == given[p];
            assert(kept[i].0 == word);
        }
    }
    assert forall|i: int, j: int| 0 <= i < j < kept.len() implies lex_less(
        word_key((#[trigger] kept[i]).0),
        word_key((#[trigger] kept[j]).0),
    ) by {
        assert(rel(kept[i], kept[j]));
        if word_key(kept[i].0) == word_key(kept[j].0) {
            lemma_word_key_injective(kept[i].0, kept[j].0);
        }
    }
}

/// Ranking keeps every entry and puts higher frequencies first; entries of
/// one frequency stand in the order of the bytes of their words.
pub proof fn lemma_ranked_descending(found: Seq<Entry>)
    ensures
        ranked(found).to_multiset() == found.to_multiset(),
        ranked(found).len() == found.len(),
        forall|i: int, j: int|
            0 <= i < j < ranked(found).len() ==> {
                let (first, second) = (#[trigger] ranked(found)[i], #[trigger] ranked(found)[j]);
                &&& first.1 >= second.1
                &&& first.1 == second.1 ==> lex_leq(word_key(first.0), word_key(second.0))
            },
{
    let rel = Order::Rank.relation();
    lemma_order_total(Order::Rank);
    found.lemma_sort_by_ensures(rel);
    found.to_multiset_ensures();
    ranked(found).to_multiset_ensures();
    assert forall|i: int, j: int| 0 <= i < j < ranked(found).len() implies {
        let (first, second) = (#[trigger] ranked(found)[i], #[trigger] ranked(found)[j]);
        &&& first.1 >= second.1
        &&& first.1 == second.1 ==> lex_leq(word_key(first.0), word_key(second.0))
    } by {
        assert(rel(ranked(found)[i], ranked(found)[j]));
    }
}

/// A dictionary word that is its own lowercase form is known, and so is
/// every word with that lowercase form.
pub proof fn lemma_dictionary_words_known(checker: SpellChecker, word: Seq<char>)
    requires
        has_word(checker@, word),
        lowercase(word) == word,
    ensures
        checker.knows(word),
        forall|variant: Seq<char>| lowercase(variant) == word ==> checker.knows(variant),
{
}

/// Where no dictionary word lies within `distance` edits of the lowercase
/// form of `word`, there are no suggestions.
pub proof fn lemma_nothing_near(entries: Seq<Entry>, word: Seq<char>, distance: u32, limit: nat)
    requires
        forall|i: int|
            0 <= i < entries.len() ==> !within_edits(
                (#[trigger] entries[i]).0,
                lowercase(word),
                distance,
            ),
    ensures
        corrections(entries, word, distance, limit) == Seq::<Seq<char>>::empty(),
{
    let found = matches(entries, lowercase(word), distance);
    if found.len() > 0 {
        entries.lemma_filter_pred(near(lowercase(word), distance), 0);
        entries.lemma_filter_contains_rev(near(lowercase(word), distance), found[0]);
    }
    lemma_ranked_descending(found);
}

/// There are at most `limit` suggestions, and each is a dictionary word
/// within `distance` edits of the lowercase form of `word`, in the casing of
/// `word`.
pub proof fn lemma_corrections_bounded(
    entries: Seq<Entry>,
    word: Seq<char>,
    distance: u32,
    limit: nat,
)
    ensures
        corrections(entries, word, distance, limit).len() <= limit,
        corrections(entries, word, distance, limit).len() <= entries.len(),
        forall|k: int|
            0 <= k < corrections(entries, word, distance, limit).len() ==> is_suggestion(
                entries,
                word,
                distance,
                #[trigger] corrections(entries, word, distance, limit)[k],
            ),
{
    let pred = near(lowercase(word), distance);
    let found = matches(entries, lowercase(word), distance);
    let best = ranked(found);
    let out = corrections(entries, word, distance, limit);
    lemma_ranked_descending(found);
    found.to_multiset_ensures();
    best.to_multiset_ensures();
    entries.lemma_filter_len(pred);
    assert forall|k: int| 0 <= k < out.len() implies is_suggestion(
        entries,
        word,
        distance,
        #[trigger] out[k],
    ) by {
        assert(best.contains(best[k]));
        assert(best.to_multiset().count(best[k]) > 0);
        assert(found.to_multiset().count(best[k]) > 0);
        assert(found.contains(best[k]));
        entries.lemma_filter_contains_rev(pred, best[k]);
        let i = choose|i: int| 0 <= i < entries.len() && entries[i] == best[k];
        assert(within_edits(entries[i].0, lowercase(word), distance));
        assert(out[k] == recase(word, entries[i].0));
    }
}

/// The frequency that the entries give for a word.
pub open spec fn frequency_of(entries: Seq<Entry>, word: Seq<char>) -> u64 {
    let i = choose|i: int| 0 <= i < entries.len() && (#[trigger] entries[i]).0 == word;
    entries[i].1
}

/// Whether lowercasing undoes the casing of `word` on the word of an entry.
pub open spec fn lowercase_undoes(word: Seq<char>, entry: Entry) -> bool {
    lowercase(recase(word, entry.0)) == entry.0
}

/// Where lowercasing a recased dictionary word gives the dictionary word
/// again, the suggestions can be read back: the lowercase form of each is a
/// dictionary word within `distance` edits of the lowercase form of `word`,
/// and the frequencies of these words descend along the suggestions.
///
/// The case tables decide whether the condition holds. It does not for a
/// word with a sharp s under an uppercase pattern, which comes out as `SS`.
pub proof fn lemma_corrections_read_back(
    entries: Seq<Entry>,
    word: Seq<char>,
    distance: u32,
    limit: nat,
)
    requires
        distinct_words(entries),
        forall|i: int| 0 <= i < entries.len() ==> lowercase_undoes(word, #[trigger] entries[i]),
    ensures
        forall|k: int|
            0 <= k < corrections(entries, word, distance, limit).len() ==> {
                let found = lowercase(#[trigger] corrections(entries, word, distance, limit)[k]);
                has_word(entries, found) && within_edits(found, lowercase(word), distance)
            },
        forall|k: int, l: int|
            0 <= k < l < corrections(entries, word, distance, limit).len() ==> frequency_of(
                entries,
                lowercase(#[trigger] corrections(entries, word, distance, limit)[k]),
            ) >= frequency_of(
                entries,
                lowercase(#[trigger] corrections(entries, word, distance, limit)[l]),
            ),
{
    let pred = near(lowercase(word), distance);
    let found = matches(entries, lowercase(word), distance);
    let best = ranked(found);
    let out = corrections(entries, word, distance, limit);
    lemma_ranked_descending(found);
    found.to_multiset_ensures();
    best.to_multiset_ensures();
    assert forall|k: int| 0 <= k < out.len() implies lowercase(#[trigger] out[k]) == best[k].0
        && has_word(entries, best[k].0) && within_edits(best[k].0, lowercase(word), distance)
        && frequency_of(entries, best[k].0) == best[k].1 by {
        assert(best.contains(best[k]));
        assert(best.to_multiset().count(best[k]) > 0);
        assert(found.to_multiset().count(best[k]) > 0);
        assert(found.contains(best[k]));
        entries.lemma_filter_contains_rev(pred, best[k]);
        let i = choose|i: int| 0 <= i < entries.len() && entries[i] == best[k];
        assert(lowercase_undoes(word, entries[i]));
        assert(within_edits(entries[i].0, lowercase(word), distance));
        assert(entries[i].0 == best[k].0);
        let j = choose|j: int| 0 <= j < entries.len() && (#[trigger] entries[j]).0 == best[k].0;
        assert(i == j);
    }
    assert forall|k: int, l: int| 0 <= k < l < out.len() implies frequency_of(
        entries,
        lowercase(#[trigger] out[k]),
    ) >= frequency_of(entries, lowercase(#[trigger] out[l])) by {
        assert(lowercase(out[k]) == best[k].0 && lowercase(out[l]) == best[l].0);
        assert(best[k].1 >= best[l].1);
    }
}

/// A sentence of known words has no unknown tokens.
pub proof fn lemma_no_unknowns(checker: SpellChecker, sentence: Seq<char>)
    requires
        forall|k: int|
            0 <= k < tokens_of(sentence).len() ==> checker.knows(
                (#[trigger] tokens_of(sentence)[k]).text,
            ),
    ensures
        tokens_of(sentence).filter(checker.unknown()) == Seq::<TokenView>::empty(),
{
    let all = tokens_of(sentence);
    let kept = all.filter(checker.unknown());
    if kept.len() > 0 {
        all.lemma_filter_pred(checker.unknown(), 0);
        all.lemma_filter_contains_rev(checker.unknown(), kept[0]);
    }
}

/// The unknown tokens of a sentence are tokens of the sentence that the
/// dictionary does not know; none of those is left out; and they stand in
/// the order of the sentence.
pub proof fn lemma_unknowns_exact(checker: SpellChecker, sentence: Seq<char>)
    ensures
        ({
            let all = tokens_of(sentence);
            let kept = all.filter(checker.unknown());
            &&& forall|k: int|
                0 <= k < kept.len() ==> all.contains(#[trigger] kept[k]) && !checker.knows(
                    kept[k].text,
                )
            &&& forall|i: int|
                0 <= i < all.len() && !checker.knows((#[trigger] all[i]).text) ==> kept.contains(
                    all[i],
                )
            &&& forall|k: int, l: int|
                0 <= k < l < kept.len() ==> in_order(all, #[trigger] kept[k], #[trigger] kept[l])
        }),
{
    let all = tokens_of(sentence);
    let pred = checker.unknown();
    let kept = all.filter(pred);
    assert forall|k: int| 0 <= k < kept.len() implies all.contains(#[trigger] kept[k])
        && !checker.knows(kept[k].text) by {
        all.lemma_filter_pred(pred, k);
        all.lemma_filter_contains_rev(pred, kept[k]);
    }
    assert forall|i: int| 0 <= i < all.len() && !checker.knows((#[trigger] all[i]).text) implies
        kept.contains(all[i]) by {
        all.lemma_filter_contains(pred, i);
    }
    assert forall|k: int, l: int| 0 <= k < l < kept.len() implies in_order(
        all,
        #[trigger] kept[k],
        #[trigger] kept[l],
    ) by {
        lemma_filter_keeps_order(all, pred, k, l);
    }
}

/// A dictionary and the queries on it. Built once, never changed.
///
/// The entries are kept sorted by their words. Beside them stands an index
/// over the same entries, which answers the queries where it can: it may be
/// missing, it serves approximate searches for ASCII queries only, and it
/// gives up on searches whose automaton grows too large. Every query falls
/// back on the sorted entries then, so the answers do not depend on it.
#[derive(Debug)]
pub struct SpellChecker {
    entries: Vec<(String, u64)>,
    index: Option<fst::Map<Vec<u8>>>,
    tokenizer: Tokenizer,
}

impl View for SpellChecker {
    type V = Seq<Entry>;

    /// The entries of the dictionary, in the order in which they are kept.
    closed spec fn view(&self) -> Seq<Entry> {
        entries_view(self.entries@)
    }
}

impl Default for SpellChecker {
    /// A checker with an empty dictionary.
    fn default() -> (checker: Self)
        ensures
            checker@ == Seq::<Entry>::empty(),
    {
        let dictionary: Vec<(String, u64)> = Vec::new();
        proof {
            let given = entries_view(dictionary@);
            lemma_order_total(Order::Word);
            given.lemma_sort_by_ensures(Order::Word.relation());
            given.to_multiset_ensures();
            given.sort_by(Order::Word.relation()).to_multiset_ensures();
        }
        SpellChecker::new(dictionary)
    }
}

impl SpellChecker {
    /// The entries ascend strictly by their words, and the index, where
    /// there is one, holds the entries.
    #[verifier::type_invariant]
    spec fn indexed(self) -> bool {
        &&& ascending_words(entries_view(self.entries@))
        &&& self.index matches Some(index) ==> index_words(index) == entries_view(self.entries@)
    }

    /// Whether the lowercase form of `word` is a word of the dictionary.
    pub open spec fn knows(&self, word: Seq<char>) -> bool {
        has_word(self@, lowercase(word))
    }

    /// The tokens whose text the dictionary does not know.
    pub open spec fn unknown(&self) -> spec_fn(TokenView) -> bool {
        |t: TokenView| !self.knows(t.text)
    }

    /// Builds a checker from words and their frequencies, given in any order.
    ///
    /// The words must be distinct. The dictionary keeps the entries sorted
    /// by the bytes of the words.
    pub fn new(dictionary: Vec<(String, u64)>) -> (checker: Self)
        requires
            distinct_words(entries_view(dictionary@)),
        ensures
            checker@ == entries_view(dictionary@).sort_by(Order::Word.relation()),
    {
        let entries = sort_entries(&dictionary, Order::Word);
        proof {
            lemma_dictionary_sorted(entries_view(dictionary@));
        }
        let index = build_index(&entries);
        SpellChecker { entries, index, tokenizer: Tokenizer::default() }
    }

    /// Whether the lowercase form of `word` is a word of the dictionary.
    pub fn contains(&self, word: &str) -> (found: bool)
        ensures
            found == self.knows(word@),
    {
        proof {
            use_type_invariant(self);
        }
        let lower = str_to_lowercase(word);
        match &self.index {
            Some(index) => index_contains(index, lower.as_str()),
            None => find_word(&self.entries, lower.as_str()),
        }
    }

    /// Whether `word` is in the dictionary, whatever its casing.
    pub fn check(&self, word: &str) -> (known: bool)
        ensures
            known == self.knows(word@),
    {
        self.contains(word)
    }

    /// The entries within `distance` edits of the lowercase form of `word`,
    /// in the order of the dictionary.
    pub fn search_within_distance(&self, word: &str, distance: u32) -> (found: Vec<(String, u64)>)
        ensures
            entries_view(found@) == matches(self@, lowercase(word@), distance),
    {
        proof {
            use_type_invariant(self);
        }
        let query = str_to_lowercase(word);
        if distance < u32::MAX && query.as_str().is_ascii() {
            if let Some(index) = &self.index {
                if let Some(found) = index_search(index, query.as_str(), distance) {
                    return found;
                }
            }
        }
        let wanted = chars_of(query.as_str());
        let mut found: Vec<(String, u64)> = Vec::new();
        let mut i: usize = 0;
        proof {
            lemma_filter_push(Seq::<Entry>::empty(), self@[0], near(query@, distance));
            assert(self@.take(0) == Seq::<Entry>::empty());
            assert(entries_view(found@) == Seq::<Entry>::empty());
        }
        while i < self.entries.len()
            invariant
                i <= self.entries.len(),
                wanted@ == query@,
                entries_view(found@) == self@.take(i as int).filter(near(query@, distance)),
            decreases self.entries.len() - i,
        {
            let ghost before = entries_view(found@);
            let candidate = chars_of(self.entries[i].0.as_str());
            proof {
                assert(self@.take(i + 1) == self@.take(i as int).push(self@[i as int]));
                lemma_filter_push(self@.take(i as int), self@[i as int], near(query@, distance));
            }
            if within_distance(&candidate, &wanted, distance) {
                found.push((self.entries[i].0.clone(), self.entries[i].1));
                assert(entries_view(found@) == before.push(self@[i as int]));
            }
            i = i + 1;
        }
        proof {
            assert(self@.take(i as int) == self@);
        }
        found
    }

    /// Up to `limit` suggestions for `word`, the most frequent first.
    ///
    /// The candidates are the dictionary words within `distance` edits of
    /// the lowercase form of `word`, an edit being the insertion, deletion
    /// or substitution of one `char`. Words of equal frequency come in the
    /// order of their bytes. Each suggestion has the casing of `word`, laid
    /// over it by user-perceived characters.
    pub fn get_corrections(&self, word: &str, distance: u32, limit: usize) -> (suggestions: Vec<
        String,
    >)
        ensures
            strings_view(suggestions@) == corrections(self@, word@, distance, limit as nat),
    {
        let found = self.search_within_distance(word, distance);
        let best = sort_entries(&found, Order::Rank);
        let ghost ranking = entries_view(best@);
        let mut suggestions: Vec<String> = Vec::new();
        let mut i: usize = 0;
        proof {
            assert(strings_view(suggestions@) == ranking.take(0).map_values(recased(word@)));
        }
        while i < best.len() && i < limit
            invariant
                i <= best.len(),
                i <= limit,
                ranking == entries_view(best@),
                strings_view(suggestions@) == ranking.take(i as int).map_values(recased(word@)),
            decreases best.len() - i,
        {
            let ghost before = strings_view(suggestions@);
            let suggestion = match_str_case(word, best[i].0.as_str());
            suggestions.push(suggestion);
            proof {
                assert(strings_view(suggestions@) == before.push(
                    recase(word@, ranking[i as int].0),
                ));
                assert(ranking.take(i + 1).map_values(recased(word@)) == ranking.take(
                    i as int,
                ).map_values(recased(word@)).push(recased(word@)(ranking[i as int])));
            }
            i = i + 1;
        }
        suggestions
    }

    /// The words of `sentence` that are not in the dictionary, in the order
    /// of the sentence.
    pub fn get_unknowns<'a>(&self, sentence: &'a str) -> (unknowns: Vec<Token<'a>>)
        ensures
            token_views(unknowns@) == tokens_of(sentence@).filter(self.unknown()),
    {
        let tokens = self.tokenizer.tokenize(sentence);
        let ghost all = token_views(tokens@);
        let mut unknowns: Vec<Token<'a>> = Vec::new();
        let mut i: usize = 0;
        proof {
            lemma_filter_push(Seq::<TokenView>::empty(), all[0], self.unknown());
            assert(all.take(0) == Seq::<TokenView>::empty());
            assert(token_views(unknowns@) == Seq::<TokenView>::empty());
        }
        while i < tokens.len()
            invariant
                i <= tokens.len(),
                all == token_views(tokens@),
                token_views(unknowns@) == all.take(i as int).filter(self.unknown()),
            decreases tokens.len() - i,
        {
            let ghost before = token_views(unknowns@);
            proof {
                assert(all.take(i + 1) == all.take(i as int).push(all[i as int]));
                lemma_filter_push(all.take(i as int), all[i as int], self.unknown());
            }
            if !self.check(tokens[i].text) {
                let token = &tokens[i];
                unknowns.push(Token { start: token.start, end: token.end, text: token.text });
                assert(token_views(unknowns@) == before.push(all[i as int]));
            }
            i = i + 1;
        }
        proof {
            assert(all.take(i as int) == all);
        }
        unknowns
    }
}

} // verus!
