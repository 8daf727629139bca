//! Tokenization: the words of a text, with their byte positions.
//!
//! A word is a maximal run of alphabetic characters. Everything else
//! (whitespace, punctuation, digits) separates words and belongs to none.

use vstd::prelude::*;
use vstd::string::StringSliceAdditionalSpecFns;
use crate::offsets::{byte_offset, char_len_utf8, lemma_offset_step, lemma_offsets_ascend,
    slice_between};
use crate::unicode::{char_is_alphabetic, is_alphabetic};

verus! {

/// A word of a text: the byte offsets at which it starts and ends in the
/// text, and the word itself, borrowed from the text.
#[derive(Debug)]
pub struct Token<'a> {
    pub start: usize,
    pub end: usize,
    pub text: &'a str,
}

/// A token as the contracts see it.
pub ghost struct TokenView {
    pub start: nat,
    pub end: nat,
    pub text: Seq<char>,
}

impl<'a> View for Token<'a> {
    type V = TokenView;

    open spec fn view(&self) -> TokenView {
        TokenView { start: self.start as nat, end: self.end as nat, text: self.text@ }
    }
}

/// The views of a sequence of tokens.
pub open spec fn token_views(tokens: Seq<Token<'_>>) -> Seq<TokenView> {
    Seq::new(tokens.len(), |k: int| tokens[k]@)
}

/// Whether a word starts at character `i`: the character is alphabetic and
/// the one before it, if there is one, is not.
pub open spec fn starts_word(text: Seq<char>, i: int) -> bool {
    &&& 0 <= i < text.len()
    &&& is_alphabetic(text[i])
    &&& (i == 0 || !is_alphabetic(text[i - 1]))
}

/// The position of the first non-alphabetic character at or after `i`, or
/// the length of the text if there is none.
pub open spec fn word_end(text: Seq<char>, i: int) -> int
    decreases text.len() - i,
{
    if 0 <= i < text.len() && is_alphabetic(text[i]) {
        word_end(text, i + 1)
    } else {
        i
    }
}

/// The positions before `n` at which words start, ascending.
pub open spec fn word_starts(text: Seq<char>, n: int) -> Seq<int> {
    Seq::new(n as nat, |i: int| i).filter(|i: int| starts_word(text, i))
}

/// The token of the word that starts at character `i`.
pub open spec fn token_at(text: Seq<char>, i: int) -> TokenView {
    TokenView {
        start: byte_offset(text, i),
        end: byte_offset(text, word_end(text, i)),
        text: text.subrange(i, word_end(text, i)),
    }
}

/// The tokens of the words that start before character `n`.
pub open spec fn tokens_before(text: Seq<char>, n: int) -> Seq<TokenView> {
    word_starts(text, n).map_values(|i: int| token_at(text, i))
}

/// The tokens of a text: one for each of its words, in the order of the text.
pub open spec fn tokens_of(text: Seq<char>) -> Seq<TokenView> {
    tokens_before(text, text.len() as int)
}

/// One more position adds a word start exactly if a word starts there.
pub proof fn lemma_word_starts_step(text: Seq<char>, n: int)
    requires
        0 <= n,
    ensures
        word_starts(text, n + 1) == if starts_word(text, n) {
            word_starts(text, n).push(n)
        } else {
            word_starts(text, n)
        },
        word_starts(text, 0) == Seq::<int>::empty(),
{
    reveal(Seq::filter);
    let longer = Seq::new((n + 1) as nat, |i: int| i);
    assert(longer.drop_last() == Seq::new(n as nat, |i: int| i));
}

/// A run of alphabetic characters that is followed by none ends where it stops.
pub proof fn lemma_word_end(text: Seq<char>, from: int, to: int)
    requires
        0 <= from <= to <= text.len(),
        forall|k: int| from <= k < to ==> is_alphabetic(#[trigger] text[k]),
        to == text.len() || !is_alphabetic(text[to]),
    ensures
        word_end(text, from) == to,
    decreases to - from,
{
    if from < to {
        lemma_word_end(text, from + 1, to);
    }
}

/// Whether the characters from `from` up to `to` are a word of the text: a
/// run of alphabetic characters that cannot be extended on either side.
pub open spec fn is_word(text: Seq<char>, from: int, to: int) -> bool {
    &&& 0 <= from < to <= text.len()
    &&& forall|k: int| from <= k < to ==> is_alphabetic(#[trigger] text[k])
    &&& (from == 0 || !is_alphabetic(text[from - 1]))
    &&& (to == text.len() || !is_alphabetic(text[to]))
}

/// The run of alphabetic characters that begins at `i` ends at `word_end`.
pub proof fn lemma_word_end_stops(text: Seq<char>, i: int)
    requires
        0 <= i <= text.len(),
    ensures
        i <= word_end(text, i) <= text.len(),
        forall|k: int| i <= k < word_end(text, i) ==> is_alphabetic(#[trigger] text[k]),
        word_end(text, i) == text.len() || !is_alphabetic(text[word_end(text, i)]),
        i < text.len() && is_alphabetic(text[i]) ==> i < word_end(text, i),
    decreases text.len() - i,
{
    if i < text.len() && is_alphabetic(text[i]) {
        lemma_word_end_stops(text, i + 1);
    }
}

/// The word starts before `n` are exactly the positions before `n` at which
/// a word starts, in ascending order.
pub proof fn lemma_word_starts(text: Seq<char>, n: int)
    requires
        0 <= n,
    ensures
        forall|k: int|
            0 <= k < word_starts(text, n).len() ==> 0 <= (#[trigger] word_starts(text, n)[k]) < n
                && starts_word(text, word_starts(text, n)[k]),
        forall|k: int, l: int|
            0 <= k < l < word_starts(text, n).len() ==> (#[trigger] word_starts(text, n)[k]) < (
            #[trigger] word_starts(text, n)[l]),
        forall|i: int| 0 <= i < n && starts_word(text, i) ==> word_starts(text, n).contains(i),
    decreases n,
{
    lemma_word_starts_step(text, 0);
    if n > 0 {
        lemma_word_starts(text, n - 1);
        lemma_word_starts_step(text, n - 1);
        let fewer = word_starts(text, n - 1);
        let all = word_starts(text, n);
        assert forall|i: int| 0 <= i < n && starts_word(text, i) implies all.contains(i) by {
            if i < n - 1 {
                let k = choose|k: int| 0 <= k < fewer.len() && fewer[k] == i;
                assert(all[k] == i);
            } else {
                assert(all[all.len() - 1] == i);
            }
        }
    }
}

/// Every token is a word of the text: it spans a run of alphabetic
/// characters that cannot be extended, holds that run as its text, and its
/// offsets are the byte offsets of the run's two ends.
pub proof fn lemma_tokens_are_words(text: Seq<char>, k: int)
    requires
        0 <= k < tokens_of(text).len(),
    ensures
        ({
            let from = word_starts(text, text.len() as int)[k];
            let to = word_end(text, from);
            &&& is_word(text, from, to)
            &&& tokens_of(text)[k].text == text.subrange(from, to)
            &&& tokens_of(text)[k].start == byte_offset(text, from)
            &&& tokens_of(text)[k].end == byte_offset(text, to)
            &&& tokens_of(text)[k].start < tokens_of(text)[k].end <= byte_offset(
                text,
                text.len() as int,
            )
        }),
{
    let from = word_starts(text, text.len() as int)[k];
    lemma_word_starts(text, text.len() as int);
    lemma_word_end_stops(text, from);
    lemma_offsets_ascend(text, from, word_end(text, from));
    lemma_offsets_ascend(text, word_end(text, from), text.len() as int);
}

/// Tokens follow one another as their words do in the text, and never
/// touch: a later token starts after the end of an earlier one.
pub proof fn lemma_tokens_in_order(text: Seq<char>, k: int, l: int)
    requires
        0 <= k < l < tokens_of(text).len(),
    ensures
        tokens_of(text)[k].end < tokens_of(text)[l].start,
{
    let n = text.len() as int;
    let (a, b) = (word_starts(text, n)[k], word_starts(text, n)[l]);
    lemma_word_starts(text, n);
    lemma_word_end_stops(text, a);
    let e = word_end(text, a);
    if e >= b {
        assert(is_alphabetic(text[b - 1]));
    }
    lemma_offsets_ascend(text, e, b);
}

/// Every alphabetic character of the text lies in a token.
pub proof fn lemma_tokens_cover(text: Seq<char>, j: int)
    requires
        0 <= j < text.len(),
        is_alphabetic(text[j]),
    ensures
        exists|k: int|
            0 <= k < tokens_of(text).len() && (#[trigger] word_starts(text, text.len() as int)[k])
                <= j < word_end(text, word_starts(text, text.len() as int)[k]),
{
    let n = text.len() as int;
    let from = lemma_run_start(text, j);
    lemma_word_starts(text, n);
    let k = choose|k: int| 0 <= k < word_starts(text, n).len() && word_starts(text, n)[k] == from;
    lemma_word_end_stops(text, from);
    if word_end(text, from) <= j {
        assert(is_alphabetic(text[word_end(text, from)]));
    }
}

/// The start of the word in which an alphabetic character lies.
proof fn lemma_run_start(text: Seq<char>, j: int) -> (from: int)
    requires
        0 <= j < text.len(),
        is_alphabetic(text[j]),
    ensures
        0 <= from <= j,
        starts_word(text, from),
        forall|k: int| from <= k <= j ==> is_alphabetic(#[trigger] text[k]),
    decreases j,
{
    if j > 0 && is_alphabetic(text[j - 1]) {
        lemma_run_start(text, j - 1)
    } else {
        j
    }
}

/// Splits text into words.
#[derive(Debug)]
pub struct Tokenizer {}

impl Default for Tokenizer {
    /// A tokenizer. It has no settings and keeps no state between calls.
    fn default() -> (tokenizer: Self) {
        Tokenizer {}
    }
}

impl Tokenizer {
    /// The words of `text`, in the order of the text.
    ///
    /// Each token holds a maximal run of alphabetic characters and the byte
    /// offsets of its first character and of the character after its last.
    pub fn tokenize<'a>(&self, text: &'a str) -> (tokens: Vec<Token<'a>>)
        ensures
            token_views(tokens@) == tokens_of(text@),
    {
        let ghost s = text@;
        let total = text.as_bytes().len();
        let mut tokens: Vec<Token<'a>> = Vec::new();
        let mut pos: usize = 0;
        let mut open: Option<usize> = None;
        let ghost mut first: int = 0;
        proof {
            lemma_word_starts_step(s, 0);
            assert(s.take(0) == Seq::<char>::empty());
            assert(token_views(tokens@) == tokens_before(s, 0));
        }
        for c in it: text.chars()
            invariant
                it.seq() == s,
                s == text@,
                total == vstd::utf8::encode_utf8(s).len(),
                pos == byte_offset(s, it.index() as int),
                open is None ==> {
                    &&& token_views(tokens@) == tokens_before(s, it.index() as int)
                    &&& (it.index() == 0 || !is_alphabetic(s[it.index() - 1]))
                },
                open matches Some(start) ==> {
                    &&& 0 <= first < it.index()
                    &&& start == byte_offset(s, first)
                    &&& starts_word(s, first)
                    &&& forall|k: int| first <= k < it.index() ==> is_alphabetic(#[trigger] s[k])
                    &&& token_views(tokens@) == tokens_before(s, first)
                    &&& word_starts(s, it.index() as int) == word_starts(s, first).push(first)
                },
        {
            let ghost n = it.index() as int;
            proof {
                lemma_offset_step(s, n);
                lemma_word_starts_step(s, n);
            }
            if char_is_alphabetic(c) {
                if open.is_none() {
                    open = Some(pos);
                    proof {
                        first = n;
                    }
                }
            } else {
                if let Some(start) = open {
                    proof {
                        lemma_word_end(s, first, n);
                    }
                    let word = slice_between(text, start, pos, Ghost(first), Ghost(n));
                    let ghost before = token_views(tokens@);
                    tokens.push(Token { start, end: pos, text: word });
                    proof {
                        assert(token_views(tokens@) == before.push(token_at(s, first)));
                        assert(tokens_before(s, n) == tokens_before(s, first).push(
                            token_at(s, first),
                        ));
                    }
                    open = None;
                }
            }
            pos = pos + char_len_utf8(c);
        }
        let ghost n = s.len() as int;
        if let Some(start) = open {
            proof {
                lemma_word_end(s, first, n);
                assert(s.take(n) == s);
            }
            let word = slice_between(text, start, total, Ghost(first), Ghost(n));
            let ghost before = token_views(tokens@);
            tokens.push(Token { start, end: total, text: word });
            proof {
                assert(token_views(tokens@) == before.push(token_at(s, first)));
                assert(tokens_before(s, n) == tokens_before(s, first).push(token_at(s, first)));
            }
        }
        tokens
    }
}

} // verus!
