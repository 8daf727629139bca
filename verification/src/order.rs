//! The orders in which dictionary entries are kept and ranked.
//!
//! Words compare by the bytes of their UTF-8 encoding, which is the order of
//! the dictionary index. Both entry orders are total, so a sorted arrangement
//! of given entries is unique.

use vstd::prelude::*;
use vstd::relations::total_ordering;
use vstd::string::StringSliceAdditionalSpecFns;
use vstd::utf8::{encode_utf8, encode_utf8_decode_utf8};

verus! {

/// A dictionary entry as the contracts see it: a word and its frequency.
pub type Entry = (Seq<char>, u64);

/// Lexicographic order on byte strings: `a` is a prefix of `b`, or the two
/// first differ at a position where `a` holds the smaller byte.
pub open spec fn lex_leq(a: Seq<u8>, b: Seq<u8>) -> bool
    decreases a.len(),
{
    if a.len() == 0 {
        true
    } else if b.len() == 0 {
        false
    } else if a[0] != b[0] {
        a[0] < b[0]
    } else {
        lex_leq(a.drop_first(), b.drop_first())
    }
}

/// Lexicographic order without equality.
pub open spec fn lex_less(a: Seq<u8>, b: Seq<u8>) -> bool {
    lex_leq(a, b) && a != b
}

/// The key by which a word is ordered: its UTF-8 encoding.
pub open spec fn word_key(word: Seq<char>) -> Seq<u8> {
    encode_utf8(word)
}

/// The two ways of arranging entries.
#[derive(Clone, Copy, Debug, PartialEq, Eq, Structural)]
pub enum Order {
    /// Ascending by word; entries of one word ascending by frequency.
    Word,
    /// Descending by frequency; entries of one frequency ascending by word.
    Rank,
}

impl Order {
    /// Whether `a` may stand before `b`.
    pub open spec fn leq(self, a: Entry, b: Entry) -> bool {
        match self {
            Order::Word => if word_key(a.0) == word_key(b.0) {
                a.1 <= b.1
            } else {
                lex_leq(word_key(a.0), word_key(b.0))
            },
            Order::Rank => if a.1 != b.1 {
                a.1 > b.1
            } else {
                lex_leq(word_key(a.0), word_key(b.0))
            },
        }
    }

    /// The order as a relation.
    pub open spec fn relation(self) -> spec_fn(Entry, Entry) -> bool {
        |a: Entry, b: Entry| self.leq(a, b)
    }
}

/// The words of the entries ascend strictly by their keys.
pub open spec fn ascending_words(entries: Seq<Entry>) -> bool {
    forall|i: int, j: int|
        0 <= i < j < entries.len() ==> lex_less(
            word_key((#[trigger] entries[i]).0),
            word_key((#[trigger] entries[j]).0),
        )
}

/// Every byte string stands in the order with itself.
pub proof fn lemma_lex_reflexive(a: Seq<u8>)
    ensures
        lex_leq(a, a),
    decreases a.len(),
{
    if a.len() > 0 {
        lemma_lex_reflexive(a.drop_first());
    }
}

/// Of two byte strings, one stands before the other.
pub proof fn lemma_lex_connected(a: Seq<u8>, b: Seq<u8>)
    ensures
        lex_leq(a, b) || lex_leq(b, a),
    decreases a.len(),
{
    if a.len() > 0 && b.len() > 0 && a[0] == b[0] {
        lemma_lex_connected(a.drop_first(), b.drop_first());
    }
}

/// Byte strings that stand before each other are equal.
pub proof fn lemma_lex_antisymmetric(a: Seq<u8>, b: Seq<u8>)
    requires
        lex_leq(a, b),
        lex_leq(b, a),
    ensures
        a == b,
    decreases a.len(),
{
    if a.len() == 0 || b.len() == 0 {
        assert(a =~= b);
    } else {
        lemma_lex_antisymmetric(a.drop_first(), b.drop_first());
        assert(a =~= seq![a[0]] + a.drop_first());
        assert(b =~= seq![b[0]] + b.drop_first());
    }
}

/// The order carries over a byte string in the middle.
pub proof fn lemma_lex_transitive(a: Seq<u8>, b: Seq<u8>, c: Seq<u8>)
    requires
        lex_leq(a, b),
        lex_leq(b, c),
    ensures
        lex_leq(a, c),
    decreases a.len(),
{
    if a.len() > 0 && b.len() > 0 && c.len() > 0 && a[0] == b[0] && b[0] == c[0] {
        lemma_lex_transitive(a.drop_first(), b.drop_first(), c.drop_first());
    }
}

/// Distinct words have distinct keys.
pub proof fn lemma_word_key_injective(a: Seq<char>, b: Seq<char>)
    requires
        word_key(a) == word_key(b),
    ensures
        a == b,
{
    encode_utf8_decode_utf8(a);
    encode_utf8_decode_utf8(b);
}

/// Each entry order is a total order on entries.
pub proof fn lemma_order_total(order: Order)
    ensures
        total_ordering(order.relation()),
{
    let r = order.relation();
    assert forall|a: Entry| #[trigger] r(a, a) by {
        lemma_lex_reflexive(word_key(a.0));
    }
    assert forall|a: Entry, b: Entry| #[trigger] r(a, b) && #[trigger] r(b, a) implies a == b by {
        if word_key(a.0) != word_key(b.0) {
            lemma_lex_antisymmetric(word_key(a.0), word_key(b.0));
        }
        lemma_word_key_injective(a.0, b.0);
    }
    assert forall|a: Entry, b: Entry, c: Entry| #[trigger]
        r(a, b) && #[trigger] r(b, c) implies r(a, c) by {
        let (ka, kb, kc) = (word_key(a.0), word_key(b.0), word_key(c.0));
        if lex_leq(ka, kb) && lex_leq(kb, kc) {
            lemma_lex_transitive(ka, kb, kc);
            if ka == kc {
                lemma_lex_antisymmetric(ka, kb);
            }
        }
        lemma_lex_reflexive(ka);
        lemma_lex_reflexive(kb);
    }
    assert forall|a: Entry, b: Entry| #[trigger] r(a, b) || #[trigger] r(b, a) by {
        lemma_lex_connected(word_key(a.0), word_key(b.0));
    }
}

/// Compares two byte strings lexicographically.
pub fn bytes_leq(a: &[u8], b: &[u8]) -> (r: bool)
    ensures
        r == lex_leq(a@, b@),
{
    let mut i: usize = 0;
    proof {
        assert(a@.skip(0) == a@);
        assert(b@.skip(0) == b@);
    }
    while i < a.len() && i < b.len()
        invariant
            i <= a.len(),
            i <= b.len(),
            lex_leq(a@, b@) == lex_leq(a@.skip(i as int), b@.skip(i as int)),
        decreases a.len() - i,
    {
        proof {
            assert(a@.skip(i as int).drop_first() == a@.skip(i + 1));
            assert(b@.skip(i as int).drop_first() == b@.skip(i + 1));
        }
        if a[i] != b[i] {
            return a[i] < b[i];
        }
        i = i + 1;
    }
    i == a.len()
}

/// Whether the entry `a` may stand before the entry `b` in the given order.
pub fn entry_leq(order: Order, a: &(String, u64), b: &(String, u64)) -> (r: bool)
    ensures
        r == order.leq((a.0@, a.1), (b.0@, b.1)),
{
    let ka = a.0.as_str().as_bytes();
    let kb = b.0.as_str().as_bytes();
    let forth = bytes_leq(ka, kb);
    match order {
        Order::Word => {
            let back = bytes_leq(kb, ka);
            proof {
                if forth && back {
                    lemma_lex_antisymmetric(ka@, kb@);
                }
                if ka@ == kb@ {
                    lemma_lex_reflexive(ka@);
                }
            }
            if forth && back {
                a.1 <= b.1
            } else {
                forth
            }
        },
        Order::Rank => {
            if a.1 != b.1 {
                a.1 > b.1
            } else {
                forth
            }
        },
    }
}

} // verus!
