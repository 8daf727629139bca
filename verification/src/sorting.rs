//! Sorting entries under one of the entry orders, and looking a word up in
//! sorted entries.

use vstd::prelude::*;
use vstd::relations::sorted_by;
use vstd::seq_lib::{lemma_multiset_commutative, lemma_sorted_unique};
use vstd::string::StringSliceAdditionalSpecFns;
use crate::order::{ascending_words, bytes_leq, entry_leq, lemma_lex_antisymmetric,
    lemma_lex_connected, lemma_lex_transitive, lemma_order_total, lemma_word_key_injective,
    lex_less, word_key, Entry, Order};

verus! {

/// The entries of a vector as the contracts see them.
pub open spec fn entries_view(v: Seq<(String, u64)>) -> Seq<Entry> {
    Seq::new(v.len(), |i: int| (v[i].0@, v[i].1))
}

/// Merges two sorted runs into one.
fn merge(left: &Vec<(String, u64)>, right: &Vec<(String, u64)>, order: Order) -> (out: Vec<
    (String, u64),
>)
    requires
        sorted_by(entries_view(left@), order.relation()),
        sorted_by(entries_view(right@), order.relation()),
    ensures
        sorted_by(entries_view(out@), order.relation()),
        entries_view(out@).to_multiset() == entries_view(left@).to_multiset().add(
            entries_view(right@).to_multiset(),
        ),
{
    let ghost l = entries_view(left@);
    let ghost r = entries_view(right@);
    let ghost rel = order.relation();
    let mut out: Vec<(String, u64)> = Vec::new();
    let mut i: usize = 0;
    let mut j: usize = 0;
    proof {
        lemma_order_total(order);
        assert(entries_view(out@) == Seq::<Entry>::empty());
        assert(l.take(0) == Seq::<Entry>::empty());
        assert(r.take(0) == Seq::<Entry>::empty());
        lemma_multiset_commutative(l.take(0), r.take(0));
    }
    while i < left.len() || j < right.len()
        invariant
            i <= left.len(),
            j <= right.len(),
            l == entries_view(left@),
            r == entries_view(right@),
            rel == order.relation(),
            vstd::relations::total_ordering(rel),
            sorted_by(l, rel),
            sorted_by(r, rel),
            sorted_by(entries_view(out@), rel),
            entries_view(out@).to_multiset() == l.take(i as int).to_multiset().add(
                r.take(j as int).to_multiset(),
            ),
            forall|k: int, m: int|
                0 <= k < out.len() && i <= m < l.len() ==> rel(
                    #[trigger] entries_view(out@)[k],
                    #[trigger] l[m],
                ),
            forall|k: int, m: int|
                0 <= k < out.len() && j <= m < r.len() ==> rel(
                    #[trigger] entries_view(out@)[k],
                    #[trigger] r[m],
                ),
        decreases (left.len() - i) + (right.len() - j),
    {
        let ghost before = entries_view(out@);
        let take_left = if i == left.len() {
            false
        } else if j == right.len() {
            true
        } else {
            entry_leq(order, &left[i], &right[j])
        };
        if take_left {
            let e = (left[i].0.clone(), left[i].1);
            out.push(e);
            proof {
                let x = l[i as int];
                assert(entries_view(out@) == before.push(x));
                assert(l.take(i + 1) == l.take(i as int).push(x));
                vstd::seq_lib::to_multiset_build(before, x);
                vstd::seq_lib::to_multiset_build(l.take(i as int), x);
                assert forall|k: int, m: int|
                    0 <= k < out.len() && j <= m < r.len() implies rel(
                    #[trigger] entries_view(out@)[k],
                    #[trigger] r[m],
                ) by {
                    if k == out.len() - 1 {
                        assert(rel(x, r[j as int]));
                        assert(rel(r[j as int], r[m]));
                    }
                }
            }
            i = i + 1;
        } else {
            let e = (right[j].0.clone(), right[j].1);
            out.push(e);
            proof {
                let x = r[j as int];
                assert(entries_view(out@) == before.push(x));
                assert(r.take(j + 1) == r.take(j as int).push(x));
                vstd::seq_lib::to_multiset_build(before, x);
                vstd::seq_lib::to_multiset_build(r.take(j as int), x);
                assert forall|k: int, m: int|
                    0 <= k < out.len() && i <= m < l.len() implies rel(
                    #[trigger] entries_view(out@)[k],
                    #[trigger] l[m],
                ) by {
                    if k == out.len() - 1 {
                        assert(rel(l[i as int], x) || rel(x, l[i as int]));
                        assert(rel(x, l[i as int]));
                        assert(rel(l[i as int], l[m]));
                    }
                }
            }
            j = j + 1;
        }
    }
    proof {
        assert(l.take(i as int) == l);
        assert(r.take(j as int) == r);
    }
    out
}

/// Sorts the entries at positions `lo..hi` of `v`.
fn sort_range(v: &Vec<(String, u64)>, lo: usize, hi: usize, order: Order) -> (out: Vec<
    (String, u64),
>)
    requires
        lo <= hi <= v.len(),
    ensures
        sorted_by(entries_view(out@), order.relation()),
        entries_view(out@).to_multiset() == entries_view(v@).subrange(
            lo as int,
            hi as int,
        ).to_multiset(),
    decreases hi - lo,
{
    let ghost all = entries_view(v@);
    if hi - lo <= 1 {
        let mut out: Vec<(String, u64)> = Vec::new();
        if hi - lo == 1 {
            out.push((v[lo].0.clone(), v[lo].1));
        }
        proof {
            assert(entries_view(out@) == all.subrange(lo as int, hi as int));
        }
        out
    } else {
        let mid = lo + (hi - lo) / 2;
        let left = sort_range(v, lo, mid, order);
        let right = sort_range(v, mid, hi, order);
        proof {
            assert(all.subrange(lo as int, hi as int) == all.subrange(lo as int, mid as int)
                + all.subrange(mid as int, hi as int));
            lemma_multiset_commutative(
                all.subrange(lo as int, mid as int),
                all.subrange(mid as int, hi as int),
            );
        }
        merge(&left, &right, order)
    }
}

/// Sorts entries under the given order.
///
/// The result holds the entries of `v`, each as often as `v` does, arranged
/// by the order. The order is total, so there is one such arrangement.
pub fn sort_entries(v: &Vec<(String, u64)>, order: Order) -> (out: Vec<(String, u64)>)
    ensures
        entries_view(out@) == entries_view(v@).sort_by(order.relation()),
{
    let out = sort_range(v, 0, v.len(), order);
    proof {
        let all = entries_view(v@);
        assert(all.subrange(0, v.len() as int) == all);
        lemma_order_total(order);
        all.lemma_sort_by_ensures(order.relation());
        lemma_sorted_unique(entries_view(out@), all.sort_by(order.relation()), order.relation());
    }
    out
}

/// Whether some entry has the given word.
pub open spec fn has_word(entries: Seq<Entry>, word: Seq<char>) -> bool {
    exists|i: int| 0 <= i < entries.len() && (#[trigger] entries[i]).0 == word
}

/// Looks a word up in entries that ascend by their words, by bisection.
pub fn find_word(entries: &Vec<(String, u64)>, word: &str) -> (found: bool)
    requires
        ascending_words(entries_view(entries@)),
    ensures
        found == has_word(entries_view(entries@), word@),
{
    let ghost all = entries_view(entries@);
    let wanted = word.as_bytes();
    let mut low: usize = 0;
    let mut high: usize = entries.len();
    while low < high
        invariant
            low <= high <= entries.len(),
            all == entries_view(entries@),
            ascending_words(all),
            wanted@ == word_key(word@),
            forall|i: int| 0 <= i < low ==> lex_less(word_key((#[trigger] all[i]).0), wanted@),
            forall|i: int|
                high <= i < all.len() ==> lex_less(wanted@, word_key((#[trigger] all[i]).0)),
        decreases high - low,
    {
        let middle = low + (high - low) / 2;
        let key = entries[middle].0.as_str().as_bytes();
        let ghost here = all[middle as int];
        assert(key@ == word_key(here.0));
        let before = bytes_leq(key, wanted);
        let after = bytes_leq(wanted, key);
        proof {
            lemma_lex_connected(key@, wanted@);
        }
        if before && after {
            proof {
                lemma_lex_antisymmetric(key@, wanted@);
                lemma_word_key_injective(here.0, word@);
            }
            return true;
        } else if before {
            proof {
                assert forall|i: int| 0 <= i < middle + 1 implies lex_less(
                    word_key((#[trigger] all[i]).0),
                    wanted@,
                ) by {
                    if i < middle {
                        let earlier = word_key(all[i].0);
                        assert(lex_less(earlier, key@));
                        lemma_lex_transitive(earlier, key@, wanted@);
                        if earlier == wanted@ {
                            lemma_lex_antisymmetric(key@, wanted@);
                        }
                    }
                }
            }
            low = middle + 1;
        } else {
            proof {
                assert forall|i: int| middle <= i < all.len() implies lex_less(
                    wanted@,
                    word_key((#[trigger] all[i]).0),
                ) by {
                    if middle < i {
                        let later = word_key(all[i].0);
                        assert(lex_less(key@, later));
                        lemma_lex_transitive(wanted@, key@, later);
                        if wanted@ == later {
                            lemma_lex_antisymmetric(key@, wanted@);
                        }
                    }
                }
            }
            high = middle;
        }
    }
    proof {
        if has_word(all, word@) {
            let i = choose|i: int| 0 <= i < all.len() && (#[trigger] all[i]).0 == word@;
            assert(lex_less(word_key(all[i].0), wanted@) || lex_less(wanted@, word_key(all[i].0)));
        }
    }
    false
}

} // verus!
