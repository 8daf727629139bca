//! Case restoration: the casing of one word laid over another.
//!
//! Positions are counted in user-perceived characters. Such a character is
//! a cluster: a base character with the marks that extend it. Its case is
//! the case of its base character, and recasing it recases every character
//! in it.

use vstd::prelude::*;
use vstd::string::StringExecFns;
use crate::unicode::{char_is_uppercase, char_to_lowercase, char_to_uppercase, clusters,
    grapheme_clusters, is_uppercase, lowercase_of, slices_view, uppercase_of};

verus! {

/// A character recased after a pattern character: its uppercase mapping under
/// an uppercase pattern character, its lowercase mapping under any other.
pub open spec fn recase_char(pattern: char, value: char) -> Seq<char> {
    if is_uppercase(pattern) {
        uppercase_of(value)
    } else {
        lowercase_of(value)
    }
}

/// The character that decides the case of a cluster: its first.
pub open spec fn cluster_base(cluster: Seq<char>) -> Option<char> {
    if cluster.len() > 0 {
        Some(cluster[0])
    } else {
        None
    }
}

/// The pattern character that governs position `i` of a replacement: the
/// base of the pattern's cluster at `i`, or of its last cluster beyond its
/// end. An empty pattern has none, and whatever it is laid over is lowercased.
pub open spec fn pattern_at(pattern: Seq<char>, i: int) -> Option<char> {
    let parts = clusters(pattern);
    if pattern.len() == 0 || parts.len() == 0 {
        None
    } else if 0 <= i < parts.len() {
        cluster_base(parts[i])
    } else {
        cluster_base(parts.last())
    }
}

/// A character recased after the governing pattern character, or lowercased
/// where there is none.
pub open spec fn recase_under(base: Option<char>, value: char) -> Seq<char> {
    match base {
        Some(pattern) => recase_char(pattern, value),
        None => lowercase_of(value),
    }
}

/// A cluster recased: each of its characters recased, side by side.
pub open spec fn recase_cluster(base: Option<char>, cluster: Seq<char>) -> Seq<char> {
    Seq::new(cluster.len(), |k: int| recase_under(base, cluster[k])).flatten()
}

/// The recased clusters of `value`, one for each of its clusters.
pub open spec fn recase_pieces(pattern: Seq<char>, value: Seq<char>) -> Seq<Seq<char>> {
    let parts = clusters(value);
    Seq::new(parts.len(), |i: int| recase_cluster(pattern_at(pattern, i), parts[i]))
}

/// `value` with the casing of `pattern` laid over it, position by position.
pub open spec fn recase(pattern: Seq<char>, value: Seq<char>) -> Seq<char> {
    recase_pieces(pattern, value).flatten()
}

/// Whether character `k` of cluster `i` of `value`, recased after the
/// pattern, is character `k` of cluster `i` of the pattern.
pub open spec fn restores_at(pattern: Seq<char>, value: Seq<char>, i: int, k: int) -> bool {
    recase_under(pattern_at(pattern, i), clusters(value)[i][k]) == seq![clusters(pattern)[i][k]]
}

/// Laying single characters side by side gives the word they spell.
proof fn lemma_flatten_singletons(word: Seq<char>)
    ensures
        Seq::new(word.len(), |i: int| seq![word[i]]).flatten() == word,
    decreases word.len(),
{
    let pieces = Seq::new(word.len(), |i: int| seq![word[i]]);
    if word.len() > 0 {
        let shorter = word.drop_last();
        let fewer = Seq::new(shorter.len(), |i: int| seq![shorter[i]]);
        lemma_flatten_singletons(shorter);
        assert(pieces == fewer.push(seq![word.last()]));
        fewer.lemma_flatten_push(seq![word.last()]);
        assert(shorter + seq![word.last()] == word);
    }
}

/// Case restoration brings back the pattern from any word that differs from
/// it only in case: a word with the pattern's clusters, character for
/// character, each of which recased after the pattern is the pattern's
/// character at its place. The pattern itself is such a word if recasing
/// leaves each of its characters as it is.
///
/// The pattern must be what its clusters spell, as it is for every text
/// that has been divided into clusters.
pub proof fn lemma_recase_restores(pattern: Seq<char>, value: Seq<char>)
    requires
        clusters(pattern).flatten() == pattern,
        clusters(value).len() == clusters(pattern).len(),
        forall|i: int|
            0 <= i < clusters(pattern).len() ==> (#[trigger] clusters(value)[i]).len() == clusters(
                pattern,
            )[i].len(),
        forall|i: int, k: int|
            0 <= i < clusters(pattern).len() && 0 <= k < clusters(pattern)[i].len()
                ==> #[trigger] restores_at(pattern, value, i, k),
    ensures
        recase(pattern, value) == pattern,
{
    let wanted = clusters(pattern);
    let given = clusters(value);
    assert forall|i: int| 0 <= i < wanted.len() implies #[trigger] recase_pieces(pattern, value)[i]
        == wanted[i] by {
        let base = pattern_at(pattern, i);
        assert(given[i].len() == wanted[i].len());
        assert forall|k: int| 0 <= k < wanted[i].len() implies recase_under(base, given[i][k])
            == seq![#[trigger] wanted[i][k]] by {
            assert(restores_at(pattern, value, i, k));
        }
        assert(Seq::new(given[i].len(), |k: int| recase_under(base, given[i][k])) == Seq::new(
            wanted[i].len(),
            |k: int| seq![wanted[i][k]],
        ));
        lemma_flatten_singletons(wanted[i]);
    }
    assert(recase_pieces(pattern, value) == wanted);
}

/// The characters of a string, in order.
pub fn chars_of(s: &str) -> (v: Vec<char>)
    ensures
        v@ == s@,
{
    let mut v: Vec<char> = Vec::new();
    for c in it: s.chars()
        invariant
            it.seq() == s@,
            v@ == s@.take(it.index() as int),
    {
        v.push(c);
        assert(s@.take(it.index() + 1) == s@.take(it.index() as int).push(c));
    }
    v
}

/// Recases one character after one pattern character.
pub fn match_char_case(pattern: char, value: char) -> (r: String)
    ensures
        r@ == recase_char(pattern, value),
{
    if char_is_uppercase(pattern) {
        char_to_uppercase(value)
    } else {
        char_to_lowercase(value)
    }
}

/// The base character of a cluster, if it has one.
fn base_of(cluster: &str) -> (base: Option<char>)
    ensures
        base == cluster_base(cluster@),
{
    let chars = chars_of(cluster);
    if chars.len() > 0 {
        Some(chars[0])
    } else {
        None
    }
}

/// Recases every character of a cluster after the governing pattern
/// character, or lowercases it where there is none.
fn match_cluster_case(base: Option<char>, cluster: &str) -> (r: String)
    ensures
        r@ == recase_cluster(base, cluster@),
{
    let ghost pieces = Seq::new(cluster@.len(), |k: int| recase_under(base, cluster@[k]));
    let mut out = String::new();
    proof {
        assert(pieces.take(0) == Seq::<Seq<char>>::empty());
    }
    for c in it: cluster.chars()
        invariant
            it.seq() == cluster@,
            pieces == Seq::new(cluster@.len(), |k: int| recase_under(base, cluster@[k])),
            out@ == pieces.take(it.index() as int).flatten(),
    {
        let ghost k = it.index() as int;
        let piece = match base {
            Some(pattern) => match_char_case(pattern, c),
            None => char_to_lowercase(c),
        };
        proof {
            assert(pieces.take(k + 1) == pieces.take(k).push(pieces[k]));
            pieces.take(k).lemma_flatten_push(pieces[k]);
        }
        out.append(piece.as_str());
    }
    proof {
        assert(pieces.take(cluster@.len() as int) == pieces);
    }
    out
}

/// Lays the casing of `pattern` over `value`.
///
/// Each user-perceived character of `value` takes the case of the pattern's
/// at the same position; past the end of the pattern its last one governs,
/// and under an empty pattern everything is lowercased.
pub fn match_str_case(pattern: &str, value: &str) -> (r: String)
    ensures
        r@ == recase(pattern@, value@),
{
    let pat = grapheme_clusters(pattern);
    let val = grapheme_clusters(value);
    let bare = pattern.is_empty() || pat.len() == 0;
    let last: Option<char> = if bare { None } else { base_of(pat[pat.len() - 1]) };
    let ghost pieces = recase_pieces(pattern@, value@);
    let mut out = String::new();
    let mut i: usize = 0;
    proof {
        assert(pieces.take(0) == Seq::<Seq<char>>::empty());
    }
    while i < val.len()
        invariant
            i <= val.len(),
            slices_view(pat@) == clusters(pattern@),
            slices_view(val@) == clusters(value@),
            bare == (pattern@.len() == 0 || pat.len() == 0),
            last == pattern_at(pattern@, pat.len() as int),
            pieces == recase_pieces(pattern@, value@),
            out@ == pieces.take(i as int).flatten(),
        decreases val.len() - i,
    {
        let base: Option<char> = if bare {
            None
        } else if i < pat.len() {
            base_of(pat[i])
        } else {
            last
        };
        proof {
            assert(slices_view(pat@).len() == pat.len());
            assert(slices_view(val@)[i as int] == val[i as int]@);
            if !bare && i < pat.len() {
                assert(slices_view(pat@)[i as int] == pat[i as int]@);
            }
            assert(base == pattern_at(pattern@, i as int));
        }
        let piece = match_cluster_case(base, val[i]);
        proof {
            assert(pieces.take(i + 1) == pieces.take(i as int).push(pieces[i as int]));
            pieces.take(i as int).lemma_flatten_push(pieces[i as int]);
        }
        out.append(piece.as_str());
        i = i + 1;
    }
    proof {
        assert(pieces.take(i as int) == pieces);
    }
    out
}

} // verus!
