//! Edit distance between words.
//!
//! One edit inserts, deletes or substitutes one `char`, a Unicode scalar
//! value. That is the unit in which the dictionary index measures, so the
//! index and the table below agree on every word. A letter written with a
//! combining mark is two `char`s here, and differs by one edit from the bare
//! letter and by two from another letter with another mark.

use vstd::prelude::*;

verus! {

/// The least of three numbers.
pub open spec fn min3(x: nat, y: nat, z: nat) -> nat {
    if x <= y && x <= z {
        x
    } else if y <= z {
        y
    } else {
        z
    }
}

/// The edit distance of two words: the least number of insertions, deletions
/// and substitutions of single `char`s that turns one into the other.
pub open spec fn edit_distance(a: Seq<char>, b: Seq<char>) -> nat
    decreases a.len() + b.len(),
{
    if a.len() == 0 {
        b.len()
    } else if b.len() == 0 {
        a.len()
    } else {
        let substituted = edit_distance(a.drop_last(), b.drop_last()) + if a.last() == b.last() {
            0nat
        } else {
            1nat
        };
        let deleted = edit_distance(a.drop_last(), b) + 1;
        let inserted = edit_distance(a, b.drop_last()) + 1;
        min3(substituted, deleted, inserted)
    }
}

/// Whether `word` lies within `limit` edits of `query`.
pub open spec fn within_edits(word: Seq<char>, query: Seq<char>, limit: u32) -> bool {
    edit_distance(word, query) <= limit
}

/// Only a word itself lies at distance zero from it.
pub proof fn lemma_distance_zero(a: Seq<char>, b: Seq<char>)
    ensures
        edit_distance(a, b) == 0 <==> a == b,
    decreases a.len() + b.len(),
{
    if a.len() == 0 || b.len() == 0 {
        assert(edit_distance(a, b) == 0 ==> a =~= b);
    } else {
        lemma_distance_zero(a.drop_last(), b.drop_last());
        assert(a == a.drop_last().push(a.last()));
        assert(b == b.drop_last().push(b.last()));
    }
}

/// A distance as the table holds it: exact up to `limit`, and `limit + 1`
/// for everything beyond.
pub open spec fn capped(d: nat, limit: u32) -> nat {
    if d <= limit {
        d
    } else {
        (limit + 1) as nat
    }
}

/// The distance between the first `i` characters of `a` and the first `j` of `b`.
pub open spec fn prefix_distance(a: Seq<char>, b: Seq<char>, i: int, j: int) -> nat {
    edit_distance(a.take(i), b.take(j))
}

proof fn lemma_prefix_step(a: Seq<char>, b: Seq<char>, i: int, j: int)
    requires
        0 < i <= a.len(),
        0 < j <= b.len(),
    ensures
        prefix_distance(a, b, i, j) == min3(
            prefix_distance(a, b, i - 1, j - 1) + substitution_cost(a[i - 1] == b[j - 1]),
            prefix_distance(a, b, i - 1, j) + 1,
            prefix_distance(a, b, i, j - 1) + 1,
        ),
{
    assert(a.take(i).drop_last() == a.take(i - 1));
    assert(b.take(j).drop_last() == b.take(j - 1));
}

/// The cost of laying one character over another.
pub open spec fn substitution_cost(same: bool) -> nat {
    if same {
        0
    } else {
        1
    }
}

/// Capping the neighbours first does not change a capped entry.
proof fn lemma_capped_cell(x: nat, y: nat, z: nat, same: bool, limit: u32)
    ensures
        capped(min3(x + substitution_cost(same), y + 1, z + 1), limit) == capped(
            min3(
                capped(x, limit) + substitution_cost(same),
                capped(y, limit) + 1,
                capped(z, limit) + 1,
            ),
            limit,
        ),
{
}

/// An entry of the table from its three neighbours.
fn cell(diagonal: u64, above: u64, left: u64, same: bool, limit: u32) -> (v: u64)
    requires
        diagonal <= limit + 1,
        above <= limit + 1,
        left <= limit + 1,
    ensures
        v == capped(
            min3(
                diagonal as nat + substitution_cost(same),
                above as nat + 1,
                left as nat + 1,
            ),
            limit,
        ),
{
    let substituted = if same { diagonal } else { diagonal + 1 };
    let deleted = above + 1;
    let inserted = left + 1;
    let least = if substituted <= deleted && substituted <= inserted {
        substituted
    } else if deleted <= inserted {
        deleted
    } else {
        inserted
    };
    if least <= limit as u64 { least } else { limit as u64 + 1 }
}

/// Decides whether two words lie within `limit` edits of each other.
pub fn within_distance(a: &Vec<char>, b: &Vec<char>, limit: u32) -> (r: bool)
    ensures
        r == within_edits(a@, b@, limit),
{
    let cap: u64 = limit as u64 + 1;
    let mut prev: Vec<u64> = Vec::new();
    prev.push(0);
    let mut j: usize = 0;
    while j < b.len()
        invariant
            j <= b.len(),
            cap == limit + 1,
            prev.len() == j + 1,
            forall|k: int|
                0 <= k <= j ==> prev[k] == capped(
                    #[trigger] prefix_distance(a@, b@, 0, k),
                    limit,
                ),
        decreases b.len() - j,
    {
        let v: u64 = if j as u64 + 1 <= cap { j as u64 + 1 } else { cap };
        prev.push(v);
        j = j + 1;
    }
    let mut i: usize = 0;
    while i < a.len()
        invariant
            i <= a.len(),
            cap == limit + 1,
            prev.len() == b.len() + 1,
            forall|k: int|
                0 <= k <= b.len() ==> prev[k] == capped(
                    #[trigger] prefix_distance(a@, b@, i as int, k),
                    limit,
                ),
        decreases a.len() - i,
    {
        let first: u64 = if i as u64 + 1 <= cap { i as u64 + 1 } else { cap };
        let mut cur: Vec<u64> = Vec::new();
        cur.push(first);
        let mut j: usize = 0;
        while j < b.len()
            invariant
                j <= b.len(),
                i < a.len(),
                cap == limit + 1,
                prev.len() == b.len() + 1,
                cur.len() == j + 1,
                forall|k: int|
                    0 <= k <= b.len() ==> prev[k] == capped(
                        #[trigger] prefix_distance(a@, b@, i as int, k),
                        limit,
                    ),
                forall|k: int|
                    0 <= k <= j ==> cur[k] == capped(
                        #[trigger] prefix_distance(a@, b@, i + 1, k),
                        limit,
                    ),
            decreases b.len() - j,
        {
            proof {
                lemma_prefix_step(a@, b@, i + 1, j + 1);
                lemma_capped_cell(
                    prefix_distance(a@, b@, i as int, j as int),
                    prefix_distance(a@, b@, i as int, j + 1),
                    prefix_distance(a@, b@, i + 1, j as int),
                    a@[i as int] == b@[j as int],
                    limit,
                );
                assert(prev[j as int] == capped(prefix_distance(a@, b@, i as int, j as int), limit));
                assert(prev[j + 1] == capped(prefix_distance(a@, b@, i as int, j + 1), limit));
                assert(cur[j as int] == capped(prefix_distance(a@, b@, i + 1, j as int), limit));
            }
            let v = cell(prev[j], prev[j + 1], cur[j], a[i] == b[j], limit);
            cur.push(v);
            j = j + 1;
        }
        prev = cur;
        i = i + 1;
    }
    proof {
        assert(a@.take(a.len() as int) == a@);
        assert(b@.take(b.len() as int) == b@);
        assert(prev[b.len() as int] == capped(
            prefix_distance(a@, b@, a.len() as int, b.len() as int),
            limit,
        ));
    }
    prev[b.len()] <= limit as u64
}

} // verus!
