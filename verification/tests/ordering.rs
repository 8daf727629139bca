use spelint_lib::distance::within_distance;
use spelint_lib::order::{bytes_leq, entry_leq, Order};
use spelint_lib::sorting::sort_entries;

fn chars(s: &str) -> Vec<char> {
    s.chars().collect()
}

fn entry(word: &str, frequency: u64) -> (String, u64) {
    (word.to_string(), frequency)
}

#[test]
fn distance_of_classic_pairs() {
    assert!(within_distance(&chars("kitten"), &chars("sitting"), 3));
    assert!(!within_distance(&chars("kitten"), &chars("sitting"), 2));
    assert!(within_distance(&chars("flaw"), &chars("lawn"), 2));
    assert!(!within_distance(&chars("flaw"), &chars("lawn"), 1));
    assert!(within_distance(&chars("same"), &chars("same"), 0));
    assert!(!within_distance(&chars("same"), &chars("sane"), 0));
}

#[test]
fn distance_to_the_empty_word_is_the_length() {
    assert!(within_distance(&chars(""), &chars(""), 0));
    assert!(within_distance(&chars("abc"), &chars(""), 3));
    assert!(!within_distance(&chars("abc"), &chars(""), 2));
    assert!(within_distance(&chars(""), &chars("abcd"), 4));
    assert!(!within_distance(&chars(""), &chars("abcd"), 3));
}

#[test]
fn distance_counts_characters_not_bytes() {
    assert!(within_distance(&chars("é"), &chars("e"), 1));
    assert!(within_distance(&chars("日本語"), &chars("日本"), 1));
    assert!(!within_distance(&chars("日本語"), &chars("語"), 1));
}

#[test]
fn distance_has_no_transpositions() {
    assert!(!within_distance(&chars("ab"), &chars("ba"), 1));
    assert!(within_distance(&chars("ab"), &chars("ba"), 2));
}

#[test]
fn distance_with_largest_limit() {
    assert!(within_distance(&chars("anything"), &chars("else"), u32::MAX));
}

#[test]
fn bytes_compare_lexicographically() {
    assert!(bytes_leq(b"", b""));
    assert!(bytes_leq(b"", b"a"));
    assert!(!bytes_leq(b"a", b""));
    assert!(bytes_leq(b"abc", b"abd"));
    assert!(!bytes_leq(b"abd", b"abc"));
    assert!(bytes_leq(b"ab", b"abc"));
    assert!(!bytes_leq(b"abc", b"ab"));
    assert!(bytes_leq(b"abc", b"abc"));
    assert!(bytes_leq(b"Z", b"a"));
    assert!(bytes_leq("z".as_bytes(), "é".as_bytes()));
}

#[test]
fn entries_compare_by_word_or_by_rank() {
    assert!(entry_leq(Order::Word, &entry("a", 9), &entry("b", 1)));
    assert!(!entry_leq(Order::Word, &entry("b", 1), &entry("a", 9)));
    assert!(entry_leq(Order::Word, &entry("a", 1), &entry("a", 2)));
    assert!(!entry_leq(Order::Word, &entry("a", 2), &entry("a", 1)));
    assert!(entry_leq(Order::Rank, &entry("b", 9), &entry("a", 1)));
    assert!(!entry_leq(Order::Rank, &entry("a", 1), &entry("b", 9)));
    assert!(entry_leq(Order::Rank, &entry("a", 5), &entry("b", 5)));
    assert!(!entry_leq(Order::Rank, &entry("b", 5), &entry("a", 5)));
    assert!(entry_leq(Order::Rank, &entry("a", 5), &entry("a", 5)));
}

#[test]
fn sort_by_word() {
    let entries = vec![entry("pear", 3), entry("apple", 1), entry("fig", 2), entry("app", 7)];
    assert_eq!(
        vec![entry("app", 7), entry("apple", 1), entry("fig", 2), entry("pear", 3)],
        sort_entries(&entries, Order::Word)
    );
}

#[test]
fn sort_by_rank() {
    let entries = vec![entry("pear", 3), entry("apple", 7), entry("fig", 3), entry("app", 7)];
    assert_eq!(
        vec![entry("app", 7), entry("apple", 7), entry("fig", 3), entry("pear", 3)],
        sort_entries(&entries, Order::Rank)
    );
}

#[test]
fn sort_keeps_every_entry() {
    let entries = vec![entry("b", 1), entry("a", 1), entry("b", 1), entry("a", 2)];
    assert_eq!(
        vec![entry("a", 1), entry("a", 2), entry("b", 1), entry("b", 1)],
        sort_entries(&entries, Order::Word)
    );
    assert!(sort_entries(&Vec::new(), Order::Rank).is_empty());
    assert_eq!(vec![entry("x", 0)], sort_entries(&vec![entry("x", 0)], Order::Word));
}

#[test]
fn find_word_in_sorted_entries() {
    let entries = sort_entries(
        &vec![
            entry("pear", 3),
            entry("apple", 1),
            entry("fig", 2),
            entry("app", 7),
            entry("zoo", 0),
        ],
        Order::Word,
    );
    for word in ["app", "apple", "fig", "pear", "zoo"] {
        assert!(spelint_lib::sorting::find_word(&entries, word), "{}", word);
    }
    for word in ["", "a", "appl", "apples", "figs", "pea", "zzz", "APP"] {
        assert!(!spelint_lib::sorting::find_word(&entries, word), "{}", word);
    }
    assert!(!spelint_lib::sorting::find_word(&Vec::new(), "word"));
    assert!(spelint_lib::sorting::find_word(&vec![entry("é", 1)], "é"));
}
