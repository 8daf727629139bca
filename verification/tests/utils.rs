use spelint_lib::utils::{chars_of, match_char_case, match_str_case};

#[test]
fn test_case_match() {
    let original = "sPoNgEcAsE";
    let value = "SPOngeCaSE";

    assert_eq!(original, match_str_case(original, value));
}

#[test]
fn case_match_keeps_exact_case() {
    let word = "sPoNgEcAsE";
    assert_eq!(word, match_str_case(word, word));
    assert_eq!("hello", match_str_case("hello", "hello"));
    assert_eq!("HELLO", match_str_case("HELLO", "HELLO"));
}

#[test]
fn case_match_empty_pattern_lowercases() {
    assert_eq!("hello", match_str_case("", "HeLLo"));
    assert_eq!("", match_str_case("", ""));
    assert_eq!("", match_str_case("ABC", ""));
}

#[test]
fn case_match_longer_value_takes_last_case() {
    assert_eq!("Hello", match_str_case("Ab", "hello"));
    assert_eq!("hELLO", match_str_case("aB", "hello"));
    assert_eq!("HELLO", match_str_case("A", "hello"));
    assert_eq!("hello", match_str_case("a", "HELLO"));
}

#[test]
fn case_match_shorter_value_uses_prefix() {
    assert_eq!("He", match_str_case("Hello", "HE"));
    assert_eq!("hE", match_str_case("hELLO", "he"));
}

#[test]
fn case_match_non_letters_in_pattern_lowercase() {
    assert_eq!("abc", match_str_case("1-3", "ABC"));
}

#[test]
fn case_match_works_on_characters_not_bytes() {
    assert_eq!("ÉCOLE", match_str_case("ÉCOLE", "école"));
    assert_eq!("école", match_str_case("ecole", "ÉCOLE"));
    assert_eq!("éA", match_str_case("éA", "Éa"));
}

#[test]
fn case_match_mapping_of_several_characters() {
    assert_eq!("SS", match_str_case("A", "ß"));
    assert_eq!("SSa", match_str_case("Ab", "ßA"));
}

#[test]
fn char_case_follows_pattern() {
    assert_eq!("B", match_char_case('A', 'b'));
    assert_eq!("B", match_char_case('A', 'B'));
    assert_eq!("b", match_char_case('a', 'B'));
    assert_eq!("b", match_char_case('1', 'B'));
    assert_eq!("1", match_char_case('A', '1'));
    assert_eq!("SS", match_char_case('Z', 'ß'));
}

#[test]
fn chars_of_lists_characters() {
    assert_eq!(vec!['h', 'é', '!'], chars_of("hé!"));
    assert_eq!(Vec::<char>::new(), chars_of(""));
}

#[test]
fn case_match_of_a_titlecase_letter_is_lowercase() {
    assert_eq!("\u{1C6}", match_str_case("\u{1C5}", "\u{1C5}"));
}

#[test]
fn case_match_counts_user_perceived_characters() {
    assert_eq!("aB", match_str_case("e\u{301}X", "ab"));
    assert_eq!("Ab", match_str_case("E\u{301}x", "ab"));
    assert_eq!("e\u{301}X", match_str_case("aB", "E\u{301}x"));
    assert_eq!("E\u{301}x", match_str_case("Ab", "e\u{301}X"));
}

#[test]
fn case_match_recases_a_whole_cluster() {
    assert_eq!("E\u{301}", match_str_case("X", "e\u{301}"));
    assert_eq!("e\u{301}\u{323}", match_str_case("x", "E\u{301}\u{323}"));
    assert_eq!("O\u{308}\u{332}K", match_str_case("AB", "o\u{308}\u{332}k"));
}

#[test]
fn case_match_last_cluster_governs_the_rest() {
    assert_eq!("aBCD", match_str_case("xE\u{301}", "abcd"));
    assert_eq!("Abcd", match_str_case("Xe\u{301}", "ABCD"));
}

#[test]
fn case_match_restores_a_word_with_marks() {
    let word = "cAfE\u{301} nOe\u{308}L";
    assert_eq!(word, match_str_case(word, "CaFe\u{301} NoE\u{308}l"));
    assert_eq!(word, match_str_case(word, word));
}
