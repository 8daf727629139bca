use spelint_lib::checker::SpellChecker;

fn sample() -> SpellChecker {
    SpellChecker::new(vec![
        ("hell".to_string(), 70),
        ("hello".to_string(), 100),
        ("help".to_string(), 90),
        ("lorem".to_string(), 20),
        ("world".to_string(), 100),
    ])
}

#[test]
fn test_correction() {
    let dictionary = [
        ("hell".to_string(), 70),
        ("hello".to_string(), 100),
        ("help".to_string(), 90),
        ("lorem".to_string(), 20),
        ("world".to_string(), 100),
    ];

    let checker = SpellChecker::new(dictionary.to_vec());
    let suggestions = checker.get_corrections("hella", 1, 5);
    let expected = vec!["hello", "hell"];

    assert_eq!(expected, suggestions);

    let suggestions = checker.get_corrections("hella", 2, 5);
    let expected = vec!["hello", "help", "hell"];

    assert_eq!(expected, suggestions);
}

#[test]
fn check_knows_dictionary_words_in_any_case() {
    let checker = sample();
    for word in ["hell", "hello", "help", "lorem", "world"] {
        assert!(checker.check(word));
        assert!(checker.check(&word.to_uppercase()));
    }
    assert!(checker.check("HeLLo"));
    assert!(!checker.check("hella"));
    assert!(!checker.check(""));
    assert!(!checker.check("hel"));
}

#[test]
fn check_does_not_lowercase_the_dictionary() {
    let checker = SpellChecker::new(vec![("Paris".to_string(), 1), ("rome".to_string(), 2)]);
    assert!(!checker.check("Paris"));
    assert!(!checker.check("paris"));
    assert!(checker.check("Rome"));
}

#[test]
fn dictionary_order_of_input_does_not_matter() {
    let checker = SpellChecker::new(vec![
        ("world".to_string(), 100),
        ("lorem".to_string(), 20),
        ("hello".to_string(), 100),
        ("help".to_string(), 90),
        ("hell".to_string(), 70),
    ]);
    assert!(checker.check("hell"));
    assert!(checker.check("world"));
    assert_eq!(vec!["hello", "help", "hell"], checker.get_corrections("hella", 2, 5));
}

#[test]
fn empty_dictionary_knows_nothing() {
    let checker = SpellChecker::new(Vec::new());
    assert!(!checker.check("word"));
    assert!(checker.get_corrections("word", 2, 5).is_empty());
    assert_eq!(1, checker.get_unknowns("word").len());
}

#[test]
fn corrections_empty_when_nothing_is_near() {
    let checker = sample();
    assert!(checker.get_corrections("zzzzzzzz", 2, 5).is_empty());
    assert!(checker.get_corrections("hella", 0, 5).is_empty());
}

#[test]
fn corrections_with_distance_zero_are_exact_matches() {
    let checker = sample();
    assert_eq!(vec!["hello"], checker.get_corrections("hello", 0, 5));
    assert_eq!(vec!["HELLO"], checker.get_corrections("HELLO", 0, 5));
}

#[test]
fn corrections_stop_at_limit() {
    let checker = sample();
    assert!(checker.get_corrections("hella", 2, 0).is_empty());
    assert_eq!(vec!["hello"], checker.get_corrections("hella", 2, 1));
    assert_eq!(vec!["hello", "help"], checker.get_corrections("hella", 2, 2));
    assert_eq!(vec!["hello", "help", "hell"], checker.get_corrections("hella", 2, 3));
    assert_eq!(vec!["hello", "help", "hell"], checker.get_corrections("hella", 2, usize::MAX));
}

#[test]
fn corrections_take_the_casing_of_the_word() {
    let checker = sample();
    assert_eq!(vec!["HELLO", "HELL"], checker.get_corrections("HELLA", 1, 5));
    assert_eq!(vec!["Hello", "Hell"], checker.get_corrections("Hella", 1, 5));
    assert_eq!(vec!["hELLO", "hELL"], checker.get_corrections("hELLA", 1, 5));
}

#[test]
fn corrections_of_equal_frequency_come_in_byte_order() {
    let checker = SpellChecker::new(vec![
        ("ac".to_string(), 5),
        ("ab".to_string(), 5),
        ("aa".to_string(), 5),
        ("ad".to_string(), 9),
    ]);
    assert_eq!(vec!["ad", "aa", "ab", "ac"], checker.get_corrections("a", 1, 10));
}

#[test]
fn corrections_for_words_outside_ascii() {
    let checker = SpellChecker::new(vec![
        ("e".to_string(), 2),
        ("è".to_string(), 1),
        ("été".to_string(), 7),
        ("zèbre".to_string(), 3),
    ]);
    assert_eq!(vec!["e", "è"], checker.get_corrections("é", 1, 5));
    assert_eq!(vec!["été", "e"], checker.get_corrections("ete", 2, 5));
    assert_eq!(vec!["Zèbre"], checker.get_corrections("Zébre", 1, 5));
    assert_eq!(vec!["été", "e", "è"], checker.get_corrections("é", 2, 5));
}

#[test]
fn corrections_for_a_very_long_word() {
    let long = "pneumonoultramicroscopicsilicovolcanoconiosis".repeat(3);
    let mut near = long.clone();
    near.push('x');
    let checker = SpellChecker::new(vec![(long.clone(), 4), ("short".to_string(), 9)]);
    assert_eq!(vec![long.clone()], checker.get_corrections(&near, 1, 5));
    assert_eq!(vec![long.clone()], checker.get_corrections(&near, 6, 5));
    assert!(checker.get_corrections(&near, 0, 5).is_empty());
}

#[test]
fn search_within_distance_keeps_dictionary_order() {
    let checker = sample();
    let found = checker.search_within_distance("HELLA", 2);
    assert_eq!(
        vec![("hell".to_string(), 70), ("hello".to_string(), 100), ("help".to_string(), 90)],
        found
    );
    assert!(checker.search_within_distance("hella", 0).is_empty());
    let all = checker.search_within_distance("", 5);
    assert_eq!(5, all.len());
}

#[test]
fn unknowns_empty_for_known_sentence() {
    let checker = sample();
    assert!(checker.get_unknowns("Hello, world! HELP").is_empty());
    assert!(checker.get_unknowns("").is_empty());
    assert!(checker.get_unknowns("123 ... !").is_empty());
}

#[test]
fn unknowns_in_order_with_byte_offsets() {
    let checker = sample();
    let sentence = "Hello wrld, héllo lorem ipsum";
    let unknowns = checker.get_unknowns(sentence);
    let found: Vec<(&str, usize, usize)> =
        unknowns.iter().map(|t| (t.text, t.start, t.end)).collect();
    assert_eq!(vec![("wrld", 6, 10), ("héllo", 12, 18), ("ipsum", 25, 30)], found);
    for token in &unknowns {
        assert_eq!(token.text, &sentence[token.start..token.end]);
    }
}

#[test]
fn default_checker_has_empty_dictionary() {
    let checker = SpellChecker::default();
    assert!(!checker.check("hello"));
    assert!(checker.get_corrections("hello", 2, 5).is_empty());
    assert!(checker.search_within_distance("", 10).is_empty());
}

#[test]
fn corrections_lie_within_the_distance() {
    let checker = sample();
    for distance in 0..4u32 {
        for word in ["hella", "wor", "HELP", "lorem", "x", ""] {
            let query: Vec<char> = word.to_lowercase().chars().collect();
            let found = checker.search_within_distance(word, distance);
            for (entry, _) in &found {
                let candidate: Vec<char> = entry.chars().collect();
                assert!(spelint_lib::distance::within_distance(&candidate, &query, distance));
            }
            let suggestions = checker.get_corrections(word, distance, 3);
            assert!(suggestions.len() <= 3);
            assert!(suggestions.len() <= found.len());
            for suggestion in &suggestions {
                assert!(found.iter().any(|(entry, _)| entry == &suggestion.to_lowercase()));
            }
        }
    }
}

#[test]
fn corrections_with_a_huge_distance_rank_the_whole_dictionary() {
    let checker = sample();
    let everything = vec!["hello", "world", "help", "hell", "lorem"];
    assert_eq!(everything, checker.get_corrections("hella", 1000, 10));
    assert_eq!(everything, checker.get_corrections("hella", u32::MAX, 10));
    assert_eq!(everything, checker.get_corrections("", u32::MAX - 1, 10));
}

#[test]
fn corrections_restore_case_character_by_character() {
    let checker = SpellChecker::new(vec![("i\u{307}".to_string(), 1)]);
    assert!(checker.check("\u{130}"));
    assert_eq!(vec!["I\u{307}"], checker.get_corrections("\u{130}", 0, 5));
}

#[test]
fn corrections_take_the_casing_by_user_perceived_characters() {
    let checker = SpellChecker::new(vec![("ab".to_string(), 1)]);
    assert_eq!(vec!["aB"], checker.get_corrections("e\u{301}X", 3, 5));
}

#[test]
fn corrections_count_edits_in_scalar_values() {
    let checker = SpellChecker::new(vec![("e".to_string(), 3), ("e\u{301}".to_string(), 2)]);
    assert_eq!(vec!["e", "e\u{301}"], checker.get_corrections("e", 1, 5));
    assert_eq!(vec!["e"], checker.get_corrections("e", 0, 5));
    assert_eq!(vec!["e", "e\u{301}"], checker.get_corrections("a\u{300}", 2, 5));
    assert!(checker.get_corrections("a\u{300}", 1, 5).is_empty());
}
