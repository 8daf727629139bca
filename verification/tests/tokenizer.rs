use regex::Regex;
use spelint_lib::tokenizer::{Token, Tokenizer};

fn spans(tokens: &[Token<'_>]) -> Vec<(String, usize, usize)> {
    tokens.iter().map(|t| (t.text.to_string(), t.start, t.end)).collect()
}

fn expect(words: &[(&str, usize, usize)]) -> Vec<(String, usize, usize)> {
    words.iter().map(|(w, s, e)| (w.to_string(), *s, *e)).collect()
}

#[test]
fn tokenize_hello_world() {
    let tokens = Tokenizer::default().tokenize("Hello, world!");
    assert_eq!(expect(&[("Hello", 0, 5), ("world", 7, 12)]), spans(&tokens));
}

#[test]
fn tokenize_empty_and_wordless_text() {
    let tokenizer = Tokenizer::default();
    assert!(tokenizer.tokenize("").is_empty());
    assert!(tokenizer.tokenize("  1234 -- !? ").is_empty());
}

#[test]
fn tokenize_single_word() {
    let tokens = Tokenizer::default().tokenize("word");
    assert_eq!(expect(&[("word", 0, 4)]), spans(&tokens));
}

#[test]
fn tokenize_splits_at_digits_and_punctuation() {
    let tokens = Tokenizer::default().tokenize("abc123def_ghi-j");
    assert_eq!(
        expect(&[("abc", 0, 3), ("def", 6, 9), ("ghi", 10, 13), ("j", 14, 15)]),
        spans(&tokens)
    );
}

#[test]
fn tokenize_word_at_both_ends() {
    let tokens = Tokenizer::default().tokenize("one  two");
    assert_eq!(expect(&[("one", 0, 3), ("two", 5, 8)]), spans(&tokens));
    let tokens = Tokenizer::default().tokenize(" x ");
    assert_eq!(expect(&[("x", 1, 2)]), spans(&tokens));
}

#[test]
fn tokenize_counts_bytes_not_characters() {
    let text = "héllo wörld — ça";
    let tokens = Tokenizer::default().tokenize(text);
    assert_eq!(
        expect(&[("héllo", 0, 6), ("wörld", 7, 13), ("ça", 18, 21)]),
        spans(&tokens)
    );
    for token in &tokens {
        assert_eq!(token.text, &text[token.start..token.end]);
    }
}

#[test]
fn tokenize_other_scripts() {
    let text = "слово 言葉 λέξη";
    let tokens = Tokenizer::default().tokenize(text);
    assert_eq!(
        expect(&[("слово", 0, 10), ("言葉", 11, 17), ("λέξη", 18, 26)]),
        spans(&tokens)
    );
}

#[test]
fn tokenize_is_independent_of_earlier_calls() {
    let tokenizer = Tokenizer::default();
    let first = spans(&tokenizer.tokenize("a b"));
    let _ = tokenizer.tokenize("something else entirely");
    assert_eq!(first, spans(&tokenizer.tokenize("a b")));
}

#[test]
fn tokenize_agrees_with_alphabetic_runs_pattern() {
    let pattern = Regex::new(r"[\p{Alphabetic}]+").unwrap();
    let tokenizer = Tokenizer::default();
    let texts = [
        "Hello, world!",
        "",
        "...",
        "a1b2c3",
        "  leading and trailing  ",
        "naïve café — déjà vu",
        "tabs\tand\nnewlines",
        "mixed123numbers456",
        "Ünïcödé STRASSE straße",
        "don't stop-believing",
    ];
    for text in texts {
        let wanted: Vec<(String, usize, usize)> = pattern
            .find_iter(text)
            .map(|m| (m.as_str().to_string(), m.start(), m.end()))
            .collect();
        assert_eq!(wanted, spans(&tokenizer.tokenize(text)), "text {:?}", text);
    }
}
