use deleted_user_analyzer::text::{tokenize_content, tokenize_lowered};

#[test]
fn test_tokenize_content() {
    let content = "Hello, World! This is a test.";
    let tokens = tokenize_content(content, 3);
    assert_eq!(tokens, vec!["hello", "world", "this", "test"]);
}

#[test]
fn test_tokenize_content_with_numbers() {
    let content = "Test123 with numbers 456!";
    let tokens = tokenize_content(content, 3);
    assert_eq!(tokens, vec!["test123", "with", "numbers", "456"]);
}

#[test]
fn test_tokenize_content_filters_short_words() {
    let content = "a an the is to of";
    let tokens = tokenize_content(content, 3);
    assert_eq!(tokens, vec!["the"]);
}

#[test]
fn test_tokenize_content_min_length() {
    let content = "a bb ccc dddd";
    let tokens = tokenize_content(content, 2);
    assert_eq!(tokens, vec!["bb", "ccc", "dddd"]);
}

#[test]
fn tokens_are_lowercase_alphanumeric_and_long_enough() {
    let tokens = tokenize_content("MiXeD-Case\twords, and__under_scores!! x", 4);
    assert_eq!(tokens, vec!["mixedcase", "words", "andunderscores"]);
    for t in &tokens {
        assert!(t.chars().all(|c| c.is_alphanumeric() && !c.is_uppercase()));
        assert!(t.len() >= 4);
    }
}

#[test]
fn tokenize_empty_and_blank_text() {
    assert!(tokenize_content("", 3).is_empty());
    assert!(tokenize_content("   \n\t  ", 0).is_empty());
}

#[test]
fn tokenize_zero_threshold_keeps_punctuation_only_words_as_empty() {
    let tokens = tokenize_content("hi !!! yo", 0);
    assert_eq!(tokens, vec!["hi", "", "yo"]);
}

#[test]
fn tokenize_threshold_counts_bytes() {
    // "äb" is three bytes in UTF-8 though only two characters.
    let tokens = tokenize_content("ÄB ab", 3);
    assert_eq!(tokens, vec!["äb"]);
}

#[test]
fn tokenize_splits_on_unicode_whitespace() {
    let tokens = tokenize_content("one\u{00A0}two\u{3000}three", 3);
    assert_eq!(tokens, vec!["one", "two", "three"]);
}

#[test]
fn tokenize_lowered_leaves_case_alone() {
    assert_eq!(tokenize_lowered("Hello, world", 3), vec!["Hello", "world"]);
    assert_eq!(tokenize_content("Hello, world", 3), vec!["hello", "world"]);
}
