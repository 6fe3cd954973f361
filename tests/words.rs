use rust_test::words::count_words;

#[test]
fn test_count_words_basic() {
    let input = "apple banana pear banana apple banana";
    let result = count_words(input);
    let expected = vec![
        ("banana".to_string(), 3),
        ("apple".to_string(), 2),
        ("pear".to_string(), 1),
    ];
    assert_eq!(result, expected);
}

#[test]
fn test_count_words_empty() {
    let input = "";
    let result = count_words(input);
    let expected: Vec<(String, usize)> = vec![];
    assert_eq!(result, expected);
}

#[test]
fn test_count_words_single_word() {
    let input = "apple";
    let result = count_words(input);
    let expected = vec![("apple".to_string(), 1)];
    assert_eq!(result, expected);
}

#[test]
fn test_count_words_same_frequency() {
    let input = "apple banana apple banana";
    let result = count_words(input);
    let expected = vec![("apple".to_string(), 2), ("banana".to_string(), 2)];
    assert_eq!(result, expected);
}

#[test]
fn test_count_words_with_punctuation() {
    let input = "apple, banana. apple banana!";
    let result = count_words(input);
    let expected = vec![
        ("apple".to_string(), 1),
        ("apple,".to_string(), 1),
        ("banana!".to_string(), 1),
        ("banana.".to_string(), 1),
    ];
    assert_eq!(result, expected);
}

#[test]
fn test_count_words_case_sensitivity() {
    let input = "Apple apple APPLE";
    let result = count_words(input);
    let mut expected = vec![
        ("Apple".to_string(), 1),
        ("apple".to_string(), 1),
        ("APPLE".to_string(), 1),
    ];
    expected.sort();
    assert_eq!(result, expected);
}

#[test]
fn count_words_mixed_white_space() {
    let input = "  b\ta\n\nb \r\n a\u{3000}c\u{00A0}a  ";
    let result = count_words(input);
    let expected = vec![
        ("a".to_string(), 3),
        ("b".to_string(), 2),
        ("c".to_string(), 1),
    ];
    assert_eq!(result, expected);
}

#[test]
fn count_words_only_white_space() {
    assert!(count_words(" \t\n  ").is_empty());
}

#[test]
fn count_words_orders_by_code_point() {
    let result = count_words("é z Z ab a");
    let expected = vec![
        ("Z".to_string(), 1),
        ("a".to_string(), 1),
        ("ab".to_string(), 1),
        ("z".to_string(), 1),
        ("é".to_string(), 1),
    ];
    assert_eq!(result, expected);
}
