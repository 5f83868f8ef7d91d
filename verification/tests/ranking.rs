use word_counter::tokens::count_words;
use word_counter::rank::top_words;
use word_counter::opts::parse_top;

#[test]
fn top_two_of_three() {
    let table = count_words("b b b a a c", false);
    let ranked = top_words(&table, 2);
    assert_eq!(ranked.len(), 2);
    assert_eq!(ranked[0], ("b".to_string(), 3));
    assert_eq!(ranked[1], ("a".to_string(), 2));
}

#[test]
fn ranked_counts_descend() {
    let table = count_words("e d d c c c b b b b a a a a a", false);
    let ranked = top_words(&table, 5);
    assert_eq!(ranked.len(), 5);
    for pair in ranked.windows(2) {
        assert!(pair[0].1 >= pair[1].1);
    }
    assert_eq!(ranked[0], ("a".to_string(), 5));
    assert_eq!(ranked[4], ("e".to_string(), 1));
}

#[test]
fn top_zero_is_empty() {
    let table = count_words("x y z", false);
    let ranked = top_words(&table, 0);
    assert!(ranked.is_empty());
}

#[test]
fn top_beyond_size_returns_all() {
    let table = count_words("x y y z", false);
    let ranked = top_words(&table, 10);
    assert_eq!(ranked.len(), 3);
    let mut words: Vec<String> = ranked.iter().map(|p| p.0.clone()).collect();
    words.sort();
    assert_eq!(words, vec!["x".to_string(), "y".to_string(), "z".to_string()]);
    assert_eq!(ranked[0], ("y".to_string(), 2));
}

#[test]
fn ranking_of_empty_table() {
    let table = count_words("", false);
    assert!(top_words(&table, 10).is_empty());
}

#[test]
fn top_argument_parsing() {
    assert_eq!(parse_top("5"), 5);
    assert_eq!(parse_top("10"), 10);
    assert_eq!(parse_top("0"), 0);
    assert_eq!(parse_top("+7"), 7);
    assert_eq!(parse_top(""), 10);
    assert_eq!(parse_top("abc"), 10);
    assert_eq!(parse_top("1x"), 10);
    assert_eq!(parse_top("-3"), 10);
    assert_eq!(parse_top("999999999999999999999999999999"), 10);
    assert_eq!(parse_top(" 5"), 10);
    assert_eq!(parse_top("5 "), 10);
    assert_eq!(parse_top("+"), 10);
}
