use word_counter::tokens::count_words;

fn count_of(table: &word_counter::table::WordFrequencyTable, w: &str) -> usize {
    table.get_count(&w.to_string())
}

#[test]
fn normalization_case_and_punctuation() {
    let table = count_words("Hello, world! hello...", false);
    assert_eq!(table.len(), 2);
    assert_eq!(count_of(&table, "hello"), 2);
    assert_eq!(count_of(&table, "world"), 1);
    assert_eq!(count_of(&table, "Hello"), 0);
}

#[test]
fn multi_file_concatenation() {
    let mut combined = String::new();
    for part in ["cat dog", "dog bird"] {
        combined.push_str(part);
        combined.push('\n');
    }
    let table = count_words(&combined, false);
    assert_eq!(table.len(), 3);
    assert_eq!(count_of(&table, "cat"), 1);
    assert_eq!(count_of(&table, "dog"), 2);
    assert_eq!(count_of(&table, "bird"), 1);
}

#[test]
fn sum_of_counts_equals_token_count() {
    let table = count_words("one two two three three three", false);
    let mut sum = 0usize;
    for entry in table.entries() {
        sum += entry.1;
    }
    assert_eq!(sum, 6);
}

#[test]
fn counts_are_at_least_one() {
    let table = count_words("a b c a -- ...", false);
    for entry in table.entries() {
        assert!(entry.1 >= 1);
    }
}

#[test]
fn tokenizer_is_deterministic() {
    let text = "The quick brown fox; the quick -- fox!";
    let first = count_words(text, true);
    let second = count_words(text, true);
    assert_eq!(first.len(), second.len());
    for entry in first.entries() {
        assert_eq!(second.get_count(&entry.0), entry.1);
    }
}

#[test]
fn stopwords_excluded_when_flag_set() {
    let table = count_words("the cat and the hat", true);
    assert_eq!(count_of(&table, "the"), 0);
    assert_eq!(count_of(&table, "and"), 0);
    assert_eq!(count_of(&table, "cat"), 1);
    assert_eq!(count_of(&table, "hat"), 1);
    assert_eq!(table.len(), 2);
}

#[test]
fn stopwords_counted_when_flag_clear() {
    let table = count_words("the cat and the hat", false);
    assert_eq!(count_of(&table, "the"), 2);
    assert_eq!(count_of(&table, "and"), 1);
    assert_eq!(table.len(), 4);
}

#[test]
fn every_listed_stopword_is_excluded() {
    let listed = [
        "the", "and", "is", "a", "an", "to", "in", "on", "for", "of", "with", "by", "at", "it",
        "as", "from", "this", "that", "be", "or", "was", "are", "not", "but",
    ];
    let mut text = String::new();
    for w in listed {
        text.push_str(w);
        text.push(' ');
    }
    let table = count_words(&text, true);
    assert_eq!(table.len(), 0);
    let unfiltered = count_words(&text, false);
    assert_eq!(unfiltered.len(), listed.len());
}

#[test]
fn empty_and_punctuation_only_input() {
    assert_eq!(count_words("", false).len(), 0);
    assert_eq!(count_words("   \t\n  ", false).len(), 0);
    assert_eq!(count_words("--- !!! ,,,", false).len(), 0);
}

#[test]
fn inner_punctuation_is_preserved() {
    let table = count_words("Don't don't", false);
    assert_eq!(count_of(&table, "don't"), 2);
    assert_eq!(table.len(), 1);
}

#[test]
fn stopword_match_is_case_insensitive() {
    let table = count_words("The THE the", true);
    assert_eq!(table.len(), 0);
}

#[test]
fn sum_with_stopwords_excluded() {
    let table = count_words("the cat sat on the mat", true);
    let mut sum = 0usize;
    for entry in table.entries() {
        sum += entry.1;
    }
    assert_eq!(sum, 3);
    assert_eq!(table.len(), 3);
}

#[test]
fn table_increment_counts() {
    let mut table = word_counter::table::WordFrequencyTable::new();
    table.increment("apple".to_string());
    table.increment("pear".to_string());
    table.increment("apple".to_string());
    assert_eq!(table.len(), 2);
    assert_eq!(table.get_count(&"apple".to_string()), 2);
    assert_eq!(table.get_count(&"pear".to_string()), 1);
    assert_eq!(table.get_count(&"plum".to_string()), 0);
}
