use word_counter::tokens::count_words;
use word_counter::export::table_to_csv;

#[test]
fn export_has_header_and_one_row_per_word() {
    let table = count_words("b a b", false);
    let text = table_to_csv(&table);
    assert_eq!(text, "word,count\nb,2\na,1\n");
}

#[test]
fn export_line_count_is_size_plus_one() {
    let table = count_words("red green blue red", false);
    let text = table_to_csv(&table);
    let lines: Vec<&str> = text.lines().collect();
    assert_eq!(lines.len(), table.len() + 1);
    assert_eq!(lines[0], "word,count");
}

#[test]
fn export_of_empty_table_is_header_only() {
    let table = count_words("", false);
    assert_eq!(table_to_csv(&table), "word,count\n");
}

#[test]
fn fields_with_commas_and_quotes_are_quoted() {
    // Inner punctuation survives normalization, so a word can hold a comma
    // or a quote and must be quoted in the export.
    let table = count_words("a,b c\"d", false);
    let text = table_to_csv(&table);
    assert_eq!(text, "word,count\n\"a,b\",1\n\"c\"\"d\",1\n");
}

#[test]
fn reparsing_export_reconstructs_the_mapping() {
    let table = count_words("to be, or not to be: that is the question!", false);
    let text = table_to_csv(&table);
    let mut reader = csv::Reader::from_reader(text.as_bytes());
    let headers = reader.headers().unwrap().clone();
    assert_eq!(&headers[0], "word");
    assert_eq!(&headers[1], "count");
    let mut rows = 0usize;
    for record in reader.records() {
        let record = record.unwrap();
        let word = record[0].to_string();
        let count: usize = record[1].parse().unwrap();
        assert_eq!(table.get_count(&word), count);
        rows += 1;
    }
    assert_eq!(rows, table.len());
}

#[test]
fn reparsing_quoted_fields_round_trips() {
    let table = count_words("x,y x,y z\"w", false);
    let text = table_to_csv(&table);
    let mut reader = csv::Reader::from_reader(text.as_bytes());
    let mut rows = 0usize;
    for record in reader.records() {
        let record = record.unwrap();
        let word = record[0].to_string();
        let count: usize = record[1].parse().unwrap();
        assert_eq!(table.get_count(&word), count);
        rows += 1;
    }
    assert_eq!(rows, 2);
    assert_eq!(table.get_count(&"x,y".to_string()), 2);
    assert_eq!(table.get_count(&"z\"w".to_string()), 1);
}
