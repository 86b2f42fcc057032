use mcp_server::WordIndex;

// The corpus that the tests below search: ten lines, the eighth of them empty.
fn test_db_lines() -> Vec<String> {
    let lines = [
        "Hello world!",
        "A test line.",
        "Another sentence with different words.",
        "UPPERCASE lowercase",
        "A line with a comma, and a period.",
        "Numbers like 123 are numbers too.",
        "An empty line follows this one.",
        "",
        "A line after an empty line.",
        "repeated repeated words.",
    ];
    lines.iter().map(|line| line.to_string()).collect()
}

fn word_index_from_test_db() -> WordIndex {
    WordIndex::new(test_db_lines())
}

#[test]
fn test_word_index_new_success() {
    let wi = word_index_from_test_db();
    assert!(!wi.lines.is_empty(), "Lines should not be empty after loading test_db.txt");
    assert!(!wi.index.is_empty(), "Index should not be empty after loading test_db.txt");
}

#[test]
fn test_word_index_new_empty_file() {
    // A corpus of one empty line.
    let wi_one_empty_line = WordIndex::new(vec!["".to_string()]);
    assert_eq!(wi_one_empty_line.lines.len(), 1, "Should have one line for a file with one empty line");
    assert!(wi_one_empty_line.lines[0].is_empty(), "The first line should be empty");
    assert!(wi_one_empty_line.index.is_empty(), "Index should be empty if only an empty line exists");

    // A corpus without lines.
    let wi_truly_empty = WordIndex::new(Vec::new());
    assert!(wi_truly_empty.lines.is_empty(), "Lines should be empty for a truly empty file");
    assert!(wi_truly_empty.index.is_empty(), "Index should be empty for a truly empty file");
}

#[test]
fn test_search_single_word_exists() {
    let wi = word_index_from_test_db();
    let results = wi.search("hello");
    assert_eq!(results, vec![0]);
}

#[test]
fn test_search_multiple_words_same_line() {
    let wi = word_index_from_test_db();
    let results = wi.search("test line");
    assert_eq!(results, vec![1]);
}

#[test]
fn test_search_multiple_words_different_lines() {
    let wi = word_index_from_test_db();
    let results = wi.search("hello test"); // "hello" is line 0, "test" is line 1
    assert!(results.is_empty());
}

#[test]
fn test_search_word_not_exists() {
    let wi = word_index_from_test_db();
    let results = wi.search("nonexistentword");
    assert!(results.is_empty());
}

#[test]
fn test_search_empty_query() {
    let wi = word_index_from_test_db();
    let results = wi.search(" "); // space only
    assert!(results.is_empty());
    let results_empty = wi.search(""); // truly empty
    assert!(results_empty.is_empty());
}

#[test]
fn test_search_mixed_casing() {
    let wi = word_index_from_test_db();
    let results = wi.search("UPPERCASE"); // the corpus has "UPPERCASE"
    assert_eq!(results, vec![3]);
    let results_lower = wi.search("uppercase"); // query lowercase
    assert_eq!(results_lower, vec![3]);
    let results_in_db_lower = wi.search("LoWeRcAsE"); // the corpus has "lowercase"
    assert_eq!(results_in_db_lower, vec![3]);
}

#[test]
fn test_search_with_punctuation() {
    let wi = word_index_from_test_db();
    let results = wi.search("world!"); // Query with punctuation
    assert_eq!(results, vec![0]);
    let results_comma = wi.search("comma,");
    assert_eq!(results_comma, vec![4]);
    let results_period = wi.search("period.");
    assert_eq!(results_period, vec![4]);
}

#[test]
fn test_search_numbers() {
    let wi = word_index_from_test_db();
    let results = wi.search("123");
    assert_eq!(results, vec![5]);
    let results_multi = wi.search("123 numbers");
    assert_eq!(results_multi, vec![5]);
}

#[test]
fn test_search_line_after_empty_line() {
    let wi = word_index_from_test_db();
    // An empty line follows this one. (line 6)
    //                                 (line 7 - empty)
    // A line after an empty line.     (line 8)
    let results = wi.search("after empty line");
    assert_eq!(results, vec![8]);
}

#[test]
fn test_search_repeated_words() {
    let wi = word_index_from_test_db();
    let results = wi.search("repeated");
    assert_eq!(results, vec![9]); // "repeated repeated words."
    let results_double = wi.search("repeated repeated");
    assert_eq!(results_double, vec![9]);
}

#[test]
fn test_fetch_existing_line() {
    let wi = word_index_from_test_db();
    let line = wi.fetch(0);
    assert_eq!(line, Some("Hello world!".to_string()));
    let line_2 = wi.fetch(8);
    assert_eq!(line_2, Some("A line after an empty line.".to_string()));
}

#[test]
fn test_fetch_out_of_bounds() {
    let wi = word_index_from_test_db();
    let line = wi.fetch(100); // the corpus has 10 lines (0-9)
    assert_eq!(line, None);
}

#[test]
fn test_fetch_line_is_empty() {
    let wi = word_index_from_test_db();
    // line 7 is empty
    let line = wi.fetch(7);
    assert_eq!(line, Some("".to_string()));
}
