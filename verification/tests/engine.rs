use mcp_server::index::WordIndex;
use mcp_server::listing::{ascending_listing, common_numbers};
use mcp_server::postings::PostingsBuilder;
use mcp_server::tokenizer::{
    keep_letters_and_digits, normalize_word, split_words, tokenize, WordSplitter,
};

fn corpus(lines: &[&str]) -> Vec<String> {
    lines.iter().map(|line| line.to_string()).collect()
}

fn strings(items: &[&str]) -> Vec<String> {
    items.iter().map(|item| item.to_string()).collect()
}

fn round_trip_index() -> WordIndex {
    WordIndex::new(corpus(&[
        "Hello world!",
        "A test line.",
        "UPPERCASE lowercase",
        "A line with a comma, and a period.",
    ]))
}

fn sample_index() -> WordIndex {
    WordIndex::new(corpus(&[
        "the quick brown fox",
        "The lazy dog",
        "quick, quick: the dog runs!",
        "",
        "   ",
        "fox and dog and fox",
        "THE END",
    ]))
}

#[test]
fn splitter_ends_a_word_at_every_break() {
    let mut splitter = WordSplitter::new();
    for (c, is_break) in [(' ', true), ('a', false), ('b', false), ('-', true), ('/', true), ('c', false)] {
        splitter.feed(c, is_break);
    }
    assert_eq!(splitter.closed, strings(&["ab"]));
    assert_eq!(splitter.open, "c");
    assert_eq!(splitter.finish(), strings(&["ab", "c"]));
}

#[test]
fn splitter_keeps_what_is_no_break() {
    let mut splitter = WordSplitter::new();
    for c in "a b".chars() {
        splitter.feed(c, false);
    }
    assert_eq!(splitter.finish(), strings(&["a b"]));
    assert_eq!(WordSplitter::new().finish(), Vec::<String>::new());
}

#[test]
fn split_words_gives_the_runs_between_whitespace() {
    assert_eq!(split_words("  Hello,  World!\t"), strings(&["Hello,", "World!"]));
    assert_eq!(split_words("one"), strings(&["one"]));
    assert_eq!(split_words("-- !?"), strings(&["--", "!?"]));
    assert_eq!(split_words(" \n "), Vec::<String>::new());
    assert_eq!(split_words(""), Vec::<String>::new());
}

#[test]
fn keep_letters_and_digits_drops_the_rest() {
    assert_eq!(keep_letters_and_digits("he,ll-o 42!"), "hello42");
    assert_eq!(keep_letters_and_digits("Mixed CASE stays"), "MixedCASEstays");
    assert_eq!(keep_letters_and_digits("été"), "été");
    assert_eq!(keep_letters_and_digits("...---..."), "");
    assert_eq!(keep_letters_and_digits(""), "");
}

#[test]
fn tokenize_splits_lowers_and_strips() {
    assert_eq!(tokenize("Hello, World! 123"), strings(&["hello", "world", "123"]));
    assert_eq!(tokenize("  leading and   trailing  "), strings(&["leading", "and", "trailing"]));
    assert_eq!(tokenize("it's a well-known fact"), strings(&["its", "a", "wellknown", "fact"]));
}

#[test]
fn tokenize_keeps_order_and_repeats() {
    assert_eq!(tokenize("b a b"), strings(&["b", "a", "b"]));
}

#[test]
fn tokenize_drops_words_without_letters_or_digits() {
    assert_eq!(tokenize("--- !!! ..."), Vec::<String>::new());
    assert_eq!(tokenize("a -- b"), strings(&["a", "b"]));
}

#[test]
fn tokenize_of_nothing_is_nothing() {
    assert_eq!(tokenize(""), Vec::<String>::new());
    assert_eq!(tokenize("   "), Vec::<String>::new());
    assert_eq!(tokenize("\t\n\r "), Vec::<String>::new());
}

#[test]
fn tokenize_splits_at_every_kind_of_whitespace() {
    assert_eq!(tokenize("a\tb\nc\u{a0}d\u{3000}e"), strings(&["a", "b", "c", "d", "e"]));
}

#[test]
fn tokenize_knows_letters_and_digits_beyond_ascii() {
    assert_eq!(tokenize("ÉCOLE Straße №5"), strings(&["école", "straße", "5"]));
    assert_eq!(tokenize("ΟΔΟΣ"), strings(&["οδος"]));
}

#[test]
fn normalize_word_lowers_and_strips() {
    assert_eq!(normalize_word("World!"), "world");
    assert_eq!(normalize_word("(Hello)"), "hello");
    assert_eq!(normalize_word("R2-D2"), "r2d2");
    assert_eq!(normalize_word("?!"), "");
    assert_eq!(normalize_word(""), "");
}

#[test]
fn normalize_word_leaves_normal_forms_alone() {
    for text in ["Hello, World! 123", "ÉCOLE Straße", "it's a well-known fact", "R2-D2 & C-3PO"] {
        for token in tokenize(text) {
            assert_eq!(normalize_word(&token), token);
            assert_eq!(tokenize(&token), vec![token.clone()]);
        }
    }
}

#[test]
fn ascending_listing_sorts_and_drops_repeats() {
    assert_eq!(ascending_listing(vec![3, 1, 3, 2, 1]), vec![1, 2, 3]);
    assert_eq!(ascending_listing(vec![7]), vec![7]);
    assert_eq!(ascending_listing(vec![9, 8, 7, 6]), vec![6, 7, 8, 9]);
    assert_eq!(ascending_listing(Vec::new()), Vec::<usize>::new());
    assert_eq!(ascending_listing(vec![usize::MAX, 0, usize::MAX]), vec![0, usize::MAX]);
}

#[test]
fn common_numbers_keeps_what_both_hold() {
    assert_eq!(common_numbers(&vec![5, 1, 4, 1], &vec![1, 5, 9]), vec![5, 1, 1]);
    assert_eq!(common_numbers(&vec![1, 2, 3], &vec![4, 5]), Vec::<usize>::new());
    assert_eq!(common_numbers(&Vec::new(), &vec![4, 5]), Vec::<usize>::new());
    assert_eq!(common_numbers(&vec![4, 5], &Vec::new()), Vec::<usize>::new());
}

#[test]
fn builder_lists_each_line_once_and_in_order() {
    let mut builder = PostingsBuilder::new();
    assert_eq!(builder.len(), 0);
    builder.push_line(strings(&["a", "b", "a"]));
    builder.push_line(Vec::new());
    builder.push_line(strings(&["b", "c", "b", "b"]));
    assert_eq!(builder.len(), 3);
    let index = builder.finish();
    assert_eq!(index.len(), 3);
    assert_eq!(index.get("a"), Some(&vec![0]));
    assert_eq!(index.get("b"), Some(&vec![0, 2]));
    assert_eq!(index.get("c"), Some(&vec![2]));
    assert_eq!(index.get("d"), None);
}

#[test]
fn builder_without_lines_gives_an_empty_index() {
    let index = PostingsBuilder::new().finish();
    assert!(index.is_empty());
}

#[test]
fn new_keeps_the_lines_as_they_are() {
    let lines = corpus(&["  Spaces kept ", "MiXeD, punctuation!", ""]);
    let wi = WordIndex::new(lines.clone());
    assert_eq!(wi.lines, lines);
}

#[test]
fn new_indexes_every_token_under_its_lines() {
    let wi = sample_index();
    assert_eq!(wi.index.len(), 9);
    assert_eq!(wi.index.get("the"), Some(&vec![0, 1, 2, 6]));
    assert_eq!(wi.index.get("quick"), Some(&vec![0, 2]));
    assert_eq!(wi.index.get("fox"), Some(&vec![0, 5]));
    assert_eq!(wi.index.get("dog"), Some(&vec![1, 2, 5]));
    assert_eq!(wi.index.get("end"), Some(&vec![6]));
    assert_eq!(wi.index.get("The"), None);
    assert_eq!(wi.index.get(""), None);
}

#[test]
fn new_of_blank_lines_has_lines_and_no_keys() {
    let wi = WordIndex::new(corpus(&["", "   ", "\t", "?!"]));
    assert_eq!(wi.lines.len(), 4);
    assert!(wi.index.is_empty());
    assert_eq!(wi.search("anything"), Vec::<usize>::new());
    assert_eq!(wi.fetch(1), Some("   ".to_string()));
}

#[test]
fn round_trip_scenario() {
    let wi = round_trip_index();
    assert_eq!(wi.search("hello"), vec![0]);
    assert_eq!(wi.search("test line"), vec![1]);
    assert_eq!(wi.search("hello test"), Vec::<usize>::new());
    assert_eq!(wi.search("uppercase"), vec![2]);
    assert_eq!(wi.fetch(3), Some("A line with a comma, and a period.".to_string()));
    assert_eq!(wi.fetch(10), None);
}

#[test]
fn repeated_token_scenario() {
    let mut lines = corpus(&["one", "two", "three", "four", "five", "six", "seven", "eight", "nine"]);
    lines.push("repeated repeated words.".to_string());
    let wi = WordIndex::new(lines);
    assert_eq!(wi.search("repeated"), vec![9]);
    assert_eq!(wi.search("repeated repeated"), vec![9]);
    assert_eq!(wi.index.get("repeated"), Some(&vec![9]));
}

#[test]
fn search_ignores_case() {
    let wi = sample_index();
    let expected = vec![0, 1, 2, 6];
    for query in ["the", "THE", "The", "tHe", "thE"] {
        assert_eq!(wi.search(query), expected);
    }
    let wi = WordIndex::new(corpus(&["École normale", "ecole", "ÉCOLE"]));
    assert_eq!(wi.search("école"), vec![0, 2]);
    assert_eq!(wi.search("ÉCOLE"), vec![0, 2]);
    assert_eq!(wi.search("Ecole"), vec![1]);
}

#[test]
fn search_ignores_punctuation() {
    let wi = round_trip_index();
    assert_eq!(wi.search("world!"), vec![0]);
    assert_eq!(wi.search("world"), vec![0]);
    assert_eq!(wi.search("(world)"), vec![0]);
    assert_eq!(wi.search("...comma"), vec![3]);
    assert_eq!(wi.search("hello!!! ---"), vec![0]);
}

#[test]
fn search_for_two_tokens_is_the_intersection() {
    let wi = sample_index();
    let words = ["the", "quick", "fox", "dog", "and", "end", "lazy", "runs", "brown", "missing"];
    for a in words {
        for b in words {
            let both = wi.search(&format!("{} {}", a, b));
            let first = wi.search(a);
            let second = wi.search(b);
            let expected: Vec<usize> =
                first.iter().copied().filter(|n| second.contains(n)).collect();
            assert_eq!(both, expected);
        }
    }
    assert_eq!(wi.search("the dog"), vec![1, 2]);
    assert_eq!(wi.search("the quick dog"), vec![2]);
    assert_eq!(wi.search("fox dog"), vec![5]);
}

#[test]
fn search_with_an_unknown_token_finds_nothing() {
    let wi = sample_index();
    assert_eq!(wi.search("missing"), Vec::<usize>::new());
    assert_eq!(wi.search("the missing"), Vec::<usize>::new());
    assert_eq!(wi.search("missing the"), Vec::<usize>::new());
    assert_eq!(wi.search("the quick missing dog"), Vec::<usize>::new());
}

#[test]
fn search_for_nothing_finds_nothing() {
    let wi = sample_index();
    assert_eq!(wi.search(""), Vec::<usize>::new());
    assert_eq!(wi.search("   "), Vec::<usize>::new());
    assert_eq!(wi.search("\t\n"), Vec::<usize>::new());
    assert_eq!(wi.search("?! ..."), Vec::<usize>::new());
}

#[test]
fn search_result_rises_and_holds_nothing_twice() {
    let mut lines = Vec::new();
    for n in 0..200 {
        lines.push(format!("common common item{} common", n % 7));
    }
    let wi = WordIndex::new(lines);
    let found = wi.search("common");
    assert_eq!(found, (0..200).collect::<Vec<usize>>());
    let found = wi.search("item3 common item3");
    assert_eq!(found, (0..200).filter(|n| n % 7 == 3).collect::<Vec<usize>>());
}

#[test]
fn search_puts_unordered_lists_in_order() {
    let mut wi = WordIndex::new(Vec::new());
    wi.index.insert("zeta".to_string(), vec![5, 2, 9, 2]);
    wi.index.insert("eta".to_string(), vec![9, 9, 1, 5]);
    assert_eq!(wi.search("zeta"), vec![2, 5, 9]);
    assert_eq!(wi.search("eta"), vec![1, 5, 9]);
    assert_eq!(wi.search("zeta eta"), vec![5, 9]);
    assert_eq!(wi.search("eta zeta"), vec![5, 9]);
}

#[test]
fn search_tokens_looks_tokens_up_as_they_are() {
    let wi = sample_index();
    assert_eq!(wi.search_tokens(&strings(&["the", "dog"])), vec![1, 2]);
    assert_eq!(wi.search_tokens(&strings(&["The"])), Vec::<usize>::new());
    assert_eq!(wi.search_tokens(&strings(&["the dog"])), Vec::<usize>::new());
    assert_eq!(wi.search_tokens(&Vec::new()), Vec::<usize>::new());
}

#[test]
fn fetch_succeeds_below_the_length_only() {
    let lines = corpus(&["zero", "", "two"]);
    let wi = WordIndex::new(lines.clone());
    for n in 0..lines.len() {
        assert_eq!(wi.fetch(n), Some(lines[n].clone()));
    }
    for n in lines.len()..lines.len() + 5 {
        assert_eq!(wi.fetch(n), None);
    }
    assert_eq!(wi.fetch(usize::MAX), None);
    let empty = WordIndex::new(Vec::new());
    assert_eq!(empty.fetch(0), None);
}

#[test]
fn fetch_returns_the_line_as_it_was_given() {
    let wi = WordIndex::new(corpus(&["  MiXeD case, and punctuation!  "]));
    assert_eq!(wi.fetch(0), Some("  MiXeD case, and punctuation!  ".to_string()));
}
