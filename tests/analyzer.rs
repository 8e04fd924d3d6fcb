use text_analyzer::{TextAnalyzer, WordIterator};

fn drain(mut it: WordIterator<'_>) -> Vec<String> {
    let mut out = Vec::new();
    while let Some(w) = it.next() {
        out.push(w.clone());
    }
    out
}

fn drain_pairs(analyzer: &TextAnalyzer) -> Vec<(String, String)> {
    let mut out = Vec::new();
    let mut it = analyzer.word_pairs();
    while let Some((a, b)) = it.next() {
        out.push((a.clone(), b.clone()));
    }
    out
}

fn words_of(text: &str) -> Vec<String> {
    drain(TextAnalyzer::new(String::from(text)).iter_words())
}

#[test]
fn iterates_over_words() {
    let input = String::from("hello world from rust");
    let analyzer = TextAnalyzer::new(input);

    let words = drain(analyzer.iter_words());
    assert_eq!(words, vec!["hello", "world", "from", "rust"]);
}

#[test]
fn filters_short_words() {
    let input = String::from("hi my rust friends");
    let analyzer = TextAnalyzer::new(input);

    let mut short_words: Vec<String> = Vec::new();
    let mut it = analyzer.iter_words();
    while let Some(word) = it.next() {
        if word.len() < 3 {
            short_words.push(word.clone());
        }
    }

    assert_eq!(short_words, vec!["hi", "my"]);
}

#[test]
fn maps_to_uppercase() {
    let input = String::from("rust lang");
    let analyzer = TextAnalyzer::new(input);

    let mut uppercased: Vec<String> = Vec::new();
    let mut it = analyzer.iter_words();
    while let Some(word) = it.next() {
        uppercased.push(word.to_uppercase());
    }

    assert_eq!(uppercased, vec!["RUST", "LANG"]);
}

#[test]
fn unique_long_words() {
    let input = String::from("rust makes rust powerful and efficient");
    let analyzer = TextAnalyzer::new(input);

    let mut seen: Vec<String> = Vec::new();
    let mut unique: Vec<String> = Vec::new();
    let mut it = analyzer.iter_words();
    while unique.len() < 3 {
        match it.next() {
            Some(word) => {
                if word.len() > 4 && !seen.contains(word) {
                    seen.push(word.clone());
                    unique.push(word.clone());
                }
            }
            None => break,
        }
    }

    assert_eq!(unique, vec!["makes", "powerful", "efficient"]);
}

#[test]
fn count_r_words() {
    let input = String::from("Rust rules right now");
    let analyzer = TextAnalyzer::new(input);

    let mut count_r = 0;
    let mut it = analyzer.iter_words();
    while let Some(word) = it.next() {
        if word.starts_with('r') || word.starts_with('R') {
            count_r += 1;
        }
    }

    assert_eq!(count_r, 3);
}

#[test]
fn word_count_matches_drained_cursor() {
    for text in ["", "one", "Hello, hello WORLD!", "a  b\tc\nd", "--!!--", "x1 y2 z3 x1"] {
        let analyzer = TextAnalyzer::new(String::from(text));
        assert_eq!(analyzer.word_count(), drain(analyzer.iter_words()).len());
        assert_eq!(analyzer.word_count(), analyzer.iter_words().count());
    }
}

#[test]
fn tokens_are_lowercase_alphanumeric_and_non_empty() {
    let analyzer = TextAnalyzer::new(String::from("  Hello, WORLD!! abc123 -- Déjà_vu  "));
    let words = drain(analyzer.iter_words());
    assert_eq!(words, vec!["hello", "world", "abc123", "déjà", "vu"]);
    for w in &words {
        assert!(!w.is_empty());
        assert!(w.chars().all(|c| c.is_alphanumeric() && !c.is_uppercase()));
    }
}

#[test]
fn empty_and_delimiter_only_inputs_have_no_tokens() {
    assert!(words_of("").is_empty());
    assert!(words_of(" ,.;!?-- \t\n").is_empty());
    let analyzer = TextAnalyzer::new(String::new());
    assert_eq!(analyzer.word_count(), 0);
    assert_eq!(analyzer.unique_word_count(), 0);
    assert_eq!(analyzer.longest_word(), None);
    assert!(analyzer.word_frequencies().is_empty());
}

#[test]
fn unique_count_equals_frequency_keys() {
    let analyzer = TextAnalyzer::new(String::from("The cat and the hat and THE bat"));
    let table = analyzer.word_frequencies();
    assert_eq!(analyzer.unique_word_count(), table.len());
    assert_eq!(analyzer.unique_word_count(), 5);
}

#[test]
fn frequencies_count_each_word_and_sum_to_word_count() {
    let analyzer = TextAnalyzer::new(String::from("The cat and the hat and THE bat"));
    let table = analyzer.word_frequencies();
    let expected: Vec<(String, usize)> = vec![
        (String::from("the"), 3),
        (String::from("cat"), 1),
        (String::from("and"), 2),
        (String::from("hat"), 1),
        (String::from("bat"), 1),
    ];
    assert_eq!(table, expected);
    let sum: usize = table.iter().map(|e| e.1).sum();
    assert_eq!(sum, analyzer.word_count());
    assert_eq!(sum, 8);
}

#[test]
fn longest_word_picks_first_of_greatest_length() {
    let analyzer = TextAnalyzer::new(String::from("a bb ccc dd"));
    assert_eq!(analyzer.longest_word(), Some(String::from("ccc")));
    let tie = TextAnalyzer::new(String::from("ab cd ef"));
    assert_eq!(tie.longest_word(), Some(String::from("ab")));
    let one = TextAnalyzer::new(String::from("!solo!"));
    assert_eq!(one.longest_word(), Some(String::from("solo")));
}

#[test]
fn word_pairs_of_four_words() {
    let analyzer = TextAnalyzer::new(String::from("hello world from rust"));
    let mut pairs: Vec<(String, String)> = Vec::new();
    let mut it = analyzer.word_pairs();
    while let Some((a, b)) = it.next() {
        pairs.push((a.clone(), b.clone()));
    }
    assert_eq!(
        pairs,
        vec![
            (String::from("hello"), String::from("world")),
            (String::from("world"), String::from("from")),
            (String::from("from"), String::from("rust")),
        ]
    );
    assert!(it.next().is_none());
    assert!(it.next().is_none());
}

#[test]
fn word_pairs_of_short_inputs_are_empty() {
    let single = TextAnalyzer::new(String::from("alone"));
    assert!(single.word_pairs().next().is_none());
    let empty = TextAnalyzer::new(String::new());
    assert!(empty.word_pairs().next().is_none());
}

#[test]
fn filter_words_keeps_order() {
    let analyzer = TextAnalyzer::new(String::from("hi my rust friends"));
    let short = analyzer.filter_words(|w| w.len() < 3);
    assert_eq!(short, vec!["hi", "my"]);
    let none = analyzer.filter_words(|_| false);
    assert!(none.is_empty());
    let all = analyzer.filter_words(|_| true);
    assert_eq!(all, vec!["hi", "my", "rust", "friends"]);
}

#[test]
fn queries_are_repeatable() {
    let analyzer = TextAnalyzer::new(String::from("Rust is fast, rust is safe"));
    assert_eq!(analyzer.word_count(), analyzer.word_count());
    assert_eq!(analyzer.unique_word_count(), analyzer.unique_word_count());
    assert_eq!(analyzer.longest_word(), analyzer.longest_word());
    assert_eq!(analyzer.word_frequencies(), analyzer.word_frequencies());
    assert_eq!(
        analyzer.filter_words(|w| w.starts_with('r')),
        analyzer.filter_words(|w| w.starts_with('r'))
    );
    assert_eq!(drain(analyzer.iter_words()), drain(analyzer.iter_words()));
    assert_eq!(drain_pairs(&analyzer), drain_pairs(&analyzer));
}

#[test]
fn delimiters_are_interchangeable() {
    assert_eq!(words_of("a,b"), vec!["a", "b"]);
    assert_eq!(words_of("a b"), vec!["a", "b"]);
    assert_eq!(words_of("a--b"), vec!["a", "b"]);
}

#[test]
fn cursors_are_independent() {
    let analyzer = TextAnalyzer::new(String::from("one two three"));
    let mut first = analyzer.iter_words();
    let mut second = analyzer.iter_words();
    assert_eq!(first.next().map(|w| w.as_str()), Some("one"));
    assert_eq!(first.next().map(|w| w.as_str()), Some("two"));
    assert_eq!(second.next().map(|w| w.as_str()), Some("one"));
    assert_eq!(first.next().map(|w| w.as_str()), Some("three"));
    assert_eq!(first.next(), None);
    assert_eq!(first.next(), None);
    assert_eq!(second.count(), 2);
}

#[test]
fn uppercase_letters_are_lowercased() {
    assert_eq!(words_of("HeLLo ÄÖÜ"), vec!["hello", "äöü"]);
}
