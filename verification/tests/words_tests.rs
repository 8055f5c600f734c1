use seqfetch::{
    calculate_word_frequencies, contains_word, top_n_common_words, word_with_unique_occurrences,
    WordCounts,
};

fn counts_from(pairs: &[(&str, usize)]) -> WordCounts {
    let mut wf = WordCounts::new();
    for (word, count) in pairs {
        for _ in 0..*count {
            wf.increment(word.to_string());
        }
    }
    wf
}

#[test]
fn test_top_n_common_words() {
    let word_frequencies = counts_from(&[
        ("hello", 1),
        ("world", 2),
        ("foo", 3),
        ("bar", 4),
        ("baz", 5),
    ]);

    let common_words = top_n_common_words(&word_frequencies, 3);
    assert_eq!(common_words.len(), 3);
    assert_eq!(common_words[0].0, "baz");
    assert_eq!(common_words[1].0, "bar");
    assert_eq!(common_words[2].0, "foo");
}

#[test]
fn test_word_with_unique_occurrences() {
    let word_frequencies = counts_from(&[
        ("hello", 1),
        ("world", 2),
        ("foo", 1),
        ("bar", 4),
        ("baz", 5),
    ]);

    let unique_words = word_with_unique_occurrences(&word_frequencies);
    assert_eq!(unique_words.len(), 2);
    assert!(unique_words.contains(&"hello".to_string()));
    assert!(unique_words.contains(&"foo".to_string()));
}

#[test]
fn test_calculate_word_frequencies() {
    let text = "hello world foo bar baz world foo bar";
    let word_frequencies = calculate_word_frequencies(text);
    assert_eq!(word_frequencies.len(), 5);
    assert_eq!(word_frequencies.get(&"hello".to_string()), Some(1));
    assert_eq!(word_frequencies.get(&"world".to_string()), Some(2));
    assert_eq!(word_frequencies.get(&"foo".to_string()), Some(2));
    assert_eq!(word_frequencies.get(&"bar".to_string()), Some(2));
    assert_eq!(word_frequencies.get(&"baz".to_string()), Some(1));
}

#[test]
fn frequencies_lowercase_and_split_on_punctuation() {
    let word_frequencies = calculate_word_frequencies("Hello, hello world! WORLD-wide_web 42");
    assert_eq!(word_frequencies.get(&"hello".to_string()), Some(2));
    assert_eq!(word_frequencies.get(&"world".to_string()), Some(2));
    assert_eq!(word_frequencies.get(&"wide_web".to_string()), Some(1));
    assert_eq!(word_frequencies.get(&"42".to_string()), Some(1));
    assert_eq!(word_frequencies.get(&"Hello".to_string()), None);
    assert_eq!(word_frequencies.len(), 4);
}

#[test]
fn frequencies_count_unicode_words() {
    let word_frequencies = calculate_word_frequencies("\u{c9}\u{e9} caf\u{e9} m\u{e9}tro CAF\u{c9}");
    assert_eq!(word_frequencies.get(&"\u{e9}\u{e9}".to_string()), Some(1));
    assert_eq!(word_frequencies.get(&"caf\u{e9}".to_string()), Some(2));
    assert_eq!(word_frequencies.get(&"m\u{e9}tro".to_string()), Some(1));
    assert_eq!(word_frequencies.len(), 3);
}

#[test]
fn frequencies_of_empty_text() {
    let word_frequencies = calculate_word_frequencies("");
    assert_eq!(word_frequencies.len(), 0);
    assert_eq!(word_frequencies.get(&"anything".to_string()), None);
}

#[test]
fn top_n_breaks_ties_lexicographically() {
    let word_frequencies = counts_from(&[("pear", 2), ("apple", 2), ("quince", 3)]);
    let common_words = top_n_common_words(&word_frequencies, 10);
    assert_eq!(common_words.len(), 3);
    assert_eq!(common_words[0], ("quince".to_string(), 3));
    assert_eq!(common_words[1], ("apple".to_string(), 2));
    assert_eq!(common_words[2], ("pear".to_string(), 2));
}

#[test]
fn contains_word_finds_substrings() {
    assert!(contains_word("the quick brown fox", "quick"));
    assert!(contains_word("the quick brown fox", "own fo"));
    assert!(!contains_word("the quick brown fox", "quack"));
    assert!(contains_word("anything", ""));
    assert!(!contains_word("", "a"));
    assert!(contains_word("aaab", "aab"));
}
