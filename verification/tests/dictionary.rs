use word_ladder::dictionary::{
    is_dictionary_entry, normalize_entries, normalize_entry, Dictionary,
};

fn strings(words: &[&str]) -> Vec<String> {
    words.iter().map(|w| w.to_string()).collect()
}

#[test]
fn entries_of_more_than_one_letter_are_kept() {
    assert!(is_dictionary_entry("at"));
    assert!(is_dictionary_entry("cat"));
    assert!(is_dictionary_entry("zz"));
}

#[test]
fn of_the_single_letters_only_a_i_and_o_are_kept() {
    assert!(is_dictionary_entry("a"));
    assert!(is_dictionary_entry("i"));
    assert!(is_dictionary_entry("o"));
    assert!(!is_dictionary_entry("b"));
    assert!(!is_dictionary_entry("e"));
    assert!(!is_dictionary_entry("A"));
    assert!(!is_dictionary_entry("é"));
}

#[test]
fn the_empty_entry_is_dropped() {
    assert!(!is_dictionary_entry(""));
    assert_eq!(normalize_entry(""), None);
}

#[test]
fn normalize_entry_lowercases() {
    assert_eq!(normalize_entry("CAT"), Some("cat".to_string()));
    assert_eq!(normalize_entry("Cat"), Some("cat".to_string()));
    assert_eq!(normalize_entry("cat"), Some("cat".to_string()));
    assert_eq!(normalize_entry("ÉTÉ"), Some("été".to_string()));
}

#[test]
fn normalize_entry_decides_after_lowercasing() {
    assert_eq!(normalize_entry("A"), Some("a".to_string()));
    assert_eq!(normalize_entry("I"), Some("i".to_string()));
    assert_eq!(normalize_entry("O"), Some("o".to_string()));
    assert_eq!(normalize_entry("B"), None);
    assert_eq!(normalize_entry("b"), None);
}

#[test]
fn normalize_entries_keeps_the_order_of_the_lines() {
    let lines = strings(&["Cat", "b", "", "A", "AT", "cat", "x", "I"]);
    assert_eq!(normalize_entries(&lines), strings(&["cat", "a", "at", "cat", "i"]));
}

#[test]
fn normalize_entries_of_no_lines() {
    assert!(normalize_entries(&Vec::new()).is_empty());
}

#[test]
fn from_words_holds_the_words() {
    let dictionary = Dictionary::from_words(&strings(&["cat", "at", "a"]));
    assert!(dictionary.contains("cat"));
    assert!(dictionary.contains("at"));
    assert!(dictionary.contains("a"));
    assert!(!dictionary.contains("ct"));
    assert!(!dictionary.contains("ca"));
    assert!(!dictionary.contains(""));
    assert!(!dictionary.contains("Cat"));
    assert_eq!(dictionary.len(), 3);
}

#[test]
fn from_words_holds_each_word_once() {
    let dictionary = Dictionary::from_words(&strings(&["cat", "at", "cat", "a", "at"]));
    assert_eq!(dictionary.len(), 3);
    assert_eq!(dictionary.entries(), &strings(&["cat", "at", "a"]));
}

#[test]
fn an_empty_dictionary_holds_nothing() {
    let dictionary = Dictionary::from_words(&Vec::new());
    assert_eq!(dictionary.len(), 0);
    assert!(!dictionary.contains("a"));
    assert!(dictionary.entries().is_empty());
    assert!(dictionary.words_of_length(1).is_empty());
}

#[test]
fn words_of_length_selects_by_the_number_of_letters() {
    let dictionary =
        Dictionary::from_words(&strings(&["cats", "at", "cat", "a", "bat", "évier", "eh"]));
    let three: Vec<String> = dictionary.words_of_length(3).into_iter().cloned().collect();
    assert_eq!(three, strings(&["cat", "bat"]));
    let two: Vec<String> = dictionary.words_of_length(2).into_iter().cloned().collect();
    assert_eq!(two, strings(&["at", "eh"]));
    let five: Vec<String> = dictionary.words_of_length(5).into_iter().cloned().collect();
    assert_eq!(five, strings(&["évier"]));
    assert!(dictionary.words_of_length(9).is_empty());
}
