use std::cmp::Ordering;
use word_ladder::order::Ordered;
use word_ladder::word_lineage::Lineage;

fn chain(words: &[&str]) -> Lineage {
    let mut lineage = Lineage::new().init(words[0]);
    for word in &words[1..] {
        lineage = Lineage::new().extend_lineage(&lineage, word);
    }
    lineage
}

fn words_of(lineage: &Lineage) -> Vec<String> {
    (0..lineage.len()).map(|i| lineage.word(i).to_string()).collect()
}

#[test]
fn init_holds_exactly_the_initial_word() {
    let lineage = Lineage::new().init("cat");
    assert_eq!(lineage.len(), 1);
    assert_eq!(words_of(&lineage), vec!["cat"]);
    assert_eq!(lineage.get_original_word(), "cat");
    assert_eq!(lineage.get_latest_word(), "cat");
}

#[test]
fn extend_lineage_adds_the_word_at_the_end() {
    let parent = chain(&["cats", "cat"]);
    let child = Lineage::new().extend_lineage(&parent, "at");
    assert_eq!(words_of(&child), vec!["cats", "cat", "at"]);
    assert_eq!(child.get_original_word(), "cats");
    assert_eq!(child.get_latest_word(), "at");
}

#[test]
fn extend_lineage_leaves_the_parent_as_it_was() {
    let parent = chain(&["cats", "cat"]);
    let _child = Lineage::new().extend_lineage(&parent, "at");
    assert_eq!(words_of(&parent), vec!["cats", "cat"]);
    assert_eq!(parent.get_latest_word(), "cat");
}

#[test]
fn word_gives_each_position() {
    let lineage = chain(&["cats", "cat", "at", "a"]);
    assert_eq!(lineage.word(0), "cats");
    assert_eq!(lineage.word(1), "cat");
    assert_eq!(lineage.word(2), "at");
    assert_eq!(lineage.word(3), "a");
}

#[test]
fn edges_of_a_chain_of_four_words() {
    let lineage = chain(&["cats", "cat", "at", "a"]);
    let expected = vec![
        ("cats".to_string(), "cat".to_string()),
        ("cat".to_string(), "at".to_string()),
        ("at".to_string(), "a".to_string()),
    ];
    assert_eq!(lineage.edges(), expected);
}

#[test]
fn edges_of_a_single_word_are_none() {
    let lineage = chain(&["cat"]);
    assert!(lineage.edges().is_empty());
    assert!(lineage.get_dot_file_instructions().is_empty());
}

#[test]
fn dot_file_instructions_join_parent_and_child() {
    let lineage = chain(&["cats", "cat", "at", "a"]);
    assert_eq!(
        lineage.get_dot_file_instructions(),
        vec!["cats -> cat", "cat -> at", "at -> a"]
    );
}

#[test]
fn to_string_joins_the_words() {
    assert_eq!(chain(&["cats", "cat", "at", "a"]).to_string(), "cats -> cat -> at -> a");
    assert_eq!(chain(&["cat", "at"]).to_string(), "cat -> at");
    assert_eq!(chain(&["cat"]).to_string(), "cat");
}

#[test]
fn clone_has_the_same_words() {
    let lineage = chain(&["cats", "cat", "at"]);
    let copy = lineage.clone();
    assert_eq!(words_of(&copy), words_of(&lineage));
    assert_eq!(copy.to_string(), "cats -> cat -> at");
}

#[test]
fn equality_ignores_the_last_word() {
    let a = chain(&["cat", "at"]);
    let b = chain(&["cat", "ca"]);
    assert!(a == b);
    assert!(b == a);
    assert_ne!(a.to_string(), b.to_string());
}

#[test]
fn equality_compares_all_words_but_the_last() {
    let a = chain(&["cats", "cat", "at"]);
    let b = chain(&["cats", "ats", "at"]);
    assert!(a != b);
    let c = chain(&["bats", "cat", "at"]);
    assert!(a != c);
    let d = chain(&["cats", "cat", "ct"]);
    assert!(a == d);
}

#[test]
fn equality_needs_the_same_number_of_words() {
    let a = chain(&["cats", "cat"]);
    let b = chain(&["cats", "cat", "at"]);
    assert!(a != b);
    assert!(b != a);
}

#[test]
fn lineages_of_one_word_are_all_equal() {
    assert!(chain(&["cat"]) == chain(&["dog"]));
}

#[test]
fn a_lineage_equals_itself() {
    let a = chain(&["cats", "cat", "at"]);
    assert!(a == a.clone());
}

#[test]
fn order_compares_word_by_word() {
    let a = chain(&["cat", "at"]);
    let b = chain(&["cat", "ca"]);
    assert!(a.le(&b));
    assert!(!b.le(&a));
    assert!(a < b);
    assert!(b > a);
    assert_eq!(a.partial_cmp(&b), Some(Ordering::Less));
    assert_eq!(b.partial_cmp(&a), Some(Ordering::Greater));
    assert_eq!(a.cmp(&b), Ordering::Less);
    assert_eq!(b.cmp(&a), Ordering::Greater);
}

#[test]
fn order_is_decided_at_the_first_difference() {
    let a = chain(&["bats", "zzz"]);
    let b = chain(&["cats", "aaa"]);
    assert!(a.le(&b));
    assert!(!b.le(&a));
}

#[test]
fn order_puts_the_shorter_of_two_first_when_it_is_a_prefix() {
    let a = chain(&["cats", "cat"]);
    let b = chain(&["cats", "cat", "at"]);
    assert!(a.le(&b));
    assert!(!b.le(&a));
    assert_eq!(a.partial_cmp(&b), Some(Ordering::Less));
    assert_eq!(a.cmp(&b), Ordering::Less);
}

#[test]
fn order_of_a_lineage_with_itself() {
    let a = chain(&["cats", "cat"]);
    let b = chain(&["cats", "cat"]);
    assert!(a.le(&b));
    assert!(b.le(&a));
    assert_eq!(a.partial_cmp(&b), Some(Ordering::Equal));
    assert_eq!(a.cmp(&b), Ordering::Equal);
    assert!(a <= b);
    assert!(a >= b);
}

#[test]
fn order_and_equality_differ_on_the_last_word() {
    let a = chain(&["cat", "at"]);
    let b = chain(&["cat", "ca"]);
    assert!(a == b);
    assert_ne!(a.partial_cmp(&b), Some(Ordering::Equal));
}

#[test]
fn order_is_total_and_transitive_on_samples() {
    let samples = vec![
        chain(&["a"]),
        chain(&["b"]),
        chain(&["a", "b"]),
        chain(&["a", ""]),
        chain(&["ab", "a"]),
        chain(&["ab", "b"]),
        chain(&["ab", "b", ""]),
        chain(&["b", ""]),
    ];
    for a in &samples {
        for b in &samples {
            assert!(a.le(b) || b.le(a));
            if a.le(b) && b.le(a) {
                assert_eq!(words_of(a), words_of(b));
            }
            assert_eq!(a.le(b), words_of(a) <= words_of(b));
            for c in &samples {
                if a.le(b) && b.le(c) {
                    assert!(a.le(c));
                }
            }
        }
    }
}

#[test]
fn is_at_most_is_the_order_on_lineages() {
    let a = chain(&["cat", "at"]);
    let b = chain(&["cat", "ca"]);
    assert!(a.is_at_most(&b));
    assert!(!b.is_at_most(&a));
    assert!(a.is_at_most(&a.clone()));
}

#[test]
fn derived_order_agrees_with_le() {
    let samples = vec![
        chain(&["a"]),
        chain(&["a", "b"]),
        chain(&["ab", "a"]),
        chain(&["ab", "b"]),
        chain(&["b", ""]),
    ];
    for a in &samples {
        for b in &samples {
            assert_eq!(a.cmp(b) != Ordering::Greater, a.le(b));
            assert_eq!(a.partial_cmp(b), Some(a.cmp(b)));
        }
    }
}
