use word_ladder::dictionary::Dictionary;
use word_ladder::word_lineage::Lineage;
use word_ladder::word_tree::{build_word_tree, create_word_permutations, expand_frontier, is_a_word};

fn strings(words: &[&str]) -> Vec<String> {
    words.iter().map(|w| w.to_string()).collect()
}

fn dictionary(words: &[&str]) -> Dictionary {
    Dictionary::from_words(&strings(words))
}

fn chain(words: &[&str]) -> Lineage {
    let mut lineage = Lineage::new().init(words[0]);
    for word in &words[1..] {
        lineage = Lineage::new().extend_lineage(&lineage, word);
    }
    lineage
}

fn words_of(lineage: &Lineage) -> Vec<String> {
    (0..lineage.len()).map(|i| lineage.word(i).to_string()).collect()
}

fn search(dictionary_words: &[&str], seeds: &[&str], iterations: i32) -> Vec<Vec<String>> {
    let dictionary = dictionary(dictionary_words);
    let seeds = strings(seeds);
    let seed_refs: Vec<&String> = seeds.iter().collect();
    build_word_tree(&dictionary, &seed_refs, iterations).iter().map(words_of).collect()
}

fn is_one_deletion(parent: &str, child: &str) -> bool {
    let parent: Vec<char> = parent.chars().collect();
    let child: Vec<char> = child.chars().collect();
    (0..parent.len()).any(|p| {
        let mut shorter = parent.clone();
        shorter.remove(p);
        shorter == child
    })
}

#[test]
fn is_a_word_looks_the_word_up() {
    let dictionary = dictionary(&["cat", "at", "a"]);
    assert!(is_a_word("cat", &dictionary));
    assert!(is_a_word("a", &dictionary));
    assert!(!is_a_word("ct", &dictionary));
    assert!(!is_a_word("", &dictionary));
}

#[test]
fn permutations_of_cat() {
    let permutations = create_word_permutations(&chain(&["cat"]));
    let found: Vec<Vec<String>> = permutations.iter().map(words_of).collect();
    assert_eq!(found, vec![strings(&["cat", "at"]), strings(&["cat", "ct"]), strings(&["cat", "ca"])]);
}

#[test]
fn permutations_expand_the_latest_word() {
    let permutations = create_word_permutations(&chain(&["cat", "at"]));
    let found: Vec<Vec<String>> = permutations.iter().map(words_of).collect();
    assert_eq!(found, vec![strings(&["cat", "at", "t"]), strings(&["cat", "at", "a"])]);
}

#[test]
fn permutations_of_noon_hold_non_twice() {
    let permutations = create_word_permutations(&chain(&["noon"]));
    let latest: Vec<String> =
        permutations.iter().map(|l| l.get_latest_word().to_string()).collect();
    assert_eq!(latest, strings(&["oon", "non", "non", "noo"]));
}

#[test]
fn permutations_of_an_empty_word_are_none() {
    assert!(create_word_permutations(&chain(&["a", ""])).is_empty());
}

#[test]
fn expand_frontier_keeps_the_dictionary_words() {
    let dictionary = dictionary(&["cat", "at", "a"]);
    let frontier = vec![chain(&["cat"])];
    let next = expand_frontier(&dictionary, &frontier);
    let found: Vec<Vec<String>> = next.iter().map(words_of).collect();
    assert_eq!(found, vec![strings(&["cat", "at"])]);
    let last = expand_frontier(&dictionary, &next);
    let found: Vec<Vec<String>> = last.iter().map(words_of).collect();
    assert_eq!(found, vec![strings(&["cat", "at", "a"])]);
}

#[test]
fn expand_frontier_of_noon_keeps_both_ways_to_non() {
    let dictionary = dictionary(&["non"]);
    let next = expand_frontier(&dictionary, &vec![chain(&["noon"])]);
    let found: Vec<Vec<String>> = next.iter().map(words_of).collect();
    assert_eq!(found, vec![strings(&["noon", "non"]), strings(&["noon", "non"])]);
}

#[test]
fn cat_descends_to_a_in_two_rounds() {
    assert_eq!(search(&["cat", "at", "a"], &["cat"], 2), vec![strings(&["cat", "at", "a"])]);
}

#[test]
fn cat_after_one_round() {
    assert_eq!(search(&["cat", "at", "a"], &["cat"], 1), vec![strings(&["cat", "at"])]);
}

#[test]
fn cats_descends_to_a_in_three_rounds() {
    assert_eq!(
        search(&["cats", "cat", "at", "a"], &["cats"], 3),
        vec![strings(&["cats", "cat", "at", "a"])]
    );
}

#[test]
fn cats_without_a_in_the_dictionary_finds_nothing() {
    assert!(search(&["cats", "cat", "at"], &["cats"], 3).is_empty());
}

#[test]
fn noon_gives_one_lineage_to_non() {
    assert_eq!(search(&["noon", "non"], &["noon"], 1), vec![strings(&["noon", "non"])]);
}

#[test]
fn noon_descends_without_duplicates() {
    let found = search(&["noon", "non", "no", "on", "o"], &["noon"], 3);
    assert_eq!(found, vec![strings(&["noon", "non", "no", "o"]), strings(&["noon", "non", "on", "o"])]);
}

#[test]
fn the_seed_need_not_be_in_the_dictionary() {
    assert_eq!(search(&["at", "a"], &["cat"], 2), vec![strings(&["cat", "at", "a"])]);
}

#[test]
fn an_empty_dictionary_finds_nothing() {
    assert!(search(&[], &["cat"], 1).is_empty());
    assert!(search(&[], &["cat"], 2).is_empty());
}

#[test]
fn no_seeds_find_nothing() {
    assert!(search(&["cat", "at", "a"], &[], 0).is_empty());
    assert!(search(&["cat", "at", "a"], &[], 2).is_empty());
}

#[test]
fn more_rounds_than_letters_find_nothing() {
    assert!(search(&["cat", "at", "a"], &["cat"], 3).is_empty());
    assert!(search(&["cat", "at", "a"], &["cat"], 4).is_empty());
    assert!(search(&["cat", "at", "a"], &["cat"], 100).is_empty());
}

#[test]
fn a_descent_may_end_in_the_empty_word_if_the_dictionary_holds_it() {
    assert_eq!(search(&["at", "a", ""], &["cat"], 3), vec![strings(&["cat", "at", "a", ""])]);
    assert!(search(&["at", "a", ""], &["cat"], 4).is_empty());
}

#[test]
fn no_rounds_keep_one_seed_as_all_single_words_are_equal() {
    assert_eq!(search(&["cat"], &["dog", "cat", "eel"], 0), vec![strings(&["cat"])]);
}

#[test]
fn negative_rounds_are_no_rounds() {
    assert_eq!(search(&["cat"], &["dog", "cat"], -1), vec![strings(&["cat"])]);
    assert_eq!(search(&["cat"], &["dog", "cat"], i32::MIN), vec![strings(&["cat"])]);
}

#[test]
fn of_lineages_that_differ_in_the_last_word_the_first_is_kept() {
    assert_eq!(search(&["at", "ca", "ct"], &["cat"], 1), vec![strings(&["cat", "at"])]);
}

#[test]
fn lineages_that_differ_before_the_last_word_are_all_kept() {
    let found = search(&["at", "ca", "a"], &["cat"], 2);
    assert_eq!(found, vec![strings(&["cat", "at", "a"]), strings(&["cat", "ca", "a"])]);
}

#[test]
fn the_same_word_reached_from_two_seeds_gives_two_lineages() {
    let found = search(&["at", "a"], &["cat", "bat"], 2);
    assert_eq!(found, vec![strings(&["bat", "at", "a"]), strings(&["cat", "at", "a"])]);
}

#[test]
fn the_result_is_sorted() {
    let found = search(&["the", "he", "th", "eh", "e", "h", "t"], &["the"], 2);
    assert_eq!(found, vec![strings(&["the", "he", "e"]), strings(&["the", "th", "h"])]);
}

#[test]
fn a_seed_named_twice_counts_once() {
    assert_eq!(
        search(&["at", "a"], &["cat", "cat"], 2),
        search(&["at", "a"], &["cat"], 2)
    );
}

#[test]
fn the_order_of_the_seeds_makes_no_difference() {
    let dictionary = ["cat", "bat", "at", "ca", "ba", "a", "b"];
    let one = search(&dictionary, &["cat", "bat", "at"], 2);
    let other = search(&dictionary, &["at", "bat", "cat"], 2);
    assert_eq!(one, other);
    assert!(!one.is_empty());
}

#[test]
fn searching_twice_gives_the_same_result() {
    let dictionary = ["cats", "cat", "ats", "cas", "at", "as", "ca", "a", "s"];
    let first = search(&dictionary, &["cats"], 3);
    let second = search(&dictionary, &["cats"], 3);
    assert_eq!(first, second);
    assert!(!first.is_empty());
}

#[test]
fn every_lineage_found_has_one_word_more_than_rounds() {
    let dictionary = ["cats", "cat", "ats", "cas", "at", "as", "ca", "a", "s"];
    for rounds in 0..5 {
        for lineage in search(&dictionary, &["cats", "cat"], rounds) {
            assert_eq!(lineage.len(), rounds as usize + 1);
        }
    }
}

#[test]
fn every_step_found_deletes_one_character() {
    let dictionary = ["cats", "cat", "ats", "cas", "at", "as", "ca", "a", "s"];
    let found = search(&dictionary, &["cats"], 3);
    assert!(!found.is_empty());
    for lineage in found {
        for pair in lineage.windows(2) {
            assert_eq!(pair[1].chars().count() + 1, pair[0].chars().count());
            assert!(is_one_deletion(&pair[0], &pair[1]));
        }
    }
}

#[test]
fn every_word_found_after_the_first_is_in_the_dictionary() {
    let words = ["cat", "ats", "cas", "at", "as", "ca", "a", "s"];
    let found = search(&words, &["cats"], 3);
    assert!(!found.is_empty());
    for lineage in found {
        assert_eq!(lineage[0], "cats");
        for word in &lineage[1..] {
            assert!(words.contains(&word.as_str()));
        }
    }
}

#[test]
fn a_search_of_cats_in_full() {
    let dictionary = ["cat", "ats", "at", "as", "ts", "a", "s", "t"];
    let found = search(&dictionary, &["cats"], 3);
    let expected = vec![
        strings(&["cats", "ats", "as", "a"]),
        strings(&["cats", "ats", "at", "a"]),
        strings(&["cats", "ats", "ts", "s"]),
        strings(&["cats", "cat", "at", "a"]),
    ];
    assert_eq!(found, expected);
}

#[test]
fn a_search_counts_characters_not_bytes() {
    assert_eq!(search(&["té", "é"], &["été"], 2), vec![strings(&["été", "té", "é"])]);
}

fn all_words(letters: &[char], length: usize) -> Vec<String> {
    let mut words = vec![String::new()];
    for _ in 0..length {
        let mut longer = Vec::new();
        for word in &words {
            for letter in letters {
                let mut next = word.clone();
                next.push(*letter);
                longer.push(next);
            }
        }
        words = longer;
    }
    words
}

fn descents_from(chain: &mut Vec<String>, rounds: usize, kept: &[String], found: &mut Vec<Vec<String>>) {
    if rounds == 0 {
        found.push(chain.clone());
        return;
    }
    let latest: Vec<char> = chain[chain.len() - 1].chars().collect();
    for p in 0..latest.len() {
        let mut shorter = latest.clone();
        shorter.remove(p);
        let word: String = shorter.into_iter().collect();
        if kept.contains(&word) {
            chain.push(word);
            descents_from(chain, rounds - 1, kept, found);
            chain.pop();
        }
    }
}

#[test]
fn a_search_agrees_with_a_direct_enumeration() {
    let letters = ['a', 'b', 'c'];
    let mut kept: Vec<String> = Vec::new();
    for length in 1..5 {
        for (n, word) in all_words(&letters, length).into_iter().enumerate() {
            if n % 7 != 3 {
                kept.push(word);
            }
        }
    }
    let seeds = all_words(&letters, 5);
    for rounds in 0..5usize {
        let mut expected: Vec<Vec<String>> = Vec::new();
        for seed in &seeds {
            descents_from(&mut vec![seed.clone()], rounds, &kept, &mut expected);
        }
        expected.sort();
        expected.dedup_by(|later, earlier| later[..rounds] == earlier[..rounds]);
        let dictionary = Dictionary::from_words(&kept);
        let seed_refs: Vec<&String> = seeds.iter().collect();
        let found: Vec<Vec<String>> =
            build_word_tree(&dictionary, &seed_refs, rounds as i32).iter().map(words_of).collect();
        assert_eq!(found, expected);
        if rounds > 0 {
            assert!(found.len() > 1);
        }
    }
}
