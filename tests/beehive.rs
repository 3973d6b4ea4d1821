use beehive::args::{Arguments, Command};
use beehive::index::DictionaryIndex;
use beehive::letters::letter_key;
use beehive::solver::{make_app, BeehiveApp};
use std::collections::BTreeSet;

fn words(list: &[&str]) -> Vec<String> {
    list.iter().map(|w| w.to_string()).collect()
}

fn sorted_distinct(mut v: Vec<String>) -> Vec<String> {
    v.sort();
    v.dedup();
    v
}

#[test]
fn letter_key_sorts_and_drops_repeats() {
    assert_eq!(letter_key("balloon"), "ablno");
    assert_eq!(letter_key("cba"), "abc");
    assert_eq!(letter_key("zzz"), "z");
    assert_eq!(letter_key(""), "");
}

#[test]
fn letter_key_ignores_order_and_repeats() {
    assert_eq!(letter_key("face"), letter_key("cafe"));
    assert_eq!(letter_key("loop"), letter_key("pollo"));
}

#[test]
fn round_trip_face_cafe_aced() {
    let index = DictionaryIndex::build(&words(&["face", "cafe", "aced"]));
    // "aced" uses a 'd' where the other two use an 'f', so it has its own key.
    let found = index.lookup(&"acef".to_string()).expect("key present");
    assert_eq!(found, &words(&["cafe", "face"]));
    assert_eq!(index.lookup(&"acde".to_string()), Some(&words(&["aced"])));
    let mut all: Vec<String> = Vec::new();
    for key in ["acef", "acde"] {
        all.extend(index.lookup(&key.to_string()).unwrap().iter().cloned());
    }
    assert_eq!(sorted_distinct(all), words(&["aced", "cafe", "face"]));
    assert!(index.lookup(&"abc".to_string()).is_none());
}

#[test]
fn build_sorts_and_dedups_each_entry() {
    let index = DictionaryIndex::build(&words(&["tool", "loot", "tool", "lot"]));
    assert_eq!(index.lookup(&"lot".to_string()), Some(&words(&["loot", "lot", "tool"])));
    assert_eq!(index.entries.len(), 1);
}

#[test]
fn build_one_entry_per_key() {
    let index = DictionaryIndex::build(&words(&["ab", "ba", "abc", "cab", "d"]));
    assert_eq!(index.entries.len(), 3);
    assert_eq!(index.lookup(&"ab".to_string()), Some(&words(&["ab", "ba"])));
    assert_eq!(index.lookup(&"abc".to_string()), Some(&words(&["abc", "cab"])));
    assert_eq!(index.lookup(&"d".to_string()), Some(&words(&["d"])));
}

#[test]
fn probing_twice_gives_the_same_words() {
    let index = DictionaryIndex::build(&words(&["face", "cafe"]));
    let key = "acef".to_string();
    assert_eq!(index.lookup(&key), index.lookup(&key));
}

#[test]
fn build_word_includes_queen_and_sorts() {
    let app = BeehiveApp::new('a', "bcdefg".to_string());
    assert_eq!(app.build_word(&vec![0, 2]), "abd");
    assert_eq!(app.build_word(&vec![]), "a");
    assert_eq!(app.build_word(&vec![5, 0]), "abg");
    let repeated = BeehiveApp::new('o', "ooplmo".to_string());
    assert_eq!(repeated.build_word(&vec![0, 1, 5]), "o");
}

#[test]
fn subset_enumeration_is_complete() {
    let app = BeehiveApp::new('a', "bcdefg".to_string());
    let keys = app.k_combinations();
    let got: BTreeSet<String> = keys.iter().cloned().collect();
    assert_eq!(got.len(), keys.len());
    let workers: Vec<char> = "bcdefg".chars().collect();
    let mut expected = BTreeSet::new();
    for mask in 0u32..64 {
        let mut letters = vec!['a'];
        for (i, c) in workers.iter().enumerate() {
            if mask & (1 << i) != 0 {
                letters.push(*c);
            }
        }
        letters.sort();
        letters.dedup();
        expected.insert(letters.into_iter().collect::<String>());
    }
    assert_eq!(expected.len(), 64);
    assert_eq!(got, expected);
}

#[test]
fn at_most_sixty_four_distinct_keys() {
    for workers in ["bcdefg", "pztoon", "aaaaaa", "abcabc"] {
        let keys = BeehiveApp::new('a', workers.to_string()).k_combinations();
        assert!(keys.len() <= 64);
        let distinct: BTreeSet<String> = keys.iter().cloned().collect();
        assert_eq!(distinct.len(), keys.len());
    }
}

#[test]
fn repeated_queen_collapses_keys() {
    let app = BeehiveApp::new('a', "aabbcd".to_string());
    let keys: BTreeSet<String> = app.k_combinations().into_iter().collect();
    let expected: BTreeSet<String> =
        ["a", "ab", "ac", "ad", "abc", "abd", "acd", "abcd"].iter().map(|s| s.to_string()).collect();
    assert_eq!(keys, expected);
    let index = DictionaryIndex::build(&words(&["abba", "baba", "dada", "cabbad", "abba"]));
    let answers = app.answers(&index);
    assert_eq!(answers, words(&["abba", "baba", "cabbad", "dada"]));
}

#[test]
fn example_end_to_end() {
    let app = BeehiveApp::new('l', "pztoon".to_string());
    let index = DictionaryIndex::build(&words(&["loop", "pool", "loot", "zloty"]));
    // "zloty" needs a 'y'; the other three use only l, o, p, t and contain 'l'.
    assert_eq!(app.answers(&index), words(&["loop", "loot", "pool"]));
}

#[test]
fn answers_are_long_use_queen_and_only_puzzle_letters() {
    let app = BeehiveApp::new('e', "abcdft".to_string());
    let dict = words(&[
        "bead", "cab", "feed", "faced", "tab", "abet", "beta", "zebra", "bee", "deft", "fact",
        "decaf", "abated", "etc", "cede", "edict",
    ]);
    let index = DictionaryIndex::build(&dict);
    let answers = app.answers(&index);
    for w in &answers {
        assert!(w.chars().count() >= 4);
        assert!(w.contains('e'));
        assert!(w.chars().all(|c| c == 'e' || "abcdft".contains(c)));
    }
    assert_eq!(
        answers,
        words(&["abated", "abet", "bead", "beta", "cede", "decaf", "deft", "faced", "feed"])
    );
}

#[test]
fn answers_sorted_without_duplicates() {
    let app = BeehiveApp::new('a', "bcdefg".to_string());
    let index = DictionaryIndex::build(&words(&["face", "cafe", "face", "bead", "aced", "dace"]));
    let answers = app.answers(&index);
    assert_eq!(answers, sorted_distinct(answers.clone()));
    assert_eq!(answers, words(&["aced", "bead", "cafe", "dace", "face"]));
}

#[test]
fn short_words_are_dropped() {
    let app = BeehiveApp::new('a', "bcdefg".to_string());
    let index = DictionaryIndex::build(&words(&["cab", "bad", "a", "dabbed"]));
    assert_eq!(app.answers(&index), words(&["dabbed"]));
}

#[test]
fn empty_dictionary_gives_no_answers() {
    let app = BeehiveApp::new('a', "bcdefg".to_string());
    let index = DictionaryIndex::build(&Vec::new());
    assert!(index.entries.is_empty());
    assert!(app.answers(&index).is_empty());
}

#[test]
fn words_without_queen_are_not_found() {
    let app = BeehiveApp::new('z', "bcdefg".to_string());
    let index = DictionaryIndex::build(&words(&["bead", "dace", "fedg"]));
    assert!(app.answers(&index).is_empty());
}

#[test]
fn make_app_takes_the_command_letters() {
    let args = Arguments {
        command: Command::Beehive { queen: 'q', workers: "uestio".to_string() },
    };
    let app = make_app(args);
    assert_eq!(app.queen, 'q');
    assert_eq!(app.workers, "uestio");
}
