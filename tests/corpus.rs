use std::collections::{HashMap, HashSet};

use word_game::session;
use word_game::session::Round;

fn as_map(result: Vec<Round>) -> HashMap<String, HashSet<String>> {
    let mut m: HashMap<String, HashSet<String>> = HashMap::new();
    for r in result {
        let examples: HashSet<String> = r.examples.into_iter().collect();
        assert!(m.insert(r.triplet, examples).is_none());
    }
    m
}

fn words(list: &[&str]) -> Vec<String> {
    list.iter().map(|w| String::from(*w)).collect()
}

#[test]
fn generate_triplets() {
    let words = words(&["test", "word", "order", "border"]);

    let mut expected: HashMap<String, HashSet<String>> = HashMap::new();
    let mut v: HashSet<String> = HashSet::new();
    v.insert(String::from("word"));
    v.insert(String::from("order"));
    v.insert(String::from("border"));
    expected.insert(String::from("ord"), v);

    let result = session::generate_triplets(&words);

    assert_eq!(as_map(result), expected);
}

#[test]
fn generate_triplets_empty() {
    let words: Vec<String> = Vec::new();
    let result = session::generate_triplets(&words);
    assert_eq!(result.len(), 0);
}

#[test]
fn examples_are_capped_at_three_in_input_order() {
    let words = words(&["cat", "scat", "cats", "catch", "concat"]);
    let result = session::generate_triplets(&words);
    let m = as_map(result);
    assert_eq!(m.len(), 1);
    let ex: HashSet<String> = ["cat", "scat", "cats"].iter().map(|w| String::from(*w)).collect();
    assert_eq!(m["cat"], ex);
}

#[test]
fn every_fragment_has_three_holders() {
    let words = words(&["banana", "bandana", "cabana", "ban", "nab", "abandon"]);
    let result = session::generate_triplets(&words);
    assert!(!result.is_empty());
    for r in &result {
        assert_eq!(r.triplet.chars().count(), 3);
        assert_eq!(r.examples.len(), 3);
        let distinct: HashSet<&String> = r.examples.iter().collect();
        assert_eq!(distinct.len(), 3);
        for e in &r.examples {
            assert!(e.contains(r.triplet.as_str()));
            assert!(words.contains(e));
        }
    }
    let m = as_map(result);
    assert!(m.contains_key("ban"));
    assert!(m.contains_key("ana"));
    assert!(!m.contains_key("nab"));
}

#[test]
fn repeated_word_counts_once() {
    let words = words(&["aaaa", "aaaa", "aaa"]);
    let result = session::generate_triplets(&words);
    assert_eq!(result.len(), 0);
}

#[test]
fn short_words_give_no_fragments() {
    let words = words(&["a", "ab", "", "ba"]);
    assert_eq!(session::generate_triplets(&words).len(), 0);
}

#[test]
fn non_ascii_words_use_character_windows() {
    let words = words(&["éte", "éteé", "xéte"]);
    let m = as_map(session::generate_triplets(&words));
    assert_eq!(m.len(), 1);
    assert!(m.contains_key("éte"));
}
