use word_game::word_storage::{check_word, line_to_word, WordStorage};

#[test]
fn line_is_trimmed_and_lowercased() {
    assert_eq!(line_to_word("  HeLLo \t"), Some(String::from("hello")));
    assert_eq!(line_to_word("Word"), Some(String::from("word")));
}

#[test]
fn empty_or_spaced_lines_are_rejected() {
    assert_eq!(line_to_word(""), None);
    assert_eq!(line_to_word("   \t "), None);
    assert_eq!(line_to_word("two words"), None);
    assert_eq!(line_to_word(" a\tb "), None);
}

#[test]
fn storage_keeps_each_word_once() {
    let mut ws = WordStorage::default();
    assert_eq!(ws.len(), 0);
    assert!(ws.add_line("Apple"));
    assert!(ws.add_line(" apple "));
    assert!(!ws.add_line("not a word"));
    assert!(ws.add_line("pear"));
    assert_eq!(ws.len(), 2);
    assert!(ws.contains(&String::from("apple")));
    assert_eq!(ws.words(), &vec![String::from("apple"), String::from("pear")]);
    assert!(!ws.insert(String::from("pear")));
    assert!(ws.insert(String::from("plum")));
    assert_eq!(ws.len(), 3);
}

#[test]
fn check_word_rejects_empty_and_spaced() {
    assert_eq!(check_word(String::from("abc")), Some(String::from("abc")));
    assert_eq!(check_word(String::new()), None);
    assert_eq!(check_word(String::from("a b")), None);
    assert_eq!(check_word(String::from("a\u{3000}b")), None);
}

#[test]
fn storage_handles_many_words() {
    let mut ws = WordStorage::new();
    for i in 0..2000u32 {
        let w = format!("w{}x", i % 1500);
        assert_eq!(ws.add_line(&w), true);
    }
    assert_eq!(ws.len(), 1500);
    assert!(ws.contains(&String::from("w1499x")));
    assert!(!ws.contains(&String::from("w1500x")));
    assert_eq!(ws.words()[0], "w0x");
}

#[test]
fn whitespace_matches_std_on_every_char() {
    for u in 0..=0x10FFFFu32 {
        if let Some(c) = char::from_u32(u) {
            let w = format!("a{}b", c);
            assert_eq!(check_word(w).is_none(), c.is_whitespace(), "char {:x}", u);
        }
    }
}

#[test]
fn unicode_spaces_are_trimmed() {
    assert_eq!(line_to_word("\u{3000}Word\u{a0}\n"), Some(String::from("word")));
    assert_eq!(line_to_word("a\u{2003}b"), None);
    assert_eq!(line_to_word("\u{85}\u{2028}"), None);
}
