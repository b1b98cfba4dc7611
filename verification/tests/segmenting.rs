use palindromer::segment::split_phrase;
use palindromer::words::WordIndex;

fn cv(s: &str) -> Vec<char> {
    s.chars().collect()
}

fn lex(words: &[&str]) -> Vec<Vec<char>> {
    words.iter().map(|w| cv(w)).collect()
}

fn string_of(p: &Vec<char>) -> String {
    p.iter().collect()
}

#[test]
fn segment_known_decomposition() {
    let index = WordIndex::new(lex(&["ab", "c"]));
    let chars = cv("abc");
    let mut phrase = cv("w");
    let found = split_phrase(&index, &chars, 0, &mut phrase);
    assert!(found);
    assert_eq!(string_of(&phrase), "w ab c");
    let appended: String = string_of(&phrase)["w".len()..].chars().filter(|c| *c != ' ').collect();
    assert_eq!(appended, "abc");
}

#[test]
fn segment_no_prefix_leaves_buffer() {
    let index = WordIndex::new(lex(&["xy"]));
    let chars = cv("zz");
    let mut phrase = cv("w");
    let found = split_phrase(&index, &chars, 0, &mut phrase);
    assert!(!found);
    assert_eq!(string_of(&phrase), "w");
}

#[test]
fn segment_empty_letters_succeeds() {
    let index = WordIndex::new(lex(&["a"]));
    let chars = cv("");
    let mut phrase = cv("w");
    let found = split_phrase(&index, &chars, 0, &mut phrase);
    assert!(found);
    assert_eq!(string_of(&phrase), "w");
}

#[test]
fn segment_first_match_policy() {
    let index = WordIndex::new(lex(&["a", "aa"]));
    let chars = cv("aa");
    let mut phrase = cv("w");
    let found = split_phrase(&index, &chars, 0, &mut phrase);
    assert!(found);
    assert_eq!(string_of(&phrase), "w a a");
}

#[test]
fn segment_backtracks_past_dead_prefix() {
    let index = WordIndex::new(lex(&["a", "ab"]));
    let chars = cv("ab");
    let mut phrase = cv("w");
    let found = split_phrase(&index, &chars, 0, &mut phrase);
    assert!(found);
    assert_eq!(string_of(&phrase), "w ab");
}

#[test]
fn segment_of_suffix_only() {
    let index = WordIndex::new(lex(&["cat"]));
    let chars = cv("xxcat");
    let mut phrase = cv("w");
    let found = split_phrase(&index, &chars, 2, &mut phrase);
    assert!(found);
    assert_eq!(string_of(&phrase), "w cat");
}

#[test]
fn word_index_membership() {
    let index = WordIndex::new(lex(&["cat", "dog"]));
    let probe = cv("xcaty");
    assert!(index.contains_range(&probe, 1, 4));
    assert!(!index.contains_range(&probe, 0, 3));
    assert!(!index.contains_range(&probe, 1, 3));
    assert_eq!(index.len(), 2);
    assert_eq!(string_of(index.word(0)), "cat");
    assert_eq!(string_of(index.word(1)), "dog");
}
