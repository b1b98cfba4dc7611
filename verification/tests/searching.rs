use palindromer::search::{fill_palindromes, filter_fitting, find_palindrome_phrases};
use palindromer::words::WordIndex;

fn cv(s: &str) -> Vec<char> {
    s.chars().collect()
}

fn lex(words: &[&str]) -> Vec<Vec<char>> {
    words.iter().map(|w| cv(w)).collect()
}

fn strings_of(ps: &Vec<Vec<char>>) -> Vec<String> {
    ps.iter().map(|p| p.iter().collect()).collect()
}

fn is_palindrome_str(s: &str) -> bool {
    let forward: Vec<char> = s.chars().collect();
    let backward: Vec<char> = s.chars().rev().collect();
    forward == backward
}

#[test]
fn tiny_lexicon_scenario() {
    let words = &["a", "cat", "tac", "act"];
    let results = find_palindrome_phrases(lex(words), 3);
    assert_eq!(strings_of(&results), vec!["a a a".to_string()]);
    for p in strings_of(&results) {
        let stripped: String = p.chars().filter(|c| *c != ' ').collect();
        assert_eq!(stripped.chars().count(), 3);
        assert!(is_palindrome_str(&stripped));
        for token in p.split(' ') {
            assert!(words.contains(&token));
        }
    }
}

#[test]
fn no_fitting_word_yields_empty() {
    let results = find_palindrome_phrases(lex(&["abcd"]), 3);
    assert!(results.is_empty());
}

#[test]
fn single_letter_target_one() {
    let results = find_palindrome_phrases(lex(&["a"]), 1);
    assert_eq!(strings_of(&results), vec!["a".to_string()]);
}

#[test]
fn empty_lexicon_yields_empty() {
    let results = find_palindrome_phrases(Vec::new(), 5);
    assert!(results.is_empty());
}

#[test]
fn search_is_deterministic() {
    let words = &["a", "b", "ab", "ba"];
    let first = find_palindrome_phrases(lex(words), 4);
    let second = find_palindrome_phrases(lex(words), 4);
    assert_eq!(strings_of(&first), strings_of(&second));
}

#[test]
fn whole_word_palindrome() {
    let results = find_palindrome_phrases(lex(&["racecar"]), 7);
    assert_eq!(strings_of(&results), vec!["racecar".to_string()]);
}

#[test]
fn mirrored_completion_and_order() {
    let results = find_palindrome_phrases(lex(&["ab", "a"]), 3);
    assert_eq!(strings_of(&results), vec!["ab a".to_string(), "a a a".to_string()]);
}

#[test]
fn filter_drops_many_word_phrases() {
    let index = WordIndex::new(lex(&["a"]));
    let mut candidate_chars: Vec<char> = Vec::new();
    let mut candidate_phrase: Vec<char> = Vec::new();
    let mut palindromes: Vec<Vec<char>> = Vec::new();
    fill_palindromes(&index, 5, &mut candidate_chars, &mut candidate_phrase, &mut palindromes);
    assert_eq!(strings_of(&palindromes), vec!["a a a a a".to_string()]);
    assert!(candidate_chars.is_empty());
    assert!(candidate_phrase.is_empty());
    let kept = filter_fitting(&palindromes, 5);
    assert!(kept.is_empty());
    let end_to_end = find_palindrome_phrases(lex(&["a"]), 5);
    assert!(end_to_end.is_empty());
}

#[test]
fn filter_keeps_boundary_length() {
    // "a a a" has five characters: exactly the target length plus two.
    let results = find_palindrome_phrases(lex(&["a"]), 3);
    assert_eq!(strings_of(&results), vec!["a a a".to_string()]);
}

#[test]
fn results_satisfy_palindrome_and_membership() {
    let words = &["a", "b", "ab", "ba"];
    let results = find_palindrome_phrases(lex(words), 4);
    assert!(!results.is_empty());
    for p in strings_of(&results) {
        let stripped: String = p.chars().filter(|c| *c != ' ').collect();
        assert_eq!(stripped.chars().count(), 4);
        assert!(is_palindrome_str(&stripped));
        for token in p.split(' ') {
            assert!(words.contains(&token));
        }
        assert!(p.chars().count() <= 4 + 2);
    }
}
