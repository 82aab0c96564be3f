use regex_fsa::fsa::Symbol;
use regex_fsa::regex::tokens::Char;
use regex_fsa::regex::{PatternError, Regex};
use regex_fsa::Matcher;

#[test]
fn literal_closure_literal_matches_long_word() {
    let a_or_b = "a".or("b");
    let regex = "ab".and(a_or_b.many()).and("ba");
    let matcher = Matcher::from_regex(regex).unwrap();
    assert!(matcher.is_matched("abaaabbba"));
}

#[test]
fn literal_closure_literal_rejects_missing_tail() {
    let regex = "ab".and("a".or("b").many()).and("ba");
    let matcher = Matcher::from_regex(regex).unwrap();
    assert!(!matcher.is_matched("ab"));
}

#[test]
fn literal_closure_literal_matches_without_repetition() {
    let regex = "ab".and("a".or("b").many()).and("ba");
    let matcher = Matcher::from_regex(regex).unwrap();
    assert!(matcher.is_matched("abba"));
}

#[test]
fn literal_closure_literal_rejects_other_words() {
    let regex = "ab".and("a".or("b").many()).and("ba");
    let matcher = Matcher::from_regex(regex).unwrap();
    assert!(!matcher.is_matched(""));
    assert!(!matcher.is_matched("abb"));
    assert!(!matcher.is_matched("abcba"));
    assert!(!matcher.is_matched("baba"));
    assert!(matcher.is_matched("abababa"));
}

#[test]
fn empty_literal_is_an_invalid_pattern() {
    assert_eq!(Matcher::from_regex("").err(), Some(PatternError::EmptyLiteral));
    assert_eq!("".as_nfa().err(), Some(PatternError::EmptyLiteral));
    assert_eq!(String::new().as_nfa().err(), Some(PatternError::EmptyLiteral));
}

#[test]
fn empty_literal_inside_a_pattern_is_invalid() {
    assert!(Matcher::from_regex("a".and("")).is_err());
    assert!(Matcher::from_regex("".or("b")).is_err());
    assert!(Matcher::from_regex("".many()).is_err());
    assert!(Matcher::from_regex("".some()).is_err());
    assert!(Matcher::from_regex("a".and("b".or("").many())).is_err());
}

#[test]
fn one_or_more_of_a_character() {
    let matcher = Matcher::from_regex("a".some()).unwrap();
    assert!(!matcher.is_matched(""));
    assert!(matcher.is_matched("a"));
    assert!(matcher.is_matched("aaaa"));
    assert!(!matcher.is_matched("b"));
}

#[test]
fn character_matches_itself_only() {
    let matcher = Matcher::from_regex(Char::new('x')).unwrap();
    assert!(matcher.is_matched("x"));
    assert!(!matcher.is_matched(""));
    assert!(!matcher.is_matched("y"));
    assert!(!matcher.is_matched("xx"));
    assert!(!matcher.is_matched("xy"));
}

#[test]
fn character_beyond_ascii() {
    let matcher = Matcher::from_regex(Char::new('中')).unwrap();
    assert!(matcher.is_matched("中"));
    assert!(!matcher.is_matched("文"));
    let word = Matcher::from_regex("中文").unwrap();
    assert!(word.is_matched("中文"));
    assert!(!word.is_matched("中"));
}

#[test]
fn concatenation_splits_the_word() {
    let matcher = Matcher::from_regex("ab".or("a").and("c".or("bc"))).unwrap();
    assert!(matcher.is_matched("abc"));
    assert!(matcher.is_matched("ac"));
    assert!(matcher.is_matched("abbc"));
    assert!(!matcher.is_matched("ab"));
    assert!(!matcher.is_matched("c"));
    assert!(!matcher.is_matched("abcc"));
}

#[test]
fn alternation_matches_either_side() {
    let matcher = Matcher::from_regex("cat".or("dog")).unwrap();
    assert!(matcher.is_matched("cat"));
    assert!(matcher.is_matched("dog"));
    assert!(!matcher.is_matched("cow"));
    assert!(!matcher.is_matched("catdog"));
    assert!(!matcher.is_matched(""));
}

#[test]
fn closure_matches_any_number_of_repetitions() {
    let matcher = Matcher::from_regex("ab".many()).unwrap();
    assert!(matcher.is_matched(""));
    let mut word = String::new();
    for _ in 0..6 {
        word.push_str("ab");
        assert!(matcher.is_matched(&word));
    }
    assert!(!matcher.is_matched("a"));
    assert!(!matcher.is_matched("aba"));
    assert!(!matcher.is_matched("ba"));
}

#[test]
fn closure_of_a_choice() {
    let matcher = Matcher::from_regex("a".or("bc").many()).unwrap();
    assert!(matcher.is_matched(""));
    assert!(matcher.is_matched("abca"));
    assert!(matcher.is_matched("bcbc"));
    assert!(!matcher.is_matched("b"));
    assert!(!matcher.is_matched("acb"));
}

#[test]
fn string_patterns_match_like_literals() {
    let owned = String::from("abc");
    let matcher = Matcher::from_regex(owned).unwrap();
    assert!(matcher.is_matched("abc"));
    assert!(!matcher.is_matched("ab"));
    assert!(!matcher.is_matched("abcd"));
}

#[test]
fn matcher_is_minimal_for_known_patterns() {
    // (a|b)*abb needs four states, a+ two, a single literal one more than its length.
    let m = Matcher::from_regex("a".or("b").many().and("abb")).unwrap();
    assert_eq!(m.size(), 4);
    assert_eq!(Matcher::from_regex("a".some()).unwrap().size(), 2);
    assert_eq!(Matcher::from_regex("abc").unwrap().size(), 4);
    assert_eq!(Matcher::from_regex("a".many()).unwrap().size(), 1);
    assert_eq!(Matcher::from_regex("a".or("b")).unwrap().size(), 2);
}

#[test]
fn combinators_build_the_named_shapes() {
    let c = "a".and("b");
    assert_eq!(c.0, "a");
    assert_eq!(c.1, "b");
    let o = "a".or("b");
    assert_eq!(o.0, "a");
    assert_eq!(o.1, "b");
    assert_eq!("a".many().0, "a");
    assert_eq!("a".some().0, "a");
    assert_eq!(Char::new('q').0, 'q');
}

#[test]
fn words_become_symbols_in_order() {
    assert_eq!(regex_fsa::symbols_in(""), vec![]);
    assert_eq!(
        regex_fsa::symbols_in("aé中"),
        vec![Symbol::Char('a'), Symbol::Char('é'), Symbol::Char('中')]
    );
}
