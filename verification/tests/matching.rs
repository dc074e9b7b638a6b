use nfa_regex::nondeterministic::Regex;
use nfa_regex::tokenize::{Error, MatchCharacter, Repeat, Token, Tokens};

fn compile(pattern: &str) -> Regex {
    match Regex::from_simple_expression(pattern) {
        Ok(regex) => regex,
        Err(e) => panic!("pattern {:?} is rejected: {:?}", pattern, e),
    }
}

fn matches(pattern: &str, subject: &str) -> bool {
    compile(pattern).test(subject)
}

#[test]
fn literal_pattern_must_end_the_subject() {
    assert!(matches("abc", "abc"));
    assert!(matches("abc", "xxabc"));
    assert!(matches("ab", "aab"));
    assert!(matches("ab", "abab"));
    assert!(!matches("abc", "abcxx"));
    assert!(!matches("abc", "xxabcxx"));
    assert!(!matches("ab", "abc"));
    assert!(!matches("abc", "ab"));
    assert!(!matches("abc", "acb"));
    assert!(!matches("abc", "a-b-c"));
    assert!(!matches("abc", ""));
}

#[test]
fn both_anchors_ask_for_the_whole_subject() {
    assert!(matches("^abc$", "abc"));
    assert!(!matches("^abc$", "abcd"));
    assert!(!matches("^abc$", "xabc"));
    assert!(!matches("^abc$", "ab"));
    assert!(!matches("^abc$", ""));
}

#[test]
fn start_marker_asks_for_the_whole_subject_and_end_marker_for_nothing_more() {
    assert!(matches("^ab", "ab"));
    assert!(!matches("^ab", "abc"));
    assert!(!matches("^ab", "cab"));
    assert!(matches("ab$", "ab"));
    assert!(matches("ab$", "cab"));
    assert!(!matches("ab$", "abc"));
    assert!(matches("ab", "cab"));
    assert!(!matches("ab", "cabc"));
    assert!(!matches("^ab$", "cab"));
    assert!(!matches("^ab$", "abc"));
}

#[test]
fn optional_character() {
    assert!(matches("ab?c", "ac"));
    assert!(matches("ab?c", "abc"));
    assert!(!matches("ab?c", "abbc"));
}

#[test]
fn star_and_plus() {
    assert!(matches("ab*c", "ac"));
    assert!(matches("ab*c", "abc"));
    assert!(matches("ab*c", "abbc"));
    assert!(matches("ab*c", "abbbc"));
    assert!(!matches("ab+c", "ac"));
    assert!(matches("ab+c", "abc"));
    assert!(matches("ab+c", "abbc"));
    assert!(matches("ab+c", "abbbc"));
}

#[test]
fn wildcard_takes_exactly_one_character() {
    assert!(matches("a.c", "abc"));
    assert!(matches("a.c", "axc"));
    assert!(matches("a.c", "a.c"));
    assert!(matches("a.c", "a\u{e9}c"));
    assert!(!matches("a.c", "ac"));
    assert!(!matches("a.c", "abbc"));
}

#[test]
fn repeated_group() {
    assert!(matches("(ab)+", "ab"));
    assert!(matches("(ab)+", "abab"));
    assert!(matches("(ab)+", "ababab"));
    assert!(!matches("(ab)+", "a"));
    assert!(!matches("(ab)+", "aba"));
    assert!(!matches("(ab)+", "ba"));
    assert!(matches("(ab)+", "xxabab"));
    assert!(matches("^(ab)+$", "abab"));
    assert!(!matches("^(ab)+$", "a"));
    assert!(!matches("^(ab)+$", "aba"));
    assert!(!matches("(ab)+$", "aba"));
}

#[test]
fn nested_groups_and_repetitions() {
    let regex = compile("^(abc(cd)+)?c$");
    assert!(regex.test("c"));
    assert!(!regex.test("abc"));
    assert!(!regex.test("abcc"));
    assert!(regex.test("abccdc"));
    assert!(regex.test("abccdcdc"));
    assert!(!regex.test("abccd"));
    assert!(matches("^a(b(cd)?)+$", "abcdbbcd"));
    assert!(!matches("^a(b(cd)?)+$", "acd"));
}

#[test]
fn repetition_of_what_matches_nothing_ends() {
    assert!(matches("^(a*)*$", ""));
    assert!(matches("^(a*)*$", "aaa"));
    assert!(!matches("^(a*)*$", "aab"));
    assert!(matches("^(a?)+b$", "aab"));
    assert!(matches("^()*$", ""));
    assert!(!matches("^()+$", "a"));
    assert!(matches("^(()+)*a$", "a"));
}

#[test]
fn long_subject_against_nested_stars() {
    let regex = compile("^(a*)*b$");
    let mut subject = String::new();
    for _ in 0..2000 {
        subject.push('a');
    }
    assert!(!regex.test(&subject));
    subject.push('b');
    assert!(regex.test(&subject));
}

#[test]
fn empty_pattern_matches_every_subject() {
    assert!(matches("", ""));
    assert!(matches("", "a"));
    assert!(matches("", "anything at all"));
}

#[test]
fn anchors_alone_match_only_the_empty_subject() {
    assert!(matches("^$", ""));
    assert!(!matches("^$", "a"));
    assert!(!matches("^$", "ab"));
    assert!(matches("^", ""));
    assert!(!matches("^", "ab"));
    assert!(matches("$", "ab"));
}

#[test]
fn escaped_characters_are_literal() {
    assert!(matches("a\\.c", "a.c"));
    assert!(!matches("a\\.c", "abc"));
    assert!(matches("\\(a\\)", "(a)"));
    assert!(matches("a\\*", "a*"));
    assert!(!matches("^a\\*$", "aa"));
    assert!(matches("\\\\", "\\"));
}

#[test]
fn compiling_twice_gives_the_same_answers() {
    let first = compile("^a(b.)*c?$");
    let second = compile("^a(b.)*c?$");
    for subject in ["", "a", "ac", "abxc", "abxby", "abxbyc", "abx", "b", "abc", "abxcc"] {
        assert_eq!(first.test(subject), second.test(subject));
    }
}

#[test]
fn malformed_patterns_do_not_compile() {
    assert_eq!(
        Regex::from_simple_expression("*a").err(),
        Some(Error::InvalidModifierLocation { at: 0 })
    );
    assert_eq!(
        Regex::from_simple_expression("(a").err(),
        Some(Error::MismatchedGroup { at: 2 })
    );
    assert_eq!(
        Regex::from_simple_expression("a)").err(),
        Some(Error::MismatchedGroup { at: 1 })
    );
    assert_eq!(
        Regex::from_simple_expression("a^b").err(),
        Some(Error::UnexpectedBoundary { at: 1 })
    );
    assert_eq!(
        Regex::from_simple_expression("ab\\").err(),
        Some(Error::MissingToken { at: 3 })
    );
}

#[test]
fn alternation_parses_but_does_not_compile() {
    assert!(Tokens::tokenize_regex("a|b").is_ok());
    assert_eq!(
        Regex::from_simple_expression("a|b").err(),
        Some(Error::UnsupportedConstruct)
    );
    assert_eq!(
        Regex::from_simple_expression("x(a|b)+").err(),
        Some(Error::UnsupportedConstruct)
    );
}

fn one(repeat: Repeat, c: char) -> Tokens {
    Tokens {
        beginning_boundary: true,
        end_boundary: true,
        tokens: vec![Box::new(Token {
            repeat,
            value: MatchCharacter::Char(c),
        })],
    }
}

#[test]
fn repetition_counts_do_not_compile() {
    assert_eq!(
        Regex::from_tokens(&one(Repeat::Exactly(2), 'a')).err(),
        Some(Error::UnsupportedConstruct)
    );
    assert_eq!(
        Regex::from_tokens(&one(Repeat::Exactly(0), 'a')).err(),
        Some(Error::UnsupportedConstruct)
    );
    assert_eq!(
        Regex::from_tokens(&one(Repeat::AtLeast(2), 'a')).err(),
        Some(Error::UnsupportedConstruct)
    );
    assert_eq!(
        Regex::from_tokens(&one(Repeat::AtMost(3), 'a')).err(),
        Some(Error::UnsupportedConstruct)
    );
    assert_eq!(
        Regex::from_tokens(&one(Repeat::Range(1, 2), 'a')).err(),
        Some(Error::UnsupportedConstruct)
    );
}

#[test]
fn tokens_built_by_hand_compile() {
    let plus = Regex::from_tokens(&one(Repeat::AtLeast(1), 'a')).unwrap();
    assert!(plus.test("aaa"));
    assert!(!plus.test(""));
    assert!(!plus.test("ab"));
    let star = Regex::from_tokens(&one(Repeat::AtLeast(0), 'a')).unwrap();
    assert!(star.test(""));
    assert!(star.test("aa"));
    assert!(!star.test("b"));
    let maybe = Regex::from_tokens(&one(Repeat::Optional, 'a')).unwrap();
    assert!(maybe.test(""));
    assert!(maybe.test("a"));
    assert!(!maybe.test("aa"));
}

#[test]
fn a_repetition_may_match_nothing_at_the_end() {
    assert!(matches("a*", "b"));
    assert!(matches("ba*", "xb"));
    assert!(matches("(ab)?", "xyz"));
    assert!(!matches("^a*", "b"));
    assert!(matches("^a*", "aaa"));
    assert!(!matches("a+", "ab"));
}

#[test]
fn an_escaped_dollar_at_the_end_is_a_character() {
    assert!(matches("a\\$", "xa$"));
    assert!(!matches("a\\$", "xa"));
    assert!(matches("a\\\\$", "a\\"));
}
