use nfa_regex::nondeterministic::Regex;
use nfa_regex::tokenize::Error;

#[test]
fn each_error_has_its_message() {
    assert_eq!(
        Error::InvalidModifierLocation { at: 0 }.message(),
        "Invalid modifier (+, ?, etc.) at char 0"
    );
    assert_eq!(
        Error::MismatchedGroup { at: 7 }.message(),
        "Mismatched group (parentheses) at char 7"
    );
    assert_eq!(
        Error::MissingToken { at: 12 }.message(),
        "Missing token at char 12"
    );
    assert_eq!(
        Error::UnexpectedBoundary { at: 1090 }.message(),
        "Unexpected expression boundary (^ or $) at char 1090"
    );
    assert_eq!(
        Error::UnsupportedConstruct.message(),
        "Unsupported construct (alternation or repetition count)"
    );
}

#[test]
fn offsets_are_written_in_decimal() {
    assert_eq!(
        Error::MissingToken { at: 9 }.message(),
        "Missing token at char 9"
    );
    assert_eq!(
        Error::MissingToken { at: 10 }.message(),
        "Missing token at char 10"
    );
    assert_eq!(
        Error::MissingToken { at: 4_005_060 }.message(),
        "Missing token at char 4005060"
    );
    assert_eq!(
        Error::MissingToken { at: usize::MAX }.message(),
        format!("Missing token at char {}", usize::MAX)
    );
}

#[test]
fn offsets_count_characters_not_bytes() {
    let error = Regex::from_simple_expression("\u{e9}\u{e9}(").err();
    assert_eq!(error, Some(Error::MismatchedGroup { at: 3 }));
    assert_eq!(
        error.map(|e| e.message()),
        Some(String::from("Mismatched group (parentheses) at char 3"))
    );
}

#[test]
fn default_is_the_empty_pattern() {
    let regex = Regex::default();
    assert!(regex.test(""));
    assert!(regex.test("abc"));
    assert_eq!(Some(regex), Regex::from_simple_expression("").ok());
}

#[test]
fn a_clone_matches_as_what_it_was_cloned_from() {
    let regex = Regex::from_simple_expression("^a+b?$").unwrap();
    let copy = regex.clone();
    assert_eq!(regex, copy);
    for subject in ["", "a", "aab", "ab", "b", "abb"] {
        assert_eq!(regex.test(subject), copy.test(subject));
    }
}

#[test]
fn listing_shows_the_instructions_from_the_last_to_the_first() {
    let regex = Regex::from_simple_expression("^a?$").unwrap();
    assert_eq!(
        regex.listing(),
        "Regex {\n head: 2,\n ^: true,\n $: true,\n states: [\n  2: State { value: Split { branch: 1 }, next: 0 },\n  1: State { value: Char('a'), next: 0 },\n  0: State { value: Match, next: 0 },\n ]\n}"
    );
    let empty = Regex::from_simple_expression("").unwrap();
    assert_eq!(
        empty.listing(),
        "Regex {\n head: 0,\n ^: false,\n $: false,\n states: [\n  0: State { value: Match, next: 0 },\n ]\n}"
    );
}

#[test]
fn instructions_stand_where_the_tokens_put_them() {
    let both = Regex::from_simple_expression("ab").unwrap();
    assert_eq!(
        both.listing(),
        "Regex {\n head: 2,\n ^: false,\n $: false,\n states: [\n  2: State { value: Char('a'), next: 1 },\n  1: State { value: Char('b'), next: 0 },\n  0: State { value: Match, next: 0 },\n ]\n}"
    );
    let plus = Regex::from_simple_expression("x.+").unwrap();
    assert_eq!(
        plus.listing(),
        "Regex {\n head: 3,\n ^: false,\n $: false,\n states: [\n  3: State { value: Char('x'), next: 2 },\n  2: State { value: Wildcard, next: 1 },\n  1: State { value: Split { branch: 2 }, next: 0 },\n  0: State { value: Match, next: 0 },\n ]\n}"
    );
    let star = Regex::from_simple_expression("(ab)*").unwrap();
    assert_eq!(
        star.listing(),
        "Regex {\n head: 1,\n ^: false,\n $: false,\n states: [\n  3: State { value: Char('a'), next: 2 },\n  2: State { value: Char('b'), next: 1 },\n  1: State { value: Split { branch: 3 }, next: 0 },\n  0: State { value: Match, next: 0 },\n ]\n}"
    );
}

#[test]
fn listing_writes_characters_as_a_reader_expects() {
    let regex = Regex::from_simple_expression("\\\\'\n\u{e9}").unwrap();
    assert_eq!(
        regex.listing(),
        format!(
            "Regex {{\n head: 4,\n ^: false,\n $: false,\n states: [\n  4: State {{ value: Char({:?}), next: 3 }},\n  3: State {{ value: Char({:?}), next: 2 }},\n  2: State {{ value: Char({:?}), next: 1 }},\n  1: State {{ value: Char({:?}), next: 0 }},\n  0: State {{ value: Match, next: 0 }},\n ]\n}}",
            '\\', '\'', '\n', '\u{e9}'
        )
    );
}
