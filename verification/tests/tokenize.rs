use nfa_regex::tokenize::{Error, MatchCharacter, Repeat, Token, Tokens};
use MatchCharacter::{Char, Or, Wildcard};
use Repeat::{AtLeast, Exactly, Optional};

fn tk(repeat: Repeat, value: MatchCharacter) -> Box<Token> {
    Box::new(Token { repeat, value })
}

#[test]
fn test_tokenize() {
    assert_eq!(
        Tokens::tokenize_regex("abcd"),
        Ok(Tokens {
            tokens: vec![
                tk(Exactly(1), Char('a')),
                tk(Exactly(1), Char('b')),
                tk(Exactly(1), Char('c')),
                tk(Exactly(1), Char('d'))
            ],
            beginning_boundary: false,
            end_boundary: false,
        })
    );

    assert_eq!(
        Tokens::tokenize_regex("a(b(cd)?)+"),
        Ok(Tokens {
            tokens: vec![
                tk(Exactly(1), Char('a')),
                tk(
                    AtLeast(1),
                    MatchCharacter::String(vec![
                        tk(Exactly(1), Char('b')),
                        tk(
                            Optional,
                            MatchCharacter::String(vec![
                                tk(Exactly(1), Char('c')),
                                tk(Exactly(1), Char('d'))
                            ])
                        )
                    ])
                )
            ],
            beginning_boundary: false,
            end_boundary: false
        })
    )
}

#[test]
fn malformed_patterns_are_rejected_with_their_offset() {
    assert_eq!(
        Tokens::tokenize_regex("*a"),
        Err(Error::InvalidModifierLocation { at: 0 })
    );
    assert_eq!(
        Tokens::tokenize_regex("(a"),
        Err(Error::MismatchedGroup { at: 2 })
    );
    assert_eq!(
        Tokens::tokenize_regex("a)"),
        Err(Error::MismatchedGroup { at: 1 })
    );
    assert_eq!(
        Tokens::tokenize_regex("a^b"),
        Err(Error::UnexpectedBoundary { at: 1 })
    );
    assert_eq!(
        Tokens::tokenize_regex("a\\"),
        Err(Error::MissingToken { at: 2 })
    );
    assert_eq!(
        Tokens::tokenize_regex("a$b"),
        Err(Error::UnexpectedBoundary { at: 1 })
    );
    assert_eq!(
        Tokens::tokenize_regex("a**"),
        Err(Error::InvalidModifierLocation { at: 2 })
    );
}

#[test]
fn boundaries_wildcards_escapes_and_alternation() {
    assert_eq!(
        Tokens::tokenize_regex("^a.\\.$"),
        Ok(Tokens {
            tokens: vec![
                tk(Exactly(1), Char('a')),
                tk(Exactly(1), Wildcard),
                tk(Exactly(1), Char('.'))
            ],
            beginning_boundary: true,
            end_boundary: true,
        })
    );
    assert_eq!(
        Tokens::tokenize_regex("a|b*"),
        Ok(Tokens {
            tokens: vec![tk(
                Exactly(1),
                Or(tk(Exactly(1), Char('a')), tk(AtLeast(0), Char('b')))
            )],
            beginning_boundary: false,
            end_boundary: false,
        })
    );
    assert_eq!(
        Tokens::tokenize_regex(""),
        Ok(Tokens {
            tokens: vec![],
            beginning_boundary: false,
            end_boundary: false,
        })
    );
    assert_eq!(
        Tokens::tokenize_regex("^$"),
        Ok(Tokens {
            tokens: vec![],
            beginning_boundary: true,
            end_boundary: true,
        })
    );
}

#[test]
fn an_escaped_dollar_in_the_last_place_is_no_marker() {
    assert_eq!(
        Tokens::tokenize_regex("a\\$"),
        Ok(Tokens {
            tokens: vec![tk(Exactly(1), Char('a')), tk(Exactly(1), Char('$'))],
            beginning_boundary: false,
            end_boundary: false,
        })
    );
    assert_eq!(
        Tokens::tokenize_regex("a\\\\$"),
        Ok(Tokens {
            tokens: vec![tk(Exactly(1), Char('a')), tk(Exactly(1), Char('\\'))],
            beginning_boundary: false,
            end_boundary: true,
        })
    );
    assert_eq!(
        Tokens::tokenize_regex("\\\\\\$"),
        Ok(Tokens {
            tokens: vec![tk(Exactly(1), Char('\\')), tk(Exactly(1), Char('$'))],
            beginning_boundary: false,
            end_boundary: false,
        })
    );
    assert_eq!(
        Tokens::tokenize_regex("^\\$"),
        Ok(Tokens {
            tokens: vec![tk(Exactly(1), Char('$'))],
            beginning_boundary: true,
            end_boundary: false,
        })
    );
    assert_eq!(
        Tokens::tokenize_regex("a\\$b"),
        Ok(Tokens {
            tokens: vec![
                tk(Exactly(1), Char('a')),
                tk(Exactly(1), Char('$')),
                tk(Exactly(1), Char('b'))
            ],
            beginning_boundary: false,
            end_boundary: false,
        })
    );
    assert_eq!(
        Tokens::tokenize_regex("(a$"),
        Err(Error::MismatchedGroup { at: 2 })
    );
}

#[test]
fn alternation_needs_a_token_on_each_side() {
    assert_eq!(
        Tokens::tokenize_regex("|a"),
        Err(Error::InvalidModifierLocation { at: 0 })
    );
    assert_eq!(
        Tokens::tokenize_regex("a|"),
        Err(Error::MissingToken { at: 2 })
    );
    assert_eq!(
        Tokens::tokenize_regex("a||b"),
        Err(Error::InvalidModifierLocation { at: 2 })
    );
    assert_eq!(
        Tokens::tokenize_regex("(a|)"),
        Err(Error::MissingToken { at: 3 })
    );
}

#[test]
fn alternation_groups_to_the_right() {
    assert_eq!(
        Tokens::tokenize_regex("a|(bc)?|d"),
        Ok(Tokens {
            tokens: vec![tk(
                Exactly(1),
                Or(
                    tk(Exactly(1), Char('a')),
                    tk(
                        Exactly(1),
                        Or(
                            tk(
                                Optional,
                                MatchCharacter::String(vec![
                                    tk(Exactly(1), Char('b')),
                                    tk(Exactly(1), Char('c'))
                                ])
                            ),
                            tk(Exactly(1), Char('d'))
                        )
                    )
                )
            )],
            beginning_boundary: false,
            end_boundary: false,
        })
    );
}

#[test]
fn groups_may_be_empty_and_nested() {
    assert_eq!(
        Tokens::tokenize_regex("()*((a))"),
        Ok(Tokens {
            tokens: vec![
                tk(AtLeast(0), MatchCharacter::String(vec![])),
                tk(
                    Exactly(1),
                    MatchCharacter::String(vec![tk(
                        Exactly(1),
                        MatchCharacter::String(vec![tk(Exactly(1), Char('a'))])
                    )])
                )
            ],
            beginning_boundary: false,
            end_boundary: false,
        })
    );
    assert_eq!(
        Tokens::tokenize_regex("((a)"),
        Err(Error::MismatchedGroup { at: 4 })
    );
    assert_eq!(
        Tokens::tokenize_regex("(a))"),
        Err(Error::MismatchedGroup { at: 3 })
    );
}

#[test]
fn one_token_at_a_time() {
    let chars: Vec<char> = "ab+(c".chars().collect();
    let mut i = 0;
    assert_eq!(
        Token::tokenize_one(&chars, &mut i),
        Ok(tk(Exactly(1), Char('a')))
    );
    assert_eq!(i, 1);
    assert_eq!(
        Token::tokenize_one(&chars, &mut i),
        Ok(tk(AtLeast(1), Char('b')))
    );
    assert_eq!(i, 3);
    assert_eq!(
        Token::tokenize_one(&chars, &mut i),
        Err(Error::MismatchedGroup { at: 5 })
    );
    assert_eq!(i, 5);
    assert_eq!(
        Token::tokenize_one(&chars, &mut i),
        Err(Error::MissingToken { at: 5 })
    );
    let stray: Vec<char> = "a)".chars().collect();
    let mut at = 1;
    assert_eq!(
        Token::tokenize_one(&stray, &mut at),
        Err(Error::MismatchedGroup { at: 1 })
    );
    assert_eq!(at, 1);
    let mut far = 9;
    assert_eq!(
        Token::tokenize_one(&chars, &mut far),
        Err(Error::MissingToken { at: 9 })
    );
}
