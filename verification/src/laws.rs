//! What holds of every pattern and every subject.

use vstd::prelude::*;

use crate::automaton::{compiles_to, realizes, Automaton};
use crate::language::{
    lemma_power_one, pattern_matches, pattern_matches_until, repeat_allows, seq_matches,
    token_matches,
};
use crate::tokenize::{
    spec_repeat, spec_tokenize, spec_tokenize_from, spec_tokenize_one, spec_tokenize_value,
    Repeat, TokenView, TokensView, ValueView,
};

verus! {

/// Whether the character means something else than itself in a pattern.
pub open spec fn is_special(c: char) -> bool {
    c == '\\' || c == '^' || c == '$' || c == '?' || c == '*' || c == '+' || c == '|' || c == '('
        || c == ')' || c == '.'
}

/// Whether a text holds no character that means something else than itself.
pub open spec fn is_literal(text: Seq<char>) -> bool {
    forall|i: int| 0 <= i < text.len() ==> !is_special(#[trigger] text[i])
}

/// The token that matches the character `c` once.
pub open spec fn literal_token(c: char) -> TokenView {
    TokenView { repeat: Repeat::Exactly(1), value: ValueView::Char(c) }
}

/// The tokens that match the characters of `text`, one each.
pub open spec fn literal_tokens(text: Seq<char>) -> Seq<TokenView> {
    Seq::new(text.len(), |i: int| literal_token(text[i]))
}

/// An automaton that is a pattern compiled matches the subjects that the
/// pattern matches.
pub proof fn law_automaton_matches_as_pattern(
    a: Automaton,
    pattern: TokensView,
    subject: Seq<char>,
)
    requires
        realizes(a, pattern),
    ensures
        a.matches(subject) <==> pattern_matches(pattern, subject),
{
    let j = subject.len() as int;
    if a.matches_until(subject, j) {
        let i = choose|i: int|
            0 <= i <= j && (a.beginning_boundary ==> i == 0) && #[trigger] crate::automaton::reach(
                a.states,
                a.head,
                0,
                subject.subrange(i, j),
            );
        assert(a.accepts(subject.subrange(i, j)));
    }
    if pattern_matches_until(pattern, subject, j) {
        let i = choose|i: int|
            0 <= i <= j && (pattern.beginning_boundary ==> i == 0) && seq_matches(
                pattern.tokens,
                #[trigger] subject.subrange(i, j),
            );
        assert(a.accepts(subject.subrange(i, j)));
    }
}

/// A stretch of characters that mean themselves parses to one token each.
pub proof fn lemma_tokenize_literal(chars: Seq<char>, i: int)
    requires
        0 <= i <= chars.len(),
        is_literal(chars.subrange(i, chars.len() as int)),
    ensures
        spec_tokenize_from(chars, i) == Ok::<Seq<TokenView>, crate::tokenize::Error>(
            literal_tokens(chars.subrange(i, chars.len() as int)),
        ),
    decreases chars.len() - i,
{
    let tail = chars.subrange(i, chars.len() as int);
    if i == chars.len() {
        assert(literal_tokens(tail) =~= Seq::<TokenView>::empty());
    } else {
        assert(tail[0] == chars[i]);
        assert(!is_special(tail[0]));
        if i + 1 < chars.len() {
            assert(tail[1] == chars[i + 1]);
            assert(!is_special(tail[1]));
        }
        assert(spec_tokenize_value(chars, i) == Ok::<(ValueView, int), crate::tokenize::Error>(
            (ValueView::Char(chars[i]), i + 1),
        ));
        assert(spec_repeat(chars, i + 1) == (Repeat::Exactly(1), i + 1));
        assert(spec_tokenize_one(chars, i) == Ok::<(TokenView, int), crate::tokenize::Error>(
            (literal_token(chars[i]), i + 1),
        ));
        let shorter = chars.subrange(i + 1, chars.len() as int);
        assert forall|k: int| 0 <= k < shorter.len() implies !is_special(#[trigger] shorter[k]) by {
            assert(shorter[k] == tail[k + 1]);
        }
        lemma_tokenize_literal(chars, i + 1);
        assert(seq![literal_token(chars[i])] + literal_tokens(shorter) =~= literal_tokens(tail));
    }
}

/// One token for each character matches that text and no other.
pub proof fn lemma_literal_tokens_match(text: Seq<char>, s: Seq<char>)
    ensures
        seq_matches(literal_tokens(text), s) <==> s == text,
    decreases text.len(),
{
    let tokens = literal_tokens(text);
    if text.len() == 0 {
        assert(s.len() == 0 ==> s =~= text);
    } else {
        let t = tokens[0];
        let rest = text.drop_first();
        assert(tokens.drop_first() =~= literal_tokens(rest));
        assert forall|piece: Seq<char>| token_matches(t, piece) <==> piece == seq![text[0]] by {
            lemma_power_one(t.value, piece);
            if piece == seq![text[0]] {
                assert(repeat_allows(t.repeat, 1));
            }
        }
        if seq_matches(tokens, s) {
            let j = choose|j: int|
                0 <= j <= s.len() && token_matches(tokens[0], #[trigger] s.subrange(0, j))
                    && seq_matches(tokens.drop_first(), s.subrange(j, s.len() as int));
            lemma_literal_tokens_match(rest, s.subrange(j, s.len() as int));
            assert(s.subrange(0, j) == seq![text[0]]);
            assert(s =~= s.subrange(0, j) + s.subrange(j, s.len() as int));
            assert(s =~= text);
        }
        if s == text {
            lemma_literal_tokens_match(rest, s.subrange(1, s.len() as int));
            assert(s.subrange(1, s.len() as int) =~= rest);
            assert(s.subrange(0, 1) =~= seq![text[0]]);
            assert(token_matches(tokens[0], s.subrange(0, 1)));
        }
    }
}

/// What the characters of `text` parse to, with the markers as given.
pub open spec fn literal_pattern(text: Seq<char>, begin: bool, end: bool) -> TokensView {
    TokensView { beginning_boundary: begin, end_boundary: end, tokens: literal_tokens(text) }
}

/// The pattern text of `text` with a `^` before it where `begin` is set and
/// a `$` behind it where `end` is set.
pub open spec fn with_markers(text: Seq<char>, begin: bool, end: bool) -> Seq<char> {
    (if begin {
        seq!['^']
    } else {
        Seq::<char>::empty()
    }) + text + (if end {
        seq!['$']
    } else {
        Seq::<char>::empty()
    })
}

/// Whether `piece` is the end of `subject`, and the whole of it where
/// `begin` is set.
pub open spec fn ends_subject(piece: Seq<char>, subject: Seq<char>, begin: bool) -> bool {
    if begin {
        subject == piece
    } else {
        piece.is_suffix_of(subject)
    }
}

/// Characters that mean themselves, with or without the two markers, parse
/// to one token each and to the markers they have.
pub proof fn lemma_tokenize_literal_pattern(text: Seq<char>, begin: bool, end: bool)
    requires
        is_literal(text),
    ensures
        spec_tokenize(with_markers(text, begin, end)) == Ok::<TokensView, crate::tokenize::Error>(
            literal_pattern(text, begin, end),
        ),
{
    let whole = with_markers(text, begin, end);
    let n = whole.len() as int;
    let start: int = if begin { 1 } else { 0 };
    let stop: int = if end { n - 1 } else { n };
    assert(stop - start == text.len());
    assert forall|k: int| start <= k < stop implies whole[k] == text[k - start] by {}
    if n > 0 {
        if !begin {
            assert(whole[0] != '^') by {
                if text.len() > 0 {
                    assert(!is_special(text[0]));
                }
            }
        }
        if !end {
            assert(whole[n - 1] != '$') by {
                if text.len() > 0 {
                    assert(!is_special(text[text.len() - 1]));
                }
            }
        }
    }
    if end && n > 1 {
        assert(whole[n - 2] != '\\') by {
            if text.len() > 0 {
                assert(!is_special(text[text.len() - 1]));
            }
        }
    }
    let body = whole.subrange(0, stop);
    assert(body.subrange(start, body.len() as int) =~= text);
    lemma_tokenize_literal(body, start);
}

/// A pattern of characters that mean themselves matches the subjects that
/// end with those characters, and no other. With a `^` before them the
/// subject is equal to them. A `$` behind them changes nothing.
pub proof fn law_literal_pattern(
    text: Seq<char>,
    begin: bool,
    end: bool,
    a: Automaton,
    subject: Seq<char>,
)
    requires
        is_literal(text),
        compiles_to(with_markers(text, begin, end), a),
    ensures
        a.matches(subject) <==> ends_subject(text, subject, begin),
{
    lemma_tokenize_literal_pattern(text, begin, end);
    let pattern = spec_tokenize(with_markers(text, begin, end))->Ok_0;
    law_automaton_matches_as_pattern(a, pattern, subject);
    let n = subject.len() as int;
    if pattern_matches(pattern, subject) {
        let i = choose|i: int|
            0 <= i <= n && (pattern.beginning_boundary ==> i == 0) && seq_matches(
                pattern.tokens,
                #[trigger] subject.subrange(i, n),
            );
        lemma_literal_tokens_match(text, subject.subrange(i, n));
        assert(text.len() == n - i);
        if begin {
            assert(subject.subrange(0, n) =~= subject);
        }
    }
    if ends_subject(text, subject, begin) {
        let i = n - text.len();
        assert(subject.subrange(i, n) =~= text);
        lemma_literal_tokens_match(text, subject.subrange(i, n));
        assert(seq_matches(pattern.tokens, subject.subrange(i, n)));
    }
}

/// A pattern of characters that mean themselves, without markers, matches
/// the subjects that end with those characters, and no other.
pub proof fn law_literal_pattern_ends_the_subject(text: Seq<char>, a: Automaton, subject: Seq<char>)
    requires
        is_literal(text),
        compiles_to(text, a),
    ensures
        a.matches(subject) <==> text.is_suffix_of(subject),
{
    assert(with_markers(text, false, false) =~= text);
    law_literal_pattern(text, false, false, a, subject);
}

/// A pattern of characters that mean themselves between `^` and `$` matches
/// the subject that is equal to those characters, and no other.
pub proof fn law_anchored_literal_pattern_matches_its_text(
    text: Seq<char>,
    a: Automaton,
    subject: Seq<char>,
)
    requires
        is_literal(text),
        compiles_to(seq!['^'] + text + seq!['$'], a),
    ensures
        a.matches(subject) <==> subject == text,
{
    law_literal_pattern(text, true, true, a, subject);
}

/// A pattern of characters that mean themselves behind a `^` matches the
/// subject that is equal to those characters, and no other.
pub proof fn law_start_anchored_literal_pattern(text: Seq<char>, a: Automaton, subject: Seq<char>)
    requires
        is_literal(text),
        compiles_to(seq!['^'] + text, a),
    ensures
        a.matches(subject) <==> subject == text,
{
    assert(with_markers(text, true, false) =~= seq!['^'] + text);
    law_literal_pattern(text, true, false, a, subject);
}

/// A pattern of characters that mean themselves before a `$` matches the
/// subjects that end with those characters, and no other.
pub proof fn law_end_anchored_literal_pattern(text: Seq<char>, a: Automaton, subject: Seq<char>)
    requires
        is_literal(text),
        compiles_to(text + seq!['$'], a),
    ensures
        a.matches(subject) <==> text.is_suffix_of(subject),
{
    assert(with_markers(text, false, true) =~= text + seq!['$']);
    law_literal_pattern(text, false, true, a, subject);
}

/// Two automata compiled from the same pattern text accept the same strings
/// and match the same subjects.
pub proof fn law_compiling_twice_matches_the_same(
    text: Seq<char>,
    first: Automaton,
    second: Automaton,
    subject: Seq<char>,
)
    requires
        compiles_to(text, first),
        compiles_to(text, second),
    ensures
        first.accepts(subject) == second.accepts(subject),
        first.matches(subject) == second.matches(subject),
{
    let pattern = spec_tokenize(text)->Ok_0;
    law_automaton_matches_as_pattern(first, pattern, subject);
    law_automaton_matches_as_pattern(second, pattern, subject);
}

/// The empty pattern matches every subject.
pub proof fn law_empty_pattern_matches_all(a: Automaton, subject: Seq<char>)
    requires
        compiles_to(Seq::<char>::empty(), a),
    ensures
        a.matches(subject),
{
    let text = Seq::<char>::empty();
    law_literal_pattern_ends_the_subject(text, a, subject);
    assert(subject.subrange(subject.len() as int, subject.len() as int) =~= text);
}

/// The pattern `^$` matches the empty subject and no other.
pub proof fn law_markers_alone_match_the_empty_subject(a: Automaton, subject: Seq<char>)
    requires
        compiles_to(seq!['^', '$'], a),
    ensures
        a.matches(subject) <==> subject.len() == 0,
{
    let text = Seq::<char>::empty();
    assert(seq!['^'] + text + seq!['$'] =~= seq!['^', '$']);
    law_anchored_literal_pattern_matches_its_text(text, a, subject);
    assert(subject.len() == 0 ==> subject =~= text);
}

/// The pattern `a.c` matches `a`, then any one character, then `c`.
pub proof fn law_wildcard_takes_any_character(a: Automaton, filling: char)
    requires
        compiles_to(seq!['a', '.', 'c'], a),
    ensures
        a.matches(seq!['a', filling, 'c']),
{
    let text = seq!['a', '.', 'c'];
    let subject = seq!['a', filling, 'c'];
    let first = literal_token('a');
    let any = TokenView { repeat: Repeat::Exactly(1), value: ValueView::Wildcard };
    let last = literal_token('c');
    assert(text.subrange(0, 3) =~= text);
    assert(spec_tokenize_from(text, 3) == Ok::<Seq<TokenView>, crate::tokenize::Error>(
        Seq::empty(),
    ));
    assert(text[0] == 'a' && text[1] == '.' && text[2] == 'c');
    assert(spec_tokenize_value(text, 2) == Ok::<(ValueView, int), crate::tokenize::Error>(
        (last.value, 3),
    ));
    assert(spec_repeat(text, 3) == (Repeat::Exactly(1), 3int));
    assert(spec_tokenize_one(text, 2) == Ok::<(TokenView, int), crate::tokenize::Error>((last, 3)));
    assert(spec_tokenize_from(text, 2) == Ok::<Seq<TokenView>, crate::tokenize::Error>(
        seq![last] + Seq::empty(),
    ));
    assert(spec_tokenize_value(text, 1) == Ok::<(ValueView, int), crate::tokenize::Error>(
        (any.value, 2),
    ));
    assert(spec_repeat(text, 2) == (Repeat::Exactly(1), 2int));
    assert(spec_tokenize_one(text, 1) == Ok::<(TokenView, int), crate::tokenize::Error>((any, 2)));
    assert(spec_tokenize_from(text, 1) == Ok::<Seq<TokenView>, crate::tokenize::Error>(
        seq![any] + (seq![last] + Seq::empty()),
    ));
    assert(spec_tokenize_value(text, 0) == Ok::<(ValueView, int), crate::tokenize::Error>(
        (first.value, 1),
    ));
    assert(spec_repeat(text, 1) == (Repeat::Exactly(1), 1int));
    assert(spec_tokenize_one(text, 0) == Ok::<(TokenView, int), crate::tokenize::Error>((first, 1)));
    let tokens = seq![first] + (seq![any] + (seq![last] + Seq::empty()));
    assert(spec_tokenize_from(text, 0) == Ok::<Seq<TokenView>, crate::tokenize::Error>(tokens));
    let pattern = spec_tokenize(text)->Ok_0;
    assert(pattern.tokens == tokens);
    assert(!pattern.beginning_boundary && !pattern.end_boundary);
    let nothing = Seq::<char>::empty();
    lemma_power_one(first.value, seq!['a']);
    lemma_power_one(any.value, seq![filling]);
    lemma_power_one(last.value, seq!['c']);
    assert(repeat_allows(first.repeat, 1) && repeat_allows(any.repeat, 1) && repeat_allows(
        last.repeat,
        1,
    ));
    assert(seq_matches(Seq::<TokenView>::empty(), nothing));
    crate::language::lemma_seq_more(last, Seq::empty(), seq!['c'], nothing);
    crate::language::lemma_seq_more(
        any,
        seq![last] + Seq::empty(),
        seq![filling],
        seq!['c'] + nothing,
    );
    crate::language::lemma_seq_more(
        first,
        seq![any] + (seq![last] + Seq::empty()),
        seq!['a'],
        seq![filling] + (seq!['c'] + nothing),
    );
    assert(seq!['a'] + (seq![filling] + (seq!['c'] + nothing)) =~= subject);
    assert(subject.subrange(0, 3) =~= subject);
    assert(pattern_matches_until(pattern, subject, 3));
    law_automaton_matches_as_pattern(a, pattern, subject);
}

} // verus!
