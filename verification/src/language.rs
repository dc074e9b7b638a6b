//! What a parsed pattern means: the strings that a token, a value or a list
//! of tokens matches, and what it is for a pattern to match a subject.

use vstd::prelude::*;

use crate::tokenize::{Repeat, TokenView, TokensView, ValueView};

verus! {

/// Whether a repetition allows exactly `k` occurrences in a row.
pub open spec fn repeat_allows(repeat: Repeat, k: nat) -> bool {
    match repeat {
        Repeat::Optional => k <= 1,
        Repeat::Exactly(n) => k == n,
        Repeat::AtLeast(n) => k >= n,
        Repeat::AtMost(n) => k <= n,
        Repeat::Range(low, high) => low <= k <= high,
    }
}

/// Whether the token matches exactly the string `s`: `s` is made of as many
/// pieces, each matched by the token's value, as its repetition allows.
pub open spec fn token_matches(t: TokenView, s: Seq<char>) -> bool
    decreases t, 0nat,
{
    exists|k: nat| #[trigger] repeat_allows(t.repeat, k) && power_matches(t.value, k, s)
}

/// Whether `s` is made of exactly `k` pieces that the value matches.
pub open spec fn power_matches(v: ValueView, k: nat, s: Seq<char>) -> bool
    decreases v, k + 1,
{
    if k == 0 {
        s.len() == 0
    } else {
        exists|j: int|
            0 <= j <= s.len() && value_matches(v, #[trigger] s.subrange(0, j)) && power_matches(
                v,
                (k - 1) as nat,
                s.subrange(j, s.len() as int),
            )
    }
}

/// Whether the value matches exactly the string `s`.
pub open spec fn value_matches(v: ValueView, s: Seq<char>) -> bool
    decreases v, 0nat,
{
    match v {
        ValueView::Char(c) => s == seq![c],
        ValueView::Wildcard => s.len() == 1,
        ValueView::String(tokens) => seq_matches(tokens, s),
        ValueView::Or(left, right) => token_matches(*left, s) || token_matches(*right, s),
    }
}

/// Whether the tokens, one after the other, match exactly the string `s`.
pub open spec fn seq_matches(tokens: Seq<TokenView>, s: Seq<char>) -> bool
    decreases tokens, 0nat,
{
    if tokens.len() == 0 {
        s.len() == 0
    } else {
        exists|j: int|
            0 <= j <= s.len() && token_matches(tokens[0], #[trigger] s.subrange(0, j))
                && seq_matches(tokens.drop_first(), s.subrange(j, s.len() as int))
    }
}

/// Whether a match of the pattern ends at offset `j` of `subject`: its
/// tokens match a piece of `subject` that ends there, and that starts at
/// offset 0 where the pattern began with `^`.
pub open spec fn pattern_matches_until(pattern: TokensView, subject: Seq<char>, j: int) -> bool {
    exists|i: int|
        0 <= i <= j && (pattern.beginning_boundary ==> i == 0) && seq_matches(
            pattern.tokens,
            #[trigger] subject.subrange(i, j),
        )
}

/// Whether the pattern matches `subject`: its tokens match a piece of it
/// that ends with the subject. Where the pattern began with `^` the piece is
/// the whole subject, where not it starts anywhere. The marker `$` asks for
/// nothing more.
pub open spec fn pattern_matches(pattern: TokensView, subject: Seq<char>) -> bool {
    pattern_matches_until(pattern, subject, subject.len() as int)
}

/// Whether the automaton can express the repetition: none but `?`, `*`, `+`
/// and exactly once.
pub open spec fn repeat_supported(repeat: Repeat) -> bool {
    match repeat {
        Repeat::Optional => true,
        Repeat::Exactly(n) => n == 1,
        Repeat::AtLeast(n) => n <= 1,
        _ => false,
    }
}

/// Whether the automaton can express the token: its repetition is
/// supported, and so is all that its value holds. No alternation is.
pub open spec fn token_supported(t: TokenView) -> bool
    decreases t, 0nat,
{
    repeat_supported(t.repeat) && value_supported(t.value)
}

/// Whether the automaton can express the value.
pub open spec fn value_supported(v: ValueView) -> bool
    decreases v, 0nat,
{
    match v {
        ValueView::Char(_) => true,
        ValueView::Wildcard => true,
        ValueView::String(tokens) => tokens_supported(tokens),
        ValueView::Or(_, _) => false,
    }
}

/// Whether the automaton can express every token of the list.
pub open spec fn tokens_supported(tokens: Seq<TokenView>) -> bool
    decreases tokens, 0nat,
{
    forall|i: int| 0 <= i < tokens.len() ==> token_supported(#[trigger] tokens[i])
}

/// How many instructions the token takes in the automaton: those of its
/// value, and one more where it is repeated or optional.
pub open spec fn token_size(t: TokenView) -> nat
    decreases t, 0nat,
{
    value_size(t.value) + if t.repeat == Repeat::Exactly(1) {
        0nat
    } else {
        1nat
    }
}

/// How many instructions the value takes in the automaton: one for a
/// character or a wildcard, those of its tokens for a group.
pub open spec fn value_size(v: ValueView) -> nat
    decreases v, 0nat,
{
    match v {
        ValueView::Char(_) => 1,
        ValueView::Wildcard => 1,
        ValueView::String(tokens) => tokens_size(tokens),
        ValueView::Or(left, right) => 1 + token_size(*left) + token_size(*right),
    }
}

/// How many instructions the tokens take in the automaton.
pub open spec fn tokens_size(tokens: Seq<TokenView>) -> nat
    decreases tokens, 0nat,
{
    if tokens.len() == 0 {
        0
    } else {
        token_size(tokens[0]) + tokens_size(tokens.drop_first())
    }
}

/// Exactly one piece is the piece itself.
pub proof fn lemma_power_one(v: ValueView, s: Seq<char>)
    ensures
        power_matches(v, 1, s) <==> value_matches(v, s),
{
    assert(s.subrange(0, s.len() as int) =~= s);
    assert(s.subrange(s.len() as int, s.len() as int).len() == 0);
    if value_matches(v, s) {
        assert(value_matches(v, s.subrange(0, s.len() as int)));
        assert(power_matches(v, 0, s.subrange(s.len() as int, s.len() as int)));
    }
    if power_matches(v, 1, s) {
        let j = choose|j: int|
            0 <= j <= s.len() && value_matches(v, #[trigger] s.subrange(0, j)) && power_matches(
                v,
                0,
                s.subrange(j, s.len() as int),
            );
        assert(j == s.len());
    }
}

/// One more piece in front.
pub proof fn lemma_power_more(v: ValueView, k: nat, first: Seq<char>, rest: Seq<char>)
    requires
        value_matches(v, first),
        power_matches(v, k, rest),
    ensures
        power_matches(v, k + 1, first + rest),
{
    let s = first + rest;
    assert(s.subrange(0, first.len() as int) =~= first);
    assert(s.subrange(first.len() as int, s.len() as int) =~= rest);
}

/// One more token in front.
pub proof fn lemma_seq_more(t: TokenView, tokens: Seq<TokenView>, first: Seq<char>, rest: Seq<char>)
    requires
        token_matches(t, first),
        seq_matches(tokens, rest),
    ensures
        seq_matches(seq![t] + tokens, first + rest),
{
    let s = first + rest;
    let all = seq![t] + tokens;
    assert(all[0] == t);
    assert(all.drop_first() =~= tokens);
    assert(s.subrange(0, first.len() as int) =~= first);
    assert(s.subrange(first.len() as int, s.len() as int) =~= rest);
}

} // verus!
