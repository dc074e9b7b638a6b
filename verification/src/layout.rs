//! Where the compiler puts each instruction.
//!
//! The list starts with the accepting instruction. The tokens are taken from
//! the last to the first, and each one's instructions are appended behind
//! what is there, leading to where the token behind it is entered.

use vstd::prelude::*;

use crate::automaton::{MatchValue, State};
use crate::tokenize::{Repeat, TokenView, ValueView};

verus! {

/// The instruction with this kind that leads to `next`.
pub open spec fn state_of(value: MatchValue, next: int) -> State {
    State { value, next: next as usize }
}

/// The `Split` that leads to `branch` or to `next`.
pub open spec fn split_of(branch: int, next: int) -> State {
    State { value: MatchValue::Split { branch: branch as usize }, next: next as usize }
}

/// The list `states` with the instructions of the value behind it, which
/// lead to `after`, and the position where they are entered: one
/// instruction for a character or a wildcard, those of its tokens for a
/// group. Nothing is appended for an alternation.
pub open spec fn spec_convert_value(v: ValueView, states: Seq<State>, after: int) -> (Seq<State>, int)
    decreases v, 0nat,
{
    match v {
        ValueView::Char(c) => (
            states.push(state_of(MatchValue::Char(c), after)),
            states.len() as int,
        ),
        ValueView::Wildcard => (
            states.push(state_of(MatchValue::Wildcard, after)),
            states.len() as int,
        ),
        ValueView::String(tokens) => spec_convert_tokens(tokens, states, after),
        ValueView::Or(_, _) => (states, after),
    }
}

/// The list `states` with the instructions of the token behind it, which
/// lead to `after`, and the position where they are entered.
///
/// A token that occurs once is its value. An optional token is its value,
/// then a `Split` into the value or to `after`, where it is entered. A token
/// under `*` or `+` is a `Split` into the value or to `after`, then the
/// value, which leads back to the `Split`; `*` is entered at the `Split`,
/// `+` at the value. Nothing is appended for another repetition.
pub open spec fn spec_convert_token(t: TokenView, states: Seq<State>, after: int) -> (Seq<State>, int)
    decreases t, 0nat,
{
    match t.repeat {
        Repeat::Exactly(n) => if n == 1 {
            spec_convert_value(t.value, states, after)
        } else {
            (states, after)
        },
        Repeat::Optional => {
            let (inner, entry) = spec_convert_value(t.value, states, after);
            (inner.push(split_of(entry, after)), inner.len() as int)
        },
        Repeat::AtLeast(n) => if n <= 1 {
            let at = states.len() as int;
            let (inner, entry) = spec_convert_value(t.value, states.push(split_of(0, after)), at);
            (
                inner.update(at, split_of(entry, after)),
                if n == 0 {
                    at
                } else {
                    entry
                },
            )
        } else {
            (states, after)
        },
        _ => (states, after),
    }
}

/// The list `states` with the instructions of the tokens behind it, which
/// lead to `after`, and the position where they are entered. The
/// instructions of a token stand behind those of the tokens that follow it.
pub open spec fn spec_convert_tokens(tokens: Seq<TokenView>, states: Seq<State>, after: int) -> (
    Seq<State>,
    int,
)
    decreases tokens, 0nat,
{
    if tokens.len() == 0 {
        (states, after)
    } else {
        let (rest, entry) = spec_convert_tokens(tokens.drop_first(), states, after);
        spec_convert_token(tokens[0], rest, entry)
    }
}

/// The instructions of a pattern's tokens behind the accepting instruction,
/// and the position where the automaton starts.
pub open spec fn spec_compile(tokens: Seq<TokenView>) -> (Seq<State>, int) {
    spec_convert_tokens(tokens, seq![state_of(MatchValue::Match, 0)], 0)
}

} // verus!
