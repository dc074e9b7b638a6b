//! The automaton written out for a reader: where it starts, its two
//! markers, and its instructions from the last to the first.

use vstd::prelude::*;
use vstd::string::StringExecFns;

use crate::automaton::{Automaton, MatchValue, State};
use crate::text::{push_char, push_decimal, spec_decimal};

verus! {

/// The automaton with these parts.
pub open spec fn automaton_of(
    states: Seq<State>,
    head: int,
    beginning_boundary: bool,
    end_boundary: bool,
) -> Automaton {
    Automaton { states, head, beginning_boundary, end_boundary }
}

/// `true` or `false`, written out.
pub open spec fn spec_flag(flag: bool) -> Seq<char> {
    if flag {
        "true"@
    } else {
        "false"@
    }
}

/// A character written out: a `\` before a `\` and before a `'`, the usual
/// two letters for a tab, a line feed, a carriage return and the character 0,
/// and every other character as it is.
pub open spec fn spec_char_listing(c: char) -> Seq<char> {
    if c == '\\' {
        "\\\\"@
    } else if c == '\'' {
        "\\'"@
    } else if c == '\t' {
        "\\t"@
    } else if c == '\n' {
        "\\n"@
    } else if c == '\r' {
        "\\r"@
    } else if c == '\0' {
        "\\0"@
    } else {
        seq![c]
    }
}

/// What an instruction does, written out. A character stands between two
/// `'`.
pub open spec fn spec_value_listing(value: MatchValue) -> Seq<char> {
    match value {
        MatchValue::Char(c) => "Char('"@ + spec_char_listing(c) + "')"@,
        MatchValue::Split { branch } => "Split { branch: "@ + spec_decimal(branch as nat) + " }"@,
        MatchValue::Wildcard => "Wildcard"@,
        MatchValue::Match => "Match"@,
    }
}

/// The line of the instruction at position `at`.
pub open spec fn spec_state_listing(at: int, state: State) -> Seq<char> {
    "  "@ + spec_decimal(at as nat) + ": State { value: "@ + spec_value_listing(state.value)
        + ", next: "@ + spec_decimal(state.next as nat) + " },\n"@
}

/// The lines of the first `count` instructions, the last of them first.
pub open spec fn spec_states_listing(states: Seq<State>, count: int) -> Seq<char>
    decreases count,
{
    if count <= 0 {
        Seq::empty()
    } else {
        spec_state_listing(count - 1, states[count - 1]) + spec_states_listing(states, count - 1)
    }
}

/// What stands before the lines of the instructions.
pub open spec fn spec_listing_head(a: Automaton) -> Seq<char> {
    "Regex {\n head: "@ + spec_decimal(a.head as nat) + ",\n ^: "@ + spec_flag(
        a.beginning_boundary,
    ) + ",\n $: "@ + spec_flag(a.end_boundary) + ",\n states: [\n"@
}

/// The automaton written out: where it starts, its two markers, and its
/// instructions from the last to the first, one on each line.
pub open spec fn spec_listing(a: Automaton) -> Seq<char> {
    spec_listing_head(a) + spec_states_listing(a.states, a.states.len() as int) + " ]\n}"@
}

/// `true` or `false`, written out.
pub(crate) fn flag(set: bool) -> (text: &'static str)
    ensures
        text@ == spec_flag(set),
{
    if set {
        "true"
    } else {
        "false"
    }
}

/// What an instruction does, written out.
pub(crate) fn value_listing(value: MatchValue) -> (text: String)
    ensures
        text@ == spec_value_listing(value),
{
    match value {
        MatchValue::Char(c) => {
            let mut text = String::from_str("Char('");
            if c == '\\' {
                text.append("\\\\");
            } else if c == '\'' {
                text.append("\\'");
            } else if c == '\t' {
                text.append("\\t");
            } else if c == '\n' {
                text.append("\\n");
            } else if c == '\r' {
                text.append("\\r");
            } else if c == '\0' {
                text.append("\\0");
            } else {
                push_char(&mut text, c);
                assert("Char('"@.push(c) =~= "Char('"@ + seq![c]);
            }
            text.append("')");
            text
        },
        MatchValue::Split { branch } => {
            let mut text = String::from_str("Split { branch: ");
            push_decimal(&mut text, branch);
            text.append(" }");
            text
        },
        MatchValue::Wildcard => String::from_str("Wildcard"),
        MatchValue::Match => String::from_str("Match"),
    }
}

/// The line of the instruction at position `at`.
pub(crate) fn state_listing(at: usize, state: State) -> (text: String)
    ensures
        text@ == spec_state_listing(at as int, state),
{
    let mut text = String::from_str("  ");
    push_decimal(&mut text, at);
    text.append(": State { value: ");
    let value = value_listing(state.value);
    text.append(value.as_str());
    text.append(", next: ");
    push_decimal(&mut text, state.next);
    text.append(" },\n");
    text
}

/// The automaton written out, from its parts.
pub(crate) fn listing(
    states: &[State],
    head: usize,
    beginning_boundary: bool,
    end_boundary: bool,
) -> (text: String)
    ensures
        text@ == spec_listing(automaton_of(states@, head as int, beginning_boundary, end_boundary)),
{
    let ghost a = automaton_of(states@, head as int, beginning_boundary, end_boundary);
    let mut text = String::from_str("Regex {\n head: ");
    push_decimal(&mut text, head);
    text.append(",\n ^: ");
    text.append(flag(beginning_boundary));
    text.append(",\n $: ");
    text.append(flag(end_boundary));
    text.append(",\n states: [\n");
    let n = states.len();
    let ghost lines = spec_states_listing(states@, n as int);
    assert(text@ + lines == spec_listing_head(a) + lines);
    let mut k = n;
    while k > 0
        invariant
            k <= n,
            n == states@.len(),
            text@ + spec_states_listing(states@, k as int) == spec_listing_head(a) + lines,
        decreases k,
    {
        let ghost before = text@;
        k -= 1;
        let line = state_listing(k, states[k]);
        text.append(line.as_str());
        assert(text@ + spec_states_listing(states@, k as int) =~= before + (line@
            + spec_states_listing(states@, k as int)));
    }
    assert(text@ + spec_states_listing(states@, 0) =~= text@);
    text.append(" ]\n}");
    text
}

} // verus!
