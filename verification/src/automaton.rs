//! The automaton as a mathematical object: its instructions, the runs it
//! has, and the strings it accepts.

use vstd::prelude::*;

use crate::language::{seq_matches, tokens_size, tokens_supported};
use crate::layout::spec_compile;
use crate::tokenize::{spec_tokenize, TokensView};

verus! {

/// What an instruction does.
#[derive(Debug, Clone, Copy, PartialEq)]
pub enum MatchValue {
    /// Consumes this character, then goes on at `next`.
    Char(char),
    /// Consumes nothing and goes on at `branch` or at `next`.
    Split { branch: usize },
    /// Consumes any one character, then goes on at `next`.
    Wildcard,
    /// Accepts. Its `next` is not used.
    Match,
}

/// One instruction of the automaton. `next` and `branch` are positions in
/// the list of instructions.
#[derive(Debug, Clone, Copy, PartialEq)]
pub struct State {
    pub value: MatchValue,
    pub next: usize,
}

/// The mathematical value of a compiled pattern.
pub struct Automaton {
    pub states: Seq<State>,
    pub head: int,
    pub beginning_boundary: bool,
    pub end_boundary: bool,
}

impl MatchValue {
    /// Whether an instruction of this kind consumes the character `c`. One
    /// that consumes nothing takes no character.
    pub open spec fn takes(self, c: char) -> bool {
        match self {
            MatchValue::Char(x) => x == c,
            MatchValue::Wildcard => true,
            _ => false,
        }
    }
}

/// Whether the instruction consumes the character `c`.
pub open spec fn consumes(state: State, c: char) -> bool {
    state.value.takes(c)
}

/// Whether the instruction consumes a character at all.
pub open spec fn consuming(state: State) -> bool {
    state.value is Char || state.value is Wildcard
}

/// Whether the instruction at `p` is in order: what it points to exists, and
/// it accepts exactly where `p` is 0.
pub open spec fn state_ok(states: Seq<State>, p: int) -> bool {
    &&& states[p].next < states.len()
    &&& (states[p].value is Match <==> p == 0)
    &&& (states[p].value matches MatchValue::Split { branch } ==> branch < states.len())
}

/// Whether a list of instructions is in order: the first one accepts, no
/// other does, and every instruction points into the list.
pub open spec fn well_formed(states: Seq<State>) -> bool {
    &&& states.len() > 0
    &&& forall|p: int| 0 <= p < states.len() ==> #[trigger] state_ok(states, p)
}

/// Whether `q` is reached from `p` through at most `fuel` instructions that
/// consume nothing.
pub open spec fn eps_steps(states: Seq<State>, p: int, q: int, fuel: nat) -> bool
    decreases fuel,
{
    p == q || (fuel > 0 && 0 <= p < states.len() && (match states[p].value {
        MatchValue::Split { branch } => eps_steps(states, branch as int, q, (fuel - 1) as nat)
            || eps_steps(states, states[p].next as int, q, (fuel - 1) as nat),
        _ => false,
    }))
}

/// Whether `q` is reached from `p` without consuming a character.
pub open spec fn eps_reach(states: Seq<State>, p: int, q: int) -> bool {
    exists|fuel: nat| eps_steps(states, p, q, fuel)
}

/// Whether the instruction at `m` consumes `c` and `q` is reached from where
/// it leads without consuming more.
pub open spec fn last_step(states: Seq<State>, m: int, c: char, q: int) -> bool {
    0 <= m < states.len() && consumes(states[m], c) && eps_reach(states, states[m].next as int, q)
}

/// Whether the automaton can go from `p` to `q` and consume exactly `s` on
/// the way. For the empty string that is a way that consumes nothing. Else
/// it is a run over all but the last character to an instruction that
/// consumes the last one, then a way that consumes nothing.
pub open spec fn reach(states: Seq<State>, p: int, q: int, s: Seq<char>) -> bool
    decreases s.len(),
{
    if s.len() == 0 {
        eps_reach(states, p, q)
    } else {
        exists|m: int| #[trigger]
            last_step(states, m, s.last(), q) && reach(states, p, m, s.drop_last())
    }
}

impl Automaton {
    /// The instructions are in order and the run starts at one of them.
    pub open spec fn wf(self) -> bool {
        well_formed(self.states) && 0 <= self.head < self.states.len()
    }

    /// Whether the automaton accepts exactly the string `s`: it has a run
    /// from its first instruction to the accepting one that consumes `s`.
    pub open spec fn accepts(self, s: Seq<char>) -> bool {
        reach(self.states, self.head, 0, s)
    }

    /// Whether the automaton may stand at instruction `q` when it has read
    /// the first `k` characters of `subject`: a run from its first
    /// instruction to `q` consumes a piece of `subject` that ends at offset
    /// `k`, and that starts at offset 0 where the pattern began with `^`.
    pub open spec fn stands_at(self, subject: Seq<char>, k: int, q: int) -> bool {
        exists|i: int|
            0 <= i <= k && (self.beginning_boundary ==> i == 0) && #[trigger] reach(
                self.states,
                self.head,
                q,
                subject.subrange(i, k),
            )
    }

    /// Whether a match of the automaton ends at offset `j` of `subject`: it
    /// accepts a piece of `subject` that ends there, and that starts at
    /// offset 0 where the pattern began with `^`.
    pub open spec fn matches_until(self, subject: Seq<char>, j: int) -> bool {
        self.stands_at(subject, j, 0)
    }

    /// Whether the automaton matches `subject`: it accepts a piece of it that
    /// ends with the subject. Where the pattern began with `^` the piece is
    /// the whole subject, where not it starts anywhere. The marker `$` asks
    /// for nothing more.
    pub open spec fn matches(self, subject: Seq<char>) -> bool {
        self.matches_until(subject, subject.len() as int)
    }
}

/// Whether the automaton is the pattern compiled: it is in order, has the
/// pattern's two markers, holds the instructions of the pattern's tokens
/// each in its place, the accepting one and as many more as the tokens
/// take, and accepts exactly the strings that the pattern's tokens match.
pub open spec fn realizes(a: Automaton, pattern: TokensView) -> bool {
    &&& a.wf()
    &&& a.beginning_boundary == pattern.beginning_boundary
    &&& a.end_boundary == pattern.end_boundary
    &&& a.states == spec_compile(pattern.tokens).0
    &&& a.head == spec_compile(pattern.tokens).1
    &&& a.states.len() == 1 + tokens_size(pattern.tokens)
    &&& forall|s: Seq<char>| #[trigger] a.accepts(s) <==> seq_matches(pattern.tokens, s)
}

/// Whether the pattern text compiles to the automaton: the text parses, the
/// automaton can express what was parsed, and it is that pattern compiled.
pub open spec fn compiles_to(text: Seq<char>, a: Automaton) -> bool {
    spec_tokenize(text) matches Ok(pattern) && tokens_supported(pattern.tokens) && realizes(
        a,
        pattern,
    )
}

/// Whether `q` is reached from a member of `from` by consuming `c`: the
/// member consumes `c`, and `q` is reached from where it leads without
/// consuming more.
pub open spec fn moved(states: Seq<State>, from: Seq<bool>, c: char, q: int) -> bool {
    moved_below(states, from, c, q, states.len() as int)
}

/// As [`moved`], from a member of `from` below position `limit`.
pub open spec fn moved_below(
    states: Seq<State>,
    from: Seq<bool>,
    c: char,
    q: int,
    limit: int,
) -> bool {
    exists|p: int| 0 <= p < limit && from[p] && #[trigger] last_step(states, p, c, q)
}

/// One character further: where the automaton may stand after `k + 1`
/// characters is where it gets by consuming character `k` from a consuming
/// instruction where it might stand before, and, unless the pattern began
/// with `^`, what a new attempt reaches without consuming anything.
pub proof fn lemma_stands_at_next(
    a: Automaton,
    subject: Seq<char>,
    k: int,
    before: Seq<bool>,
    q: int,
)
    requires
        a.wf(),
        0 <= k < subject.len(),
        before.len() == a.states.len(),
        forall|p: int|
            0 <= p < a.states.len() ==> #[trigger] before[p] == (a.stands_at(subject, k, p)
                && consuming(a.states[p])),
    ensures
        a.stands_at(subject, k + 1, q) <==> moved(a.states, before, subject[k], q) || (
        !a.beginning_boundary && eps_reach(a.states, a.head, q)),
{
    let c = subject[k];
    if moved(a.states, before, c, q) {
        let p = choose|p: int|
            0 <= p < a.states.len() && before[p] && #[trigger] last_step(a.states, p, c, q);
        assert(a.stands_at(subject, k, p));
        let i = choose|i: int|
            0 <= i <= k && (a.beginning_boundary ==> i == 0) && #[trigger] reach(
                a.states,
                a.head,
                p,
                subject.subrange(i, k),
            );
        let piece = subject.subrange(i, k + 1);
        assert(piece.drop_last() =~= subject.subrange(i, k));
        assert(last_step(a.states, p, piece.last(), q));
        assert(reach(a.states, a.head, q, piece));
    }
    if !a.beginning_boundary && eps_reach(a.states, a.head, q) {
        assert(subject.subrange(k + 1, k + 1).len() == 0);
        assert(reach(a.states, a.head, q, subject.subrange(k + 1, k + 1)));
    }
    if a.stands_at(subject, k + 1, q) {
        let i = choose|i: int|
            0 <= i <= k + 1 && (a.beginning_boundary ==> i == 0) && #[trigger] reach(
                a.states,
                a.head,
                q,
                subject.subrange(i, k + 1),
            );
        let piece = subject.subrange(i, k + 1);
        if i == k + 1 {
            assert(piece.len() == 0);
        } else {
            assert(piece.drop_last() =~= subject.subrange(i, k));
            let m = choose|m: int| #[trigger]
                last_step(a.states, m, piece.last(), q) && reach(
                    a.states,
                    a.head,
                    m,
                    piece.drop_last(),
                );
            assert(a.stands_at(subject, k, m));
            assert(before[m]);
            assert(last_step(a.states, m, c, q));
        }
    }
}

/// Before any character the automaton stands where a new attempt gets
/// without consuming anything.
pub proof fn lemma_stands_at_start(a: Automaton, subject: Seq<char>, q: int)
    ensures
        a.stands_at(subject, 0, q) <==> eps_reach(a.states, a.head, q),
{
    assert(subject.subrange(0, 0).len() == 0);
    if eps_reach(a.states, a.head, q) {
        assert(reach(a.states, a.head, q, subject.subrange(0, 0)));
    }
}

/// More fuel never loses a way.
pub proof fn lemma_eps_steps_more_fuel(states: Seq<State>, p: int, q: int, fuel: nat, more: nat)
    requires
        eps_steps(states, p, q, fuel),
        fuel <= more,
    ensures
        eps_steps(states, p, q, more),
    decreases fuel,
{
    if p != q {
        if let MatchValue::Split { branch } = states[p].value {
            if eps_steps(states, branch as int, q, (fuel - 1) as nat) {
                lemma_eps_steps_more_fuel(
                    states,
                    branch as int,
                    q,
                    (fuel - 1) as nat,
                    (more - 1) as nat,
                );
            } else {
                lemma_eps_steps_more_fuel(
                    states,
                    states[p].next as int,
                    q,
                    (fuel - 1) as nat,
                    (more - 1) as nat,
                );
            }
        }
    }
}

/// Two ways that consume nothing, one after the other, are one.
pub proof fn lemma_eps_steps_trans(
    states: Seq<State>,
    p: int,
    q: int,
    r: int,
    f1: nat,
    f2: nat,
)
    requires
        eps_steps(states, p, q, f1),
        eps_steps(states, q, r, f2),
    ensures
        eps_steps(states, p, r, f1 + f2),
    decreases f1,
{
    if p == q {
        lemma_eps_steps_more_fuel(states, q, r, f2, f1 + f2);
    } else {
        if let MatchValue::Split { branch } = states[p].value {
            if eps_steps(states, branch as int, q, (f1 - 1) as nat) {
                lemma_eps_steps_trans(states, branch as int, q, r, (f1 - 1) as nat, f2);
            } else {
                lemma_eps_steps_trans(states, states[p].next as int, q, r, (f1 - 1) as nat, f2);
            }
            assert(eps_steps(states, p, r, f1 + f2));
        }
    }
}

/// Every instruction is reached from itself.
pub proof fn lemma_eps_reach_refl(states: Seq<State>, p: int)
    ensures
        eps_reach(states, p, p),
{
    assert(eps_steps(states, p, p, 0));
}

/// What is reached from where `p` leads is reached from `p`.
pub proof fn lemma_eps_reach_trans(states: Seq<State>, p: int, q: int, r: int)
    requires
        eps_reach(states, p, q),
        eps_reach(states, q, r),
    ensures
        eps_reach(states, p, r),
{
    let f1 = choose|fuel: nat| eps_steps(states, p, q, fuel);
    let f2 = choose|fuel: nat| eps_steps(states, q, r, fuel);
    lemma_eps_steps_trans(states, p, q, r, f1, f2);
}

/// Both ways out of a `Split` are reached from it.
pub proof fn lemma_eps_reach_split(states: Seq<State>, p: int)
    requires
        0 <= p < states.len(),
        states[p].value is Split,
    ensures
        eps_reach(states, p, states[p].value->branch as int),
        eps_reach(states, p, states[p].next as int),
{
    let branch = states[p].value->branch as int;
    let next = states[p].next as int;
    assert(eps_steps(states, branch, branch, 0));
    assert(eps_steps(states, next, next, 0));
    assert(eps_steps(states, p, branch, 1));
    assert(eps_steps(states, p, next, 1));
}

/// A set of marked instructions that holds, with every `Split`, both
/// instructions it leads to.
pub open spec fn closed_under_eps(states: Seq<State>, marks: Seq<bool>) -> bool {
    forall|p: int|
        0 <= p < states.len() && #[trigger] marks[p] ==> (states[p].value matches MatchValue::Split {
            branch,
        } ==> marks[branch as int] && marks[states[p].next as int])
}

/// A closed set holds whatever is reached from one of its members.
pub proof fn lemma_closed_holds_reached(
    states: Seq<State>,
    marks: Seq<bool>,
    p: int,
    q: int,
    fuel: nat,
)
    requires
        well_formed(states),
        marks.len() == states.len(),
        closed_under_eps(states, marks),
        0 <= p < states.len(),
        marks[p],
        eps_steps(states, p, q, fuel),
    ensures
        0 <= q < states.len(),
        marks[q],
    decreases fuel,
{
    if p != q {
        assert(state_ok(states, p));
        if let MatchValue::Split { branch } = states[p].value {
            if eps_steps(states, branch as int, q, (fuel - 1) as nat) {
                lemma_closed_holds_reached(states, marks, branch as int, q, (fuel - 1) as nat);
            } else {
                lemma_closed_holds_reached(
                    states,
                    marks,
                    states[p].next as int,
                    q,
                    (fuel - 1) as nat,
                );
            }
        }
    }
}

/// How many entries of `marks` are set.
pub open spec fn count_marks(marks: Seq<bool>) -> nat
    decreases marks.len(),
{
    if marks.len() == 0 {
        0
    } else {
        count_marks(marks.drop_last()) + if marks.last() {
            1nat
        } else {
            0nat
        }
    }
}

/// No more entries are set than there are.
pub proof fn lemma_count_marks_bound(marks: Seq<bool>)
    ensures
        count_marks(marks) <= marks.len(),
    decreases marks.len(),
{
    if marks.len() > 0 {
        lemma_count_marks_bound(marks.drop_last());
    }
}

/// Setting an entry that was clear sets one more.
pub proof fn lemma_count_marks_set(marks: Seq<bool>, p: int)
    requires
        0 <= p < marks.len(),
        !marks[p],
    ensures
        count_marks(marks.update(p, true)) == count_marks(marks) + 1,
    decreases marks.len(),
{
    let after = marks.update(p, true);
    if p == marks.len() - 1 {
        assert(after.drop_last() =~= marks.drop_last());
    } else {
        assert(after.drop_last() =~= marks.drop_last().update(p, true));
        lemma_count_marks_set(marks.drop_last(), p);
    }
}

} // verus!
