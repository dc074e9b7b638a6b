//! The compiled pattern and its matcher.
//!
//! A pattern compiles to a list of instructions that point at each other by
//! position. The matcher runs all the ways through that list at once: it keeps
//! the set of instructions that the automaton may stand at, and moves the
//! whole set over one character of the subject at a time.

use vstd::prelude::*;

use crate::automaton::{
    closed_under_eps, compiles_to, consumes, consuming, count_marks, eps_reach, eps_steps,
    lemma_closed_holds_reached, lemma_count_marks_bound, lemma_count_marks_set,
    lemma_eps_reach_refl, lemma_eps_reach_split, lemma_eps_reach_trans, last_step,
    lemma_stands_at_next, lemma_stands_at_start, moved, moved_below, reach, realizes, state_ok,
    well_formed, Automaton, MatchValue, State,
};
use crate::construct::{
    lemma_concat, lemma_exactly_one, lemma_group, lemma_leaf, lemma_loop, lemma_nothing,
    lemma_optional, lemma_whole, lemma_whole_well_formed,
};
use crate::fragment::{
    fragment, implements_seq, implements_token, implements_value, lemma_implements_seq_same,
    lemma_implements_value_same, same_between,
};
use crate::language::{
    seq_matches, token_size, token_supported, tokens_size, tokens_supported, value_size,
    value_supported,
};
use crate::layout::{spec_convert_token, spec_convert_tokens, spec_convert_value};
use crate::tokenize::{
    lemma_token_view, lemma_value_view, token_views, Error, MatchCharacter, Repeat, Token,
    Tokens,
};
use crate::listing::{listing, spec_listing};
use crate::text::chars_of;

verus! {

impl MatchValue {
    /// Whether an instruction that consumes takes the character `value`.
    fn matches(&self, value: char) -> (taken: bool)
        requires
            self is Char || self is Wildcard,
        ensures
            taken == self.takes(value),
    {
        match self {
            MatchValue::Char(c) => *c == value,
            _ => true,
        }
    }
}

/// The state of one match attempt: the consuming instructions that the
/// automaton stood at before the last character (`current`), those it may
/// stand at now (`next`), and whether the accepting instruction was reached
/// at the current position (`matched`). A set holds one mark for each
/// instruction. `followed` holds all that was followed for the current
/// position, each `Split` and the accepting instruction too, so that no
/// instruction is followed twice, whatever loops the automaton has.
struct Step<'a> {
    states: &'a [State],
    current: Vec<bool>,
    next: Vec<bool>,
    followed: Vec<bool>,
    matched: bool,
}

/// Whether `x` waits in `stack`.
spec fn waits(stack: Seq<usize>, x: int) -> bool {
    exists|k: int| 0 <= k < stack.len() && #[trigger] stack[k] == x
}

impl<'a> Step<'a> {
    /// The sets are as long as the list of instructions, `followed` holds
    /// with every `Split` what it leads to, `next` holds the consuming
    /// instructions of `followed`, and the accepting instruction was
    /// followed only where `matched` is set.
    spec fn wf(&self) -> bool {
        &&& self.sized()
        &&& closed_under_eps(self.states@, self.followed@)
        &&& (self.followed@[0] ==> self.matched)
        &&& forall|q: int|
            0 <= q < self.states@.len() ==> (#[trigger] self.next@[q] <==> self.followed@[q]
                && consuming(self.states@[q]))
    }

    /// The instructions are in order and the sets are as long as their
    /// list.
    spec fn sized(&self) -> bool {
        &&& well_formed(self.states@)
        &&& self.current@.len() == self.states@.len()
        &&& self.next@.len() == self.states@.len()
        &&& self.followed@.len() == self.states@.len()
    }

    /// A fresh attempt on `states`: the sets are empty and nothing has
    /// matched.
    fn new(states: &'a [State]) -> (step: Self)
        requires
            well_formed(states@),
        ensures
            step.wf(),
            step.states@ == states@,
            step.current@ == Seq::new(states@.len(), |i: int| false),
            step.next@ == Seq::new(states@.len(), |i: int| false),
            !step.matched,
    {
        let step = Step {
            states,
            current: vec![false; states.len()],
            next: vec![false; states.len()],
            followed: vec![false; states.len()],
            matched: false,
        };
        assert(step.current@ =~= Seq::new(states@.len(), |i: int| false));
        assert(step.next@ =~= Seq::new(states@.len(), |i: int| false));
        step
    }

    /// Follows the instruction `idx` and all that is reached from it without
    /// consuming a character: each consuming one among them joins `next`, a
    /// `Split` is followed both ways, and the accepting instruction sets
    /// `matched`. The instructions still to follow wait on a stack, and one
    /// that was followed already is not followed again.
    fn add_state(&mut self, idx: usize)
        requires
            old(self).wf(),
            idx < old(self).states@.len(),
        ensures
            final(self).wf(),
            final(self).states@ == old(self).states@,
            final(self).current@ == old(self).current@,
            forall|q: int|
                0 <= q < old(self).states@.len() ==> (#[trigger] final(self).followed@[q]
                    <==> old(self).followed@[q] || eps_reach(old(self).states@, idx as int, q)),
            forall|q: int|
                0 <= q < old(self).states@.len() ==> (#[trigger] final(self).next@[q] <==> old(
                    self,
                ).next@[q] || (eps_reach(old(self).states@, idx as int, q) && consuming(
                    old(self).states@[q],
                ))),
            final(self).matched == (old(self).matched || eps_reach(
                old(self).states@,
                idx as int,
                0,
            )),
    {
        let ghost states = self.states@;
        let ghost before = self.followed@;
        let ghost matched_before = self.matched;
        let n = self.states.len();
        let mut stack: Vec<usize> = Vec::new();
        stack.push(idx);
        proof {
            lemma_eps_reach_refl(states, idx as int);
            assert(stack@[0] == idx);
            lemma_count_marks_bound(self.followed@);
        }
        while stack.len() > 0
            invariant
                well_formed(states),
                self.states@ == states,
                n == states.len(),
                idx < n,
                self.current@ == old(self).current@,
                self.next@.len() == n,
                self.followed@.len() == n,
                before.len() == n,
                before[0] ==> matched_before,
                forall|k: int|
                    0 <= k < stack@.len() ==> (#[trigger] stack@[k]) < n && eps_reach(
                        states,
                        idx as int,
                        stack@[k] as int,
                    ),
                forall|q: int|
                    0 <= q < n && #[trigger] self.followed@[q] ==> before[q] || eps_reach(
                        states,
                        idx as int,
                        q,
                    ),
                forall|q: int| 0 <= q < n && #[trigger] before[q] ==> self.followed@[q],
                forall|q: int|
                    0 <= q < n ==> (#[trigger] self.next@[q] <==> self.followed@[q] && consuming(
                        states[q],
                    )),
                self.followed@[idx as int] || waits(stack@, idx as int),
                forall|p: int|
                    0 <= p < n && #[trigger] self.followed@[p] ==> (states[p].value matches MatchValue::Split {
                        branch,
                    } ==> (self.followed@[branch as int] || waits(stack@, branch as int)) && (
                    self.followed@[states[p].next as int] || waits(
                        stack@,
                        states[p].next as int,
                    ))),
                self.matched == (matched_before || self.followed@[0]),
                count_marks(self.followed@) <= n,
            decreases n - count_marks(self.followed@), stack@.len(),
        {
            let ghost stack_before = stack@;
            let ghost marks_before = self.followed@;
            let p = stack.pop().unwrap();
            let ghost stack_popped = stack@;
            assert(stack_before[stack_before.len() - 1] == p);
            if !self.followed[p] {
                self.followed.set(p, true);
                proof {
                    lemma_count_marks_set(marks_before, p as int);
                    lemma_count_marks_bound(self.followed@);
                    assert(state_ok(states, p as int));
                }
                let state = self.states[p];
                match state.value {
                    MatchValue::Split { branch } => {
                        stack.push(branch);
                        stack.push(state.next);
                        proof {
                            lemma_eps_reach_split(states, p as int);
                            lemma_eps_reach_trans(states, idx as int, p as int, branch as int);
                            lemma_eps_reach_trans(states, idx as int, p as int, state.next as int);
                            assert(stack@[stack@.len() - 2] == branch);
                            assert(stack@[stack@.len() - 1] == state.next);
                            assert(waits(stack@, branch as int));
                            assert(waits(stack@, state.next as int));
                        }
                    },
                    MatchValue::Match => {
                        self.matched = true;
                    },
                    _ => {
                        self.next.set(p, true);
                    },
                }
            }
            proof {
                assert forall|x: int| waits(stack_before, x) implies x == p || waits(stack@, x) by {
                    let k = choose|k: int| 0 <= k < stack_before.len() && stack_before[k] == x;
                    if x != p {
                        assert(stack_popped[k] == x);
                        assert(stack@[k] == x);
                    }
                }
                assert forall|p2: int| 0 <= p2 < n && #[trigger] self.followed@[p2] implies (
                states[p2].value matches MatchValue::Split { branch } ==> (self.followed@[branch as int]
                    || waits(stack@, branch as int)) && (self.followed@[states[p2].next as int]
                    || waits(stack@, states[p2].next as int))) by {
                    assert(state_ok(states, p2));
                    if let MatchValue::Split { branch } = states[p2].value {
                        if marks_before[p2] {
                            assert(marks_before[branch as int] || waits(stack_before, branch as int));
                            assert(marks_before[states[p2].next as int] || waits(
                                stack_before,
                                states[p2].next as int,
                            ));
                        } else {
                            assert(p2 == p);
                        }
                    }
                }
            }
        }
        proof {
            assert(forall|x: int| !waits(stack@, x));
            assert(closed_under_eps(states, self.followed@));
            assert forall|q: int| 0 <= q < n && eps_reach(states, idx as int, q) implies self.followed@[q] by {
                let fuel = choose|fuel: nat| eps_steps(states, idx as int, q, fuel);
                lemma_closed_holds_reached(states, self.followed@, idx as int, q, fuel);
            }
            assert(state_ok(states, 0));
        }
    }

    /// Moves the attempt over the character `to_match`: `current` becomes
    /// what `next` was, and `next` becomes the consuming instructions that
    /// are reached from there by consuming `to_match`. `matched` is set where
    /// the accepting instruction is reached so, and is left as it was where
    /// not.
    fn step(&mut self, to_match: char)
        requires
            old(self).sized(),
        ensures
            final(self).wf(),
            final(self).states@ == old(self).states@,
            final(self).current@ == old(self).next@,
            forall|q: int|
                0 <= q < old(self).states@.len() ==> (#[trigger] final(self).next@[q]
                    <==> consuming(old(self).states@[q]) && moved(
                    old(self).states@,
                    old(self).next@,
                    to_match,
                    q,
                )),
            final(self).matched == (old(self).matched || moved(
                old(self).states@,
                old(self).next@,
                to_match,
                0,
            )),
    {
        let ghost states = self.states@;
        let ghost from = self.next@;
        let ghost matched_before = self.matched;
        std::mem::swap(&mut self.current, &mut self.next);
        let n = self.states.len();
        let mut i: usize = 0;
        while i < n
            invariant
                self.states@ == states,
                self.current@ == from,
                self.matched == matched_before,
                n == states.len(),
                self.next@.len() == n,
                self.followed@.len() == n,
                i <= n,
                forall|q: int| 0 <= q < i ==> !(#[trigger] self.next@[q]),
                forall|q: int| 0 <= q < i ==> !(#[trigger] self.followed@[q]),
            decreases n - i,
        {
            self.next.set(i, false);
            self.followed.set(i, false);
            i += 1;
        }
        i = 0;
        while i < n
            invariant
                self.wf(),
                well_formed(states),
                self.states@ == states,
                self.current@ == from,
                n == states.len(),
                from.len() == n,
                i <= n,
                forall|q: int|
                    0 <= q < n ==> (#[trigger] self.followed@[q] <==> moved_below(
                        states,
                        from,
                        to_match,
                        q,
                        i as int,
                    )),
                self.matched == (matched_before || self.followed@[0]),
            decreases n - i,
        {
            let ghost marks = self.followed@;
            let state = self.states[i];
            let takes = self.current[i] && match state.value {
                MatchValue::Char(_) | MatchValue::Wildcard => state.value.matches(to_match),
                _ => false,
            };
            proof {
                assert(state_ok(states, i as int));
                assert(state == states[i as int]);
                assert(takes == (from[i as int] && consumes(states[i as int], to_match)));
            }
            if takes {
                self.add_state(state.next);
            }
            proof {
                assert forall|q: int| 0 <= q < n implies (#[trigger] self.followed@[q]
                    <==> moved_below(states, from, to_match, q, i + 1)) by {
                    if moved_below(states, from, to_match, q, i + 1) {
                        let p = choose|p: int|
                            0 <= p < i + 1 && from[p] && #[trigger] last_step(
                                states,
                                p,
                                to_match,
                                q,
                            );
                        if p < i {
                            assert(moved_below(states, from, to_match, q, i as int));
                            assert(marks[q]);
                        }
                    }
                    if self.followed@[q] {
                        if marks[q] {
                            let p = choose|p: int|
                                0 <= p < i && from[p] && #[trigger] last_step(
                                    states,
                                    p,
                                    to_match,
                                    q,
                                );
                            assert(0 <= p < i + 1 && from[p]);
                        } else {
                            assert(last_step(states, i as int, to_match, q));
                        }
                    }
                }
            }
            i += 1;
        }
    }
}

/// A compiled pattern: the automaton that [`Regex::from_tokens`] builds and
/// [`Regex::test`] runs.
#[derive(Debug, PartialEq)]
pub struct Regex {
    states: Vec<State>,
    head: usize,
    beginning_boundary: bool,
    end_boundary: bool,
}

impl View for Regex {
    type V = Automaton;

    closed spec fn view(&self) -> Automaton {
        Automaton {
            states: self.states@,
            head: self.head as int,
            beginning_boundary: self.beginning_boundary,
            end_boundary: self.end_boundary,
        }
    }
}

impl Clone for Regex {
    fn clone(&self) -> (copy: Self)
        ensures
            copy@ == self@,
    {
        proof {
            use_type_invariant(self);
        }
        let states = self.states.clone();
        assert(states@ =~= self.states@);
        Regex {
            states,
            head: self.head,
            beginning_boundary: self.beginning_boundary,
            end_boundary: self.end_boundary,
        }
    }
}

impl Default for Regex {
    /// The automaton of the empty pattern.
    fn default() -> (regex: Self)
        ensures
            compiles_to(Seq::<char>::empty(), regex@),
    {
        let tokens = Tokens { beginning_boundary: false, end_boundary: false, tokens: Vec::new() };
        proof {
            let text = Seq::<char>::empty();
            assert(text.subrange(0, 0) =~= text);
            assert(token_views(tokens.tokens@) =~= Seq::<crate::tokenize::TokenView>::empty());
            assert(crate::tokenize::spec_tokenize(text) matches Ok(pattern) && pattern == tokens@);
        }
        Regex::from_tokens(&tokens).unwrap()
    }
}

impl Regex {
    #[verifier::type_invariant]
    spec fn valid(self) -> bool {
        self@.wf()
    }

    /// Compiles a pattern text: parses it, then builds the automaton of what
    /// was parsed. The result is the parser's error where the text does not
    /// parse, `UnsupportedConstruct` where it holds what the automaton cannot
    /// express, and else an automaton that accepts exactly what the parsed
    /// tokens match.
    pub fn from_simple_expression(expression: &str) -> (res: Result<Regex, Error>)
        ensures
            match crate::tokenize::spec_tokenize(expression@) {
                Ok(pattern) => if tokens_supported(pattern.tokens) {
                    res matches Ok(regex) && realizes(regex@, pattern)
                } else {
                    res matches Err(e) && e == Error::UnsupportedConstruct
                },
                Err(e) => res matches Err(err) && err == e,
            },
            res matches Ok(regex) ==> compiles_to(expression@, regex@),
    {
        match Tokens::tokenize_regex(expression) {
            Ok(tokens) => Regex::from_tokens(&tokens),
            Err(e) => Err(e),
        }
    }

    /// Appends to `states` the fragment of one value, which leads to
    /// `after`, and gives the position where it is entered.
    fn convert_value(value: &MatchCharacter, states: &mut Vec<State>, after: usize) -> (res: Result<
        usize,
        Error,
    >)
        requires
            after < old(states)@.len(),
        ensures
            match res {
                Ok(entry) => {
                    &&& value_supported(value@)
                    &&& final(states)@.len() == old(states)@.len() + value_size(value@)
                    &&& (final(states)@, entry as int) == spec_convert_value(
                        value@,
                        old(states)@,
                        after as int,
                    )
                    &&& same_between(old(states)@, final(states)@, 0, old(states)@.len() as int)
                    &&& implements_value(
                        final(states)@,
                        old(states)@.len() as int,
                        final(states)@.len() as int,
                        entry as int,
                        after as int,
                        value@,
                    )
                },
                Err(e) => !value_supported(value@) && e == Error::UnsupportedConstruct,
            },
        decreases value, 0nat,
    {
        proof {
            lemma_value_view(*value);
        }
        match value {
            MatchCharacter::Char(c) => {
                let at = states.len();
                states.push(State { value: MatchValue::Char(*c), next: after });
                proof {
                    lemma_leaf(states@, at as int, after as int, value@);
                }
                Ok(at)
            },
            MatchCharacter::Wildcard => {
                let at = states.len();
                states.push(State { value: MatchValue::Wildcard, next: after });
                proof {
                    lemma_leaf(states@, at as int, after as int, value@);
                }
                Ok(at)
            },
            MatchCharacter::String(tokens) => {
                let ghost lo = states@.len() as int;
                match Regex::convert_tokens(tokens, states, after) {
                    Ok(entry) => {
                        proof {
                            lemma_group(
                                states@,
                                lo,
                                states@.len() as int,
                                entry as int,
                                after as int,
                                token_views(tokens@),
                            );
                        }
                        Ok(entry)
                    },
                    Err(e) => Err(e),
                }
            },
            MatchCharacter::Or(_, _) => Err(Error::UnsupportedConstruct),
        }
    }

    /// Appends to `states` the fragment of one token, which leads to
    /// `after`, and gives the position where it is entered.
    ///
    /// A token that occurs once is its value. An optional token is its
    /// value, then a `Split` that leads into the value or to `after`; it is
    /// entered at the `Split`. A repeated token is a `Split` that leads into
    /// the value or to `after`, then the value, which leads back to the
    /// `Split`; `*` is entered at the `Split`, `+` at the value. The `Split`
    /// of a repeated token stands before the value that it leads into, so
    /// its branch is set when the value is there.
    fn convert_token(token: &Token, states: &mut Vec<State>, after: usize) -> (res: Result<
        usize,
        Error,
    >)
        requires
            after < old(states)@.len(),
        ensures
            match res {
                Ok(entry) => {
                    &&& token_supported(token@)
                    &&& final(states)@.len() == old(states)@.len() + token_size(token@)
                    &&& (final(states)@, entry as int) == spec_convert_token(
                        token@,
                        old(states)@,
                        after as int,
                    )
                    &&& same_between(old(states)@, final(states)@, 0, old(states)@.len() as int)
                    &&& implements_token(
                        final(states)@,
                        old(states)@.len() as int,
                        final(states)@.len() as int,
                        entry as int,
                        after as int,
                        token@,
                    )
                },
                Err(e) => !token_supported(token@) && e == Error::UnsupportedConstruct,
            },
        decreases token, 1nat,
    {
        proof {
            lemma_token_view(*token);
        }
        let ghost before = states@;
        let ghost lo = states@.len() as int;
        match token.repeat {
            Repeat::Exactly(1) => {
                match Regex::convert_value(&token.value, states, after) {
                    Ok(entry) => {
                        proof {
                            lemma_exactly_one(
                                states@,
                                lo,
                                states@.len() as int,
                                entry as int,
                                after as int,
                                token.value@,
                            );
                        }
                        Ok(entry)
                    },
                    Err(e) => Err(e),
                }
            },
            Repeat::Optional => {
                match Regex::convert_value(&token.value, states, after) {
                    Ok(entry) => {
                        let ghost inner = states@;
                        let at = states.len();
                        states.push(State { value: MatchValue::Split { branch: entry }, next: after });
                        proof {
                            assert forall|p: int| 0 <= p < lo implies #[trigger] before[p]
                                == states@[p] by {
                                assert(before[p] == inner[p]);
                            }
                            lemma_implements_value_same(
                                inner,
                                states@,
                                lo,
                                at as int,
                                entry as int,
                                after as int,
                                token.value@,
                            );
                            lemma_optional(
                                states@,
                                lo,
                                at as int,
                                entry as int,
                                after as int,
                                token.value@,
                            );
                        }
                        Ok(at)
                    },
                    Err(e) => Err(e),
                }
            },
            Repeat::AtLeast(least) => {
                if least > 1 {
                    return Err(Error::UnsupportedConstruct);
                }
                let at = states.len();
                // The branch is set below, once the value's fragment is there.
                states.push(State { value: MatchValue::Split { branch: 0 }, next: after });
                let ghost pushed = states@;
                match Regex::convert_value(&token.value, states, at) {
                    Ok(entry) => {
                        let ghost inner = states@;
                        states.set(at, State { value: MatchValue::Split { branch: entry }, next: after });
                        proof {
                            assert forall|p: int| 0 <= p < lo implies #[trigger] before[p]
                                == states@[p] by {
                                assert(pushed[p] == inner[p]);
                            }
                            lemma_implements_value_same(
                                inner,
                                states@,
                                lo + 1,
                                states@.len() as int,
                                entry as int,
                                at as int,
                                token.value@,
                            );
                            lemma_loop(
                                states@,
                                lo,
                                states@.len() as int,
                                entry as int,
                                after as int,
                                token.value@,
                            );
                        }
                        if least == 0 {
                            Ok(at)
                        } else {
                            Ok(entry)
                        }
                    },
                    Err(e) => Err(e),
                }
            },
            _ => Err(Error::UnsupportedConstruct),
        }
    }

    /// Appends to `states` the fragment of a list of tokens, which leads to
    /// `after`, and gives the position where it is entered. The tokens are
    /// taken from the last to the first, so that each one's fragment knows
    /// where the next one's is entered.
    fn convert_tokens(tokens: &Vec<Box<Token>>, states: &mut Vec<State>, after: usize) -> (res:
        Result<usize, Error>)
        requires
            after < old(states)@.len(),
        ensures
            match res {
                Ok(entry) => {
                    &&& tokens_supported(token_views(tokens@))
                    &&& final(states)@.len() == old(states)@.len() + tokens_size(
                        token_views(tokens@),
                    )
                    &&& (final(states)@, entry as int) == spec_convert_tokens(
                        token_views(tokens@),
                        old(states)@,
                        after as int,
                    )
                    &&& same_between(old(states)@, final(states)@, 0, old(states)@.len() as int)
                    &&& implements_seq(
                        final(states)@,
                        old(states)@.len() as int,
                        final(states)@.len() as int,
                        entry as int,
                        after as int,
                        token_views(tokens@),
                    )
                },
                Err(e) => !tokens_supported(token_views(tokens@)) && e
                    == Error::UnsupportedConstruct,
            },
        decreases tokens, 2nat,
    {
        let ghost before = states@;
        let ghost lo = states@.len() as int;
        let ghost views = token_views(tokens@);
        let n = tokens.len();
        let mut entry = after;
        let mut i = n;
        proof {
            lemma_nothing(states@, lo, after as int);
            assert(views.subrange(n as int, n as int) =~= Seq::<crate::tokenize::TokenView>::empty());
        }
        while i > 0
            invariant
                n == tokens@.len(),
                views == token_views(tokens@),
                0 <= i <= n,
                lo == before.len(),
                after < lo,
                entry < states@.len(),
                states@.len() == lo + tokens_size(views.subrange(i as int, n as int)),
                (states@, entry as int) == spec_convert_tokens(
                    views.subrange(i as int, n as int),
                    before,
                    after as int,
                ),
                same_between(before, states@, 0, lo),
                implements_seq(
                    states@,
                    lo,
                    states@.len() as int,
                    entry as int,
                    after as int,
                    views.subrange(i as int, n as int),
                ),
                forall|j: int| i <= j < n ==> token_supported(#[trigger] views[j]),
            decreases i,
        {
            let ghost earlier = states@;
            let ghost mid = states@.len() as int;
            let ghost rest = views.subrange(i as int, n as int);
            i -= 1;
            let token = &tokens[i];
            match Regex::convert_token(token, states, entry) {
                Ok(first) => {
                    proof {
                        assert(token@ == views[i as int]);
                        lemma_implements_seq_same(
                            earlier,
                            states@,
                            lo,
                            mid,
                            entry as int,
                            after as int,
                            rest,
                        );
                        lemma_concat(
                            states@,
                            lo,
                            mid,
                            states@.len() as int,
                            first as int,
                            entry as int,
                            after as int,
                            token@,
                            rest,
                        );
                        assert(views.subrange(i as int, n as int) =~= seq![token@] + rest);
                        assert((seq![token@] + rest).drop_first() =~= rest);
                    }
                    entry = first;
                },
                Err(e) => {
                    proof {
                        assert(token@ == views[i as int]);
                    }
                    return Err(e);
                },
            }
        }
        proof {
            assert(views.subrange(0, n as int) =~= views);
        }
        Ok(entry)
    }

    /// Builds the automaton of a parsed pattern. The result is
    /// `UnsupportedConstruct` where the pattern holds an alternation or a
    /// repetition other than `?`, `*`, `+` and exactly once. Else it is the
    /// automaton with the pattern's two markers whose instructions stand
    /// where [`spec_compile`](crate::layout::spec_compile) puts them: the
    /// accepting one first, then those of the tokens from the last token to
    /// the first. It is in order and accepts exactly the strings that the
    /// pattern's tokens match.
    pub fn from_tokens(tokens: &Tokens) -> (res: Result<Regex, Error>)
        ensures
            match res {
                Ok(regex) => tokens_supported(tokens@.tokens) && realizes(regex@, tokens@),
                Err(e) => !tokens_supported(tokens@.tokens) && e == Error::UnsupportedConstruct,
            },
    {
        let mut states: Vec<State> = Vec::new();
        states.push(State { value: MatchValue::Match, next: 0 });
        let ghost first = states@;
        match Regex::convert_tokens(&tokens.tokens, &mut states, 0) {
            Ok(head) => {
                proof {
                    assert(states@[0] == first[0]);
                    lemma_whole_well_formed(states@, head as int);
                    assert forall|s: Seq<char>| #[trigger]
                        reach(states@, head as int, 0, s) <==> seq_matches(tokens@.tokens, s) by {
                        lemma_whole(states@, head as int, s);
                    }
                }
                Ok(
                    Regex {
                        states,
                        head,
                        beginning_boundary: tokens.beginning_boundary,
                        end_boundary: tokens.end_boundary,
                    },
                )
            },
            Err(e) => Err(e),
        }
    }

    /// The automaton written out for a reader: where it starts, its two
    /// markers, and its instructions from the last to the first.
    pub fn listing(&self) -> (text: String)
        ensures
            text@ == spec_listing(self@),
    {
        listing(self.states.as_slice(), self.head, self.beginning_boundary, self.end_boundary)
    }

    /// Whether the pattern matches `string`: whether it accepts a piece of it
    /// that ends with `string`, and that is the whole of it where the pattern
    /// began with `^`.
    ///
    /// The subject is read once. Before each character, unless the pattern
    /// began with `^`, a new attempt starts beside those under way; then all
    /// attempts move over the character together. `matched` is cleared before
    /// each character, so that at the end it says whether the accepting
    /// instruction was reached with the last one. With or without `$`, a
    /// match that ends before the subject does not count.
    pub fn test(&self, string: &str) -> (found: bool)
        ensures
            found == self@.matches(string@),
    {
        proof {
            use_type_invariant(self);
        }
        let subject = chars_of(string);
        let ghost a = self@;
        let n = subject.len();
        let mut step = Step::new(self.states.as_slice());
        step.add_state(self.head);
        proof {
            assert forall|q: int| 0 <= q < a.states.len() implies #[trigger] step.next@[q] == (
            a.stands_at(subject@, 0, q) && consuming(a.states[q])) by {
                lemma_stands_at_start(a, subject@, q);
            }
            lemma_stands_at_start(a, subject@, 0);
        }
        let mut k: usize = 0;
        while k < n
            invariant
                a == self@,
                a.wf(),
                n == subject@.len(),
                k <= n,
                step.wf(),
                step.states@ == a.states,
                forall|q: int|
                    0 <= q < a.states.len() ==> #[trigger] step.next@[q] == (a.stands_at(
                        subject@,
                        k as int,
                        q,
                    ) && consuming(a.states[q])),
                step.matched == a.stands_at(subject@, k as int, 0),
            decreases n - k,
        {
            let ghost before = step.next@;
            step.matched = false;
            step.step(subject[k]);
            if !self.beginning_boundary {
                step.add_state(self.head);
            }
            proof {
                assert forall|q: int| 0 <= q < a.states.len() implies #[trigger] step.next@[q] == (
                a.stands_at(subject@, k + 1, q) && consuming(a.states[q])) by {
                    lemma_stands_at_next(a, subject@, k as int, before, q);
                }
                lemma_stands_at_next(a, subject@, k as int, before, 0);
            }
            k += 1;
        }
        step.matched
    }
}

} // verus!
