//! Pieces of an automaton and the strings they stand for.
//!
//! The compiler appends the instructions of each token in one stretch of the
//! list. Such a stretch, with the position where it is entered and the one
//! position outside it that it leads to, is a fragment. This file says what
//! it is for a fragment to stand for a token, and proves it for each way of
//! building one.

use vstd::prelude::*;

use crate::automaton::{consumes, MatchValue, State};
use crate::language::{seq_matches, token_matches, value_matches};
use crate::tokenize::{TokenView, ValueView};

verus! {

/// Whether the automaton gets from `p` to `exit` by consuming exactly `s`,
/// in at most `fuel` instructions that all stand in `lo..hi`, and arrives at
/// `exit` only at the end.
pub open spec fn run(
    states: Seq<State>,
    lo: int,
    hi: int,
    p: int,
    exit: int,
    s: Seq<char>,
    fuel: nat,
) -> bool
    decreases fuel,
{
    if p == exit {
        s.len() == 0
    } else if lo <= p < hi && fuel > 0 {
        match states[p].value {
            MatchValue::Split { branch } => run(
                states,
                lo,
                hi,
                branch as int,
                exit,
                s,
                (fuel - 1) as nat,
            ) || run(states, lo, hi, states[p].next as int, exit, s, (fuel - 1) as nat),
            MatchValue::Match => false,
            _ => s.len() > 0 && consumes(states[p], s[0]) && run(
                states,
                lo,
                hi,
                states[p].next as int,
                exit,
                s.drop_first(),
                (fuel - 1) as nat,
            ),
        }
    } else {
        false
    }
}

/// Whether the automaton gets from `p` to `exit` by consuming exactly `s`
/// without leaving `lo..hi` before.
pub open spec fn runs(states: Seq<State>, lo: int, hi: int, p: int, exit: int, s: Seq<char>) -> bool {
    exists|fuel: nat| run(states, lo, hi, p, exit, s, fuel)
}

/// Whether position `t` is in `lo..hi` or is `exit`.
pub open spec fn leads_inside(lo: int, hi: int, exit: int, t: int) -> bool {
    lo <= t < hi || t == exit
}

/// Whether the instruction at `p` does not accept and leads nowhere but into
/// `lo..hi` or to `exit`.
pub open spec fn stays_inside(states: Seq<State>, lo: int, hi: int, exit: int, p: int) -> bool {
    &&& !(states[p].value is Match)
    &&& leads_inside(lo, hi, exit, states[p].next as int)
    &&& (states[p].value matches MatchValue::Split { branch } ==> leads_inside(
        lo,
        hi,
        exit,
        branch as int,
    ))
}

/// Whether `lo..hi` is a fragment entered at `entry`: a stretch of the list
/// behind position 0 whose instructions lead nowhere but into the stretch or
/// to `exit`, which stands before it.
pub open spec fn fragment(states: Seq<State>, lo: int, hi: int, entry: int, exit: int) -> bool {
    &&& 0 <= exit < lo <= hi <= states.len()
    &&& leads_inside(lo, hi, exit, entry)
    &&& forall|p: int| lo <= p < hi ==> #[trigger] stays_inside(states, lo, hi, exit, p)
}

/// Whether the fragment stands for the value: it runs from `entry` to `exit`
/// over exactly the strings that the value matches.
pub open spec fn implements_value(
    states: Seq<State>,
    lo: int,
    hi: int,
    entry: int,
    exit: int,
    v: ValueView,
) -> bool {
    &&& fragment(states, lo, hi, entry, exit)
    &&& forall|s: Seq<char>| #[trigger] runs(states, lo, hi, entry, exit, s) <==> value_matches(v, s)
}

/// Whether the fragment stands for the token.
pub open spec fn implements_token(
    states: Seq<State>,
    lo: int,
    hi: int,
    entry: int,
    exit: int,
    t: TokenView,
) -> bool {
    &&& fragment(states, lo, hi, entry, exit)
    &&& forall|s: Seq<char>| #[trigger] runs(states, lo, hi, entry, exit, s) <==> token_matches(t, s)
}

/// Whether the fragment stands for the tokens, one after the other.
pub open spec fn implements_seq(
    states: Seq<State>,
    lo: int,
    hi: int,
    entry: int,
    exit: int,
    tokens: Seq<TokenView>,
) -> bool {
    &&& fragment(states, lo, hi, entry, exit)
    &&& forall|s: Seq<char>| #[trigger]
        runs(states, lo, hi, entry, exit, s) <==> seq_matches(tokens, s)
}

/// Whether two lists hold the same instructions at `lo..hi`.
pub open spec fn same_between(a: Seq<State>, b: Seq<State>, lo: int, hi: int) -> bool {
    &&& hi <= a.len()
    &&& hi <= b.len()
    &&& forall|p: int| lo <= p < hi ==> #[trigger] a[p] == b[p]
}

/// More fuel never loses a run.
pub proof fn lemma_run_more_fuel(
    states: Seq<State>,
    lo: int,
    hi: int,
    p: int,
    exit: int,
    s: Seq<char>,
    fuel: nat,
    more: nat,
)
    requires
        run(states, lo, hi, p, exit, s, fuel),
        fuel <= more,
    ensures
        run(states, lo, hi, p, exit, s, more),
    decreases fuel,
{
    if p != exit {
        match states[p].value {
            MatchValue::Split { branch } => {
                if run(states, lo, hi, branch as int, exit, s, (fuel - 1) as nat) {
                    lemma_run_more_fuel(
                        states,
                        lo,
                        hi,
                        branch as int,
                        exit,
                        s,
                        (fuel - 1) as nat,
                        (more - 1) as nat,
                    );
                } else {
                    lemma_run_more_fuel(
                        states,
                        lo,
                        hi,
                        states[p].next as int,
                        exit,
                        s,
                        (fuel - 1) as nat,
                        (more - 1) as nat,
                    );
                }
            },
            MatchValue::Match => {},
            _ => {
                lemma_run_more_fuel(
                    states,
                    lo,
                    hi,
                    states[p].next as int,
                    exit,
                    s.drop_first(),
                    (fuel - 1) as nat,
                    (more - 1) as nat,
                );
            },
        }
    }
}

/// A run depends on the instructions of its stretch alone.
pub proof fn lemma_run_same(
    a: Seq<State>,
    b: Seq<State>,
    lo: int,
    hi: int,
    p: int,
    exit: int,
    s: Seq<char>,
    fuel: nat,
)
    requires
        same_between(a, b, lo, hi),
        run(a, lo, hi, p, exit, s, fuel),
    ensures
        run(b, lo, hi, p, exit, s, fuel),
    decreases fuel,
{
    if p != exit {
        assert(a[p] == b[p]);
        match a[p].value {
            MatchValue::Split { branch } => {
                if run(a, lo, hi, branch as int, exit, s, (fuel - 1) as nat) {
                    lemma_run_same(a, b, lo, hi, branch as int, exit, s, (fuel - 1) as nat);
                } else {
                    lemma_run_same(a, b, lo, hi, a[p].next as int, exit, s, (fuel - 1) as nat);
                }
            },
            MatchValue::Match => {},
            _ => {
                lemma_run_same(
                    a,
                    b,
                    lo,
                    hi,
                    a[p].next as int,
                    exit,
                    s.drop_first(),
                    (fuel - 1) as nat,
                );
            },
        }
    }
}

/// The runs of a stretch are the same in two lists that agree on it.
pub proof fn lemma_runs_same(
    a: Seq<State>,
    b: Seq<State>,
    lo: int,
    hi: int,
    p: int,
    exit: int,
    s: Seq<char>,
)
    requires
        same_between(a, b, lo, hi),
    ensures
        runs(a, lo, hi, p, exit, s) == runs(b, lo, hi, p, exit, s),
{
    if runs(a, lo, hi, p, exit, s) {
        let fuel = choose|fuel: nat| run(a, lo, hi, p, exit, s, fuel);
        lemma_run_same(a, b, lo, hi, p, exit, s, fuel);
    }
    if runs(b, lo, hi, p, exit, s) {
        let fuel = choose|fuel: nat| run(b, lo, hi, p, exit, s, fuel);
        lemma_run_same(b, a, lo, hi, p, exit, s, fuel);
    }
}

/// A fragment stays one in a list that agrees with its own on the stretch.
pub proof fn lemma_fragment_same(
    a: Seq<State>,
    b: Seq<State>,
    lo: int,
    hi: int,
    entry: int,
    exit: int,
)
    requires
        same_between(a, b, lo, hi),
        fragment(a, lo, hi, entry, exit),
    ensures
        fragment(b, lo, hi, entry, exit),
{
    assert forall|p: int| lo <= p < hi implies #[trigger] stays_inside(b, lo, hi, exit, p) by {
        assert(stays_inside(a, lo, hi, exit, p));
        assert(a[p] == b[p]);
    }
}

/// What a fragment stands for does not change with the rest of the list.
pub proof fn lemma_implements_value_same(
    a: Seq<State>,
    b: Seq<State>,
    lo: int,
    hi: int,
    entry: int,
    exit: int,
    v: ValueView,
)
    requires
        same_between(a, b, lo, hi),
        implements_value(a, lo, hi, entry, exit, v),
    ensures
        implements_value(b, lo, hi, entry, exit, v),
{
    lemma_fragment_same(a, b, lo, hi, entry, exit);
    assert forall|s: Seq<char>| #[trigger]
        runs(b, lo, hi, entry, exit, s) <==> value_matches(v, s) by {
        lemma_runs_same(a, b, lo, hi, entry, exit, s);
    }
}

/// What a fragment stands for does not change with the rest of the list.
pub proof fn lemma_implements_seq_same(
    a: Seq<State>,
    b: Seq<State>,
    lo: int,
    hi: int,
    entry: int,
    exit: int,
    tokens: Seq<TokenView>,
)
    requires
        same_between(a, b, lo, hi),
        implements_seq(a, lo, hi, entry, exit, tokens),
    ensures
        implements_seq(b, lo, hi, entry, exit, tokens),
{
    lemma_fragment_same(a, b, lo, hi, entry, exit);
    assert forall|s: Seq<char>| #[trigger]
        runs(b, lo, hi, entry, exit, s) <==> seq_matches(tokens, s) by {
        lemma_runs_same(a, b, lo, hi, entry, exit, s);
    }
}

/// A run of an inner stretch to its exit `mid`, then a run of the outer
/// stretch from `mid`, is a run of the outer stretch.
pub proof fn lemma_run_join(
    states: Seq<State>,
    lo: int,
    hi: int,
    inner_lo: int,
    inner_hi: int,
    p: int,
    mid: int,
    exit: int,
    s1: Seq<char>,
    s2: Seq<char>,
    f1: nat,
    f2: nat,
)
    requires
        lo <= inner_lo <= inner_hi <= hi,
        exit < lo,
        run(states, inner_lo, inner_hi, p, mid, s1, f1),
        run(states, lo, hi, mid, exit, s2, f2),
    ensures
        run(states, lo, hi, p, exit, s1 + s2, f1 + f2),
    decreases f1,
{
    if p == mid {
        assert(s1 + s2 =~= s2);
        lemma_run_more_fuel(states, lo, hi, mid, exit, s2, f2, f1 + f2);
    } else {
        match states[p].value {
            MatchValue::Split { branch } => {
                if run(states, inner_lo, inner_hi, branch as int, mid, s1, (f1 - 1) as nat) {
                    lemma_run_join(
                        states,
                        lo,
                        hi,
                        inner_lo,
                        inner_hi,
                        branch as int,
                        mid,
                        exit,
                        s1,
                        s2,
                        (f1 - 1) as nat,
                        f2,
                    );
                } else {
                    lemma_run_join(
                        states,
                        lo,
                        hi,
                        inner_lo,
                        inner_hi,
                        states[p].next as int,
                        mid,
                        exit,
                        s1,
                        s2,
                        (f1 - 1) as nat,
                        f2,
                    );
                }
            },
            MatchValue::Match => {},
            _ => {
                lemma_run_join(
                    states,
                    lo,
                    hi,
                    inner_lo,
                    inner_hi,
                    states[p].next as int,
                    mid,
                    exit,
                    s1.drop_first(),
                    s2,
                    (f1 - 1) as nat,
                    f2,
                );
                assert((s1 + s2).drop_first() =~= s1.drop_first() + s2);
                assert((s1 + s2)[0] == s1[0]);
            },
        }
    }
}

/// A run of an inner stretch is a run of a stretch around it.
pub proof fn lemma_run_wider(
    states: Seq<State>,
    lo: int,
    hi: int,
    inner_lo: int,
    inner_hi: int,
    p: int,
    exit: int,
    s: Seq<char>,
    fuel: nat,
)
    requires
        lo <= inner_lo <= inner_hi <= hi,
        exit < lo,
        run(states, inner_lo, inner_hi, p, exit, s, fuel),
    ensures
        run(states, lo, hi, p, exit, s, fuel),
{
    assert(run(states, lo, hi, exit, exit, Seq::<char>::empty(), 0));
    lemma_run_join(
        states,
        lo,
        hi,
        inner_lo,
        inner_hi,
        p,
        exit,
        exit,
        s,
        Seq::<char>::empty(),
        fuel,
        0,
    );
    assert(s + Seq::<char>::empty() =~= s);
}

/// A run of the outer stretch that starts in an inner fragment falls into
/// two: a run of the inner fragment to its exit `mid`, and a run of the
/// outer stretch from `mid` that takes no more fuel. The result is the two
/// strings and the fuel of each run.
pub proof fn lemma_run_split(
    states: Seq<State>,
    lo: int,
    hi: int,
    inner_lo: int,
    inner_hi: int,
    entry: int,
    p: int,
    mid: int,
    exit: int,
    s: Seq<char>,
    fuel: nat,
) -> (parts: (Seq<char>, Seq<char>, nat, nat))
    requires
        lo <= inner_lo <= inner_hi <= hi,
        exit < lo,
        fragment(states, inner_lo, inner_hi, entry, mid),
        leads_inside(inner_lo, inner_hi, mid, p),
        run(states, lo, hi, p, exit, s, fuel),
    ensures
        s == parts.0 + parts.1,
        run(states, inner_lo, inner_hi, p, mid, parts.0, parts.2),
        run(states, lo, hi, mid, exit, parts.1, parts.3),
        parts.3 <= fuel,
    decreases fuel,
{
    if p == mid {
        assert(s =~= Seq::<char>::empty() + s);
        (Seq::<char>::empty(), s, 0, fuel)
    } else {
        assert(stays_inside(states, inner_lo, inner_hi, mid, p));
        match states[p].value {
            MatchValue::Split { branch } => {
                let to = if run(states, lo, hi, branch as int, exit, s, (fuel - 1) as nat) {
                    branch as int
                } else {
                    states[p].next as int
                };
                let parts = lemma_run_split(
                    states,
                    lo,
                    hi,
                    inner_lo,
                    inner_hi,
                    entry,
                    to,
                    mid,
                    exit,
                    s,
                    (fuel - 1) as nat,
                );
                (parts.0, parts.1, parts.2 + 1, parts.3)
            },
            // No instruction of a fragment accepts.
            MatchValue::Match => (s, s, 0, 0),
            _ => {
                let parts = lemma_run_split(
                    states,
                    lo,
                    hi,
                    inner_lo,
                    inner_hi,
                    entry,
                    states[p].next as int,
                    mid,
                    exit,
                    s.drop_first(),
                    (fuel - 1) as nat,
                );
                let first = seq![s[0]] + parts.0;
                assert(first.drop_first() =~= parts.0);
                assert(s =~= seq![s[0]] + s.drop_first());
                assert(first + parts.1 =~= seq![s[0]] + (parts.0 + parts.1));
                (first, parts.1, parts.2 + 1, parts.3)
            },
        }
    }
}

} // verus!
