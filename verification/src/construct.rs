//! The ways the compiler builds a fragment, each with the proof of what the
//! fragment stands for; and the step from the fragment of a whole pattern to
//! the strings that the automaton accepts.

use vstd::prelude::*;

use crate::automaton::{
    consumes, eps_reach, eps_steps, last_step, lemma_eps_reach_refl, lemma_eps_reach_split,
    lemma_eps_reach_trans, reach, state_ok, well_formed, MatchValue, State,
};
use crate::fragment::{
    fragment, implements_seq, implements_token, implements_value, lemma_run_join,
    lemma_run_more_fuel, lemma_run_split, lemma_run_wider, run, runs, stays_inside,
};
use crate::language::{
    lemma_power_more, lemma_power_one, lemma_seq_more, power_matches, repeat_allows,
    seq_matches, token_matches, value_matches,
};
use crate::tokenize::{token_of, Repeat, TokenView, ValueView};

verus! {

/// Whether the instruction consumes what the value matches: the same
/// character, or any one.
pub open spec fn consumes_value(state: State, v: ValueView) -> bool {
    match v {
        ValueView::Char(c) => state.value == MatchValue::Char(c),
        ValueView::Wildcard => state.value is Wildcard,
        _ => false,
    }
}

/// One instruction that consumes a character and leads to `exit` stands for
/// that character, or for any one.
pub proof fn lemma_leaf(states: Seq<State>, at: int, exit: int, v: ValueView)
    requires
        0 <= exit < at < states.len(),
        states[at].next == exit,
        consumes_value(states[at], v),
    ensures
        implements_value(states, at, at + 1, at, exit, v),
{
    let hi = at + 1;
    assert(stays_inside(states, at, hi, exit, at));
    assert forall|s: Seq<char>| #[trigger]
        runs(states, at, hi, at, exit, s) <==> value_matches(v, s) by {
        if value_matches(v, s) {
            assert(s.len() == 1);
            assert(run(states, at, hi, exit, exit, s.drop_first(), 0));
            assert(run(states, at, hi, at, exit, s, 1));
        }
        if runs(states, at, hi, at, exit, s) {
            let fuel = choose|fuel: nat| run(states, at, hi, at, exit, s, fuel);
            assert(run(states, at, hi, exit, exit, s.drop_first(), (fuel - 1) as nat));
            assert(s.len() == 1);
            if let ValueView::Char(c) = v {
                assert(s =~= seq![c]);
            }
        }
    }
}

/// The fragment of a group's tokens stands for the group.
pub proof fn lemma_group(
    states: Seq<State>,
    lo: int,
    hi: int,
    entry: int,
    exit: int,
    tokens: Seq<TokenView>,
)
    requires
        implements_seq(states, lo, hi, entry, exit, tokens),
    ensures
        implements_value(states, lo, hi, entry, exit, ValueView::String(tokens)),
{
    assert forall|s: Seq<char>| #[trigger]
        runs(states, lo, hi, entry, exit, s) <==> value_matches(ValueView::String(tokens), s) by {
    }
}

/// The fragment of a value stands for the token that matches it exactly
/// once.
pub proof fn lemma_exactly_one(
    states: Seq<State>,
    lo: int,
    hi: int,
    entry: int,
    exit: int,
    v: ValueView,
)
    requires
        implements_value(states, lo, hi, entry, exit, v),
    ensures
        implements_token(
            states,
            lo,
            hi,
            entry,
            exit,
            token_of(Repeat::Exactly(1), v),
        ),
{
    let t = token_of(Repeat::Exactly(1), v);
    assert forall|s: Seq<char>| #[trigger]
        runs(states, lo, hi, entry, exit, s) <==> token_matches(t, s) by {
        lemma_power_one(v, s);
        if value_matches(v, s) {
            assert(repeat_allows(t.repeat, 1));
        }
    }
}

/// A `Split` behind the fragment of a value, which leads into it or past it,
/// makes the fragment of the optional token.
pub proof fn lemma_optional(
    states: Seq<State>,
    lo: int,
    hi: int,
    entry: int,
    exit: int,
    v: ValueView,
)
    requires
        implements_value(states, lo, hi, entry, exit, v),
        hi < states.len(),
        states[hi].value == (MatchValue::Split { branch: entry as usize }),
        states[hi].next == exit,
        entry == entry as usize,
    ensures
        implements_token(
            states,
            lo,
            hi + 1,
            hi,
            exit,
            token_of(Repeat::Optional, v),
        ),
{
    let t = token_of(Repeat::Optional, v);
    let top = hi + 1;
    assert forall|p: int| lo <= p < top implies #[trigger] stays_inside(
        states,
        lo,
        top,
        exit,
        p,
    ) by {
        if p < hi {
            assert(stays_inside(states, lo, hi, exit, p));
        }
    }
    assert forall|s: Seq<char>| #[trigger]
        runs(states, lo, top, hi, exit, s) <==> token_matches(t, s) by {
        if token_matches(t, s) {
            let k = choose|k: nat| #[trigger] repeat_allows(t.repeat, k) && power_matches(v, k, s);
            if k == 0 {
                assert(run(states, lo, top, exit, exit, s, 0));
                assert(run(states, lo, top, hi, exit, s, 1));
            } else {
                lemma_power_one(v, s);
                assert(runs(states, lo, hi, entry, exit, s));
                let fuel = choose|fuel: nat| run(states, lo, hi, entry, exit, s, fuel);
                lemma_run_wider(states, lo, top, lo, hi, entry, exit, s, fuel);
                assert(run(states, lo, top, hi, exit, s, fuel + 1));
            }
        }
        if runs(states, lo, top, hi, exit, s) {
            let fuel = choose|fuel: nat| run(states, lo, top, hi, exit, s, fuel);
            if run(states, lo, top, entry, exit, s, (fuel - 1) as nat) {
                let parts = lemma_run_split(
                    states,
                    lo,
                    top,
                    lo,
                    hi,
                    entry,
                    entry,
                    exit,
                    exit,
                    s,
                    (fuel - 1) as nat,
                );
                assert(parts.1.len() == 0);
                assert(s =~= parts.0);
                assert(runs(states, lo, hi, entry, exit, s));
                lemma_power_one(v, s);
                assert(repeat_allows(t.repeat, 1));
            } else {
                assert(run(states, lo, top, exit, exit, s, (fuel - 1) as nat));
                assert(power_matches(v, 0, s));
                assert(repeat_allows(t.repeat, 0));
            }
        }
    }
}

/// Whether `lo..hi` is a loop on the value: a `Split` at `lo` that leads
/// into the fragment of the value or to `exit`, and that fragment, which
/// leads back to the `Split`.
pub open spec fn loop_on(
    states: Seq<State>,
    lo: int,
    hi: int,
    entry: int,
    exit: int,
    v: ValueView,
) -> bool {
    &&& 0 <= exit < lo
    &&& implements_value(states, lo + 1, hi, entry, lo, v)
    &&& states[lo].value == (MatchValue::Split { branch: entry as usize })
    &&& states[lo].next == exit
    &&& entry == entry as usize
}

/// A run through a loop from its `Split` consumes some number of pieces
/// that the value matches. The result is that number.
pub proof fn lemma_loop_sound(
    states: Seq<State>,
    lo: int,
    hi: int,
    entry: int,
    exit: int,
    v: ValueView,
    s: Seq<char>,
    fuel: nat,
) -> (k: nat)
    requires
        loop_on(states, lo, hi, entry, exit, v),
        run(states, lo, hi, lo, exit, s, fuel),
    ensures
        power_matches(v, k, s),
    decreases fuel,
{
    let inner = lo + 1;
    if run(states, lo, hi, entry, exit, s, (fuel - 1) as nat) {
        let parts = lemma_run_split(
            states,
            lo,
            hi,
            inner,
            hi,
            entry,
            entry,
            lo,
            exit,
            s,
            (fuel - 1) as nat,
        );
        assert(runs(states, inner, hi, entry, lo, parts.0));
        let k = lemma_loop_sound(states, lo, hi, entry, exit, v, parts.1, parts.3);
        lemma_power_more(v, k, parts.0, parts.1);
        k + 1
    } else {
        assert(run(states, lo, hi, exit, exit, s, (fuel - 1) as nat));
        0
    }
}

/// Any number of pieces that the value matches is consumed by a run through
/// the loop from its `Split`. The result is the fuel of such a run.
pub proof fn lemma_loop_complete(
    states: Seq<State>,
    lo: int,
    hi: int,
    entry: int,
    exit: int,
    v: ValueView,
    k: nat,
    s: Seq<char>,
) -> (fuel: nat)
    requires
        loop_on(states, lo, hi, entry, exit, v),
        power_matches(v, k, s),
    ensures
        run(states, lo, hi, lo, exit, s, fuel),
    decreases k,
{
    if k == 0 {
        assert(run(states, lo, hi, exit, exit, s, 0));
        1
    } else {
        let fuel = lemma_loop_once_more(states, lo, hi, entry, exit, v, k, s);
        fuel + 1
    }
}

/// At least one piece that the value matches is consumed by a run through
/// the loop from the entry of the value's fragment. The result is the fuel
/// of such a run.
pub proof fn lemma_loop_once_more(
    states: Seq<State>,
    lo: int,
    hi: int,
    entry: int,
    exit: int,
    v: ValueView,
    k: nat,
    s: Seq<char>,
) -> (fuel: nat)
    requires
        loop_on(states, lo, hi, entry, exit, v),
        k > 0,
        power_matches(v, k, s),
    ensures
        run(states, lo, hi, entry, exit, s, fuel),
    decreases k, 0nat,
{
    let inner = lo + 1;
    let j = choose|j: int|
        0 <= j <= s.len() && value_matches(v, #[trigger] s.subrange(0, j)) && power_matches(
            v,
            (k - 1) as nat,
            s.subrange(j, s.len() as int),
        );
    let first = s.subrange(0, j);
    let rest = s.subrange(j, s.len() as int);
    assert(runs(states, inner, hi, entry, lo, first));
    let f1 = choose|fuel: nat| run(states, inner, hi, entry, lo, first, fuel);
    let f2 = lemma_loop_complete(states, lo, hi, entry, exit, v, (k - 1) as nat, rest);
    lemma_run_join(states, lo, hi, inner, hi, entry, lo, exit, first, rest, f1, f2);
    assert(first + rest =~= s);
    f1 + f2
}

/// A loop is the fragment of the token that repeats the value: entered at
/// the `Split` for any number of times, at the value's fragment for at least
/// once.
pub proof fn lemma_loop(
    states: Seq<State>,
    lo: int,
    hi: int,
    entry: int,
    exit: int,
    v: ValueView,
)
    requires
        loop_on(states, lo, hi, entry, exit, v),
    ensures
        implements_token(
            states,
            lo,
            hi,
            lo,
            exit,
            token_of(Repeat::AtLeast(0), v),
        ),
        implements_token(
            states,
            lo,
            hi,
            entry,
            exit,
            token_of(Repeat::AtLeast(1), v),
        ),
{
    let inner = lo + 1;
    let star = token_of(Repeat::AtLeast(0), v);
    let plus = token_of(Repeat::AtLeast(1), v);
    assert forall|p: int| lo <= p < hi implies #[trigger] stays_inside(states, lo, hi, exit, p) by {
        if p > lo {
            assert(stays_inside(states, inner, hi, lo, p));
        }
    }
    assert forall|s: Seq<char>| #[trigger]
        runs(states, lo, hi, lo, exit, s) <==> token_matches(star, s) by {
        if token_matches(star, s) {
            let k = choose|k: nat| #[trigger]
                repeat_allows(star.repeat, k) && power_matches(v, k, s);
            let fuel = lemma_loop_complete(states, lo, hi, entry, exit, v, k, s);
        }
        if runs(states, lo, hi, lo, exit, s) {
            let fuel = choose|fuel: nat| run(states, lo, hi, lo, exit, s, fuel);
            let k = lemma_loop_sound(states, lo, hi, entry, exit, v, s, fuel);
            assert(repeat_allows(star.repeat, k));
        }
    }
    assert forall|s: Seq<char>| #[trigger]
        runs(states, lo, hi, entry, exit, s) <==> token_matches(plus, s) by {
        if token_matches(plus, s) {
            let k = choose|k: nat| #[trigger]
                repeat_allows(plus.repeat, k) && power_matches(v, k, s);
            let fuel = lemma_loop_once_more(states, lo, hi, entry, exit, v, k, s);
        }
        if runs(states, lo, hi, entry, exit, s) {
            let fuel = choose|fuel: nat| run(states, lo, hi, entry, exit, s, fuel);
            let parts = lemma_run_split(
                states,
                lo,
                hi,
                inner,
                hi,
                entry,
                entry,
                lo,
                exit,
                s,
                fuel,
            );
            assert(runs(states, inner, hi, entry, lo, parts.0));
            let k = lemma_loop_sound(states, lo, hi, entry, exit, v, parts.1, parts.3);
            lemma_power_more(v, k, parts.0, parts.1);
            assert(repeat_allows(plus.repeat, k + 1));
        }
    }
}

/// An empty stretch, entered where it leads to, stands for no token at all.
pub proof fn lemma_nothing(states: Seq<State>, lo: int, exit: int)
    requires
        0 <= exit < lo <= states.len(),
    ensures
        implements_seq(states, lo, lo, exit, exit, Seq::<TokenView>::empty()),
{
    assert forall|s: Seq<char>| #[trigger]
        runs(states, lo, lo, exit, exit, s) <==> seq_matches(Seq::<TokenView>::empty(), s) by {
        if s.len() == 0 {
            assert(run(states, lo, lo, exit, exit, s, 0));
        }
    }
}

/// The fragment of a token, behind the fragment of the tokens that follow
/// it and leading to where that one is entered, makes with it the fragment
/// of them all.
pub proof fn lemma_concat(
    states: Seq<State>,
    lo: int,
    mid: int,
    hi: int,
    entry: int,
    between: int,
    exit: int,
    t: TokenView,
    rest: Seq<TokenView>,
)
    requires
        implements_seq(states, lo, mid, between, exit, rest),
        implements_token(states, mid, hi, entry, between, t),
    ensures
        implements_seq(states, lo, hi, entry, exit, seq![t] + rest),
{
    let all = seq![t] + rest;
    assert forall|p: int| lo <= p < hi implies #[trigger] stays_inside(states, lo, hi, exit, p) by {
        if p < mid {
            assert(stays_inside(states, lo, mid, exit, p));
        } else {
            assert(stays_inside(states, mid, hi, between, p));
        }
    }
    assert forall|s: Seq<char>| #[trigger]
        runs(states, lo, hi, entry, exit, s) <==> seq_matches(all, s) by {
        if seq_matches(all, s) {
            assert(all[0] == t);
            assert(all.drop_first() =~= rest);
            let j = choose|j: int|
                0 <= j <= s.len() && token_matches(all[0], #[trigger] s.subrange(0, j))
                    && seq_matches(all.drop_first(), s.subrange(j, s.len() as int));
            let first = s.subrange(0, j);
            let last = s.subrange(j, s.len() as int);
            assert(runs(states, mid, hi, entry, between, first));
            assert(runs(states, lo, mid, between, exit, last));
            let f1 = choose|fuel: nat| run(states, mid, hi, entry, between, first, fuel);
            let f2 = choose|fuel: nat| run(states, lo, mid, between, exit, last, fuel);
            lemma_run_wider(states, lo, hi, lo, mid, between, exit, last, f2);
            lemma_run_join(states, lo, hi, mid, hi, entry, between, exit, first, last, f1, f2);
            assert(first + last =~= s);
        }
        if runs(states, lo, hi, entry, exit, s) {
            let fuel = choose|fuel: nat| run(states, lo, hi, entry, exit, s, fuel);
            let parts = lemma_run_split(
                states,
                lo,
                hi,
                mid,
                hi,
                entry,
                entry,
                between,
                exit,
                s,
                fuel,
            );
            let inner = lemma_run_split(
                states,
                lo,
                hi,
                lo,
                mid,
                between,
                between,
                exit,
                exit,
                parts.1,
                parts.3,
            );
            assert(inner.1.len() == 0);
            assert(parts.1 =~= inner.0);
            assert(runs(states, mid, hi, entry, between, parts.0));
            assert(runs(states, lo, mid, between, exit, parts.1));
            lemma_seq_more(t, rest, parts.0, parts.1);
        }
    }
}

/// A list that is one fragment behind an accepting instruction at position
/// 0 is in order.
pub proof fn lemma_whole_well_formed(states: Seq<State>, entry: int)
    requires
        states.len() > 0,
        states[0].value is Match,
        states[0].next == 0,
        fragment(states, 1, states.len() as int, entry, 0),
    ensures
        well_formed(states),
        0 <= entry < states.len(),
{
    assert forall|p: int| 0 <= p < states.len() implies #[trigger] state_ok(states, p) by {
        if p > 0 {
            assert(stays_inside(states, 1, states.len() as int, 0, p));
        }
    }
}

/// A way that consumes nothing, then a run to the accepting instruction, is
/// a run to it.
pub proof fn lemma_eps_then_run(
    states: Seq<State>,
    p: int,
    q: int,
    w: Seq<char>,
    eps_fuel: nat,
    fuel: nat,
)
    requires
        well_formed(states),
        0 <= p < states.len(),
        eps_steps(states, p, q, eps_fuel),
        run(states, 1, states.len() as int, q, 0, w, fuel),
    ensures
        run(states, 1, states.len() as int, p, 0, w, eps_fuel + fuel),
    decreases eps_fuel,
{
    let n = states.len() as int;
    if p == q {
        lemma_run_more_fuel(states, 1, n, q, 0, w, fuel, eps_fuel + fuel);
    } else {
        assert(state_ok(states, p));
        if let MatchValue::Split { branch } = states[p].value {
            let to = if eps_steps(states, branch as int, q, (eps_fuel - 1) as nat) {
                branch as int
            } else {
                states[p].next as int
            };
            lemma_eps_then_run(states, to, q, w, (eps_fuel - 1) as nat, fuel);
        }
    }
}

/// A run of the automaton from `p` to `q` over `s`, then a run from `q` to
/// the accepting instruction over `w`, is a run from `p` to it over both.
/// The result is the fuel of that run.
pub proof fn lemma_reach_then_run(
    states: Seq<State>,
    p: int,
    q: int,
    s: Seq<char>,
    w: Seq<char>,
    fuel: nat,
) -> (total: nat)
    requires
        well_formed(states),
        0 <= p < states.len(),
        reach(states, p, q, s),
        run(states, 1, states.len() as int, q, 0, w, fuel),
    ensures
        run(states, 1, states.len() as int, p, 0, s + w, total),
    decreases s.len(),
{
    let n = states.len() as int;
    if s.len() == 0 {
        let eps_fuel = choose|eps_fuel: nat| eps_steps(states, p, q, eps_fuel);
        lemma_eps_then_run(states, p, q, w, eps_fuel, fuel);
        assert(s + w =~= w);
        eps_fuel + fuel
    } else {
        let c = s.last();
        let m = choose|m: int| #[trigger]
            last_step(states, m, c, q) && reach(states, p, m, s.drop_last());
        let to = states[m].next as int;
        assert(state_ok(states, m));
        let eps_fuel = choose|eps_fuel: nat| eps_steps(states, to, q, eps_fuel);
        lemma_eps_then_run(states, to, q, w, eps_fuel, fuel);
        let longer = seq![c] + w;
        assert(longer.drop_first() =~= w);
        assert(run(states, 1, n, m, 0, longer, eps_fuel + fuel + 1));
        let total = lemma_reach_then_run(
            states,
            p,
            m,
            s.drop_last(),
            longer,
            eps_fuel + fuel + 1,
        );
        assert(s.drop_last() + longer =~= s + w);
        total
    }
}

/// Where a run of the automaton gets, and whatever is reached from there
/// without consuming more, the run gets too.
pub proof fn lemma_reach_then_eps(states: Seq<State>, p: int, q: int, r: int, s: Seq<char>)
    requires
        reach(states, p, q, s),
        eps_reach(states, q, r),
    ensures
        reach(states, p, r, s),
{
    if s.len() == 0 {
        lemma_eps_reach_trans(states, p, q, r);
    } else {
        let m = choose|m: int| #[trigger]
            last_step(states, m, s.last(), q) && reach(states, p, m, s.drop_last());
        lemma_eps_reach_trans(states, states[m].next as int, q, r);
        assert(last_step(states, m, s.last(), r));
    }
}

/// A run of the automaton from `from` to `p` over `u`, then a run from `p`
/// to the accepting instruction over `s`, is a run of the automaton to it
/// over both.
pub proof fn lemma_run_then_reach(
    states: Seq<State>,
    from: int,
    p: int,
    u: Seq<char>,
    s: Seq<char>,
    fuel: nat,
)
    requires
        well_formed(states),
        reach(states, from, p, u),
        run(states, 1, states.len() as int, p, 0, s, fuel),
    ensures
        reach(states, from, 0, u + s),
    decreases fuel,
{
    let n = states.len() as int;
    if p == 0 {
        assert(u + s =~= u);
    } else {
        match states[p].value {
            MatchValue::Split { branch } => {
                let to = if run(states, 1, n, branch as int, 0, s, (fuel - 1) as nat) {
                    branch as int
                } else {
                    states[p].next as int
                };
                lemma_eps_reach_split(states, p);
                lemma_reach_then_eps(states, from, p, to, u);
                lemma_run_then_reach(states, from, to, u, s, (fuel - 1) as nat);
            },
            MatchValue::Match => {},
            _ => {
                let to = states[p].next as int;
                let longer = u + seq![s[0]];
                assert(longer.drop_last() =~= u);
                assert(longer.last() == s[0]);
                lemma_eps_reach_refl(states, to);
                assert(last_step(states, p, s[0], to));
                assert(reach(states, from, to, longer));
                lemma_run_then_reach(states, from, to, longer, s.drop_first(), (fuel - 1) as nat);
                assert(longer + s.drop_first() =~= u + s);
            },
        }
    }
}

/// In a well-formed list the automaton runs from `p` to the accepting
/// instruction over `s` exactly where the fragment of all its instructions
/// does.
pub proof fn lemma_whole(states: Seq<State>, p: int, s: Seq<char>)
    requires
        well_formed(states),
        0 <= p < states.len(),
    ensures
        reach(states, p, 0, s) <==> runs(states, 1, states.len() as int, p, 0, s),
{
    let n = states.len() as int;
    let nothing = Seq::<char>::empty();
    if reach(states, p, 0, s) {
        assert(run(states, 1, n, 0, 0, nothing, 0));
        let total = lemma_reach_then_run(states, p, 0, s, nothing, 0);
        assert(s + nothing =~= s);
    }
    if runs(states, 1, n, p, 0, s) {
        let fuel = choose|fuel: nat| run(states, 1, n, p, 0, s, fuel);
        lemma_eps_reach_refl(states, p);
        assert(reach(states, p, p, nothing));
        lemma_run_then_reach(states, p, p, nothing, s, fuel);
        assert(nothing + s =~= s);
    }
}

} // verus!
