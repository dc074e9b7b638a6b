//! A small regular-expression engine, verified with Verus.
//!
//! A pattern is parsed into a tree of tokens ([`tokenize`]), compiled into a
//! nondeterministic automaton and run against a subject without
//! backtracking ([`nondeterministic`]). What a pattern means is defined on
//! its tokens ([`language`]) and on the automaton ([`automaton`]). The
//! compiler puts its instructions where [`layout`] says and is proved to
//! keep that meaning ([`fragment`], [`construct`]); [`laws`] states what
//! follows for whole patterns, and [`listing`] writes an automaton out.

pub mod automaton;
pub mod construct;
pub mod fragment;
pub mod language;
pub mod laws;
pub mod layout;
pub mod listing;
pub mod nondeterministic;
pub mod text;
pub mod tokenize;
