//! A regular-expression engine built on Thompson automata.
//!
//! A pattern is parsed into a syntax tree, the tree is compiled into a
//! nondeterministic automaton with capture annotations, and the automaton is
//! simulated on the input by tracking the set of live states.

pub mod ast;
pub mod automaton;
pub mod connected;
pub mod error;
pub mod grammar;
pub mod language;
pub mod nfa;
pub mod parser;
pub mod regex;
pub mod runs;
pub mod search;
pub mod simulation;
pub mod text;
pub mod thompson;

pub use crate::regex::{Capture, CaptureIterator, Match, Regex};
