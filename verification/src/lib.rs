//! A small regular-expression engine.
//!
//! A pattern is split into tokens by the [`lexer`], turned into a syntax tree by the
//! [`parser`], compiled into a nondeterministic automaton and run against subject text
//! by [`regex`]. What each step yields is defined in [`grammar`], [`syntax`],
//! [`construction`] and [`automaton`]; [`wellformed`] and [`laws`] hold what is proved
//! of them beyond the contracts of the functions.

pub mod text;
pub mod lexer;
pub mod syntax;
pub mod grammar;
pub mod parser;
pub mod wellformed;
pub mod automaton;
pub mod construction;
pub mod regex;
pub mod spans;
pub mod laws;
pub mod render;
