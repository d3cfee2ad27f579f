//! A model checker for the modal mu-calculus over finite labelled
//! transition systems: an S-expression reader, a formula algebra with two
//! surface syntaxes, a symbolic satisfaction engine and an interpreter that
//! builds a checked transition system out of a small declarative language.
pub mod token;
pub mod buff;
pub mod sexpr;
pub mod mu;
pub mod ts;
pub mod lang;
pub mod laws;
