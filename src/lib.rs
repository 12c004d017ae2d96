//! A context-free-grammar recognizer built on Earley chart parsing.

pub mod chart;
pub mod closure;
pub mod earley;
pub mod grammar;

pub use chart::EarleyItem;
pub use earley::{earley_recognize, earley_table, push_unique};
pub use grammar::{GrammarRule, Rule, Sym, Symbol};
