//! Compilation of regular-expression syntax trees into executable matchers.
//!
//! A regex abstract syntax tree is lowered by Thompson's construction into a
//! nondeterministic finite automaton (NFA) held in an append-only state
//! arena, and the NFA can in turn be determinized by the subset (powerset)
//! construction into an explicit deterministic transition table (DFA).  Both
//! automata drive input symbol by symbol through the same
//! configuration-based simulation contract, and are proved to accept exactly
//! the same inputs.

mod alphabet;
pub mod ast;
pub mod builder;
pub mod dfa;
pub mod expr;
pub mod laws;
pub mod nfa;
pub mod semantics;
pub mod state;
pub mod state_id;
pub mod state_set;
pub mod syntax;
pub mod thompson;
