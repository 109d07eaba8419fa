//! Nullable, first and follow sets for context-free grammars.
//!
//! A grammar is a list of production rules, one per line, in the form
//! `A -> B c`: the left-hand side is a single uppercase letter naming a
//! nonterminal, the right-hand side is a sequence of symbols (uppercase
//! letters are nonterminals, `0` marks the empty production, anything
//! else is a terminal). The loader builds a rule table from such text,
//! and the solver derives from it, by fixed-point iteration, which
//! nonterminals can derive the empty string, which terminals can begin
//! a derivation from each nonterminal, and which terminals can follow
//! each nonterminal in some derivation.

pub mod analysis;
pub mod grammar;
pub mod laws;
pub mod nonterminals;
pub mod parse;
pub mod store;

pub use grammar::Token;
pub use nonterminals::NonTerminals;
pub use parse::LoadError;
