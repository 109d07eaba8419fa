//! Grammar symbols and the mathematical model of a rule table.

use vstd::prelude::*;

verus! {

/// One symbol of a production rule: a nonterminal named by an uppercase
/// letter, a terminal character, or the marker of the empty production.
#[derive(Clone, Copy, PartialEq, Eq, Structural, Debug)]
pub enum Token {
    Nonterminal(char),
    Terminal(char),
    Null,
}

} // verus!
