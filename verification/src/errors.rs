use vstd::prelude::*;

verus! {

/// The recoverable failures of grammar construction and derivation stepping.
#[derive(Clone, Copy, Debug, PartialEq, Eq, Structural)]
pub enum DerivationError {
    /// A rule was applied to a sentential form that holds no nonterminal.
    NoNonTerminal,
    /// The chosen rule's left-hand side does not match the leftmost nonterminal.
    InvalidRule,
    /// A grammar was built from an empty rule list, so it has no start symbol.
    EmptyGrammar,
}

} // verus!
