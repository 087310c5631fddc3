use vstd::prelude::*;

verus! {

/// A symbol is a nonterminal exactly when it is an uppercase letter;
/// every other character is a terminal.
pub open spec fn spec_is_nonterminal(c: char) -> bool {
    65 <= c as u32 && c as u32 <= 90
}

/// Decides whether a symbol is a nonterminal (an uppercase letter).
#[verifier::when_used_as_spec(spec_is_nonterminal)]
pub fn is_nonterminal(c: char) -> (r: bool)
    ensures
        r == spec_is_nonterminal(c),
{
    let u = c as u32;
    65 <= u && u <= 90
}

} // verus!
