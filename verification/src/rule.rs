use vstd::prelude::*;
use vstd::string::*;

use crate::symbol::{is_nonterminal, spec_is_nonterminal};
use crate::text::push_char;

verus! {

/// One production `lhs -> rhs`. The left-hand side is a single symbol; the
/// right-hand side is a possibly empty string of symbols.
#[derive(Clone)]
pub struct Rule {
    pub lhs: char,
    pub rhs: String,
}

impl Rule {
    pub fn new(lhs: char, rhs: &str) -> (r: Rule)
        ensures
            r.lhs == lhs,
            r.rhs@ == rhs@,
    {
        Rule { lhs, rhs: String::from_str(rhs) }
    }

    /// The rendering of the production: its left-hand side, an arrow, its
    /// right-hand side.
    pub open spec fn spec_display(&self) -> Seq<char> {
        seq![self.lhs] + " -> "@ + self.rhs@
    }

    /// Renders the production as `lhs -> rhs`.
    pub fn display(&self) -> (r: String)
        ensures
            r@ == self.spec_display(),
    {
        let mut out = String::new();
        push_char(&mut out, self.lhs);
        out.append(" -> ");
        out.append(self.rhs.as_str());
        proof {
            assert(out@ =~= self.spec_display());
        }
        out
    }

    /// A rule is well formed exactly when its left-hand side is a nonterminal.
    pub open spec fn spec_valid(&self) -> bool {
        spec_is_nonterminal(self.lhs)
    }

    /// True iff the left-hand side is an uppercase letter. A rule that fails
    /// this test is malformed but is never rejected outright: validity is a
    /// queryable property, not a construction precondition.
    pub fn is_valid(&self) -> (r: bool)
        ensures
            r == self.spec_valid(),
    {
        is_nonterminal(self.lhs)
    }

    /// A left-regular right-hand side is a single terminal, or a nonterminal
    /// followed by a terminal. Anything longer than two symbols, or empty, is
    /// not left-regular.
    pub open spec fn spec_left_regular(&self) -> bool {
        ||| (self.rhs@.len() == 1 && !spec_is_nonterminal(self.rhs@[0]))
        ||| (self.rhs@.len() == 2 && spec_is_nonterminal(self.rhs@[0]) && !spec_is_nonterminal(
            self.rhs@[1],
        ))
    }

    pub fn is_left_regular(&self) -> (r: bool)
        ensures
            r == self.spec_left_regular(),
    {
        let n = self.rhs.as_str().unicode_len();
        if n == 1 {
            !is_nonterminal(self.rhs.as_str().get_char(0))
        } else if n == 2 {
            is_nonterminal(self.rhs.as_str().get_char(0)) && !is_nonterminal(
                self.rhs.as_str().get_char(1),
            )
        } else {
            false
        }
    }

    /// A right-regular right-hand side is a single terminal, or a terminal
    /// followed by a nonterminal; the mirror image of left-regular.
    pub open spec fn spec_right_regular(&self) -> bool {
        ||| (self.rhs@.len() == 1 && !spec_is_nonterminal(self.rhs@[0]))
        ||| (self.rhs@.len() == 2 && !spec_is_nonterminal(self.rhs@[0]) && spec_is_nonterminal(
            self.rhs@[1],
        ))
    }

    pub fn is_right_regular(&self) -> (r: bool)
        ensures
            r == self.spec_right_regular(),
    {
        let n = self.rhs.as_str().unicode_len();
        if n == 1 {
            !is_nonterminal(self.rhs.as_str().get_char(0))
        } else if n == 2 {
            !is_nonterminal(self.rhs.as_str().get_char(0)) && is_nonterminal(
                self.rhs.as_str().get_char(1),
            )
        } else {
            false
        }
    }
}

} // verus!
