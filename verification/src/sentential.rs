use vstd::prelude::*;
use vstd::string::*;

use crate::errors::DerivationError;
use crate::grammar::Grammar;
use crate::symbol::{is_nonterminal, spec_is_nonterminal};
use crate::text::push_char;

verus! {

/// No nonterminal occurs strictly before position `k` of the form.
pub open spec fn spec_no_nt_before(f: Seq<char>, k: int) -> bool {
    forall|i: int| 0 <= i < k ==> !spec_is_nonterminal(#[trigger] f[i])
}

/// The form with the single symbol at position `k` replaced by `rhs`.
pub open spec fn spec_replace_at(f: Seq<char>, k: int, rhs: Seq<char>) -> Seq<char> {
    f.subrange(0, k) + rhs + f.subrange(k + 1, f.len() as int)
}

/// A string of symbols reached from the start symbol, together with the
/// cached position of its leftmost nonterminal; the cache is absent exactly
/// when the form is all terminals.
pub struct Sentential {
    pub form: String,
    pub first_nt_index: Option<usize>,
}

/// Scans a whole form, left to right, for its leftmost nonterminal.
pub(crate) fn find_first_nt(form: &str) -> (r: Option<usize>)
    ensures
        match r {
            None => spec_no_nt_before(form@, form@.len() as int),
            Some(k) => k < form@.len() && spec_is_nonterminal(form@[k as int])
                && spec_no_nt_before(form@, k as int),
        },
{
    let n = form.unicode_len();
    let mut i: usize = 0;
    while i < n
        invariant
            i <= n,
            n == form@.len(),
            spec_no_nt_before(form@, i as int),
        decreases n - i,
    {
        if is_nonterminal(form.get_char(i)) {
            return Some(i);
        }
        i += 1;
    }
    None
}

impl Sentential {
    /// The cache invariant: the recorded index is the true position of the
    /// leftmost nonterminal, or absent exactly when none exists.
    pub open spec fn wf(&self) -> bool {
        match self.first_nt_index {
            None => spec_no_nt_before(self.form@, self.form@.len() as int),
            Some(k) => k < self.form@.len() && spec_is_nonterminal(self.form@[k as int])
                && spec_no_nt_before(self.form@, k as int),
        }
    }

    /// The form holding exactly the grammar's start symbol.
    pub fn new_initial(grammar: &Grammar) -> (s: Sentential)
        ensures
            s.form@ == seq![grammar.start],
            s.wf(),
            spec_is_nonterminal(grammar.start) ==> s.first_nt_index == Some(0usize),
            !spec_is_nonterminal(grammar.start) ==> s.first_nt_index is None,
    {
        let mut form = String::new();
        push_char(&mut form, grammar.start);
        proof {
            assert(form@ =~= seq![grammar.start]);
        }
        let idx = find_first_nt(form.as_str());
        proof {
            if spec_is_nonterminal(grammar.start) {
                assert(spec_is_nonterminal(form@[0]));
            }
        }
        Sentential { form, first_nt_index: idx }
    }

    /// Applies the rule at `rule_index` to the leftmost nonterminal,
    /// producing a brand-new form; the receiver is never changed. Fails
    /// with `NoNonTerminal` on a complete form, and with `InvalidRule` when
    /// the rule's left-hand side is not the leftmost nonterminal.
    pub fn new_next(&self, grammar: &Grammar, rule_index: usize) -> (r: Result<
        Sentential,
        DerivationError,
    >)
        requires
            self.wf(),
            rule_index < grammar.rules@.len(),
        ensures
            self.first_nt_index is None <==> r == Err::<Sentential, DerivationError>(
                DerivationError::NoNonTerminal,
            ),
            (self.first_nt_index matches Some(k) && grammar.rules@[rule_index as int].lhs
                != self.form@[k as int]) <==> r == Err::<Sentential, DerivationError>(
                DerivationError::InvalidRule,
            ),
            (self.first_nt_index matches Some(k) && grammar.rules@[rule_index as int].lhs
                == self.form@[k as int]) ==> (r matches Ok(next) && next.wf() && next.form@
                == spec_replace_at(
                self.form@,
                self.first_nt_index->Some_0 as int,
                grammar.rules@[rule_index as int].rhs@,
            )),
    {
        match self.first_nt_index {
            None => Err(DerivationError::NoNonTerminal),
            Some(k) => {
                let rule = &grammar.rules[rule_index];
                if rule.lhs != self.form.as_str().get_char(k) {
                    return Err(DerivationError::InvalidRule);
                }
                let n = self.form.as_str().unicode_len();
                let mut new_form = String::new();
                new_form.append(self.form.as_str().substring_char(0, k));
                new_form.append(rule.rhs.as_str());
                new_form.append(self.form.as_str().substring_char(k + 1, n));
                proof {
                    assert(new_form@ =~= spec_replace_at(self.form@, k as int, rule.rhs@));
                }
                let idx = find_first_nt(new_form.as_str());
                Ok(Sentential { form: new_form, first_nt_index: idx })
            },
        }
    }

    /// True iff the form holds no nonterminal, so the derivation is done.
    pub fn is_complete(&self) -> (r: bool)
        ensures
            r == (self.first_nt_index is None),
    {
        self.first_nt_index.is_none()
    }
}

} // verus!
