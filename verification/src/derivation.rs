use vstd::prelude::*;
use vstd::string::*;

use crate::errors::DerivationError;
use crate::grammar::Grammar;
use crate::rng::Rng;
use crate::sentential::{spec_replace_at, Sentential};
use crate::symbol::spec_is_nonterminal;
use crate::text::{
    lemma_decimal_newline_free, lemma_newline_count_add, lemma_newline_count_none, push_decimal,
    spec_decimal, spec_newline_count,
};

verus! {

/// One entry of a derivation history: the rule index applied (absent only
/// for the seed entry) and the resulting sentential form.
pub type DerivationStep = (Option<usize>, Sentential);

/// A step extends a derivation when its rule exists, its rule's left-hand
/// side is the previous form's leftmost nonterminal, and its form replaces
/// exactly that symbol by the rule's right-hand side.
pub open spec fn spec_step_follows(
    prev: Sentential,
    ri: Option<usize>,
    next: Sentential,
    g: Grammar,
) -> bool {
    &&& prev.first_nt_index matches Some(k)
    &&& ri matches Some(rr)
    &&& rr < g.rules@.len()
    &&& g.rules@[rr as int].lhs == prev.form@[k as int]
    &&& next.form@ == spec_replace_at(prev.form@, k as int, g.rules@[rr as int].rhs@)
}

/// A strictly growing history of rule applications: entry 0 is the seed
/// form, every later entry records the rule applied and the form it
/// produced. Entries are never removed or rewritten.
pub struct Derivation {
    pub steps: Vec<DerivationStep>,
}

impl Derivation {
    /// The history invariant: at least the seed entry, which carries no
    /// rule and holds exactly the start symbol; every entry's cached index
    /// is sound; and every later entry follows from its predecessor.
    pub open spec fn wf(&self, g: Grammar) -> bool {
        &&& self.steps@.len() >= 1
        &&& self.steps@[0].0 is None
        &&& self.steps@[0].1.form@ == seq![g.start]
        &&& (forall|i: int| 0 <= i < self.steps@.len() ==> (#[trigger] self.steps@[i]).1.wf())
        &&& (forall|i: int|
            1 <= i < self.steps@.len() ==> spec_step_follows(
                self.steps@[i - 1].1,
                (#[trigger] self.steps@[i]).0,
                self.steps@[i].1,
                g,
            ))
    }

    /// Seeds a derivation with the grammar's start symbol.
    pub fn new(grammar: &Grammar) -> (d: Derivation)
        ensures
            d.wf(*grammar),
            d.steps@.len() == 1,
            spec_is_nonterminal(grammar.start) ==> d.steps@[0].1.first_nt_index == Some(0usize),
            !spec_is_nonterminal(grammar.start) ==> d.steps@[0].1.first_nt_index is None,
    {
        let init = Sentential::new_initial(grammar);
        let mut steps: Vec<DerivationStep> = Vec::new();
        steps.push((None, init));
        Derivation { steps }
    }

    /// Applies the rule at `rule_index` to the last form and appends the
    /// result. On failure the error of the step is handed back unchanged
    /// and the history is left exactly as it was.
    pub fn derive_leftmost(&mut self, grammar: &Grammar, rule_index: usize) -> (r: Result<
        (),
        DerivationError,
    >)
        requires
            old(self).wf(*grammar),
            rule_index < grammar.rules@.len(),
        ensures
            final(self).wf(*grammar),
            r is Err ==> *final(self) == *old(self),
            (old(self).steps@.last().1.first_nt_index is None) <==> r == Err::<
                (),
                DerivationError,
            >(DerivationError::NoNonTerminal),
            (old(self).steps@.last().1.first_nt_index matches Some(k)
                && grammar.rules@[rule_index as int].lhs
                != old(self).steps@.last().1.form@[k as int]) <==> r == Err::<
                (),
                DerivationError,
            >(DerivationError::InvalidRule),
            r is Ok <==> (old(self).steps@.last().1.first_nt_index matches Some(k)
                && grammar.rules@[rule_index as int].lhs
                == old(self).steps@.last().1.form@[k as int]),
            r is Ok ==> ({
                &&& final(self).steps@.len() == old(self).steps@.len() + 1
                &&& final(self).steps@.subrange(0, old(self).steps@.len() as int) == old(
                    self,
                ).steps@
                &&& final(self).steps@.last().0 == Some(rule_index)
                &&& spec_step_follows(
                    old(self).steps@.last().1,
                    Some(rule_index),
                    final(self).steps@.last().1,
                    *grammar,
                )
            }),
    {
        let last_idx = self.steps.len() - 1;
        let next = self.steps[last_idx].1.new_next(grammar, rule_index);
        match next {
            Ok(s2) => {
                self.steps.push((Some(rule_index), s2));
                proof {
                    assert(self.steps@.subrange(0, old(self).steps@.len() as int) =~= old(
                        self,
                    ).steps@);
                    assert forall|i: int|
                        0 <= i < self.steps@.len() implies (#[trigger] self.steps@[i]).1.wf() by {
                        if i < old(self).steps@.len() {
                            assert(self.steps@[i] == old(self).steps@[i]);
                        }
                    }
                    assert forall|i: int|
                        1 <= i < self.steps@.len() implies spec_step_follows(
                        self.steps@[i - 1].1,
                        (#[trigger] self.steps@[i]).0,
                        self.steps@[i].1,
                        *grammar,
                    ) by {
                        if i < old(self).steps@.len() {
                            assert(self.steps@[i] == old(self).steps@[i]);
                            assert(self.steps@[i - 1] == old(self).steps@[i - 1]);
                        } else {
                            assert(self.steps@[i - 1] == old(self).steps@[i - 1]);
                        }
                    }
                }
                Ok(())
            },
            Err(e) => Err(e),
        }
    }

    /// True iff the last form is complete (holds no nonterminal).
    pub fn is_complete(&self) -> (r: bool)
        requires
            self.steps@.len() >= 1,
        ensures
            r == (self.steps@.last().1.first_nt_index is None),
    {
        self.steps[self.steps.len() - 1].1.is_complete()
    }

    /// The leftmost nonterminal of the last form, or nothing when the
    /// derivation is complete.
    pub fn leftmost_nonterminal(&self) -> (r: Option<char>)
        requires
            self.steps@.len() >= 1,
            self.steps@.last().1.wf(),
        ensures
            match self.steps@.last().1.first_nt_index {
                None => r is None,
                Some(k) => r == Some(self.steps@.last().1.form@[k as int]),
            },
    {
        let last = &self.steps[self.steps.len() - 1].1;
        match last.first_nt_index {
            None => None,
            Some(k) => Some(last.form.as_str().get_char(k)),
        }
    }

    /// The last form of the history. It is a finished word of terminals
    /// only when the derivation is complete; callers check completion
    /// before treating it as one.
    pub fn word(&self) -> (r: String)
        requires
            self.steps@.len() >= 1,
        ensures
            r@ == self.steps@.last().1.form@,
    {
        let last = &self.steps[self.steps.len() - 1].1;
        last.form.clone()
    }

    /// The rendering of one history entry.
    pub open spec fn spec_history_line(i: int, step: DerivationStep) -> Seq<char> {
        if i == 0 {
            "Start: "@ + step.1.form@ + "\n"@
        } else {
            "Step "@ + spec_decimal(i as nat) + ": Apply Rule "@ + spec_decimal(
                step.0->0 as nat,
            ) + ": "@ + step.1.form@ + "\n"@
        }
    }

    /// The rendering of a whole history, entry by entry.
    pub open spec fn spec_history(steps: Seq<DerivationStep>) -> Seq<char>
        decreases steps.len(),
    {
        if steps.len() == 0 {
            Seq::empty()
        } else {
            Self::spec_history(steps.drop_last()) + Self::spec_history_line(
                steps.len() - 1,
                steps.last(),
            )
        }
    }

    /// Renders the history, one line per entry, in order: the seed entry as
    /// `Start: <form>`, every later entry as `Step i: Apply Rule r: <form>`.
    pub fn get_history(&self) -> (r: String)
        requires
            forall|i: int| 1 <= i < self.steps@.len() ==> (#[trigger] self.steps@[i]).0 is Some,
        ensures
            r@ == Self::spec_history(self.steps@),
    {
        let mut out = String::new();
        let n = self.steps.len();
        let mut i: usize = 0;
        proof {
            assert(out@ =~= Self::spec_history(self.steps@.subrange(0, 0)));
        }
        while i < n
            invariant
                n == self.steps@.len(),
                i <= n,
                forall|k: int| 1 <= k < n ==> (#[trigger] self.steps@[k]).0 is Some,
                out@ == Self::spec_history(self.steps@.subrange(0, i as int)),
            decreases n - i,
        {
            if i == 0 {
                out.append("Start: ");
                out.append(self.steps[0].1.form.as_str());
                out.append("\n");
            } else {
                out.append("Step ");
                push_decimal(&mut out, i);
                out.append(": Apply Rule ");
                let ri = match self.steps[i].0 {
                    Some(ri) => ri,
                    None => 0,
                };
                assert(ri == self.steps@[i as int].0->0);
                push_decimal(&mut out, ri);
                out.append(": ");
                out.append(self.steps[i].1.form.as_str());
                out.append("\n");
            }
            proof {
                let pre = self.steps@.subrange(0, i as int);
                let pre1 = self.steps@.subrange(0, i as int + 1);
                assert(pre1.drop_last() =~= pre);
                assert(pre1.last() == self.steps@[i as int]);
                assert(out@ =~= Self::spec_history(pre1));
            }
            i += 1;
        }
        proof {
            assert(self.steps@.subrange(0, n as int) =~= self.steps@);
        }
        out
    }

    /// Repeatedly applies a randomly chosen applicable rule to the
    /// leftmost nonterminal: stops with the derived word once the form is
    /// complete, and with nothing once the budget is spent or no rule
    /// applies (a dead end). A budget of `None` places no bound on the
    /// number of applications; callers accept the termination risk.
    pub fn derive_random(
        &mut self,
        grammar: &Grammar,
        max_steps: Option<usize>,
        rng: &mut Rng,
    ) -> (r: Option<String>)
        requires
            old(self).wf(*grammar),
        ensures
            final(self).wf(*grammar),
            final(self).steps@.len() >= old(self).steps@.len(),
            final(self).steps@.subrange(0, old(self).steps@.len() as int) == old(self).steps@,
            max_steps matches Some(m) ==> final(self).steps@.len() <= old(self).steps@.len() + m,
            r matches Some(w) ==> (final(self).steps@.last().1.first_nt_index is None && w@
                == final(self).steps@.last().1.form@),
            r is None ==> final(self).steps@.last().1.first_nt_index is Some,
            max_steps matches Some(m) ==> (r is Some || final(self).steps@.len()
                == old(self).steps@.len() + m || (
            final(self).steps@.last().1.first_nt_index matches Some(k) && (forall|i: int|
                0 <= i < grammar.rules@.len() ==> (#[trigger] grammar.rules@[i]).lhs
                    != final(self).steps@.last().1.form@[k as int]))),
    {
        let start_len = self.steps.len();
        let budget = match max_steps {
            Some(m) => m,
            None => usize::MAX,
        };
        loop
            invariant
                self.wf(*grammar),
                start_len == old(self).steps@.len(),
                self.steps@.len() >= start_len,
                start_len >= 1,
                self.steps@.subrange(0, start_len as int) == old(self).steps@,
                max_steps matches Some(m) ==> budget == m,
                self.steps@.len() - start_len <= budget,
            decreases budget - (self.steps@.len() - start_len),
        {
            if self.is_complete() {
                return Some(self.word());
            }
            let taken = self.steps.len() - start_len;
            if taken >= budget {
                return None;
            }
            let c = match self.leftmost_nonterminal() {
                Some(c) => c,
                None => ' ',
            };
            let idxs = grammar.rule_idxs_from_nt(c);
            if idxs.len() == 0 {
                proof {
                    let last = self.steps@.last().1;
                    let k = last.first_nt_index->0;
                    assert forall|i: int|
                        0 <= i < grammar.rules@.len() implies (#[trigger] grammar.rules@[i]).lhs
                        != last.form@[k as int] by {
                        if grammar.rules@[i].lhs == c {
                            assert(idxs@.contains(i as usize));
                        }
                    }
                }
                return None;
            }
            let pick = rng.pick(idxs.len());
            let ri = idxs[pick];
            let ghost prev = self.steps@;
            let res = self.derive_leftmost(grammar, ri);
            proof {
                assert(res is Ok);
                assert(self.steps@.subrange(0, start_len as int) =~= prev.subrange(
                    0,
                    start_len as int,
                ));
            }
        }
    }
}

/// One history entry renders as exactly one newline-terminated line, as
/// long as its form holds no newline itself.
proof fn lemma_history_line_one_newline(i: int, step: DerivationStep)
    requires
        !step.1.form@.contains('\n'),
    ensures
        spec_newline_count(Derivation::spec_history_line(i, step)) == 1,
{
    let form = step.1.form@;
    assert forall|k: int| 0 <= k < form.len() implies form[k] != '\n' by {
        if form[k] == '\n' {
            assert(form.contains('\n'));
        }
    }
    lemma_newline_count_none(form);
    reveal_strlit("\n");
    assert(spec_newline_count("\n"@) == 1) by {
        assert(spec_newline_count(Seq::<char>::empty()) == 0);
        assert("\n"@.len() == 1);
        assert("\n"@.drop_last() =~= Seq::<char>::empty());
        assert("\n"@.last() == '\n');
    }
    if i == 0 {
        reveal_strlit("Start: ");
        lemma_newline_count_none("Start: "@);
        lemma_newline_count_add("Start: "@, form);
        lemma_newline_count_add("Start: "@ + form, "\n"@);
    } else {
        reveal_strlit("Step ");
        reveal_strlit(": Apply Rule ");
        reveal_strlit(": ");
        lemma_newline_count_none("Step "@);
        lemma_newline_count_none(": Apply Rule "@);
        lemma_newline_count_none(": "@);
        lemma_decimal_newline_free(i as nat);
        lemma_newline_count_none(spec_decimal(i as nat));
        lemma_decimal_newline_free(step.0->0 as nat);
        lemma_newline_count_none(spec_decimal(step.0->0 as nat));
        lemma_newline_count_add("Step "@, spec_decimal(i as nat));
        lemma_newline_count_add("Step "@ + spec_decimal(i as nat), ": Apply Rule "@);
        lemma_newline_count_add(
            "Step "@ + spec_decimal(i as nat) + ": Apply Rule "@,
            spec_decimal(step.0->0 as nat),
        );
        lemma_newline_count_add(
            "Step "@ + spec_decimal(i as nat) + ": Apply Rule "@ + spec_decimal(step.0->0 as nat),
            ": "@,
        );
        lemma_newline_count_add(
            "Step "@ + spec_decimal(i as nat) + ": Apply Rule "@ + spec_decimal(step.0->0 as nat)
                + ": "@,
            form,
        );
        lemma_newline_count_add(
            "Step "@ + spec_decimal(i as nat) + ": Apply Rule "@ + spec_decimal(step.0->0 as nat)
                + ": "@ + form,
            "\n"@,
        );
    }
}

/// A rendered history has one line per step: when no form holds a newline,
/// the rendering of the history holds exactly one newline per entry, and
/// it opens with the seed line `Start: <initial form>`.
pub proof fn lemma_history_one_line_per_step(steps: Seq<DerivationStep>)
    requires
        forall|i: int| 0 <= i < steps.len() ==> !(#[trigger] steps[i]).1.form@.contains('\n'),
    ensures
        spec_newline_count(Derivation::spec_history(steps)) == steps.len(),
        steps.len() >= 1 ==> Derivation::spec_history(steps).len()
            >= Derivation::spec_history_line(0, steps[0]).len(),
        steps.len() >= 1 ==> Derivation::spec_history(steps).subrange(
            0,
            Derivation::spec_history_line(0, steps[0]).len() as int,
        ) == Derivation::spec_history_line(0, steps[0]),
    decreases steps.len(),
{
    if steps.len() > 0 {
        let head = steps.drop_last();
        assert(forall|i: int| 0 <= i < head.len() ==> head[i] == steps[i]);
        lemma_history_one_line_per_step(head);
        lemma_history_line_one_newline(steps.len() - 1, steps.last());
        lemma_newline_count_add(
            Derivation::spec_history(head),
            Derivation::spec_history_line(steps.len() - 1, steps.last()),
        );
        let line0 = Derivation::spec_history_line(0, steps[0]);
        let a = Derivation::spec_history(head);
        let b = Derivation::spec_history_line(steps.len() - 1, steps.last());
        if steps.len() == 1 {
            assert(a =~= Seq::<char>::empty());
            assert(steps.last() == steps[0]);
            assert(Derivation::spec_history(steps) =~= line0);
            assert(Derivation::spec_history(steps).subrange(0, line0.len() as int) =~= line0);
        } else {
            assert(head[0] == steps[0]);
            assert(a.subrange(0, line0.len() as int) == line0);
            assert((a + b).subrange(0, line0.len() as int) =~= a.subrange(0, line0.len() as int));
        }
    }
}

} // verus!
