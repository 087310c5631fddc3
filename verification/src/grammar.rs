use vstd::prelude::*;
use vstd::seq_lib::lemma_seq_contains_after_push;
use vstd::string::*;

use crate::errors::DerivationError;
use crate::rule::Rule;
use crate::symbol::{is_nonterminal, spec_is_nonterminal};
use crate::text::{push_char, str_contains_char};

verus! {

/// True when the rule uses the symbol, on either side of the arrow.
pub open spec fn spec_rule_mentions(r: Rule, c: char) -> bool {
    r.lhs == c || r.rhs@.contains(c)
}

/// True when some rule of the list uses the symbol.
pub open spec fn spec_appears(rules: Seq<Rule>, c: char) -> bool {
    exists|i: int| 0 <= i < rules.len() && spec_rule_mentions(#[trigger] rules[i], c)
}

/// Every symbol of the rule list in scan order: rule by rule, the
/// left-hand side first, then the right-hand side left to right.
pub open spec fn spec_symbol_stream(rules: Seq<Rule>) -> Seq<char>
    decreases rules.len(),
{
    if rules.len() == 0 {
        Seq::empty()
    } else {
        spec_symbol_stream(rules.drop_last()) + seq![rules.last().lhs] + rules.last().rhs@
    }
}

/// The symbols of the stream whose case matches `nt`, each kept once, in
/// the order of first appearance.
pub open spec fn spec_first_seen(stream: Seq<char>, nt: bool) -> Seq<char>
    decreases stream.len(),
{
    if stream.len() == 0 {
        Seq::empty()
    } else {
        let rest = spec_first_seen(stream.drop_last(), nt);
        let c = stream.last();
        if spec_is_nonterminal(c) == nt && !rest.contains(c) {
            rest.push(c)
        } else {
            rest
        }
    }
}

/// An ordered list of rules together with the derived start symbol and the
/// two alphabets. Rule order matters: rule indices are the public handle for
/// selecting a production, and stay stable after construction.
pub struct Grammar {
    pub start: char,
    pub rules: Vec<Rule>,
    pub terminals: String,
    pub nonterminals: String,
}

/// Pushing a fresh element keeps a sequence free of duplicates.
proof fn lemma_push_no_dup(s: Seq<char>, c: char)
    requires
        s.no_duplicates(),
        !s.contains(c),
    ensures
        s.push(c).no_duplicates(),
{
    assert forall|i: int, j: int|
        0 <= i < s.push(c).len() && 0 <= j < s.push(c).len() && i != j implies s.push(c)[i]
        != s.push(c)[j] by {
        if i == s.len() {
            assert(s.push(c)[i] == c);
            if s.push(c)[j] == c {
                assert(s[j] == c);
            }
        } else if j == s.len() {
            assert(s.push(c)[j] == c);
            if s.push(c)[i] == c {
                assert(s[i] == c);
            }
        }
    }
}

/// Files one symbol into the alphabet its case selects, suppressing
/// duplicates.
fn record_symbol(nonterminals: &mut String, terminals: &mut String, c: char)
    requires
        old(nonterminals)@.no_duplicates(),
        old(terminals)@.no_duplicates(),
    ensures
        final(nonterminals)@.no_duplicates(),
        final(terminals)@.no_duplicates(),
        final(nonterminals)@ == (if spec_is_nonterminal(c) && !old(nonterminals)@.contains(c) {
            old(nonterminals)@.push(c)
        } else {
            old(nonterminals)@
        }),
        final(terminals)@ == (if !spec_is_nonterminal(c) && !old(terminals)@.contains(c) {
            old(terminals)@.push(c)
        } else {
            old(terminals)@
        }),
        forall|d: char| #[trigger]
            final(nonterminals)@.contains(d) <==> (old(nonterminals)@.contains(d) || (
            spec_is_nonterminal(c) && d == c)),
        forall|d: char| #[trigger]
            final(terminals)@.contains(d) <==> (old(terminals)@.contains(d) || (
            !spec_is_nonterminal(c) && d == c)),
{
    broadcast use lemma_seq_contains_after_push;

    if is_nonterminal(c) {
        if !str_contains_char(nonterminals.as_str(), c) {
            proof {
                lemma_push_no_dup(nonterminals@, c);
            }
            push_char(nonterminals, c);
        }
    } else {
        if !str_contains_char(terminals.as_str(), c) {
            proof {
                lemma_push_no_dup(terminals@, c);
            }
            push_char(terminals, c);
        }
    }
}

/// The symbols reached after the first `i` rules have been scanned in full
/// and the first `j` right-hand-side symbols of rule `i`, along with its
/// left-hand side.
spec fn spec_mentioned_upto(rules: Seq<Rule>, i: int, j: int, c: char) -> bool {
    ||| spec_appears(rules.subrange(0, i), c)
    ||| (0 <= i < rules.len() && rules[i].lhs == c)
    ||| (0 <= i < rules.len() && rules[i].rhs@.subrange(0, j).contains(c))
}

/// Scanning one more rule extends the reached symbols by exactly that
/// rule's symbols.
proof fn lemma_appears_extend(rules: Seq<Rule>, i: int)
    requires
        0 <= i < rules.len(),
    ensures
        forall|c: char|
            spec_appears(rules.subrange(0, i + 1), c) <==> (spec_appears(
                rules.subrange(0, i),
                c,
            ) || spec_rule_mentions(rules[i], c)),
{
    let pre = rules.subrange(0, i);
    let pre1 = rules.subrange(0, i + 1);
    assert forall|c: char|
        spec_appears(pre1, c) <==> (spec_appears(pre, c) || spec_rule_mentions(
            rules[i],
            c,
        )) by {
        if spec_appears(pre1, c) {
            let k = choose|k: int| 0 <= k < pre1.len() && spec_rule_mentions(pre1[k], c);
            if k < i {
                assert(pre[k] == pre1[k]);
                assert(spec_rule_mentions(pre[k], c));
            } else {
                assert(pre1[k] == rules[i]);
            }
        }
        if spec_appears(pre, c) {
            let k = choose|k: int| 0 <= k < pre.len() && spec_rule_mentions(pre[k], c);
            assert(pre1[k] == pre[k]);
            assert(spec_rule_mentions(pre1[k], c));
        }
        if spec_rule_mentions(rules[i], c) {
            assert(pre1[i] == rules[i]);
            assert(spec_rule_mentions(pre1[i], c));
        }
    }
}

impl Grammar {
    /// The construction invariant: at least one rule, the start symbol is
    /// the first rule's left-hand side, and the two alphabets hold exactly
    /// the used symbols, split purely by case and free of duplicates.
    pub open spec fn wf(&self) -> bool {
        &&& self.rules@.len() > 0
        &&& self.start == self.rules@[0].lhs
        &&& (forall|c: char| #[trigger]
            self.nonterminals@.contains(c) <==> (spec_is_nonterminal(c) && spec_appears(
                self.rules@,
                c,
            )))
        &&& (forall|c: char| #[trigger]
            self.terminals@.contains(c) <==> (!spec_is_nonterminal(c) && spec_appears(
                self.rules@,
                c,
            )))
        &&& self.nonterminals@.no_duplicates()
        &&& self.terminals@.no_duplicates()
    }

    /// Builds a grammar from an ordered rule list, deriving the start
    /// symbol and the alphabets in one pass. An empty list has no start
    /// symbol and is rejected.
    pub fn from_rules(rules: Vec<Rule>) -> (r: Result<Grammar, DerivationError>)
        ensures
            r is Err <==> rules@.len() == 0,
            r is Err ==> r == Err::<Grammar, DerivationError>(DerivationError::EmptyGrammar),
            r matches Ok(g) ==> (g.rules@ == rules@ && g.wf()),
            r matches Ok(g) ==> g.nonterminals@ == spec_first_seen(spec_symbol_stream(rules@), true),
            r matches Ok(g) ==> g.terminals@ == spec_first_seen(spec_symbol_stream(rules@), false),
    {
        if rules.len() == 0 {
            return Err(DerivationError::EmptyGrammar);
        }
        let start = rules[0].lhs;
        let mut terminals = String::new();
        let mut nonterminals = String::new();
        let n = rules.len();
        let mut i: usize = 0;
        proof {
            assert(rules@.subrange(0, 0) =~= Seq::<Rule>::empty());
            assert(spec_symbol_stream(rules@.subrange(0, 0)) =~= Seq::<char>::empty());
        }
        while i < n
            invariant
                n == rules@.len(),
                i <= n,
                nonterminals@.no_duplicates(),
                terminals@.no_duplicates(),
                nonterminals@ == spec_first_seen(
                    spec_symbol_stream(rules@.subrange(0, i as int)),
                    true,
                ),
                terminals@ == spec_first_seen(
                    spec_symbol_stream(rules@.subrange(0, i as int)),
                    false,
                ),
                forall|c: char| #[trigger]
                    nonterminals@.contains(c) <==> (spec_is_nonterminal(c) && spec_appears(
                        rules@.subrange(0, i as int),
                        c,
                    )),
                forall|c: char| #[trigger]
                    terminals@.contains(c) <==> (!spec_is_nonterminal(c) && spec_appears(
                        rules@.subrange(0, i as int),
                        c,
                    )),
            decreases n - i,
        {
            let ghost stream0 = spec_symbol_stream(rules@.subrange(0, i as int));
            record_symbol(&mut nonterminals, &mut terminals, rules[i].lhs);
            let m = rules[i].rhs.as_str().unicode_len();
            let mut j: usize = 0;
            proof {
                assert(rules@[i as int].rhs@.subrange(0, 0) =~= Seq::<char>::empty());
                let s1 = stream0 + seq![rules@[i as int].lhs] + rules@[i as int].rhs@.subrange(
                    0,
                    0,
                );
                assert(s1 =~= stream0.push(rules@[i as int].lhs));
                assert(s1.drop_last() =~= stream0);
                assert(s1.last() == rules@[i as int].lhs);
            }
            while j < m
                invariant
                    n == rules@.len(),
                    i < n,
                    m == rules@[i as int].rhs@.len(),
                    j <= m,
                    stream0 == spec_symbol_stream(rules@.subrange(0, i as int)),
                    nonterminals@.no_duplicates(),
                    terminals@.no_duplicates(),
                    nonterminals@ == spec_first_seen(
                        stream0 + seq![rules@[i as int].lhs] + rules@[i as int].rhs@.subrange(
                            0,
                            j as int,
                        ),
                        true,
                    ),
                    terminals@ == spec_first_seen(
                        stream0 + seq![rules@[i as int].lhs] + rules@[i as int].rhs@.subrange(
                            0,
                            j as int,
                        ),
                        false,
                    ),
                    forall|c: char| #[trigger]
                        nonterminals@.contains(c) <==> (spec_is_nonterminal(c)
                            && spec_mentioned_upto(rules@, i as int, j as int, c)),
                    forall|c: char| #[trigger]
                        terminals@.contains(c) <==> (!spec_is_nonterminal(c) && spec_mentioned_upto(
                            rules@,
                            i as int,
                            j as int,
                            c,
                        )),
                decreases m - j,
            {
                let ch = rules[i].rhs.as_str().get_char(j);
                let ghost nts0 = nonterminals@;
                let ghost ts0 = terminals@;
                record_symbol(&mut nonterminals, &mut terminals, ch);
                proof {
                    let s = rules@[i as int].rhs@;
                    assert(s.subrange(0, j as int + 1) =~= s.subrange(0, j as int).push(
                        s[j as int],
                    ));
                    let sj = stream0 + seq![rules@[i as int].lhs] + s.subrange(0, j as int);
                    let sj1 = stream0 + seq![rules@[i as int].lhs] + s.subrange(0, j as int + 1);
                    assert(sj1 =~= sj.push(s[j as int]));
                    assert(sj1.drop_last() =~= sj);
                    assert(sj1.last() == s[j as int]);
                    assert forall|c: char| #[trigger]
                        nonterminals@.contains(c) <==> (spec_is_nonterminal(c)
                            && spec_mentioned_upto(rules@, i as int, j as int + 1, c)) by {
                        lemma_seq_contains_after_push(s.subrange(0, j as int), s[j as int], c);
                        assert(nonterminals@.contains(c) <==> (nts0.contains(c) || (
                        spec_is_nonterminal(ch) && c == ch)));
                        assert(nts0.contains(c) <==> (spec_is_nonterminal(c) && spec_mentioned_upto(
                            rules@,
                            i as int,
                            j as int,
                            c,
                        )));
                    }
                    assert forall|c: char| #[trigger]
                        terminals@.contains(c) <==> (!spec_is_nonterminal(c)
                            && spec_mentioned_upto(rules@, i as int, j as int + 1, c)) by {
                        lemma_seq_contains_after_push(s.subrange(0, j as int), s[j as int], c);
                        assert(terminals@.contains(c) <==> (ts0.contains(c) || (
                        !spec_is_nonterminal(ch) && c == ch)));
                        assert(ts0.contains(c) <==> (!spec_is_nonterminal(c)
                            && spec_mentioned_upto(rules@, i as int, j as int, c)));
                    }
                }
                j += 1;
            }
            proof {
                let s = rules@[i as int].rhs@;
                assert(s.subrange(0, m as int) =~= s);
                let pre1 = rules@.subrange(0, i as int + 1);
                assert(pre1.drop_last() =~= rules@.subrange(0, i as int));
                assert(pre1.last() == rules@[i as int]);
                assert(stream0 + seq![rules@[i as int].lhs] + s.subrange(0, m as int)
                    =~= spec_symbol_stream(pre1));
                lemma_appears_extend(rules@, i as int);
                assert forall|c: char| #[trigger]
                    nonterminals@.contains(c) <==> (spec_is_nonterminal(c) && spec_appears(
                        rules@.subrange(0, i as int + 1),
                        c,
                    )) by {
                    assert(nonterminals@.contains(c) <==> (spec_is_nonterminal(c)
                        && spec_mentioned_upto(rules@, i as int, m as int, c)));
                    assert(spec_appears(rules@.subrange(0, i as int + 1), c) <==> (spec_appears(
                        rules@.subrange(0, i as int),
                        c,
                    ) || spec_rule_mentions(rules@[i as int], c)));
                }
                assert forall|c: char| #[trigger]
                    terminals@.contains(c) <==> (!spec_is_nonterminal(c) && spec_appears(
                        rules@.subrange(0, i as int + 1),
                        c,
                    )) by {
                    assert(terminals@.contains(c) <==> (!spec_is_nonterminal(c)
                        && spec_mentioned_upto(rules@, i as int, m as int, c)));
                    assert(spec_appears(rules@.subrange(0, i as int + 1), c) <==> (spec_appears(
                        rules@.subrange(0, i as int),
                        c,
                    ) || spec_rule_mentions(rules@[i as int], c)));
                }
            }
            i += 1;
        }
        proof {
            assert(rules@.subrange(0, n as int) =~= rules@);
        }
        Ok(Grammar { start, rules, terminals, nonterminals })
    }

    /// The rendering of the rule list, one production per line.
    pub open spec fn spec_rule_lines(rules: Seq<Rule>) -> Seq<char>
        decreases rules.len(),
    {
        if rules.len() == 0 {
            Seq::empty()
        } else {
            Self::spec_rule_lines(rules.drop_last()) + rules.last().spec_display() + "\n"@
        }
    }

    /// The rendering of the whole grammar: a header, then one rule per line.
    pub open spec fn spec_display(&self) -> Seq<char> {
        "Grammar:\n"@ + Self::spec_rule_lines(self.rules@)
    }

    /// Renders the grammar with a header and every rule on its own line.
    pub fn display(&self) -> (r: String)
        ensures
            r@ == self.spec_display(),
    {
        let mut out = String::from_str("Grammar:\n");
        let n = self.rules.len();
        let mut i: usize = 0;
        proof {
            assert(out@ =~= "Grammar:\n"@ + Self::spec_rule_lines(self.rules@.subrange(0, 0)));
        }
        while i < n
            invariant
                n == self.rules@.len(),
                i <= n,
                out@ == "Grammar:\n"@ + Self::spec_rule_lines(self.rules@.subrange(0, i as int)),
            decreases n - i,
        {
            let line = self.rules[i].display();
            out.append(line.as_str());
            out.append("\n");
            proof {
                let pre = self.rules@.subrange(0, i as int);
                let pre1 = self.rules@.subrange(0, i as int + 1);
                assert(pre1.drop_last() =~= pre);
                assert(pre1.last() == self.rules@[i as int]);
                assert(out@ =~= "Grammar:\n"@ + Self::spec_rule_lines(pre1));
            }
            i += 1;
        }
        proof {
            assert(self.rules@.subrange(0, n as int) =~= self.rules@);
        }
        out
    }

    /// Every rule of the grammar is well formed.
    pub open spec fn spec_all_valid(&self) -> bool {
        forall|i: int| 0 <= i < self.rules@.len() ==> (#[trigger] self.rules@[i]).spec_valid()
    }

    /// True iff every rule is valid; stops at the first invalid one.
    pub fn is_valid(&self) -> (r: bool)
        ensures
            r == self.spec_all_valid(),
    {
        let n = self.rules.len();
        let mut i: usize = 0;
        while i < n
            invariant
                n == self.rules@.len(),
                i <= n,
                forall|k: int| 0 <= k < i ==> (#[trigger] self.rules@[k]).spec_valid(),
            decreases n - i,
        {
            if !self.rules[i].is_valid() {
                assert(!self.rules@[i as int].spec_valid());
                return false;
            }
            i += 1;
        }
        true
    }

    /// Every rule is exactly one of left- and right-regular. A rule that is
    /// both (a single terminal) or neither disqualifies the grammar: the
    /// test is an exclusive or, per rule.
    pub open spec fn spec_regular(&self) -> bool {
        forall|i: int|
            0 <= i < self.rules@.len() ==> ((#[trigger] self.rules@[i]).spec_left_regular()
                != self.rules@[i].spec_right_regular())
    }

    /// True iff every rule is exactly one of left- and right-regular.
    pub fn is_regular(&self) -> (r: bool)
        ensures
            r == self.spec_regular(),
    {
        let n = self.rules.len();
        let mut i: usize = 0;
        while i < n
            invariant
                n == self.rules@.len(),
                i <= n,
                forall|k: int|
                    0 <= k < i ==> ((#[trigger] self.rules@[k]).spec_left_regular()
                        != self.rules@[k].spec_right_regular()),
            decreases n - i,
        {
            if self.rules[i].is_left_regular() == self.rules[i].is_right_regular() {
                assert(self.rules@[i as int].spec_left_regular()
                    == self.rules@[i as int].spec_right_regular());
                return false;
            }
            i += 1;
        }
        true
    }

    /// The indices, in rule order, of every rule whose left-hand side is the
    /// given nonterminal; empty when none matches.
    pub fn rule_idxs_from_nt(&self, nonterminal: char) -> (r: Vec<usize>)
        ensures
            forall|k: int|
                0 <= k < r@.len() ==> (#[trigger] r@[k]) < self.rules@.len()
                    && self.rules@[r@[k] as int].lhs == nonterminal,
            forall|i: int|
                0 <= i < self.rules@.len() && (#[trigger] self.rules@[i]).lhs == nonterminal
                    ==> r@.contains(i as usize),
            forall|k1: int, k2: int| 0 <= k1 < k2 < r@.len() ==> r@[k1] < r@[k2],
    {
        broadcast use lemma_seq_contains_after_push;

        let mut indices: Vec<usize> = Vec::new();
        let n = self.rules.len();
        let mut i: usize = 0;
        while i < n
            invariant
                n == self.rules@.len(),
                i <= n,
                forall|k: int|
                    0 <= k < indices@.len() ==> (#[trigger] indices@[k]) < i
                        && self.rules@[indices@[k] as int].lhs == nonterminal,
                forall|ii: int|
                    0 <= ii < i && (#[trigger] self.rules@[ii]).lhs == nonterminal
                        ==> indices@.contains(ii as usize),
                forall|k1: int, k2: int| 0 <= k1 < k2 < indices@.len() ==> indices@[k1]
                    < indices@[k2],
            decreases n - i,
        {
            if self.rules[i].lhs == nonterminal {
                let ghost pre = indices@;
                indices.push(i);
                proof {
                    assert forall|ii: int|
                        0 <= ii < i + 1 && (#[trigger] self.rules@[ii]).lhs
                            == nonterminal implies indices@.contains(ii as usize) by {
                        lemma_seq_contains_after_push(pre, i, ii as usize);
                    }
                }
            }
            i += 1;
        }
        indices
    }
}

/// The alphabets of a well-formed grammar partition the symbols its rules
/// use: every used symbol is in exactly one of the two, and the start
/// symbol is the first rule's left-hand side.
pub proof fn lemma_alphabet_partition(g: Grammar)
    requires
        g.wf(),
    ensures
        forall|c: char|
            !(#[trigger] g.nonterminals@.contains(c) && #[trigger] g.terminals@.contains(c)),
        forall|c: char| #[trigger]
            spec_appears(g.rules@, c) ==> (g.nonterminals@.contains(c) || g.terminals@.contains(
                c,
            )),
        forall|c: char|
            (#[trigger] g.nonterminals@.contains(c) || #[trigger] g.terminals@.contains(c))
                ==> spec_appears(g.rules@, c),
        g.start == g.rules@[0].lhs,
{
}

} // verus!
