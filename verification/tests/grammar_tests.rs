use rose::errors::DerivationError;
use rose::grammar::Grammar;
use rose::rule::Rule;

fn sample_rules() -> Vec<Rule> {
    vec![
        Rule::new('E', "E+e"),
        Rule::new('E', "Ee"),
        Rule::new('E', "eeE"),
        Rule::new('E', "Gp"),
        Rule::new('G', "s"),
        Rule::new('E', "x"),
    ]
}

#[test]
fn empty_rule_list_is_rejected() {
    let g = Grammar::from_rules(Vec::new());
    assert!(matches!(g, Err(DerivationError::EmptyGrammar)));
}

#[test]
fn start_is_first_lhs() {
    let g = Grammar::from_rules(sample_rules()).unwrap();
    assert_eq!(g.start, 'E');
}

#[test]
fn alphabets_partition_by_case() {
    let g = Grammar::from_rules(sample_rules()).unwrap();
    assert_eq!(g.nonterminals, "EG");
    assert_eq!(g.terminals, "+epsx");
    for c in g.nonterminals.chars() {
        assert!(!g.terminals.contains(c));
    }
    for rule in &g.rules {
        assert!(g.nonterminals.contains(rule.lhs) || g.terminals.contains(rule.lhs));
        for c in rule.rhs.chars() {
            assert!(g.nonterminals.contains(c) || g.terminals.contains(c));
        }
    }
}

#[test]
fn lowercase_lhs_lands_among_terminals() {
    let g = Grammar::from_rules(vec![Rule::new('a', "bC")]).unwrap();
    assert_eq!(g.start, 'a');
    assert_eq!(g.nonterminals, "C");
    assert_eq!(g.terminals, "ab");
}

#[test]
fn validity_needs_every_rule_valid() {
    let g = Grammar::from_rules(sample_rules()).unwrap();
    assert!(g.is_valid());
    let bad = Grammar::from_rules(vec![Rule::new('E', "x"), Rule::new('a', "y")]).unwrap();
    assert!(!bad.is_valid());
}

#[test]
fn long_rhs_breaks_regularity() {
    let g = Grammar::from_rules(vec![Rule::new('E', "E+e"), Rule::new('E', "x")]).unwrap();
    assert!(!g.is_regular());
}

#[test]
fn single_terminal_rule_breaks_regularity() {
    // `E -> x` is both left- and right-regular, and the test is an
    // exclusive or per rule, so this grammar is not regular.
    let g = Grammar::from_rules(vec![Rule::new('E', "x")]).unwrap();
    assert!(!g.is_regular());
}

#[test]
fn uniform_two_symbol_rules_are_regular() {
    let g = Grammar::from_rules(vec![Rule::new('E', "Ee"), Rule::new('E', "eE")]).unwrap();
    assert!(g.is_regular());
}

#[test]
fn rule_indices_follow_rule_order() {
    let g = Grammar::from_rules(sample_rules()).unwrap();
    assert_eq!(g.rule_idxs_from_nt('E'), vec![0, 1, 2, 3, 5]);
    assert_eq!(g.rule_idxs_from_nt('G'), vec![4]);
    assert_eq!(g.rule_idxs_from_nt('X'), Vec::<usize>::new());
}

#[test]
fn display_lists_every_rule() {
    let g = Grammar::from_rules(vec![Rule::new('E', "Ee"), Rule::new('E', "x")]).unwrap();
    assert_eq!(g.display(), "Grammar:\nE -> Ee\nE -> x\n");
}
