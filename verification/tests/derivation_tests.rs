use rose::derivation::Derivation;
use rose::errors::DerivationError;
use rose::grammar::Grammar;
use rose::rule::Rule;
use rose::sentential::Sentential;

fn plus_grammar() -> Grammar {
    Grammar::from_rules(vec![Rule::new('E', "E+e"), Rule::new('E', "x")]).unwrap()
}

#[test]
fn initial_form_is_the_start_symbol() {
    let g = plus_grammar();
    let s = Sentential::new_initial(&g);
    assert_eq!(s.form, "E");
    assert_eq!(s.first_nt_index, Some(0));
    assert!(!s.is_complete());
}

#[test]
fn stepping_replaces_the_leftmost_nonterminal() {
    let g = plus_grammar();
    let s0 = Sentential::new_initial(&g);
    let s1 = s0.new_next(&g, 0).ok().unwrap();
    assert_eq!(s1.form, "E+e");
    assert_eq!(s1.first_nt_index, Some(0));
    let s2 = s1.new_next(&g, 1).ok().unwrap();
    assert_eq!(s2.form, "x+e");
    assert_eq!(s2.first_nt_index, None);
    assert!(s2.is_complete());
}

#[test]
fn stepping_a_complete_form_fails() {
    let g = plus_grammar();
    let s0 = Sentential::new_initial(&g);
    let s1 = s0.new_next(&g, 1).ok().unwrap();
    assert!(s1.is_complete());
    assert!(matches!(s1.new_next(&g, 0), Err(DerivationError::NoNonTerminal)));
}

#[test]
fn mismatched_rule_fails_and_leaves_steps_unchanged() {
    let g = Grammar::from_rules(vec![
        Rule::new('E', "Gp"),
        Rule::new('G', "s"),
        Rule::new('E', "x"),
    ])
    .unwrap();
    let mut d = Derivation::new(&g);
    // The leftmost nonterminal is E, but rule 1 produces from G.
    let r = d.derive_leftmost(&g, 1);
    assert!(matches!(r, Err(DerivationError::InvalidRule)));
    assert_eq!(d.steps.len(), 1);
    assert_eq!(d.word(), "E");
}

#[test]
fn complete_derivation_refuses_another_step() {
    let g = plus_grammar();
    let mut d = Derivation::new(&g);
    d.derive_leftmost(&g, 1).unwrap();
    assert!(d.is_complete());
    let before = d.steps.len();
    let r = d.derive_leftmost(&g, 0);
    assert!(matches!(r, Err(DerivationError::NoNonTerminal)));
    assert_eq!(d.steps.len(), before);
}

#[test]
fn leftmost_nonterminal_tracks_the_last_form() {
    let g = plus_grammar();
    let mut d = Derivation::new(&g);
    assert_eq!(d.leftmost_nonterminal(), Some('E'));
    d.derive_leftmost(&g, 0).unwrap();
    assert_eq!(d.leftmost_nonterminal(), Some('E'));
    d.derive_leftmost(&g, 1).unwrap();
    assert_eq!(d.leftmost_nonterminal(), None);
}

#[test]
fn history_renders_one_line_per_step() {
    let g = plus_grammar();
    let mut d = Derivation::new(&g);
    d.derive_leftmost(&g, 0).unwrap();
    d.derive_leftmost(&g, 1).unwrap();
    let history = d.get_history();
    assert_eq!(
        history,
        "Start: E\nStep 1: Apply Rule 0: E+e\nStep 2: Apply Rule 1: x+e\n"
    );
    assert_eq!(history.lines().count(), d.steps.len());
    assert!(history.starts_with("Start: E\n"));
}

#[test]
fn history_renders_two_digit_step_numbers() {
    let g = Grammar::from_rules(vec![Rule::new('E', "Ee"), Rule::new('E', "e")]).unwrap();
    let mut d = Derivation::new(&g);
    for _ in 0..11 {
        d.derive_leftmost(&g, 0).unwrap();
    }
    d.derive_leftmost(&g, 1).unwrap();
    assert!(d.is_complete());
    assert_eq!(d.word(), "e".repeat(12));
    let history = d.get_history();
    assert_eq!(history.lines().count(), 13);
    let last = history.lines().last().unwrap();
    assert_eq!(last, format!("Step 12: Apply Rule 1: {}", "e".repeat(12)));
}

#[test]
fn word_is_the_last_form() {
    let g = plus_grammar();
    let mut d = Derivation::new(&g);
    assert_eq!(d.word(), "E");
    d.derive_leftmost(&g, 0).unwrap();
    assert_eq!(d.word(), "E+e");
    d.derive_leftmost(&g, 1).unwrap();
    assert_eq!(d.word(), "x+e");
}

#[test]
fn seed_step_carries_no_rule_index() {
    let g = plus_grammar();
    let d = Derivation::new(&g);
    assert_eq!(d.steps.len(), 1);
    assert_eq!(d.steps[0].0, None);
    assert_eq!(d.steps[0].1.form, "E");
}
