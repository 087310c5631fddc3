use rose::derivation::Derivation;
use rose::grammar::Grammar;
use rose::rng::Rng;
use rose::rule::Rule;

fn sample_grammar() -> Grammar {
    Grammar::from_rules(vec![
        Rule::new('E', "E+e"),
        Rule::new('E', "Ee"),
        Rule::new('E', "eeE"),
        Rule::new('E', "Gp"),
        Rule::new('G', "s"),
        Rule::new('E', "x"),
    ])
    .unwrap()
}

#[test]
fn zero_budget_with_nonterminal_start_gives_no_word() {
    let g = sample_grammar();
    let mut d = Derivation::new(&g);
    let mut rng = Rng::new(7);
    assert_eq!(d.derive_random(&g, Some(0), &mut rng), None);
    assert_eq!(d.steps.len(), 1);
}

#[test]
fn zero_budget_with_terminal_only_first_production_still_gives_no_word() {
    // Even though `S -> s` would finish in one application, a budget of
    // zero forbids that application.
    let g = Grammar::from_rules(vec![Rule::new('S', "s")]).unwrap();
    let mut d = Derivation::new(&g);
    let mut rng = Rng::new(7);
    assert_eq!(d.derive_random(&g, Some(0), &mut rng), None);
    let mut d2 = Derivation::new(&g);
    assert_eq!(d2.derive_random(&g, Some(1), &mut rng), Some("s".to_string()));
}

#[test]
fn terminal_start_symbol_is_complete_immediately() {
    // An invalid first rule makes the start symbol a terminal, so the
    // seed form is already a finished word, whatever the budget.
    let g = Grammar::from_rules(vec![Rule::new('a', "b")]).unwrap();
    let mut d = Derivation::new(&g);
    let mut rng = Rng::new(7);
    assert_eq!(d.derive_random(&g, Some(0), &mut rng), Some("a".to_string()));
    assert_eq!(d.steps.len(), 1);
}

#[test]
fn budget_is_never_exceeded() {
    // `E -> Ee` keeps a nonterminal forever, so the budget is always hit.
    let g = Grammar::from_rules(vec![Rule::new('E', "Ee")]).unwrap();
    for budget in [0usize, 1, 5, 20] {
        let mut d = Derivation::new(&g);
        let mut rng = Rng::new(42);
        assert_eq!(d.derive_random(&g, Some(budget), &mut rng), None);
        assert!(d.steps.len() <= 1 + budget);
    }
}

#[test]
fn dead_end_gives_no_word() {
    // After the only applicable rule, the leftmost nonterminal G has no
    // production: the derivation is stuck.
    let g = Grammar::from_rules(vec![Rule::new('E', "Gx")]).unwrap();
    let mut d = Derivation::new(&g);
    let mut rng = Rng::new(3);
    assert_eq!(d.derive_random(&g, Some(10), &mut rng), None);
    assert_eq!(d.word(), "Gx");
}

#[test]
fn unbounded_generation_finishes_on_a_finishing_grammar() {
    let g = Grammar::from_rules(vec![Rule::new('E', "x")]).unwrap();
    let mut d = Derivation::new(&g);
    let mut rng = Rng::new(9);
    assert_eq!(d.derive_random(&g, None, &mut rng), Some("x".to_string()));
}

#[test]
fn generated_words_hold_no_nonterminal() {
    let g = sample_grammar();
    for seed in 0..40u64 {
        let mut d = Derivation::new(&g);
        let mut rng = Rng::new(seed);
        if let Some(word) = d.derive_random(&g, Some(20), &mut rng) {
            assert!(word.chars().all(|c| !c.is_ascii_uppercase()), "word {word}");
            assert_eq!(d.word(), word);
        } else {
            assert!(d.steps.len() <= 21);
        }
    }
}

#[test]
fn equal_seeds_derive_equal_words() {
    let g = sample_grammar();
    let mut d1 = Derivation::new(&g);
    let mut d2 = Derivation::new(&g);
    let mut rng1 = Rng::new(123);
    let mut rng2 = Rng::new(123);
    let w1 = d1.derive_random(&g, Some(20), &mut rng1);
    let w2 = d2.derive_random(&g, Some(20), &mut rng2);
    assert_eq!(w1, w2);
    assert_eq!(d1.get_history(), d2.get_history());
}
