use rose::rule::Rule;

#[test]
fn new_keeps_both_sides() {
    let r = Rule::new('E', "E+e");
    assert_eq!(r.lhs, 'E');
    assert_eq!(r.rhs, "E+e");
}

#[test]
fn display_renders_arrow_form() {
    let r = Rule::new('E', "E+e");
    assert_eq!(r.display(), "E -> E+e");
    let empty = Rule::new('G', "");
    assert_eq!(empty.display(), "G -> ");
}

#[test]
fn validity_is_uppercase_lhs() {
    assert!(!Rule::new('a', "bc").is_valid());
    assert!(Rule::new('A', "bc").is_valid());
    assert!(!Rule::new('+', "bc").is_valid());
}

#[test]
fn single_terminal_is_both_regular() {
    let r = Rule::new('E', "x");
    assert!(r.is_left_regular());
    assert!(r.is_right_regular());
}

#[test]
fn long_rhs_is_neither_regular() {
    let r = Rule::new('E', "E+e");
    assert!(!r.is_left_regular());
    assert!(!r.is_right_regular());
}

#[test]
fn two_symbol_shapes() {
    let left = Rule::new('E', "Ee");
    assert!(left.is_left_regular());
    assert!(!left.is_right_regular());

    let right = Rule::new('E', "eE");
    assert!(!right.is_left_regular());
    assert!(right.is_right_regular());

    let two_terminals = Rule::new('E', "ee");
    assert!(!two_terminals.is_left_regular());
    assert!(!two_terminals.is_right_regular());

    let two_nonterminals = Rule::new('E', "EE");
    assert!(!two_nonterminals.is_left_regular());
    assert!(!two_nonterminals.is_right_regular());
}

#[test]
fn empty_rhs_is_neither_regular() {
    let r = Rule::new('E', "");
    assert!(!r.is_left_regular());
    assert!(!r.is_right_regular());
}

#[test]
fn single_nonterminal_is_neither_regular() {
    let r = Rule::new('E', "G");
    assert!(!r.is_left_regular());
    assert!(!r.is_right_regular());
}
