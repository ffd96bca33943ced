use chomsky::cfg::is_nonterminal;

#[test]
fn test_single_uppercase_letter_is_nonterminal() {
    assert!(is_nonterminal("A"));
    assert!(is_nonterminal("Z"));
}

#[test]
fn test_groups_with_letters_digits_commas() {
    assert!(is_nonterminal("A_1,2"));
    assert!(is_nonterminal("S_newstart"));
    assert!(is_nonterminal("A_extra0,1"));
    assert!(is_nonterminal("U_extra,0"));
}

#[test]
fn test_terminals_are_rejected() {
    assert!(!is_nonterminal("a"));
    assert!(!is_nonterminal("0"));
    assert!(!is_nonterminal("."));
    assert!(!is_nonterminal(""));
    assert!(!is_nonterminal("AB"));
    assert!(!is_nonterminal("A_"));
    assert!(!is_nonterminal("A__b"));
    assert!(!is_nonterminal("A_b_"));
    assert!(!is_nonterminal("_a"));
}
