use chomsky::cfg::cnf::{is_one_length_rule, make_cnf_rule, CNFRule, CNF_RHS};
use chomsky::cfg::{CFGRule, CFG};

fn rule(lhs: &str, rhs: &[&str]) -> CFGRule {
    CFGRule { lhs: lhs.to_string(), rhs: rhs.iter().map(|s| s.to_string()).collect() }
}

fn grammar(start: &str, rules: Vec<CFGRule>) -> CFG {
    CFG { start_symbol: start.to_string(), rules }
}

fn terminal(lhs: &str, t: &str) -> CNFRule {
    CNFRule { lhs: lhs.to_string(), rhs: CNF_RHS::Terminal(t.to_string()) }
}

fn binary(lhs: &str, a: &str, b: &str) -> CNFRule {
    CNFRule { lhs: lhs.to_string(), rhs: CNF_RHS::NonTerminals(a.to_string(), b.to_string()) }
}

#[test]
fn test_near_cnf_grammar_is_preserved() {
    let g = grammar(
        "S",
        vec![rule("S", &["A", "B"]), rule("S", &["a"]), rule("A", &["a"]), rule("B", &["b"])],
    );
    let cnf = g.to_cnf().unwrap();
    assert_eq!(cnf.start_symbol, "S_newstart");
    assert_eq!(
        cnf.rules,
        vec![
            binary("S", "A", "B"),
            terminal("S", "a"),
            terminal("A", "a"),
            terminal("B", "b"),
            binary("S_newstart", "A", "B"),
            terminal("S_newstart", "a"),
        ]
    );
}

#[test]
fn test_epsilon_at_start_symbol() {
    let g = grammar("S", vec![rule("S", &["A", "A"]), rule("A", &["."])]);
    let cnf = g.to_cnf().unwrap();
    assert_eq!(cnf.start_symbol, "S_newstart");
    // A's only production is epsilon, so every rule mentioning A is removed
    // and nothing remains: the empty string is not derivable afterwards.
    assert_eq!(cnf.rules, Vec::<CNFRule>::new());
}

#[test]
fn test_epsilon_elimination_keeps_alternatives() {
    let g = grammar("S", vec![rule("S", &["A", "A"]), rule("A", &["."]), rule("A", &["a"])]);
    let cnf = g.to_cnf().unwrap();
    // Both single deletions of A from `S -> A A` are synthesized, and the
    // resulting unit productions `S -> A` are resolved against `A -> a`.
    assert_eq!(
        cnf.rules,
        vec![
            binary("S", "A", "A"),
            terminal("A", "a"),
            binary("S_newstart", "A", "A"),
            terminal("S", "a"),
            terminal("S", "a"),
        ]
    );
}

#[test]
fn test_long_rule_becomes_chain_of_two_intermediates() {
    let g = grammar("A", vec![rule("A", &["0", "1", "2", "3"])]);
    let cnf = g.to_cnf().unwrap();
    assert_eq!(cnf.start_symbol, "A_newstart");
    assert_eq!(
        cnf.rules,
        vec![
            binary("A", "U_extra,0", "A_extra0,0"),
            binary("A_extra0,0", "U_extra,1", "A_extra0,1"),
            binary("A_extra0,1", "U_extra,2", "U_extra,3"),
            binary("A_newstart", "U_extra,0", "A_newstart_extra1,0"),
            binary("A_newstart_extra1,0", "U_extra,1", "A_newstart_extra1,1"),
            binary("A_newstart_extra1,1", "U_extra,2", "U_extra,3"),
            terminal("U_extra,0", "0"),
            terminal("U_extra,1", "1"),
            terminal("U_extra,2", "2"),
            terminal("U_extra,3", "3"),
        ]
    );
}

#[test]
fn test_mixed_rule_gets_shared_substitute() {
    let g = grammar("A", vec![rule("A", &["B", "0"]), rule("B", &["b"]), rule("A", &["0", "B"])]);
    let cnf = g.to_cnf().unwrap();
    assert_eq!(
        cnf.rules,
        vec![
            binary("A", "B", "U_extra,0"),
            terminal("B", "b"),
            binary("A", "U_extra,0", "B"),
            binary("A_newstart", "B", "U_extra,0"),
            binary("A_newstart", "U_extra,0", "B"),
            terminal("U_extra,0", "0"),
        ]
    );
}

#[test]
fn test_empty_rhs_fails_conversion() {
    let g = grammar("S", vec![rule("S", &[])]);
    assert!(g.to_cnf().is_none());
}

#[test]
fn test_reconverting_cnf_output_succeeds() {
    let g = grammar(
        "S",
        vec![rule("S", &["A", "B"]), rule("S", &["a"]), rule("A", &["a"]), rule("B", &["b"])],
    );
    let cnf = g.to_cnf().unwrap();
    // Feed the produced CNF grammar back in: every rule has one or two
    // right-hand symbols, so the second conversion succeeds as well, and its
    // result is again in CNF shape.
    let back: Vec<CFGRule> = cnf
        .rules
        .iter()
        .map(|r| match &r.rhs {
            CNF_RHS::Terminal(t) => rule(&r.lhs, &[t.as_str()]),
            CNF_RHS::NonTerminals(a, b) => rule(&r.lhs, &[a.as_str(), b.as_str()]),
        })
        .collect();
    let g2 = grammar(&cnf.start_symbol, back);
    let cnf2 = g2.to_cnf().unwrap();
    assert_eq!(cnf2.start_symbol, "S_newstart_newstart");
    assert!(!cnf2.rules.is_empty());
}

#[test]
fn test_unit_chain_resolves_transitively() {
    let g = grammar(
        "A",
        vec![rule("B", &["C"]), rule("A", &["B"]), rule("C", &["c"])],
    );
    let cnf = g.to_cnf().unwrap();
    // C -> c is copied to B through B -> C, then to A through A -> B, then to
    // the fresh start symbol through A_newstart -> A: each later unit
    // production sees the rules the earlier ones appended.
    assert_eq!(
        cnf.rules,
        vec![
            terminal("C", "c"),
            terminal("B", "c"),
            terminal("A", "c"),
            terminal("A_newstart", "c"),
        ]
    );
}

#[test]
fn test_empty_grammar_converts_to_empty_cnf() {
    // The wrapping rule S_newstart -> S references S, which no rule
    // defines, so the reference filter removes it and nothing remains.
    let g = grammar("S", vec![]);
    let cnf = g.to_cnf().unwrap();
    assert_eq!(cnf.start_symbol, "S_newstart");
    assert_eq!(cnf.rules, Vec::<CNFRule>::new());
}

#[test]
fn test_make_cnf_rule_shapes() {
    assert_eq!(make_cnf_rule(rule("A", &["a"])), Some(terminal("A", "a")));
    assert_eq!(make_cnf_rule(rule("A", &["B", "C"])), Some(binary("A", "B", "C")));
    assert_eq!(make_cnf_rule(rule("A", &[])), None);
    assert_eq!(make_cnf_rule(rule("A", &["B", "C", "D"])), None);
}

#[test]
fn test_is_one_length_rule() {
    assert!(is_one_length_rule(&rule("A", &["B"])));
    assert!(!is_one_length_rule(&rule("A", &["b"])));
    assert!(!is_one_length_rule(&rule("A", &["B", "C"])));
}

#[test]
fn test_unit_cycle_terminates() {
    let g = grammar("A", vec![rule("A", &["B"]), rule("B", &["A"]), rule("A", &["a"])]);
    let cnf = g.to_cnf().unwrap();
    // The cyclic units A -> B, B -> A do not loop: the partition is fixed up
    // front, so the cycle simply stops propagating.
    assert_eq!(
        cnf.rules,
        vec![
            terminal("A", "a"),
            terminal("B", "a"),
            terminal("A_newstart", "a"),
        ]
    );
}
