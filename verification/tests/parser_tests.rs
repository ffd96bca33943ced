use chomsky::cfg::parser::{parse, tokenize_rule};
use chomsky::cfg::CFGRule;

fn rule(lhs: &str, rhs: &[&str]) -> CFGRule {
    CFGRule { lhs: lhs.to_string(), rhs: rhs.iter().map(|s| s.to_string()).collect() }
}

#[test]
fn test_tokenize() {
    let s = "A010 U_1";
    let tokenized = tokenize_rule(s);
    let expected = vec!["A", "0", "1", "0", "U_1"];
    assert_eq!(tokenized, expected);
}

#[test]
fn test_parse() {
    let rule_str = "A -> 012 U_0 1324 | AB";
    let expected = vec![
        CFGRule {
            lhs: String::from("A"),
            rhs: vec!["0", "1", "2", "U_0", "1", "3", "2", "4"]
                .iter()
                .map(|i| i.to_string())
                .collect(),
        },
        CFGRule { lhs: "A".to_string(), rhs: vec!["A".to_string(), "B".to_string()] },
    ];
    let parsed = parse(rule_str);
    assert!(parsed.is_some());
    assert_eq!(parsed.unwrap(), expected);
}

#[test]
fn test_parse_no_arrow() {
    assert!(parse("S A B").is_none());
}

#[test]
fn test_parse_lowercase_lhs() {
    assert!(parse("a -> b").is_none());
}

#[test]
fn test_parse_empty_alternative() {
    let parsed = parse("A -> ").unwrap();
    assert_eq!(parsed, vec![rule("A", &[])]);
}

#[test]
fn test_parse_trims_and_splits_alternatives() {
    let parsed = parse("  S  ->  A B  |  a  ").unwrap();
    assert_eq!(parsed, vec![rule("S", &["A", "B"]), rule("S", &["a"])]);
}

#[test]
fn test_tokenize_splits_terminals_per_character() {
    assert_eq!(tokenize_rule("ab"), vec!["a".to_string(), "b".to_string()]);
    assert_eq!(tokenize_rule("X_1 yz"), vec!["X_1".to_string(), "y".to_string(), "z".to_string()]);
}
