use grammer_sets::grammer::check_grammer;
use grammer_sets::parser::{lex, parse, Token};

#[test]
fn parses_description() {
    let text = b":Start: S\n:Terminals: a b\n:NonTerminals: S A\n:Rules:\n  S -> A b .\n  A -> a.\n";
    let g = parse(text).unwrap();
    assert_eq!(g.start, "S");
    assert_eq!(g.terminals, vec!["a", "b"]);
    assert_eq!(g.non_terminals, vec!["S", "A"]);
    assert_eq!(g.rules.len(), 2);
    assert_eq!(g.rules[0].head, "S");
    assert_eq!(g.rules[0].alternate, vec!["A", "b"]);
    assert_eq!(g.rules[1].head, "A");
    assert_eq!(g.rules[1].alternate, vec!["a"]);
    assert!(check_grammer(&g).is_ok());
}

#[test]
fn parses_without_spaces_around_symbols() {
    let g = parse(b":Start:S:Terminals:x:NonTerminals:S:Rules:S->x.S->Empty.").unwrap();
    assert_eq!(g.start, "S");
    assert_eq!(g.rules.len(), 2);
    assert_eq!(g.rules[1].alternate, vec!["Empty"]);
}

#[test]
fn rejects_malformed_descriptions() {
    assert!(parse(b"").is_none());
    assert!(parse(b":Terminals: a :NonTerminals: S :Rules: S -> a .").is_none());
    assert!(parse(b":Start: S :Terminals: :NonTerminals: S :Rules: S -> a .").is_none());
    assert!(parse(b":Start: S :Terminals: a :NonTerminals: S :Rules:").is_none());
    assert!(parse(b":Start: S :Terminals: a :NonTerminals: S :Rules: S -> .").is_none());
    assert!(parse(b":Start: S :Terminals: a :NonTerminals: S :Rules: S -> a").is_none());
    assert!(parse(b":Start: S :Terminals: a :NonTerminals: S :Rules: S a .").is_none());
    assert!(parse(b":Start: S :Terminals: a :NonTerminals: S :Rules: S -> a . junk").is_none());
    assert!(parse(b":Start: S :Terminals: a_b :NonTerminals: S :Rules: S -> a .").is_none());
}

#[test]
fn lexes_names_and_keywords() {
    let toks = lex(b" ab12 -> . :Rules:").unwrap();
    assert_eq!(toks.len(), 4);
    match &toks[0] {
        Token::Name(b) => assert_eq!(b, &b"ab12".to_vec()),
        _ => panic!("expected a name"),
    }
    assert!(matches!(toks[1], Token::Arrow));
    assert!(matches!(toks[2], Token::Dot));
    assert!(matches!(toks[3], Token::Rules));
    assert!(lex(b"a : b").is_none());
}
