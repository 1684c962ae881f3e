use grammer_sets::alphabet::{is_reserved, RawTypedAlphabet, SymbolId, SymbolType};
use grammer_sets::grammer::{check_grammer, validation_diagnostics, ErrorKind, RawGrammer, RawRule};

fn names(v: &[&str]) -> Vec<String> {
    v.iter().map(|s| s.to_string()).collect()
}

fn rule(head: &str, alt: &[&str]) -> RawRule {
    RawRule { head: head.to_string(), alternate: names(alt) }
}

fn grammar(start: &str, ts: &[&str], nts: &[&str], rules: Vec<RawRule>) -> RawGrammer {
    RawGrammer { start: start.to_string(), terminals: names(ts), non_terminals: names(nts), rules }
}

fn kinds(raw: &RawGrammer) -> Vec<ErrorKind> {
    validation_diagnostics(raw).iter().map(|d| d.kind).collect()
}

#[test]
fn valid_grammar_is_accepted() {
    let raw = grammar("S", &["a", "b"], &["S", "A"], vec![rule("S", &["A", "b"]), rule("A", &["a"])]);
    assert!(kinds(&raw).is_empty());
    let g = check_grammer(&raw).ok().unwrap();
    let al = g.alphabet();
    assert_eq!(al.len(), 4);
    let s = al.id_for_name("S").unwrap();
    assert_eq!(s, g.start());
    assert_eq!(al.type_for_id(s), Some(SymbolType::NonTerminal));
    let a = al.id_for_name("a").unwrap();
    assert_eq!(al.type_for_id(a), Some(SymbolType::Terminal));
    assert_eq!(al.name_for_id(a).unwrap(), "a");
    assert_eq!(g.num_rules(), 2);
    assert_eq!(g.rule_head(0), s);
    let alt: Vec<&str> =
        g.rule_alternate(0).iter().map(|id| al.name_for_id(*id).unwrap().as_str()).collect();
    assert_eq!(alt, vec!["A", "b"]);
}

#[test]
fn conflicting_declaration_is_rejected() {
    let raw = grammar("S", &["a", "x"], &["S", "x"], vec![rule("S", &["a"])]);
    assert_eq!(kinds(&raw), vec![ErrorKind::ConflictingDeclaration]);
    let err = check_grammer(&raw).err().unwrap();
    assert_eq!(err.len(), 1);
    assert_eq!(err[0].name, "x");
}

#[test]
fn conflicting_declaration_unused_elsewhere_is_rejected() {
    let raw = grammar("S", &["a", "q"], &["S", "q"], vec![rule("S", &["a"])]);
    assert!(check_grammer(&raw).is_err());
}

#[test]
fn reserved_name_as_terminal_is_rejected() {
    let raw = grammar("S", &["a", "Empty"], &["S"], vec![rule("S", &["a"])]);
    assert_eq!(kinds(&raw), vec![ErrorKind::ReservedNameMisuse]);
    assert!(check_grammer(&raw).is_err());
}

#[test]
fn reserved_name_as_non_terminal_is_rejected() {
    let raw = grammar("S", &["a"], &["S", "Empty"], vec![rule("S", &["a"])]);
    assert_eq!(kinds(&raw), vec![ErrorKind::ReservedNameMisuse]);
    assert!(check_grammer(&raw).is_err());
}

#[test]
fn reserved_name_as_rule_head_is_rejected() {
    let raw = grammar("S", &["a"], &["S"], vec![rule("S", &["a"]), rule("Empty", &["a"])]);
    assert_eq!(kinds(&raw), vec![ErrorKind::EmptyAsRuleHead, ErrorKind::UndeclaredRuleHead]);
    assert!(check_grammer(&raw).is_err());
}

#[test]
fn start_declared_as_terminal_is_rejected() {
    let raw = grammar("S", &["a", "S"], &["A"], vec![rule("S", &["a"])]);
    assert_eq!(kinds(&raw), vec![ErrorKind::StartSymbolConflict, ErrorKind::TerminalUsedAsHead]);
    assert_eq!(check_grammer(&raw).err().unwrap().len(), 2);
}

#[test]
fn terminal_as_rule_head_is_rejected() {
    let raw = grammar("S", &["a"], &["S"], vec![rule("S", &["a"]), rule("a", &["S"])]);
    assert_eq!(kinds(&raw), vec![ErrorKind::TerminalUsedAsHead]);
}

#[test]
fn undeclared_rule_head_stops_validation() {
    let raw = grammar(
        "S",
        &["a"],
        &["S"],
        vec![rule("S", &["a", "zz"]), rule("X", &["a"]), rule("Y", &["a"])],
    );
    let k = kinds(&raw);
    assert_eq!(k, vec![ErrorKind::UndeclaredSymbol, ErrorKind::UndeclaredRuleHead]);
    assert_eq!(k.iter().filter(|x| **x == ErrorKind::UndeclaredRuleHead).count(), 1);
    let err = check_grammer(&raw).err().unwrap();
    assert_eq!(err.len(), 2);
    assert_eq!(err[1].name, "X");
}

#[test]
fn undeclared_rule_head_alone() {
    let raw = grammar("S", &["a"], &["S"], vec![rule("S", &["a"]), rule("X", &["a"])]);
    assert_eq!(kinds(&raw), vec![ErrorKind::UndeclaredRuleHead]);
    assert!(check_grammer(&raw).is_err());
}

#[test]
fn missing_start_rule_is_reported_once() {
    let raw = grammar("S", &["a", "b"], &["S", "A"], vec![rule("A", &["a"])]);
    assert_eq!(kinds(&raw), vec![ErrorKind::StartSymbolHasNoRule]);
    let err = check_grammer(&raw).err().unwrap();
    assert_eq!(err.len(), 1);
    assert_eq!(err[0].name, "S");
}

#[test]
fn misplaced_empty_is_rejected() {
    let raw = grammar("S", &["a"], &["S"], vec![rule("S", &["a", "Empty"])]);
    assert_eq!(kinds(&raw), vec![ErrorKind::MisplacedEmptySymbol]);
}

#[test]
fn undeclared_symbol_is_rejected() {
    let raw = grammar("S", &["a"], &["S"], vec![rule("S", &["a", "c", "d"])]);
    assert_eq!(kinds(&raw), vec![ErrorKind::UndeclaredSymbol, ErrorKind::UndeclaredSymbol]);
}

#[test]
fn errors_accumulate_across_phases() {
    let raw = grammar("S", &["Empty", "x"], &["x", "S"], vec![rule("S", &["q"])]);
    assert_eq!(
        kinds(&raw),
        vec![
            ErrorKind::ReservedNameMisuse,
            ErrorKind::ConflictingDeclaration,
            ErrorKind::UndeclaredSymbol
        ]
    );
    assert_eq!(check_grammer(&raw).err().unwrap().len(), 3);
}

#[test]
fn start_need_not_be_listed_as_non_terminal() {
    let raw = grammar("S", &["a"], &["A"], vec![rule("S", &["A"]), rule("A", &["a"])]);
    let g = check_grammer(&raw).ok().unwrap();
    assert_eq!(g.alphabet().len(), 3);
    assert_eq!(g.alphabet().id_for_name("S"), Some(g.start()));
}

#[test]
fn epsilon_rule_has_no_symbols() {
    let raw = grammar("S", &["a"], &["S"], vec![rule("S", &["Empty"]), rule("S", &["a"])]);
    let g = check_grammer(&raw).ok().unwrap();
    assert_eq!(g.rule_alternate(0).len(), 0);
    assert_eq!(g.rule_alternate(1).len(), 1);
}

#[test]
fn reserved_name_is_recognised() {
    assert!(is_reserved(&"Empty".to_string()));
    assert!(!is_reserved(&"empty".to_string()));
    assert!(!is_reserved(&"End".to_string()));
}

#[test]
fn symbol_table_builder() {
    let mut b = RawTypedAlphabet::new();
    let x = b.insert("x".to_string(), SymbolType::Terminal);
    let y = b.insert("Y".to_string(), SymbolType::NonTerminal);
    assert_eq!(x, SymbolId::first());
    let mut next = x;
    next.increment();
    assert_eq!(next, y);
    assert_eq!(b.lookup(&"Y".to_string()), Some((y, SymbolType::NonTerminal)));
    assert_eq!(b.lookup(&"z".to_string()), None);
    let t = b.finalize();
    assert_eq!(t.get_type_set(SymbolType::Terminal), &vec![x]);
    assert_eq!(t.get_type_set(SymbolType::NonTerminal), &vec![y]);
    assert!(t.get_type_set(SymbolType::Empty).is_empty());
    assert!(t.is_type(&y, SymbolType::NonTerminal));
    assert!(!t.is_type(&y, SymbolType::Terminal));
    assert!(!t.is_type(&SymbolId { id: 7 }, SymbolType::Terminal));
    assert_eq!(t.name_for_id(SymbolId { id: 7 }), None);
    assert_eq!(t.type_for_id(SymbolId { id: 7 }), None);
    assert_eq!(t.id_for_name("x"), Some(x));
    assert_eq!(t.id_for_name("w"), None);
}

#[test]
fn class_indices_are_distinct() {
    assert_eq!(SymbolType::NonTerminal.index(), 0);
    assert_eq!(SymbolType::Terminal.index(), 1);
    assert_eq!(SymbolType::Empty.index(), 2);
}

#[test]
fn class_sets_of_validated_grammar() {
    let raw = grammar("S", &["a", "b"], &["A"], vec![rule("S", &["A", "b"]), rule("A", &["a"])]);
    let g = check_grammer(&raw).ok().unwrap();
    let al = g.alphabet();
    let ts: Vec<&str> =
        al.get_type_set(SymbolType::Terminal).iter().map(|i| al.name_for_id(*i).unwrap().as_str()).collect();
    let nts: Vec<&str> = al
        .get_type_set(SymbolType::NonTerminal)
        .iter()
        .map(|i| al.name_for_id(*i).unwrap().as_str())
        .collect();
    assert_eq!(ts, vec!["a", "b"]);
    assert_eq!(nts, vec!["A", "S"]);
}
