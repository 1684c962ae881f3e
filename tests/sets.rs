use grammer_sets::alphabet::SymbolId;
use grammer_sets::grammer::{check_grammer, Grammer, RawGrammer, RawRule};
use grammer_sets::sets::{compute_first_and_follow, first_sets, follow_sets, EntrySets, SetEntry};

fn names(v: &[&str]) -> Vec<String> {
    v.iter().map(|s| s.to_string()).collect()
}

fn rule(head: &str, alt: &[&str]) -> RawRule {
    RawRule { head: head.to_string(), alternate: names(alt) }
}

fn build(start: &str, ts: &[&str], nts: &[&str], rules: Vec<RawRule>) -> Grammer {
    let raw = RawGrammer {
        start: start.to_string(),
        terminals: names(ts),
        non_terminals: names(nts),
        rules,
    };
    check_grammer(&raw).ok().unwrap()
}

fn id(g: &Grammer, name: &str) -> SymbolId {
    g.alphabet().id_for_name(name).unwrap()
}

fn labels(g: &Grammer, sets: &EntrySets, name: &str) -> Vec<String> {
    let mut out: Vec<String> = sets
        .entries(id(g, name))
        .iter()
        .map(|e| match e {
            SetEntry::Id(t) => g.alphabet().name_for_id(*t).unwrap().clone(),
            SetEntry::Empty => "Empty".to_string(),
            SetEntry::End => "End".to_string(),
        })
        .collect();
    out.sort();
    out
}

fn simple() -> Grammer {
    build("S", &["a", "b"], &["S", "A"], vec![rule("S", &["A", "b"]), rule("A", &["a"])])
}

fn vanishing() -> Grammer {
    build("S", &["a", "b"], &["S", "A"], vec![rule("S", &["A", "b"]), rule("A", &["Empty"])])
}

#[test]
fn scenario_first_and_follow() {
    let g = simple();
    let (first, follow) = compute_first_and_follow(&g);
    assert_eq!(labels(&g, &first, "A"), vec!["a"]);
    assert_eq!(labels(&g, &first, "S"), vec!["a"]);
    assert_eq!(labels(&g, &follow, "A"), vec!["b"]);
    assert_eq!(labels(&g, &follow, "S"), vec!["End"]);
}

#[test]
fn scenario_vanishing_non_terminal() {
    let g = vanishing();
    let (first, follow) = compute_first_and_follow(&g);
    assert_eq!(labels(&g, &first, "A"), vec!["Empty"]);
    assert_eq!(labels(&g, &first, "S"), vec!["b"]);
    assert_eq!(labels(&g, &follow, "A"), vec!["b"]);
    assert_eq!(labels(&g, &follow, "S"), vec!["End"]);
}

#[test]
fn first_of_terminal_is_itself() {
    let g = build(
        "E",
        &["plus", "x", "lp", "rp"],
        &["E", "T", "R"],
        vec![
            rule("E", &["T", "R"]),
            rule("R", &["plus", "T", "R"]),
            rule("R", &["Empty"]),
            rule("T", &["x"]),
            rule("T", &["lp", "E", "rp"]),
        ],
    );
    let first = first_sets(&g);
    for t in ["plus", "x", "lp", "rp"] {
        assert_eq!(labels(&g, &first, t), vec![t.to_string()]);
        assert_eq!(first.entries(id(&g, t)), vec![SetEntry::Id(id(&g, t))]);
    }
    assert_eq!(labels(&g, &first, "E"), vec!["lp", "x"]);
    assert_eq!(labels(&g, &first, "R"), vec!["Empty", "plus"]);
    let follow = follow_sets(&g);
    assert_eq!(labels(&g, &follow, "E"), vec!["End", "rp"]);
    assert_eq!(labels(&g, &follow, "R"), vec!["End", "rp"]);
    assert_eq!(labels(&g, &follow, "T"), vec!["End", "plus", "rp"]);
    for t in ["plus", "x", "lp", "rp"] {
        assert!(follow.entries(id(&g, t)).is_empty());
    }
}

#[test]
fn epsilon_rule_puts_empty_in_first() {
    let g = build("S", &["a"], &["S", "B"], vec![rule("S", &["B", "a"]), rule("B", &["Empty"]), rule("B", &["a", "B"])]);
    let first = first_sets(&g);
    assert!(first.contains(id(&g, "B"), SetEntry::Empty));
    assert!(!first.contains(id(&g, "S"), SetEntry::Empty));
    assert!(first.contains(id(&g, "S"), SetEntry::Id(id(&g, "a"))));
}

#[test]
fn end_follows_start() {
    let g = build("S", &["a"], &["S"], vec![rule("S", &["a", "S"]), rule("S", &["a"])]);
    let follow = follow_sets(&g);
    assert!(follow.contains(g.start(), SetEntry::End));
    assert_eq!(labels(&g, &follow, "S"), vec!["End"]);
}

#[test]
fn whole_alternate_vanishing_gives_empty() {
    let g = build(
        "S",
        &["c"],
        &["S", "A", "B"],
        vec![rule("S", &["A", "B"]), rule("A", &["Empty"]), rule("B", &["Empty"]), rule("B", &["c"])],
    );
    let (first, follow) = compute_first_and_follow(&g);
    assert_eq!(labels(&g, &first, "S"), vec!["Empty", "c"]);
    assert_eq!(labels(&g, &follow, "A"), vec!["End", "c"]);
    assert_eq!(labels(&g, &follow, "B"), vec!["End"]);
}

#[test]
fn recomputation_gives_same_sets() {
    let g = vanishing();
    let (f1, o1) = compute_first_and_follow(&g);
    let (f2, o2) = compute_first_and_follow(&g);
    for n in ["S", "A", "a", "b"] {
        assert_eq!(f1.entries(id(&g, n)), f2.entries(id(&g, n)));
        assert_eq!(o1.entries(id(&g, n)), o2.entries(id(&g, n)));
    }
}

#[test]
fn rule_order_does_not_matter() {
    let g1 = build(
        "S",
        &["a", "b"],
        &["S", "A", "B"],
        vec![rule("S", &["A", "B"]), rule("A", &["B", "a"]), rule("B", &["Empty"]), rule("B", &["b"])],
    );
    let g2 = build(
        "S",
        &["a", "b"],
        &["S", "A", "B"],
        vec![rule("B", &["b"]), rule("B", &["Empty"]), rule("A", &["B", "a"]), rule("S", &["A", "B"])],
    );
    let (f1, o1) = compute_first_and_follow(&g1);
    let (f2, o2) = compute_first_and_follow(&g2);
    for n in ["S", "A", "B"] {
        assert_eq!(labels(&g1, &f1, n), labels(&g2, &f2, n));
        assert_eq!(labels(&g1, &o1, n), labels(&g2, &o2, n));
    }
    assert_eq!(labels(&g1, &f1, "S"), vec!["a", "b"]);
    assert_eq!(labels(&g1, &o1, "B"), vec!["End", "a"]);
}

#[test]
fn left_recursion_reaches_fixed_point() {
    let g = build("S", &["x", "y"], &["S"], vec![rule("S", &["S", "x"]), rule("S", &["y"])]);
    let (first, follow) = compute_first_and_follow(&g);
    assert_eq!(labels(&g, &first, "S"), vec!["y"]);
    assert_eq!(labels(&g, &follow, "S"), vec!["End", "x"]);
    assert_eq!(first.len(), 3);
}
