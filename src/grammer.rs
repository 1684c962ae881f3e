use vstd::prelude::*;

use crate::alphabet::{
    has_name, is_reserved, names_distinct, reserved_name, RawTypedAlphabet, SymbolId, SymbolType,
    TypedAlphabet,
};

verus! {

/// A production as written: a head name and the names of its alternate.
pub struct RawRule {
    pub head: String,
    pub alternate: Vec<String>,
}

/// A grammar as written: start symbol, declared terminals and non-terminals, rules.
pub struct RawGrammer {
    pub start: String,
    pub terminals: Vec<String>,
    pub non_terminals: Vec<String>,
    pub rules: Vec<RawRule>,
}

/// A validated production; an empty alternate is the epsilon production.
pub struct Rule {
    head: SymbolId,
    alternate: Vec<SymbolId>,
}

/// A validated grammar: its symbol table, start symbol and rules.
pub struct Grammer {
    alphabet: TypedAlphabet,
    start: SymbolId,
    rules: Vec<Rule>,
}

impl Grammer {
    /// Name and class of each symbol, indexed by identity.
    pub closed spec fn symbols(&self) -> Seq<(Seq<char>, SymbolType)> {
        self.alphabet@
    }

    pub closed spec fn start_id(&self) -> nat {
        self.start.id as nat
    }

    /// Each rule as its head identity and the identities of its alternate.
    pub closed spec fn rules_view(&self) -> Seq<(nat, Seq<nat>)> {
        self.rules@.map_values(
            |r: Rule| (r.head.id as nat, r.alternate@.map_values(|s: SymbolId| s.id as nat)),
        )
    }

    /// The symbol table's own invariant.
    pub closed spec fn table_wf(&self) -> bool {
        self.alphabet.wf()
    }

    pub open spec fn num_symbols(&self) -> nat {
        self.symbols().len()
    }

    pub open spec fn class_of(&self, x: nat) -> SymbolType {
        self.symbols()[x as int].1
    }

    /// Every rule head is a non-terminal, every alternate symbol is declared,
    /// and the start symbol is a non-terminal.
    pub open spec fn wf(&self) -> bool {
        let n = self.num_symbols();
        &&& names_distinct(self.symbols())
        &&& self.table_wf()
        &&& n + 2 <= usize::MAX
        &&& self.start_id() < n
        &&& self.class_of(self.start_id()) == SymbolType::NonTerminal
        &&& forall|x: nat| x < n ==> #[trigger] self.class_of(x) != SymbolType::Empty
        &&& forall|k: int|
            0 <= k < self.rules_view().len() ==> {
                &&& #[trigger] self.rules_view()[k].0 < n
                &&& self.class_of(self.rules_view()[k].0) == SymbolType::NonTerminal
                &&& forall|j: int|
                    0 <= j < self.rules_view()[k].1.len() ==> #[trigger] self.rules_view()[k].1[j]
                        < n
            }
    }

    pub fn alphabet(&self) -> (r: &TypedAlphabet)
        ensures
            r@ == self.symbols(),
            self.table_wf() ==> r.wf(),
    {
        &self.alphabet
    }

    pub fn start(&self) -> (r: SymbolId)
        ensures
            r.id == self.start_id(),
    {
        self.start
    }

    pub fn num_rules(&self) -> (r: usize)
        ensures
            r == self.rules_view().len(),
    {
        self.rules.len()
    }

    pub fn rule_head(&self, k: usize) -> (r: SymbolId)
        requires
            k < self.rules_view().len(),
        ensures
            r.id == self.rules_view()[k as int].0,
    {
        self.rules[k].head
    }

    pub fn rule_alternate(&self, k: usize) -> (r: &Vec<SymbolId>)
        requires
            k < self.rules_view().len(),
        ensures
            r@.len() == self.rules_view()[k as int].1.len(),
            forall|j: int| 0 <= j < r@.len() ==> r@[j].id == self.rules_view()[k as int].1[j],
    {
        &self.rules[k].alternate
    }
}


/// What is wrong with a grammar description.
#[derive(Clone, Copy, PartialEq, Eq, Structural, Hash, Debug)]
pub enum ErrorKind {
    /// The reserved name of the empty derivation is declared as a symbol.
    ReservedNameMisuse,
    /// A name is declared both as a terminal and as a non-terminal.
    ConflictingDeclaration,
    /// The start symbol is declared as a terminal.
    StartSymbolConflict,
    /// The reserved name of the empty derivation heads a rule.
    EmptyAsRuleHead,
    /// A terminal heads a rule.
    TerminalUsedAsHead,
    /// A rule head is not declared; validation stops there.
    UndeclaredRuleHead,
    /// An alternate uses an undeclared name.
    UndeclaredSymbol,
    /// The reserved name stands in an alternate beside other symbols.
    MisplacedEmptySymbol,
    /// No rule has the start symbol as its head.
    StartSymbolHasNoRule,
}

/// One problem found in a grammar description, with the name it concerns.
pub struct Diagnostic {
    pub kind: ErrorKind,
    pub name: String,
}

pub open spec fn diag_view(d: Diagnostic) -> (ErrorKind, Seq<char>) {
    (d.kind, d.name@)
}

pub open spec fn diags_of(d: Seq<Diagnostic>) -> Seq<(ErrorKind, Seq<char>)> {
    d.map_values(|x: Diagnostic| diag_view(x))
}

pub open spec fn names(v: Seq<String>) -> Seq<Seq<char>> {
    v.map_values(|s: String| s@)
}

pub open spec fn rule_view(r: RawRule) -> (Seq<char>, Seq<Seq<char>>) {
    (r.head@, names(r.alternate@))
}

impl RawGrammer {
    pub open spec fn terminal_names(&self) -> Seq<Seq<char>> {
        names(self.terminals@)
    }

    pub open spec fn non_terminal_names(&self) -> Seq<Seq<char>> {
        names(self.non_terminals@)
    }

    pub open spec fn raw_rules(&self) -> Seq<(Seq<char>, Seq<Seq<char>>)> {
        self.rules@.map_values(|r: RawRule| rule_view(r))
    }

    /// `s` is declared as a terminal.
    pub open spec fn is_terminal_name(&self, s: Seq<char>) -> bool {
        s != reserved_name() && self.terminal_names().contains(s)
    }

    /// `s` is declared: as a terminal, as a non-terminal, or as the start symbol.
    pub open spec fn is_declared(&self, s: Seq<char>) -> bool {
        s != reserved_name() && (self.terminal_names().contains(s)
            || self.non_terminal_names().contains(s) || s == self.start@)
    }

    /// All declared names in order: terminals, non-terminals, start symbol.
    pub open spec fn declared_list(&self) -> Seq<Seq<char>> {
        self.terminal_names() + self.non_terminal_names() + seq![self.start@]
    }
}

pub open spec fn one(kind: ErrorKind, name: Seq<char>) -> Seq<(ErrorKind, Seq<char>)> {
    seq![(kind, name)]
}

pub open spec fn none() -> Seq<(ErrorKind, Seq<char>)> {
    Seq::empty()
}

/// Diagnostics of the terminal declarations.
pub open spec fn terminal_diags(ts: Seq<Seq<char>>) -> Seq<(ErrorKind, Seq<char>)>
    decreases ts.len(),
{
    if ts.len() == 0 {
        none()
    } else {
        terminal_diags(ts.drop_last()) + if ts.last() == reserved_name() {
            one(ErrorKind::ReservedNameMisuse, ts.last())
        } else {
            none()
        }
    }
}

/// Diagnostics of the non-terminal declarations.
pub open spec fn non_terminal_diags(ts: Seq<Seq<char>>, nts: Seq<Seq<char>>) -> Seq<
    (ErrorKind, Seq<char>),
>
    decreases nts.len(),
{
    if nts.len() == 0 {
        none()
    } else {
        non_terminal_diags(ts, nts.drop_last()) + if nts.last() == reserved_name() {
            one(ErrorKind::ReservedNameMisuse, nts.last())
        } else if ts.contains(nts.last()) {
            one(ErrorKind::ConflictingDeclaration, nts.last())
        } else {
            none()
        }
    }
}

/// Diagnostics of the start symbol's declaration.
pub open spec fn start_diags(ts: Seq<Seq<char>>, start: Seq<char>) -> Seq<(ErrorKind, Seq<char>)> {
    if start == reserved_name() {
        one(ErrorKind::ReservedNameMisuse, start)
    } else if ts.contains(start) {
        one(ErrorKind::StartSymbolConflict, start)
    } else {
        none()
    }
}

/// Diagnostics of the names of an alternate of `len` names.
pub open spec fn alt_diags(raw: &RawGrammer, alt: Seq<Seq<char>>, len: nat) -> Seq<
    (ErrorKind, Seq<char>),
>
    decreases alt.len(),
{
    if alt.len() == 0 {
        none()
    } else {
        alt_diags(raw, alt.drop_last(), len) + if alt.last() == reserved_name() {
            if len != 1 {
                one(ErrorKind::MisplacedEmptySymbol, alt.last())
            } else {
                none()
            }
        } else if !raw.is_declared(alt.last()) {
            one(ErrorKind::UndeclaredSymbol, alt.last())
        } else {
            none()
        }
    }
}

/// Diagnostics of a rule head.
pub open spec fn head_diags(raw: &RawGrammer, head: Seq<char>) -> Seq<(ErrorKind, Seq<char>)> {
    (if head == reserved_name() {
        one(ErrorKind::EmptyAsRuleHead, head)
    } else {
        none()
    }) + if raw.is_terminal_name(head) {
        one(ErrorKind::TerminalUsedAsHead, head)
    } else if !raw.is_declared(head) {
        one(ErrorKind::UndeclaredRuleHead, head)
    } else {
        none()
    }
}

/// Diagnostics of one rule; the alternate is not looked at when the head is
/// undeclared.
pub open spec fn rule_diags(raw: &RawGrammer, r: (Seq<char>, Seq<Seq<char>>)) -> Seq<
    (ErrorKind, Seq<char>),
> {
    head_diags(raw, r.0) + if raw.is_declared(r.0) {
        alt_diags(raw, r.1, r.1.len())
    } else {
        none()
    }
}

/// Some rule of `rs` has an undeclared head.
pub open spec fn any_fatal(raw: &RawGrammer, rs: Seq<(Seq<char>, Seq<Seq<char>>)>) -> bool {
    exists|i: int| 0 <= i < rs.len() && !raw.is_declared(#[trigger] rs[i].0)
}

/// Diagnostics of the rules, up to and including the first one whose head is
/// undeclared.
pub open spec fn rules_diags(raw: &RawGrammer, rs: Seq<(Seq<char>, Seq<Seq<char>>)>) -> Seq<
    (ErrorKind, Seq<char>),
>
    decreases rs.len(),
{
    if rs.len() == 0 {
        none()
    } else if any_fatal(raw, rs.drop_last()) {
        rules_diags(raw, rs.drop_last())
    } else {
        rules_diags(raw, rs.drop_last()) + rule_diags(raw, rs.last())
    }
}

/// Some rule has the start symbol as its head.
pub open spec fn has_start_rule(raw: &RawGrammer) -> bool {
    exists|i: int| 0 <= i < raw.raw_rules().len() && #[trigger] raw.raw_rules()[i].0 == raw.start@
}

/// Everything that validation reports about `raw`, in order.
pub open spec fn diagnostics(raw: &RawGrammer) -> Seq<(ErrorKind, Seq<char>)> {
    terminal_diags(raw.terminal_names()) + non_terminal_diags(
        raw.terminal_names(),
        raw.non_terminal_names(),
    ) + start_diags(raw.terminal_names(), raw.start@) + rules_diags(raw, raw.raw_rules()) + if !any_fatal(raw, raw.raw_rules())
        && !has_start_rule(raw) {
        one(ErrorKind::StartSymbolHasNoRule, raw.start@)
    } else {
        none()
    }
}

/// The symbol table of the declared names `ds`: each name once, in order of
/// first declaration, a terminal if `ts` declares it, else a non-terminal.
pub open spec fn table_of(ds: Seq<Seq<char>>, ts: Seq<Seq<char>>) -> Seq<(Seq<char>, SymbolType)>
    decreases ds.len(),
{
    if ds.len() == 0 {
        Seq::empty()
    } else {
        let prev = table_of(ds.drop_last(), ts);
        let nm = ds.last();
        if nm == reserved_name() || has_name(prev, nm) {
            prev
        } else {
            prev.push(
                (
                    nm,
                    if ts.contains(nm) {
                        SymbolType::Terminal
                    } else {
                        SymbolType::NonTerminal
                    },
                ),
            )
        }
    }
}


fn report(d: &mut Vec<Diagnostic>, kind: ErrorKind, name: &String)
    ensures
        diags_of(final(d)@) == diags_of(old(d)@) + one(kind, name@),
{
    d.push(Diagnostic { kind, name: name.clone() });
    assert(diags_of(d@) =~= diags_of(old(d)@) + one(kind, name@));
}

/// Whether `s` is one of the names of `v`.
fn contains_name(v: &Vec<String>, s: &String) -> (r: bool)
    ensures
        r == names(v@).contains(s@),
{
    let mut i: usize = 0;
    while i < v.len()
        invariant
            i <= v@.len(),
            forall|j: int| 0 <= j < i ==> v@[j]@ != s@,
        decreases v@.len() - i,
    {
        if v[i] == *s {
            assert(names(v@)[i as int] == s@);
            return true;
        }
        i = i + 1;
    }
    proof {
        if names(v@).contains(s@) {
            let j = choose|j: int| 0 <= j < names(v@).len() && names(v@)[j] == s@;
            assert(v@[j]@ == s@);
        }
    }
    false
}

impl RawGrammer {
    fn declares_terminal(&self, s: &String) -> (r: bool)
        ensures
            r == self.is_terminal_name(s@),
    {
        !is_reserved(s) && contains_name(&self.terminals, s)
    }

    fn declares(&self, s: &String) -> (r: bool)
        ensures
            r == self.is_declared(s@),
    {
        !is_reserved(s) && (contains_name(&self.terminals, s) || contains_name(
            &self.non_terminals,
            s,
        ) || *s == self.start)
    }
}

proof fn lemma_rules_diags_after_fatal(
    raw: &RawGrammer,
    rs: Seq<(Seq<char>, Seq<Seq<char>>)>,
    k: int,
    j: int,
)
    requires
        0 <= k <= j <= rs.len(),
        any_fatal(raw, rs.take(k)),
    ensures
        any_fatal(raw, rs.take(j)),
        rules_diags(raw, rs.take(j)) == rules_diags(raw, rs.take(k)),
    decreases j - k,
{
    let i = choose|i: int| 0 <= i < rs.take(k).len() && !raw.is_declared(#[trigger] rs.take(k)[i].0);
    assert(rs.take(j)[i] == rs.take(k)[i]);
    if j > k {
        lemma_rules_diags_after_fatal(raw, rs, k, j - 1);
        assert(rs.take(j).drop_last() =~= rs.take(j - 1));
    }
}

/// Everything wrong with `raw`, in the order validation finds it.
pub fn validation_diagnostics(raw: &RawGrammer) -> (r: Vec<Diagnostic>)
    ensures
        diags_of(r@) == diagnostics(raw),
{
    let mut d: Vec<Diagnostic> = Vec::new();
    let ghost ts = raw.terminal_names();
    let ghost nts = raw.non_terminal_names();
    let ghost rv = raw.raw_rules();
    let mut i: usize = 0;
    while i < raw.terminals.len()
        invariant
            i <= ts.len(),
            ts == raw.terminal_names(),
            diags_of(d@) == terminal_diags(ts.take(i as int)),
        decreases ts.len() - i,
    {
        let ghost before = diags_of(d@);
        if is_reserved(&raw.terminals[i]) {
            report(&mut d, ErrorKind::ReservedNameMisuse, &raw.terminals[i]);
        }
        assert(ts.take(i + 1).drop_last() =~= ts.take(i as int));
        assert(ts.take(i + 1).last() == raw.terminals@[i as int]@);
        assert(diags_of(d@) =~= terminal_diags(ts.take(i + 1)));
        i = i + 1;
    }
    assert(ts.take(ts.len() as int) =~= ts);
    let ghost after_terminals = diags_of(d@);
    let mut j: usize = 0;
    while j < raw.non_terminals.len()
        invariant
            j <= nts.len(),
            ts == raw.terminal_names(),
            nts == raw.non_terminal_names(),
            after_terminals == terminal_diags(ts),
            diags_of(d@) == after_terminals + non_terminal_diags(ts, nts.take(j as int)),
        decreases nts.len() - j,
    {
        let ghost before = non_terminal_diags(ts, nts.take(j as int));
        let name = &raw.non_terminals[j];
        if is_reserved(name) {
            report(&mut d, ErrorKind::ReservedNameMisuse, name);
        } else if contains_name(&raw.terminals, name) {
            report(&mut d, ErrorKind::ConflictingDeclaration, name);
        }
        assert(nts.take(j + 1).drop_last() =~= nts.take(j as int));
        assert(nts.take(j + 1).last() == name@);
        assert(diags_of(d@) =~= after_terminals + non_terminal_diags(ts, nts.take(j + 1)));
        j = j + 1;
    }
    assert(nts.take(nts.len() as int) =~= nts);
    let ghost after_decls = diags_of(d@);
    if is_reserved(&raw.start) {
        report(&mut d, ErrorKind::ReservedNameMisuse, &raw.start);
    } else if contains_name(&raw.terminals, &raw.start) {
        report(&mut d, ErrorKind::StartSymbolConflict, &raw.start);
    }
    assert(diags_of(d@) =~= after_decls + start_diags(ts, raw.start@));
    let ghost pre = diags_of(d@);
    let mut k: usize = 0;
    let mut fatal = false;
    let mut found = false;
    while k < raw.rules.len() && !fatal
        invariant
            k <= rv.len(),
            rv == raw.raw_rules(),
            diags_of(d@) == pre + rules_diags(raw, rv.take(k as int)),
            fatal == any_fatal(raw, rv.take(k as int)),
            found == exists|i2: int| 0 <= i2 < k && #[trigger] rv[i2].0 == raw.start@,
        decreases rv.len() - k,
    {
        let rule = &raw.rules[k];
        let ghost rk = rv[k as int];
        assert(rk == rule_view(raw.rules@[k as int]));
        let ghost at_rule = diags_of(d@);
        if is_reserved(&rule.head) {
            report(&mut d, ErrorKind::EmptyAsRuleHead, &rule.head);
        }
        if raw.declares_terminal(&rule.head) {
            report(&mut d, ErrorKind::TerminalUsedAsHead, &rule.head);
        } else if !raw.declares(&rule.head) {
            report(&mut d, ErrorKind::UndeclaredRuleHead, &rule.head);
            fatal = true;
        }
        assert(diags_of(d@) =~= at_rule + head_diags(raw, rk.0));
        let ghost after_head = diags_of(d@);
        if !fatal {
            let ghost alt = rk.1;
            let len = rule.alternate.len();
            let mut m: usize = 0;
            while m < len
                invariant
                    m <= len,
                    len == alt.len(),
                    alt == names(rule.alternate@),
                    diags_of(d@) == after_head + alt_diags(raw, alt.take(m as int), len as nat),
                decreases len - m,
            {
                let name = &rule.alternate[m];
                if is_reserved(name) {
                    if len != 1 {
                        report(&mut d, ErrorKind::MisplacedEmptySymbol, name);
                    }
                } else if !raw.declares(name) {
                    report(&mut d, ErrorKind::UndeclaredSymbol, name);
                }
                assert(alt.take(m + 1).drop_last() =~= alt.take(m as int));
                assert(alt.take(m + 1).last() == name@);
                assert(diags_of(d@) =~= after_head + alt_diags(raw, alt.take(m + 1), len as nat));
                m = m + 1;
            }
            assert(alt.take(len as int) =~= alt);
        }
        assert(rv.take(k + 1).drop_last() =~= rv.take(k as int));
        assert(rv.take(k + 1).last() == rk);
        assert(diags_of(d@) =~= pre + rules_diags(raw, rv.take(k + 1)));
        proof {
            if fatal {
                assert(rv.take(k + 1)[k as int] == rk);
            } else {
                assert forall|i2: int| 0 <= i2 < k + 1 implies raw.is_declared(
                    #[trigger] rv.take(k + 1)[i2].0,
                ) by {
                    if i2 < k {
                        assert(rv.take(k + 1)[i2] == rv.take(k as int)[i2]);
                    }
                }
            }
        }
        if rule.head == raw.start {
            found = true;
        }
        k = k + 1;
    }
    proof {
        if fatal {
            lemma_rules_diags_after_fatal(raw, rv, k as int, rv.len() as int);
        }
        assert(rv.take(rv.len() as int) =~= rv);
    }
    let ghost after_rules = diags_of(d@);
    if !fatal && !found {
        report(&mut d, ErrorKind::StartSymbolHasNoRule, &raw.start);
    }
    assert(diags_of(d@) =~= diagnostics(raw));
    d
}


proof fn lemma_table_of(ds: Seq<Seq<char>>, ts: Seq<Seq<char>>)
    ensures
        names_distinct(table_of(ds, ts)),
        table_of(ds, ts).len() <= ds.len(),
        forall|i: int|
            0 <= i < table_of(ds, ts).len() ==> (#[trigger] table_of(ds, ts)[i]).0 != reserved_name()
                && table_of(ds, ts)[i].1 == if ts.contains(table_of(ds, ts)[i].0) {
                SymbolType::Terminal
            } else {
                SymbolType::NonTerminal
            },
        forall|j: int|
            0 <= j < ds.len() && #[trigger] ds[j] != reserved_name() ==> has_name(
                table_of(ds, ts),
                ds[j],
            ),
    decreases ds.len(),
{
    if ds.len() > 0 {
        let pre = ds.drop_last();
        lemma_table_of(pre, ts);
        let prev = table_of(pre, ts);
        let t = table_of(ds, ts);
        assert forall|j: int| 0 <= j < ds.len() && #[trigger] ds[j] != reserved_name() implies has_name(
            t,
            ds[j],
        ) by {
            if j < ds.len() - 1 {
                assert(pre[j] == ds[j]);
                assert(has_name(prev, ds[j]));
                let w = choose|w: int| 0 <= w < prev.len() && prev[w].0 == ds[j];
                assert(t[w] == prev[w]);
            } else if !has_name(prev, ds.last()) {
                assert(t[prev.len() as int].0 == ds[j]);
            }
        }
    }
}

proof fn lemma_alt_diags_empty(raw: &RawGrammer, alt: Seq<Seq<char>>, len: nat)
    requires
        alt_diags(raw, alt, len).len() == 0,
    ensures
        forall|j: int|
            0 <= j < alt.len() ==> (#[trigger] alt[j] == reserved_name() ==> len == 1) && (alt[j]
                != reserved_name() ==> raw.is_declared(alt[j])),
    decreases alt.len(),
{
    if alt.len() > 0 {
        lemma_alt_diags_empty(raw, alt.drop_last(), len);
        assert forall|j: int| 0 <= j < alt.len() - 1 implies alt[j] == alt.drop_last()[j] by {}
    }
}

proof fn lemma_rules_diags_empty(raw: &RawGrammer, rs: Seq<(Seq<char>, Seq<Seq<char>>)>)
    requires
        rules_diags(raw, rs).len() == 0,
    ensures
        !any_fatal(raw, rs),
        forall|k: int| 0 <= k < rs.len() ==> (#[trigger] rule_diags(raw, rs[k])).len() == 0,
    decreases rs.len(),
{
    if rs.len() > 0 {
        let pre = rs.drop_last();
        lemma_rules_diags_empty(raw, pre);
        assert(rule_diags(raw, rs.last()).len() == 0);
        assert forall|k: int| 0 <= k < rs.len() implies (#[trigger] rule_diags(raw, rs[k])).len() == 0 by {
            if k < rs.len() - 1 {
                assert(rs[k] == pre[k]);
            }
        }
        if any_fatal(raw, rs) {
            let i = choose|i: int| 0 <= i < rs.len() && !raw.is_declared(#[trigger] rs[i].0);
            if i < rs.len() - 1 {
                assert(pre[i] == rs[i]);
            }
        }
    }
}

/// What a grammar with no diagnostics satisfies.
proof fn lemma_no_diagnostics(raw: &RawGrammer)
    requires
        diagnostics(raw).len() == 0,
    ensures
        raw.start@ != reserved_name(),
        !raw.terminal_names().contains(raw.start@),
        forall|k: int|
            0 <= k < raw.raw_rules().len() ==> raw.is_declared(#[trigger] raw.raw_rules()[k].0)
                && !raw.is_terminal_name(raw.raw_rules()[k].0),
        forall|k: int, j: int|
            0 <= k < raw.raw_rules().len() && 0 <= j < raw.raw_rules()[k].1.len() ==> (
            #[trigger] raw.raw_rules()[k].1[j] == reserved_name() ==> raw.raw_rules()[k].1.len()
                == 1) && (raw.raw_rules()[k].1[j] != reserved_name() ==> raw.is_declared(
                raw.raw_rules()[k].1[j],
            )),
{
    let rv = raw.raw_rules();
    assert(rules_diags(raw, rv).len() == 0);
    lemma_rules_diags_empty(raw, rv);
    assert forall|k: int|
        0 <= k < rv.len() implies raw.is_declared(#[trigger] rv[k].0) && !raw.is_terminal_name(rv[k].0) by {
        assert(rule_diags(raw, rv[k]).len() == 0);
    }
    assert forall|k: int, j: int|
        0 <= k < rv.len() && 0 <= j < rv[k].1.len() implies (#[trigger] rv[k].1[j] == reserved_name()
        ==> rv[k].1.len() == 1) && (rv[k].1[j] != reserved_name() ==> raw.is_declared(rv[k].1[j])) by {
        assert(rule_diags(raw, rv[k]).len() == 0);
        assert(raw.is_declared(rv[k].0));
        lemma_alt_diags_empty(raw, rv[k].1, rv[k].1.len());
    }
}


/// The identities `ids` name the symbols `alt` of a rule as written; the
/// alternate made of the reserved name alone has no symbols.
pub open spec fn alt_matches(
    symbols: Seq<(Seq<char>, SymbolType)>,
    ids: Seq<nat>,
    alt: Seq<Seq<char>>,
) -> bool {
    if alt == seq![reserved_name()] {
        ids.len() == 0
    } else {
        ids.len() == alt.len() && forall|j: int| 0 <= j < alt.len() ==> symbols[#[trigger] ids[j] as int].0 == alt[j]
    }
}

/// `g` is the grammar that `raw` describes.
pub open spec fn grammar_of(raw: &RawGrammer, g: &Grammer) -> bool {
    &&& g.symbols() == table_of(raw.declared_list(), raw.terminal_names())
    &&& g.symbols()[g.start_id() as int].0 == raw.start@
    &&& g.rules_view().len() == raw.raw_rules().len()
    &&& forall|k: int|
        0 <= k < raw.raw_rules().len() ==> g.symbols()[(#[trigger] g.rules_view()[k]).0 as int].0
            == raw.raw_rules()[k].0 && alt_matches(
            g.symbols(),
            g.rules_view()[k].1,
            raw.raw_rules()[k].1,
        )
}

/// Identity of a declared, non-reserved name in the table built from `raw`.
fn resolve(alphabet: &TypedAlphabet, name: &String, Ghost(raw): Ghost<&RawGrammer>) -> (r: SymbolId)
    requires
        alphabet.wf(),
        alphabet@ == table_of(raw.declared_list(), raw.terminal_names()),
        raw.is_declared(name@),
    ensures
        r.id < alphabet@.len(),
        alphabet@[r.id as int].0 == name@,
{
    let ghost ds = raw.declared_list();
    proof {
        lemma_table_of(ds, raw.terminal_names());
        let nt = raw.terminal_names().len();
        let nn = raw.non_terminal_names().len();
        let j = if raw.terminal_names().contains(name@) {
            choose|j: int| 0 <= j < nt && raw.terminal_names()[j] == name@
        } else if raw.non_terminal_names().contains(name@) {
            let j2 = choose|j2: int| 0 <= j2 < nn && raw.non_terminal_names()[j2] == name@;
            nt + j2
        } else {
            (nt + nn) as int
        };
        assert(ds[j] == name@);
    }
    match alphabet.id_for_name(name.as_str()) {
        Some(id) => id,
        None => {
            proof {
                assert(false);
            }
            SymbolId { id: 0 }
        },
    }
}


/// Validates `raw`. Every problem is reported; the grammar is built only when
/// there is none.
pub fn check_grammer(raw: &RawGrammer) -> (r: Result<Grammer, Vec<Diagnostic>>)
    requires
        raw.terminals@.len() + raw.non_terminals@.len() + 3 <= usize::MAX,
    ensures
        match r {
            Ok(g) => diagnostics(raw).len() == 0 && g.wf() && grammar_of(raw, &g),
            Err(d) => diagnostics(raw).len() > 0 && diags_of(d@) == diagnostics(raw),
        },
{
    let d = validation_diagnostics(raw);
    if d.len() > 0 {
        return Err(d);
    }
    let ghost ts = raw.terminal_names();
    let ghost ds = raw.declared_list();
    let ghost rv = raw.raw_rules();
    proof {
        lemma_no_diagnostics(raw);
        lemma_table_of(ds, ts);
    }
    let mut all: Vec<String> = Vec::new();
    let mut i: usize = 0;
    while i < raw.terminals.len()
        invariant
            i <= raw.terminals@.len(),
            names(all@) == ts.take(i as int),
            all@.len() == i,
            ts == raw.terminal_names(),
        decreases raw.terminals@.len() - i,
    {
        let ghost before = all@;
        let c = raw.terminals[i].clone();
        all.push(c);
        proof {
            assert forall|q: int| 0 <= q < i + 1 implies names(all@)[q] == ts.take(i + 1)[q] by {
                if q < i {
                    assert(all@[q] == before[q]);
                    assert(names(before)[q] == ts.take(i as int)[q]);
                } else {
                    assert(all@[q] == c);
                }
            }
            assert(names(all@) =~= ts.take(i + 1));
        }
        i = i + 1;
    }
    let mut j: usize = 0;
    while j < raw.non_terminals.len()
        invariant
            j <= raw.non_terminals@.len(),
            names(all@) == ts + raw.non_terminal_names().take(j as int),
            all@.len() == ts.len() + j,
            ts == raw.terminal_names(),
            ts.len() == raw.terminals@.len(),
        decreases raw.non_terminals@.len() - j,
    {
        let ghost before = all@;
        let ghost want = ts + raw.non_terminal_names().take(j + 1);
        let c = raw.non_terminals[j].clone();
        all.push(c);
        proof {
            assert forall|q: int| 0 <= q < before.len() + 1 implies names(all@)[q] == want[q] by {
                if q < before.len() {
                    assert(all@[q] == before[q]);
                    assert(names(before)[q] == (ts + raw.non_terminal_names().take(j as int))[q]);
                } else {
                    assert(all@[q] == c);
                }
            }
            assert(names(all@) =~= want);
        }
        j = j + 1;
    }
    let ghost before = all@;
    let c = raw.start.clone();
    all.push(c);
    proof {
        assert(raw.non_terminal_names().take(raw.non_terminals@.len() as int) =~= raw.non_terminal_names());
        assert forall|q: int| 0 <= q < before.len() + 1 implies names(all@)[q] == ds[q] by {
            if q < before.len() {
                assert(all@[q] == before[q]);
                assert(names(before)[q] == (ts + raw.non_terminal_names())[q]);
            } else {
                assert(all@[q] == c);
            }
        }
        assert(names(all@) =~= ds);
    }
    let mut builder = RawTypedAlphabet::new();
    let mut p: usize = 0;
    while p < all.len()
        invariant
            p <= all@.len(),
            names(all@) == ds,
            ds == raw.declared_list(),
            ts == raw.terminal_names(),
            all@.len() + 2 <= usize::MAX,
            builder@ == table_of(ds.take(p as int), ts),
        decreases all@.len() - p,
    {
        proof {
            lemma_table_of(ds.take(p as int), ts);
        }
        let name = &all[p];
        assert(ds.take(p + 1).drop_last() =~= ds.take(p as int));
        assert(ds.take(p + 1).last() == name@);
        if !is_reserved(name) {
            if builder.lookup(name).is_none() {
                let ty = if contains_name(&raw.terminals, name) {
                    SymbolType::Terminal
                } else {
                    SymbolType::NonTerminal
                };
                builder.insert(name.clone(), ty);
            }
        }
        p = p + 1;
    }
    assert(ds.take(all@.len() as int) =~= ds);
    let alphabet = builder.finalize();
    let ghost sy = alphabet@;
    let start = resolve(&alphabet, &raw.start, Ghost(raw));
    let mut rules: Vec<Rule> = Vec::new();
    let mut k: usize = 0;
    while k < raw.rules.len()
        invariant
            k <= rv.len(),
            rv == raw.raw_rules(),
            ts == raw.terminal_names(),
            sy == alphabet@,
            alphabet.wf(),
            sy == table_of(raw.declared_list(), ts),
            forall|i2: int|
                0 <= i2 < sy.len() ==> (#[trigger] sy[i2]).0 != reserved_name() && sy[i2].1 == if ts.contains(
                    sy[i2].0,
                ) {
                    SymbolType::Terminal
                } else {
                    SymbolType::NonTerminal
                },
            forall|k2: int|
                0 <= k2 < rv.len() ==> raw.is_declared(#[trigger] rv[k2].0) && !raw.is_terminal_name(
                    rv[k2].0,
                ),
            forall|k2: int, j2: int|
                0 <= k2 < rv.len() && 0 <= j2 < rv[k2].1.len() ==> (#[trigger] rv[k2].1[j2]
                    == reserved_name() ==> rv[k2].1.len() == 1) && (rv[k2].1[j2] != reserved_name()
                    ==> raw.is_declared(rv[k2].1[j2])),
            rules@.len() == k,
            forall|k2: int|
                0 <= k2 < k ==> {
                    let r = #[trigger] rules@[k2];
                    &&& r.head.id < sy.len()
                    &&& sy[r.head.id as int].0 == rv[k2].0
                    &&& sy[r.head.id as int].1 == SymbolType::NonTerminal
                    &&& forall|j2: int| 0 <= j2 < r.alternate@.len() ==> #[trigger] r.alternate@[j2].id < sy.len()
                    &&& alt_matches(sy, r.alternate@.map_values(|s: SymbolId| s.id as nat), rv[k2].1)
                },
        decreases rv.len() - k,
    {
        let rule = &raw.rules[k];
        assert(rv[k as int] == rule_view(raw.rules@[k as int]));
        assert(raw.is_declared(rv[k as int].0) && !raw.is_terminal_name(rv[k as int].0));
        let head = resolve(&alphabet, &rule.head, Ghost(raw));
        let ghost ra = rv[k as int].1;
        let mut alternate: Vec<SymbolId> = Vec::new();
        if rule.alternate.len() == 1 && is_reserved(&rule.alternate[0]) {
            assert(ra =~= seq![reserved_name()]);
        } else {
            let mut m: usize = 0;
            while m < rule.alternate.len()
                invariant
                    m <= ra.len(),
                    ra == names(rule.alternate@),
                    ra == rv[k as int].1,
                    sy == alphabet@,
                    alphabet.wf(),
                    sy == table_of(raw.declared_list(), ts),
                    ts == raw.terminal_names(),
                    k < rv.len(),
                    rv == raw.raw_rules(),
                    forall|k2: int, j2: int|
                        0 <= k2 < rv.len() && 0 <= j2 < rv[k2].1.len() ==> (#[trigger] rv[k2].1[j2]
                            == reserved_name() ==> rv[k2].1.len() == 1) && (rv[k2].1[j2]
                            != reserved_name() ==> raw.is_declared(rv[k2].1[j2])),
                    !(ra.len() == 1 && ra[0] == reserved_name()),
                    alternate@.len() == m,
                    forall|j2: int|
                        0 <= j2 < m ==> #[trigger] alternate@[j2].id < sy.len() && sy[alternate@[j2].id as int].0
                            == ra[j2],
                decreases ra.len() - m,
            {
                let name = &rule.alternate[m];
                assert(ra[m as int] == name@);
                assert(rv[k as int].1[m as int] == name@);
                let id = resolve(&alphabet, name, Ghost(raw));
                alternate.push(id);
                m = m + 1;
            }
            proof {
                if ra == seq![reserved_name()] {
                    assert(ra[0] == reserved_name());
                }
            }
        }
        let ghost ids = alternate@.map_values(|s: SymbolId| s.id as nat);
        assert(alt_matches(sy, ids, ra));
        let ghost newrule = Rule { head, alternate };
        rules.push(Rule { head, alternate });
        proof {
            assert(sy[head.id as int].0 == rule.head@);
            assert(sy[head.id as int].1 == SymbolType::NonTerminal);
            assert(rules@[k as int].alternate@.map_values(|s: SymbolId| s.id as nat) =~= ids);
        }
        k = k + 1;
    }
    let g = Grammer { alphabet, start, rules };
    proof {
        assert(sy[start.id as int].1 == SymbolType::NonTerminal);
        assert forall|x: nat| x < g.num_symbols() implies #[trigger] g.class_of(x) != SymbolType::Empty by {
            assert(sy[x as int].0 != reserved_name());
        }
        assert forall|k2: int| 0 <= k2 < g.rules_view().len() implies #[trigger] g.rules_view()[k2].0 < g.num_symbols() by {
            assert(g.rules_view()[k2].0 == g.rules@[k2].head.id);
        }
    }
    Ok(g)
}


proof fn lemma_terminal_diags_reserved(ts: Seq<Seq<char>>)
    requires
        ts.contains(reserved_name()),
    ensures
        terminal_diags(ts).len() > 0,
    decreases ts.len(),
{
    if ts.last() != reserved_name() {
        let i = choose|i: int| 0 <= i < ts.len() && ts[i] == reserved_name();
        assert(ts.drop_last()[i] == ts[i]);
        lemma_terminal_diags_reserved(ts.drop_last());
    }
}

proof fn lemma_non_terminal_diags_flagged(ts: Seq<Seq<char>>, nts: Seq<Seq<char>>, j: int)
    requires
        0 <= j < nts.len(),
        nts[j] == reserved_name() || ts.contains(nts[j]),
    ensures
        non_terminal_diags(ts, nts).len() > 0,
    decreases nts.len(),
{
    if j < nts.len() - 1 {
        assert(nts.drop_last()[j] == nts[j]);
        lemma_non_terminal_diags_flagged(ts, nts.drop_last(), j);
    }
}

proof fn lemma_rules_diags_fatal(raw: &RawGrammer, rs: Seq<(Seq<char>, Seq<Seq<char>>)>)
    requires
        any_fatal(raw, rs),
    ensures
        rules_diags(raw, rs).len() > 0,
    decreases rs.len(),
{
    if any_fatal(raw, rs.drop_last()) {
        lemma_rules_diags_fatal(raw, rs.drop_last());
    } else {
        let i = choose|i: int| 0 <= i < rs.len() && !raw.is_declared(#[trigger] rs[i].0);
        if i < rs.len() - 1 {
            assert(rs.drop_last()[i] == rs[i]);
        }
        assert(head_diags(raw, rs.last().0).len() > 0);
    }
}

/// A name declared both as a terminal and as a non-terminal is always
/// reported, so such a grammar is never accepted.
pub proof fn lemma_conflicting_declaration_rejected(raw: &RawGrammer, i: int, j: int)
    requires
        0 <= i < raw.terminal_names().len(),
        0 <= j < raw.non_terminal_names().len(),
        raw.terminal_names()[i] == raw.non_terminal_names()[j],
    ensures
        diagnostics(raw).len() > 0,
{
    assert(raw.terminal_names().contains(raw.non_terminal_names()[j]));
    lemma_non_terminal_diags_flagged(raw.terminal_names(), raw.non_terminal_names(), j);
}

/// Declaring the reserved name as a terminal or a non-terminal, or heading a
/// rule with it, is always reported.
pub proof fn lemma_reserved_name_rejected(raw: &RawGrammer)
    requires
        raw.terminal_names().contains(reserved_name()) || raw.non_terminal_names().contains(
            reserved_name(),
        ) || exists|k: int|
            0 <= k < raw.raw_rules().len() && #[trigger] raw.raw_rules()[k].0 == reserved_name(),
    ensures
        diagnostics(raw).len() > 0,
{
    if raw.terminal_names().contains(reserved_name()) {
        lemma_terminal_diags_reserved(raw.terminal_names());
    } else if raw.non_terminal_names().contains(reserved_name()) {
        let j = choose|j: int|
            0 <= j < raw.non_terminal_names().len() && raw.non_terminal_names()[j] == reserved_name();
        lemma_non_terminal_diags_flagged(raw.terminal_names(), raw.non_terminal_names(), j);
    } else {
        let k = choose|k: int|
            0 <= k < raw.raw_rules().len() && #[trigger] raw.raw_rules()[k].0 == reserved_name();
        assert(!raw.is_declared(raw.raw_rules()[k].0));
        lemma_rules_diags_fatal(raw, raw.raw_rules());
    }
}

} // verus!
