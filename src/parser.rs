use vstd::prelude::*;

use crate::grammer::{names, rule_view, RawGrammer, RawRule};

verus! {

/// Separators allowed between lexemes: space, tab, carriage return, line feed.
pub open spec fn is_space(b: u8) -> bool {
    b == 32 || b == 9 || b == 13 || b == 10
}

/// Bytes of a symbol name: ASCII letters and digits.
pub open spec fn is_alnum(b: u8) -> bool {
    (97 <= b <= 122) || (65 <= b <= 90) || (48 <= b <= 57)
}

/// End of the run of name bytes that starts at `i`.
pub open spec fn run_end(s: Seq<u8>, i: int) -> int
    decreases s.len() - i,
{
    if 0 <= i < s.len() && is_alnum(s[i]) {
        run_end(s, i + 1)
    } else {
        i
    }
}

/// `:Start:`
pub open spec fn kw_start() -> Seq<u8> {
    seq![58u8, 83, 116, 97, 114, 116, 58]
}

/// `:Terminals:`
pub open spec fn kw_terminals() -> Seq<u8> {
    seq![58u8, 84, 101, 114, 109, 105, 110, 97, 108, 115, 58]
}

/// `:NonTerminals:`
pub open spec fn kw_non_terminals() -> Seq<u8> {
    seq![58u8, 78, 111, 110, 84, 101, 114, 109, 105, 110, 97, 108, 115, 58]
}

/// `:Rules:`
pub open spec fn kw_rules() -> Seq<u8> {
    seq![58u8, 82, 117, 108, 101, 115, 58]
}

/// `->`
pub open spec fn kw_arrow() -> Seq<u8> {
    seq![45u8, 62]
}

/// `.`
pub open spec fn kw_dot() -> Seq<u8> {
    seq![46u8]
}

/// The lexemes of a grammar description.
pub enum Lexeme {
    Start,
    Terminals,
    NonTerminals,
    Rules,
    Arrow,
    Dot,
    Name(Seq<u8>),
}

/// `kw` stands in `s` at position `i`.
pub open spec fn at(s: Seq<u8>, i: int, kw: Seq<u8>) -> bool {
    0 <= i && i + kw.len() <= s.len() && s.subrange(i, i + kw.len()) == kw
}

pub open spec fn prepend(a: Seq<Lexeme>, o: Option<Seq<Lexeme>>) -> Option<Seq<Lexeme>> {
    match o {
        Some(r) => Some(a + r),
        None => None,
    }
}

/// Facts about the run of name bytes that starts at `i`.
pub proof fn lemma_run_end(s: Seq<u8>, i: int)
    requires
        0 <= i,
    ensures
        i <= run_end(s, i) <= if i <= s.len() {
            s.len() as int
        } else {
            i
        },
        forall|j: int| i <= j < run_end(s, i) ==> is_alnum(#[trigger] s[j]),
        0 <= i < s.len() && is_alnum(s[i]) ==> run_end(s, i) > i,
        run_end(s, i) < s.len() ==> !is_alnum(s[run_end(s, i)]),
    decreases s.len() - i,
{
    if 0 <= i < s.len() && is_alnum(s[i]) {
        lemma_run_end(s, i + 1);
    }
}

/// The lexemes of `s` from position `i` on; `None` where a byte starts no lexeme.
pub open spec fn lex_from(s: Seq<u8>, i: int) -> Option<Seq<Lexeme>>
    decreases s.len() - i,
{
    if i < 0 || i >= s.len() {
        Some(seq![])
    } else if is_space(s[i]) {
        lex_from(s, i + 1)
    } else if is_alnum(s[i]) {
        proof {
            lemma_run_end(s, i);
        }
        prepend(seq![Lexeme::Name(s.subrange(i, run_end(s, i)))], lex_from(s, run_end(s, i)))
    } else if at(s, i, kw_start()) {
        prepend(seq![Lexeme::Start], lex_from(s, i + kw_start().len()))
    } else if at(s, i, kw_terminals()) {
        prepend(seq![Lexeme::Terminals], lex_from(s, i + kw_terminals().len()))
    } else if at(s, i, kw_non_terminals()) {
        prepend(seq![Lexeme::NonTerminals], lex_from(s, i + kw_non_terminals().len()))
    } else if at(s, i, kw_rules()) {
        prepend(seq![Lexeme::Rules], lex_from(s, i + kw_rules().len()))
    } else if at(s, i, kw_arrow()) {
        prepend(seq![Lexeme::Arrow], lex_from(s, i + kw_arrow().len()))
    } else if at(s, i, kw_dot()) {
        prepend(seq![Lexeme::Dot], lex_from(s, i + kw_dot().len()))
    } else {
        None
    }
}


/// A lexeme as read from the input.
pub enum Token {
    Start,
    Terminals,
    NonTerminals,
    Rules,
    Arrow,
    Dot,
    Name(Vec<u8>),
}

impl View for Token {
    type V = Lexeme;

    open spec fn view(&self) -> Lexeme {
        match self {
            Token::Start => Lexeme::Start,
            Token::Terminals => Lexeme::Terminals,
            Token::NonTerminals => Lexeme::NonTerminals,
            Token::Rules => Lexeme::Rules,
            Token::Arrow => Lexeme::Arrow,
            Token::Dot => Lexeme::Dot,
            Token::Name(b) => Lexeme::Name(b@),
        }
    }
}

pub open spec fn lexemes(v: Seq<Token>) -> Seq<Lexeme> {
    v.map_values(|t: Token| t@)
}

/// Every name lexeme is made of name bytes.
pub open spec fn names_alnum(v: Seq<Lexeme>) -> bool {
    forall|k: int, j: int|
        #![trigger v[k]->Name_0[j]]
        0 <= k < v.len() && v[k] is Name && 0 <= j < v[k]->Name_0.len() ==> is_alnum(
            v[k]->Name_0[j],
        )
}

fn keyword(which: usize) -> (r: Vec<u8>)
    requires
        which < 6,
    ensures
        which == 0 ==> r@ == kw_start(),
        which == 1 ==> r@ == kw_terminals(),
        which == 2 ==> r@ == kw_non_terminals(),
        which == 3 ==> r@ == kw_rules(),
        which == 4 ==> r@ == kw_arrow(),
        which == 5 ==> r@ == kw_dot(),
{
    let r = if which == 0 {
        vec![58u8, 83, 116, 97, 114, 116, 58]
    } else if which == 1 {
        vec![58u8, 84, 101, 114, 109, 105, 110, 97, 108, 115, 58]
    } else if which == 2 {
        vec![58u8, 78, 111, 110, 84, 101, 114, 109, 105, 110, 97, 108, 115, 58]
    } else if which == 3 {
        vec![58u8, 82, 117, 108, 101, 115, 58]
    } else if which == 4 {
        vec![45u8, 62]
    } else {
        vec![46u8]
    };
    assert(which == 0 ==> r@ =~= kw_start());
    assert(which == 1 ==> r@ =~= kw_terminals());
    assert(which == 2 ==> r@ =~= kw_non_terminals());
    assert(which == 3 ==> r@ =~= kw_rules());
    assert(which == 4 ==> r@ =~= kw_arrow());
    assert(which == 5 ==> r@ =~= kw_dot());
    r
}

/// Whether `kw` stands in `s` at position `i`.
fn keyword_at(s: &[u8], i: usize, kw: &Vec<u8>) -> (r: bool)
    ensures
        r == at(s@, i as int, kw@),
{
    if i > s.len() || kw.len() > s.len() - i {
        return false;
    }
    let slen = s.len();
    let mut j: usize = 0;
    while j < kw.len()
        invariant
            slen == s@.len(),
            i + kw@.len() <= s@.len(),
            j <= kw@.len(),
            forall|q: int| 0 <= q < j ==> s@[i + q] == kw@[q],
        decreases kw@.len() - j,
    {
        if s[i + j] != kw[j] {
            assert(s@.subrange(i as int, i + kw@.len())[j as int] != kw@[j as int]);
            return false;
        }
        j = j + 1;
    }
    assert(s@.subrange(i as int, i + kw@.len()) =~= kw@);
    true
}

fn is_space_byte(b: u8) -> (r: bool)
    ensures
        r == is_space(b),
{
    b == 32 || b == 9 || b == 13 || b == 10
}

fn is_alnum_byte(b: u8) -> (r: bool)
    ensures
        r == is_alnum(b),
{
    (97 <= b && b <= 122) || (65 <= b && b <= 90) || (48 <= b && b <= 57)
}

/// Splits a grammar description into lexemes.
pub fn lex(s: &[u8]) -> (r: Option<Vec<Token>>)
    ensures
        match r {
            Some(v) => lex_from(s@, 0) == Some(lexemes(v@)),
            None => lex_from(s@, 0) is None,
        },
        r matches Some(v) ==> names_alnum(lexemes(v@)),
{
    let slen = s.len();
    let mut out: Vec<Token> = Vec::new();
    let mut i: usize = 0;
    while i < s.len()
        invariant
            slen == s@.len(),
            i <= s@.len(),
            lex_from(s@, 0) == prepend(lexemes(out@), lex_from(s@, i as int)),
            names_alnum(lexemes(out@)),
        decreases s@.len() - i,
    {
        let ghost before = lexemes(out@);
        let b = s[i];
        let mut tok: Option<Token> = None;
        let mut next: usize = i;
        if is_space_byte(b) {
            next = i + 1;
        } else if is_alnum_byte(b) {
            proof {
                lemma_run_end(s@, i as int);
            }
            let mut name: Vec<u8> = Vec::new();
            let mut e: usize = i;
            while e < s.len() && is_alnum_byte(s[e])
                invariant
                    i <= e <= s@.len(),
                    name@ == s@.subrange(i as int, e as int),
                    run_end(s@, i as int) == run_end(s@, e as int),
                decreases s@.len() - e,
            {
                name.push(s[e]);
                e = e + 1;
                assert(name@ =~= s@.subrange(i as int, e as int));
            }
            tok = Some(Token::Name(name));
            next = e;
        } else {
            let mut w: usize = 0;
            let mut found = false;
            while w < 6 && !found
                invariant
                    w <= 6,
                    slen == s@.len(),
                    i < s@.len(),
                    !is_space(s@[i as int]),
                    !is_alnum(s@[i as int]),
                    !found ==> (w > 0 ==> !at(s@, i as int, kw_start())) && (w > 1 ==> !at(
                        s@,
                        i as int,
                        kw_terminals(),
                    )) && (w > 2 ==> !at(s@, i as int, kw_non_terminals())) && (w > 3 ==> !at(
                        s@,
                        i as int,
                        kw_rules(),
                    )) && (w > 4 ==> !at(s@, i as int, kw_arrow())) && (w > 5 ==> !at(
                        s@,
                        i as int,
                        kw_dot(),
                    )),
                    found ==> tok is Some && i < next <= s@.len() && lex_from(s@, i as int)
                        == prepend(seq![tok->0@], lex_from(s@, next as int)) && !(tok->0 is Name),
                decreases 6 - w + if found {
                    0int
                } else {
                    1int
                },
            {
                let kw = keyword(w);
                if keyword_at(s, i, &kw) {
                    found = true;
                    tok = Some(
                        if w == 0 {
                            Token::Start
                        } else if w == 1 {
                            Token::Terminals
                        } else if w == 2 {
                            Token::NonTerminals
                        } else if w == 3 {
                            Token::Rules
                        } else if w == 4 {
                            Token::Arrow
                        } else {
                            Token::Dot
                        },
                    );
                    next = i + kw.len();
                } else {
                    w = w + 1;
                }
            }
            if !found {
                assert(lex_from(s@, i as int) is None);
                return None;
            }
        }
        match tok {
            Some(t) => {
                out.push(t);
            },
            None => {},
        }
        proof {
            let after = lexemes(out@);
            if is_space(b) {
                assert(after =~= before);
            } else {
                assert(after =~= before + seq![after.last()]);
                assert(lex_from(s@, i as int) == prepend(seq![after.last()], lex_from(s@, next as int)));
                assert forall|k: int, j: int|
                    #![trigger after[k]->Name_0[j]]
                    0 <= k < after.len() && after[k] is Name && 0 <= j
                        < after[k]->Name_0.len() implies is_alnum(after[k]->Name_0[j]) by {
                    if k < before.len() {
                        assert(after[k] == before[k]);
                    } else if is_alnum(b) {
                        assert(after[k]->Name_0[j] == s@[i + j]);
                    }
                }
            }
            if !is_space(b) {
                match lex_from(s@, next as int) {
                    Some(r) => {
                        assert(before + (seq![after.last()] + r) =~= after + r);
                    },
                    None => {},
                }
            }
        }
        i = next;
    }
    assert(lexemes(out@) + seq![] =~= lexemes(out@));
    Some(out)
}


pub open spec fn lexeme_name(l: Lexeme) -> Seq<u8> {
    match l {
        Lexeme::Name(b) => b,
        _ => seq![],
    }
}

/// End of the run of name lexemes that starts at `i`.
pub open spec fn name_run(t: Seq<Lexeme>, i: int) -> int
    decreases t.len() - i,
{
    if 0 <= i < t.len() && t[i] is Name {
        name_run(t, i + 1)
    } else {
        i
    }
}

/// The names of the lexemes from `i` up to `j`.
pub open spec fn names_in(t: Seq<Lexeme>, i: int, j: int) -> Seq<Seq<u8>> {
    t.subrange(i, j).map_values(|l: Lexeme| lexeme_name(l))
}

/// A rule as written: head, then alternate.
pub type TextRule = (Seq<u8>, Seq<Seq<u8>>);

pub open spec fn prepend_rules(a: Seq<TextRule>, o: Option<Seq<TextRule>>) -> Option<Seq<TextRule>> {
    match o {
        Some(r) => Some(a + r),
        None => None,
    }
}

/// The rules from lexeme `i` to the end: each is a name, `->`, one or more
/// names and `.`.
pub open spec fn parse_rules_from(t: Seq<Lexeme>, i: int) -> Option<Seq<TextRule>>
    decreases t.len() - i,
{
    if i < 0 || i >= t.len() {
        Some(seq![])
    } else if t[i] is Name && i + 1 < t.len() && t[i + 1] is Arrow && name_run(t, i + 2) > i + 2
        && name_run(t, i + 2) < t.len() && t[name_run(t, i + 2)] is Dot {
        prepend_rules(
            seq![(lexeme_name(t[i]), names_in(t, i + 2, name_run(t, i + 2)))],
            parse_rules_from(t, name_run(t, i + 2) + 1),
        )
    } else {
        None
    }
}

/// The parts of a grammar description.
pub struct GrammarText {
    pub start: Seq<u8>,
    pub terminals: Seq<Seq<u8>>,
    pub non_terminals: Seq<Seq<u8>>,
    pub rules: Seq<TextRule>,
}

/// `:Start:` and a name, `:Terminals:` and one or more names,
/// `:NonTerminals:` and one or more names, `:Rules:` and one or more rules.
pub open spec fn parse_lexemes(t: Seq<Lexeme>) -> Option<GrammarText> {
    let e1 = name_run(t, 3);
    let e2 = name_run(t, e1 + 1);
    if t.len() >= 3 && t[0] is Start && t[1] is Name && t[2] is Terminals && e1 > 3 && e1 < t.len()
        && t[e1] is NonTerminals && e2 > e1 + 1 && e2 + 1 < t.len() && t[e2] is Rules {
        match parse_rules_from(t, e2 + 1) {
            Some(rs) => Some(
                GrammarText {
                    start: lexeme_name(t[1]),
                    terminals: names_in(t, 3, e1),
                    non_terminals: names_in(t, e1 + 1, e2),
                    rules: rs,
                },
            ),
            None => None,
        }
    } else {
        None
    }
}

/// What the bytes `s` describe, if they describe a grammar.
pub open spec fn grammar_text(s: Seq<u8>) -> Option<GrammarText> {
    match lex_from(s, 0) {
        Some(t) => parse_lexemes(t),
        None => None,
    }
}

/// The characters of ASCII bytes.
pub open spec fn chars_of(b: Seq<u8>) -> Seq<char> {
    b.map_values(|x: u8| x as char)
}

pub open spec fn names_of_text(ns: Seq<Seq<u8>>) -> Seq<Seq<char>> {
    ns.map_values(|n: Seq<u8>| chars_of(n))
}

pub open spec fn text_rule_view(r: TextRule) -> (Seq<char>, Seq<Seq<char>>) {
    (chars_of(r.0), names_of_text(r.1))
}

/// `g` holds the parts `x` of a description.
pub open spec fn describes(g: &RawGrammer, x: GrammarText) -> bool {
    &&& g.start@ == chars_of(x.start)
    &&& g.terminal_names() == names_of_text(x.terminals)
    &&& g.non_terminal_names() == names_of_text(x.non_terminals)
    &&& g.raw_rules() == x.rules.map_values(|r: TextRule| text_rule_view(r))
}

/// Relies on `String::from_utf8_lossy`: valid UTF-8, which ASCII bytes are,
/// is decoded unchanged, each ASCII byte to the character of that code.
#[verifier::external_body]
fn string_from_ascii(b: &Vec<u8>) -> (r: String)
    requires
        forall|j: int| 0 <= j < b@.len() ==> b@[j] < 128,
    ensures
        r@ == chars_of(b@),
{
    String::from_utf8_lossy(b.as_slice()).into_owned()
}

/// The names from lexeme `i` up to the first lexeme that is not a name.
fn collect_names(t: &Vec<Token>, i: usize) -> (r: (Vec<String>, usize))
    requires
        i <= t@.len(),
        names_alnum(lexemes(t@)),
    ensures
        r.1 == name_run(lexemes(t@), i as int),
        i <= r.1 <= t@.len(),
        names(r.0@) == names_of_text(names_in(lexemes(t@), i as int, r.1 as int)),
{
    let ghost tv = lexemes(t@);
    let mut out: Vec<String> = Vec::new();
    let mut j: usize = i;
    while j < t.len()
        invariant
            i <= j <= t@.len(),
            tv == lexemes(t@),
            names_alnum(tv),
            name_run(tv, i as int) == name_run(tv, j as int),
            out@.len() == j - i,
            names(out@) == names_of_text(names_in(tv, i as int, j as int)),
        decreases t@.len() - j,
    {
        match &t[j] {
            Token::Name(b) => {
                assert(tv[j as int] == Lexeme::Name(b@));
                assert forall|q: int| 0 <= q < b@.len() implies b@[q] < 128 by {
                    assert(tv[j as int]->Name_0[q] == b@[q]);
                }
                let name = string_from_ascii(b);
                let ghost nm = name@;
                let ghost before = out@;
                out.push(name);
                proof {
                    let want = names_of_text(names_in(tv, i as int, j + 1));
                    assert(names_in(tv, i as int, j + 1) =~= names_in(tv, i as int, j as int).push(
                        b@,
                    ));
                    assert forall|q: int| 0 <= q < out@.len() implies names(out@)[q] == want[q] by {
                        if q < before.len() {
                            assert(out@[q] == before[q]);
                            assert(names(before)[q] == names_of_text(names_in(tv, i as int, j as int))[q]);
                        } else {
                            assert(out@[q]@ == nm);
                        }
                    }
                    assert(names(out@) =~= want);
                }
                j = j + 1;
            },
            _ => {
                assert(!(tv[j as int] is Name));
                return (out, j);
            },
        }
    }
    (out, j)
}

fn is_arrow(t: &Token) -> (r: bool)
    ensures
        r == t@ is Arrow,
{
    match t {
        Token::Arrow => true,
        _ => false,
    }
}

fn is_dot(t: &Token) -> (r: bool)
    ensures
        r == t@ is Dot,
{
    match t {
        Token::Dot => true,
        _ => false,
    }
}


fn name_token(t: &Vec<Token>, i: usize) -> (r: Option<String>)
    requires
        i < t@.len(),
        names_alnum(lexemes(t@)),
    ensures
        r is Some <==> lexemes(t@)[i as int] is Name,
        r matches Some(s) ==> s@ == chars_of(lexeme_name(lexemes(t@)[i as int])),
{
    let ghost tv = lexemes(t@);
    match &t[i] {
        Token::Name(b) => {
            assert(tv[i as int] == Lexeme::Name(b@));
            assert forall|q: int| 0 <= q < b@.len() implies b@[q] < 128 by {
                assert(tv[i as int]->Name_0[q] == b@[q]);
            }
            Some(string_from_ascii(b))
        },
        _ => None,
    }
}

/// Reads a grammar description from its lexemes.
pub fn parse_tokens(t: &Vec<Token>) -> (r: Option<RawGrammer>)
    requires
        names_alnum(lexemes(t@)),
    ensures
        match r {
            Some(g) => parse_lexemes(lexemes(t@)) matches Some(x) && describes(&g, x),
            None => parse_lexemes(lexemes(t@)) is None,
        },
{
    let ghost tv = lexemes(t@);
    if t.len() < 3 {
        return None;
    }
    match &t[0] {
        Token::Start => {},
        _ => {
            return None;
        },
    }
    let start = match name_token(t, 1) {
        Some(s) => s,
        None => {
            return None;
        },
    };
    match &t[2] {
        Token::Terminals => {},
        _ => {
            return None;
        },
    }
    let (terminals, e1) = collect_names(t, 3);
    if e1 == 3 || e1 >= t.len() {
        return None;
    }
    match &t[e1] {
        Token::NonTerminals => {},
        _ => {
            return None;
        },
    }
    let (non_terminals, e2) = collect_names(t, e1 + 1);
    if e2 == e1 + 1 || e2 >= t.len() - 1 {
        return None;
    }
    match &t[e2] {
        Token::Rules => {},
        _ => {
            return None;
        },
    }
    let ghost whole = match parse_rules_from(tv, e2 + 1) {
        Some(rs) => Some(
            GrammarText {
                start: lexeme_name(tv[1]),
                terminals: names_in(tv, 3, e1 as int),
                non_terminals: names_in(tv, e1 + 1, e2 as int),
                rules: rs,
            },
        ),
        None => None,
    };
    assert(parse_lexemes(tv) == whole);
    let mut rules: Vec<RawRule> = Vec::new();
    let mut p: usize = e2 + 1;
    let ghost mut done: Seq<TextRule> = seq![];
    while p < t.len()
        invariant
            parse_lexemes(tv) == whole,
            whole == match parse_rules_from(tv, e2 + 1) {
                Some(rs) => Some(
                    GrammarText {
                        start: lexeme_name(tv[1]),
                        terminals: names_in(tv, 3, e1 as int),
                        non_terminals: names_in(tv, e1 + 1, e2 as int),
                        rules: rs,
                    },
                ),
                None => None,
            },
            start@ == chars_of(lexeme_name(tv[1])),
            names(terminals@) == names_of_text(names_in(tv, 3, e1 as int)),
            names(non_terminals@) == names_of_text(names_in(tv, e1 + 1, e2 as int)),
            tv == lexemes(t@),
            names_alnum(tv),
            e2 + 1 <= p <= t@.len(),
            rules@.len() == done.len(),
            parse_rules_from(tv, e2 + 1) == prepend_rules(done, parse_rules_from(tv, p as int)),
            rules@.map_values(|r: RawRule| rule_view(r)) == done.map_values(
                |r: TextRule| text_rule_view(r),
            ),
        decreases t@.len() - p,
    {
        let head = match name_token(t, p) {
            Some(s) => s,
            None => {
                return None;
            },
        };
        if p + 1 >= t.len() || !is_arrow(&t[p + 1]) {
            return None;
        }
        let (alternate, e) = collect_names(t, p + 2);
        if e == p + 2 || e >= t.len() || !is_dot(&t[e]) {
            return None;
        }
        let ghost tr: TextRule = (lexeme_name(tv[p as int]), names_in(tv, p + 2, e as int));
        let ghost before = rules@;
        let rule = RawRule { head, alternate };
        assert(rule_view(rule) == text_rule_view(tr));
        rules.push(rule);
        proof {
            match parse_rules_from(tv, e + 1) {
                Some(rest) => {
                    assert(done + (seq![tr] + rest) =~= done.push(tr) + rest);
                },
                None => {},
            }
            let old_done = done;
            done = done.push(tr);
            assert(rules@.map_values(|r: RawRule| rule_view(r)) =~= done.map_values(
                |r: TextRule| text_rule_view(r),
            )) by {
                assert forall|q: int| 0 <= q < rules@.len() implies rule_view(#[trigger] rules@[q])
                    == text_rule_view(done[q]) by {
                    if q < before.len() {
                        assert(rules@[q] == before[q]);
                        assert(done[q] == old_done[q]);
                        assert(before.map_values(|r: RawRule| rule_view(r))[q] == old_done.map_values(
                            |r: TextRule| text_rule_view(r),
                        )[q]);
                    }
                }
            }
        }
        p = e + 1;
    }
    assert(done + seq![] =~= done);
    let g = RawGrammer { start, terminals, non_terminals, rules };
    Some(g)
}

/// Reads a grammar description: `:Start:` and the start symbol,
/// `:Terminals:` and the terminals, `:NonTerminals:` and the non-terminals,
/// `:Rules:` and the rules, each `head -> names .`, all separated by optional
/// whitespace.
pub fn parse(input: &[u8]) -> (r: Option<RawGrammer>)
    ensures
        match r {
            Some(g) => grammar_text(input@) matches Some(x) && describes(&g, x),
            None => grammar_text(input@) is None,
        },
{
    match lex(input) {
        Some(toks) => parse_tokens(&toks),
        None => None,
    }
}

} // verus!
