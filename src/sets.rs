use vstd::prelude::*;

use crate::alphabet::{SymbolId, SymbolType};
use crate::grammer::Grammer;

verus! {

/// An element of a FIRST or FOLLOW set.
#[derive(Clone, Copy, PartialEq, Eq, Structural, Hash, Debug)]
pub enum SetEntry {
    Id(SymbolId),
    Empty,
    End,
}

// A table over `n` symbols has one row per symbol and `n + 2` columns:
// column `t` stands for the terminal `t`, column `n` for `Empty`, column
// `n + 1` for `End`.
/// Column of `e` in a table over `n` symbols.
pub open spec fn entry_code(e: SetEntry, n: nat) -> int {
    match e {
        SetEntry::Id(s) => s.id as int,
        SetEntry::Empty => n as int,
        SetEntry::End => n as int + 1,
    }
}

/// `e` names a column of a table over `n` symbols.
pub open spec fn entry_valid(e: SetEntry, n: nat) -> bool {
    match e {
        SetEntry::Id(s) => s.id < n,
        _ => true,
    }
}

/// One row of `n + 2` columns for each of the `n` symbols.
pub open spec fn table_shape(t: Seq<Seq<bool>>, n: nat) -> bool {
    t.len() == n && forall|x: int| 0 <= x < n ==> #[trigger] t[x].len() == n + 2
}

/// Every entry of `a` is an entry of `b`.
pub open spec fn table_le(a: Seq<Seq<bool>>, b: Seq<Seq<bool>>, n: nat) -> bool {
    forall|x: int, c: int| 0 <= x < n && 0 <= c < n + 2 && #[trigger] a[x][c] ==> b[x][c]
}

/// `b` holds some entry that `a` lacks.
pub open spec fn table_grew(a: Seq<Seq<bool>>, b: Seq<Seq<bool>>, n: nat) -> bool {
    exists|x: int, c: int| 0 <= x < n && 0 <= c < n + 2 && !a[x][c] && #[trigger] b[x][c]
}

/// Column `c` is in FIRST of the symbol string `alt`, where `f` gives FIRST of
/// each symbol: some symbol of `alt` has it and every symbol before it can
/// vanish, or `c` is `Empty` and every symbol of `alt` can vanish.
pub open spec fn in_first_of_seq(f: Seq<Seq<bool>>, n: nat, alt: Seq<nat>, c: int) -> bool
    decreases alt.len(),
{
    if alt.len() == 0 {
        c == n as int
    } else {
        (c != n as int && f[alt[0] as int][c]) || (f[alt[0] as int][n as int] && in_first_of_seq(
            f,
            n,
            alt.drop_first(),
            c,
        ))
    }
}

pub open spec fn rule_head(g: &Grammer, k: int) -> int {
    g.rules_view()[k].0 as int
}

pub open spec fn rule_alt(g: &Grammer, k: int) -> Seq<nat> {
    g.rules_view()[k].1
}

/// What follows position `i` in the alternate of rule `k`.
pub open spec fn rule_rest(g: &Grammer, k: int, i: int) -> Seq<nat> {
    rule_alt(g, k).subrange(i + 1, rule_alt(g, k).len() as int)
}

/// FIRST of the alternate of rule `k` is contained in FIRST of its head.
pub open spec fn first_rule_closed(g: &Grammer, f: Seq<Seq<bool>>, k: int) -> bool {
    let n = g.num_symbols();
    forall|c: int|
        0 <= c < n + 2 && #[trigger] in_first_of_seq(f, n, rule_alt(g, k), c) ==> f[rule_head(
            g,
            k,
        )][c]
}

/// `f` meets every equation of FIRST: each terminal is in its own set, and
/// each rule carries FIRST of its alternate into its head.
pub open spec fn first_closed(g: &Grammer, f: Seq<Seq<bool>>) -> bool {
    let n = g.num_symbols();
    &&& table_shape(f, n)
    &&& forall|t: int|
        0 <= t < n && g.class_of(t as nat) == SymbolType::Terminal ==> #[trigger] f[t][t]
    &&& forall|k: int| 0 <= k < g.rules_view().len() ==> #[trigger] first_rule_closed(g, f, k)
}

/// `f` is FIRST of `g`: the least table that meets the equations.
pub open spec fn is_first(g: &Grammer, f: Seq<Seq<bool>>) -> bool {
    &&& first_closed(g, f)
    &&& forall|h: Seq<Seq<bool>>| #[trigger] first_closed(g, h) ==> table_le(f, h, g.num_symbols())
}

/// At position `i` of rule `k`, where that symbol is a non-terminal, FOLLOW of
/// it holds FIRST of what follows it without `Empty`, and FOLLOW of the head
/// when what follows can vanish.
pub open spec fn follow_pos_closed(
    g: &Grammer,
    first: Seq<Seq<bool>>,
    fo: Seq<Seq<bool>>,
    k: int,
    i: int,
) -> bool {
    let n = g.num_symbols();
    let x = rule_alt(g, k)[i] as int;
    g.class_of(x as nat) == SymbolType::NonTerminal ==> {
        &&& forall|c: int|
            0 <= c < n + 2 && c != n && #[trigger] in_first_of_seq(first, n, rule_rest(g, k, i), c)
                ==> fo[x][c]
        &&& in_first_of_seq(first, n, rule_rest(g, k, i), n as int) ==> forall|c: int|
            0 <= c < n + 2 && #[trigger] fo[rule_head(g, k)][c] ==> fo[x][c]
    }
}

/// `fo` meets every equation of FOLLOW over the FIRST table `first`.
pub open spec fn follow_closed(g: &Grammer, first: Seq<Seq<bool>>, fo: Seq<Seq<bool>>) -> bool {
    let n = g.num_symbols();
    &&& table_shape(fo, n)
    &&& fo[g.start_id() as int][n as int + 1]
    &&& forall|k: int, i: int|
        0 <= k < g.rules_view().len() && 0 <= i < rule_alt(g, k).len() ==> #[trigger] follow_pos_closed(
            g,
            first,
            fo,
            k,
            i,
        )
}

/// `fo` is FOLLOW of `g` over `first`: the least table that meets the equations.
pub open spec fn is_follow(g: &Grammer, first: Seq<Seq<bool>>, fo: Seq<Seq<bool>>) -> bool {
    &&& follow_closed(g, first, fo)
    &&& forall|h: Seq<Seq<bool>>|
        #[trigger] follow_closed(g, first, h) ==> table_le(fo, h, g.num_symbols())
}

proof fn lemma_in_first_intro(f: Seq<Seq<bool>>, n: nat, alt: Seq<nat>, i: int, c: int)
    requires
        0 <= i < alt.len(),
        c != n,
        f[alt[i] as int][c],
        forall|j: int| 0 <= j < i ==> f[alt[j] as int][n as int],
    ensures
        in_first_of_seq(f, n, alt, c),
    decreases alt.len(),
{
    if i > 0 {
        let rest = alt.drop_first();
        assert forall|j: int| 0 <= j < i - 1 implies f[rest[j] as int][n as int] by {
            assert(rest[j] == alt[j + 1]);
        }
        assert(rest[i - 1] == alt[i]);
        lemma_in_first_intro(f, n, rest, i - 1, c);
        assert(f[alt[0] as int][n as int]);
    }
}

proof fn lemma_in_first_vanish(f: Seq<Seq<bool>>, n: nat, alt: Seq<nat>)
    requires
        forall|j: int| 0 <= j < alt.len() ==> f[alt[j] as int][n as int],
    ensures
        in_first_of_seq(f, n, alt, n as int),
    decreases alt.len(),
{
    if alt.len() > 0 {
        let rest = alt.drop_first();
        assert forall|j: int| 0 <= j < rest.len() implies f[rest[j] as int][n as int] by {
            assert(rest[j] == alt[j + 1]);
        }
        lemma_in_first_vanish(f, n, rest);
        assert(f[alt[0] as int][n as int]);
    }
}

proof fn lemma_in_first_elim(f: Seq<Seq<bool>>, n: nat, alt: Seq<nat>, c: int)
    requires
        in_first_of_seq(f, n, alt, c),
    ensures
        c == n ==> forall|j: int| 0 <= j < alt.len() ==> f[alt[j] as int][n as int],
        c != n ==> exists|i: int|
            0 <= i < alt.len() && f[alt[i] as int][c] && forall|j: int|
                0 <= j < i ==> f[alt[j] as int][n as int],
    decreases alt.len(),
{
    if alt.len() > 0 {
        let rest = alt.drop_first();
        if c != n && f[alt[0] as int][c] {
            assert(forall|j: int| 0 <= j < 0 ==> f[alt[j] as int][n as int]);
        } else {
            lemma_in_first_elim(f, n, rest, c);
            if c == n {
                assert forall|j: int| 0 <= j < alt.len() implies f[alt[j] as int][n as int] by {
                    if j > 0 {
                        assert(alt[j] == rest[j - 1]);
                    }
                }
            } else {
                let i = choose|i: int|
                    0 <= i < rest.len() && f[rest[i] as int][c] && forall|j: int|
                        0 <= j < i ==> f[rest[j] as int][n as int];
                assert(alt[i + 1] == rest[i]);
                assert forall|j: int| 0 <= j < i + 1 implies f[alt[j] as int][n as int] by {
                    if j > 0 {
                        assert(alt[j] == rest[j - 1]);
                    }
                }
            }
        }
    }
}

/// FIRST of a string only grows with the table it is read from.
proof fn lemma_in_first_mono(a: Seq<Seq<bool>>, b: Seq<Seq<bool>>, n: nat, alt: Seq<nat>, c: int)
    requires
        table_le(a, b, n),
        0 <= c < n + 2,
        forall|j: int| 0 <= j < alt.len() ==> alt[j] < n,
        in_first_of_seq(a, n, alt, c),
    ensures
        in_first_of_seq(b, n, alt, c),
{
    lemma_in_first_elim(a, n, alt, c);
    if c == n {
        assert forall|j: int| 0 <= j < alt.len() implies b[alt[j] as int][n as int] by {
            assert(a[alt[j] as int][n as int]);
        }
        lemma_in_first_vanish(b, n, alt);
    } else {
        let i = choose|i: int|
            0 <= i < alt.len() && a[alt[i] as int][c] && forall|j: int|
                0 <= j < i ==> a[alt[j] as int][n as int];
        assert forall|j: int| 0 <= j < i implies b[alt[j] as int][n as int] by {
            assert(a[alt[j] as int][n as int]);
        }
        assert(a[alt[i] as int][c]);
        lemma_in_first_intro(b, n, alt, i, c);
    }
}


spec fn count_row(r: Seq<bool>) -> nat
    decreases r.len(),
{
    if r.len() == 0 {
        0
    } else {
        count_row(r.drop_last()) + if r.last() {
            1nat
        } else {
            0nat
        }
    }
}

spec fn count_table(t: Seq<Seq<bool>>) -> nat
    decreases t.len(),
{
    if t.len() == 0 {
        0
    } else {
        count_table(t.drop_last()) + count_row(t.last())
    }
}

proof fn lemma_count_row_le(a: Seq<bool>, b: Seq<bool>)
    requires
        a.len() == b.len(),
        forall|c: int| 0 <= c < a.len() && a[c] ==> b[c],
    ensures
        count_row(a) <= count_row(b),
        (exists|c: int| 0 <= c < a.len() && !a[c] && b[c]) ==> count_row(a) < count_row(b),
    decreases a.len(),
{
    if a.len() > 0 {
        let a2 = a.drop_last();
        let b2 = b.drop_last();
        lemma_count_row_le(a2, b2);
        if exists|c: int| 0 <= c < a.len() && !a[c] && b[c] {
            let c = choose|c: int| 0 <= c < a.len() && !a[c] && b[c];
            if c < a.len() - 1 {
                assert(!a2[c] && b2[c]);
            }
        }
    }
}

proof fn lemma_count_row_max(a: Seq<bool>)
    ensures
        count_row(a) <= a.len(),
    decreases a.len(),
{
    if a.len() > 0 {
        lemma_count_row_max(a.drop_last());
    }
}

proof fn lemma_count_table_le(a: Seq<Seq<bool>>, b: Seq<Seq<bool>>)
    requires
        a.len() == b.len(),
        forall|x: int| 0 <= x < a.len() ==> #[trigger] a[x].len() == b[x].len(),
        forall|x: int, c: int| 0 <= x < a.len() && 0 <= c < a[x].len() && #[trigger] a[x][c] ==> b[x][c],
    ensures
        count_table(a) <= count_table(b),
        (exists|x: int, c: int|
            0 <= x < a.len() && 0 <= c < a[x].len() && !a[x][c] && #[trigger] b[x][c])
            ==> count_table(a) < count_table(b),
    decreases a.len(),
{
    if a.len() > 0 {
        let a2 = a.drop_last();
        let b2 = b.drop_last();
        let l = a.len() - 1;
        assert forall|x: int| 0 <= x < a2.len() implies #[trigger] a2[x].len() == b2[x].len() by {
            assert(a2[x] == a[x] && b2[x] == b[x]);
        }
        assert forall|x: int, c: int|
            0 <= x < a2.len() && 0 <= c < a2[x].len() && #[trigger] a2[x][c] implies b2[x][c] by {
            assert(a2[x] == a[x] && b2[x] == b[x]);
        }
        lemma_count_table_le(a2, b2);
        assert forall|c: int| 0 <= c < a[l].len() && a[l][c] implies b[l][c] by {
            assert(a[l][c]);
        }
        lemma_count_row_le(a[l], b[l]);
        if exists|x: int, c: int|
            0 <= x < a.len() && 0 <= c < a[x].len() && !a[x][c] && #[trigger] b[x][c] {
            let (x, c) = choose|x: int, c: int|
                0 <= x < a.len() && 0 <= c < a[x].len() && !a[x][c] && #[trigger] b[x][c];
            if x < l {
                assert(a2[x] == a[x] && b2[x] == b[x]);
                assert(!a2[x][c] && b2[x][c]);
            } else {
                assert(!a[l][c] && b[l][c]);
            }
        }
    }
}

proof fn lemma_count_table_max(a: Seq<Seq<bool>>, w: nat)
    requires
        forall|x: int| 0 <= x < a.len() ==> #[trigger] a[x].len() == w,
    ensures
        count_table(a) <= a.len() * w,
    decreases a.len(),
{
    if a.len() > 0 {
        let a2 = a.drop_last();
        assert forall|x: int| 0 <= x < a2.len() implies #[trigger] a2[x].len() == w by {
            assert(a2[x] == a[x]);
        }
        lemma_count_table_max(a2, w);
        lemma_count_row_max(a.last());
        let m = a2.len();
        assert(m * w + w == (m + 1) * w) by (nonlinear_arith);
    }
}

/// The rows of a table held as vectors.
pub open spec fn rows_of(v: Seq<Vec<bool>>) -> Seq<Seq<bool>> {
    v.map_values(|r: Vec<bool>| r@)
}

/// `dst` together with the columns of `src` other than `skip`, and whether
/// anything was added.
fn union_row(dst: &Vec<bool>, src: &Vec<bool>, skip: usize) -> (r: (Vec<bool>, bool))
    requires
        dst@.len() == src@.len(),
    ensures
        r.0@.len() == dst@.len(),
        forall|c: int|
            0 <= c < dst@.len() ==> #[trigger] r.0@[c] == (dst@[c] || (c != skip && src@[c])),
        r.1 ==> exists|c: int| 0 <= c < dst@.len() && !dst@[c] && #[trigger] r.0@[c],
        !r.1 ==> r.0@ == dst@,
{
    let mut row: Vec<bool> = Vec::new();
    let mut added = false;
    let mut c: usize = 0;
    while c < dst.len()
        invariant
            c <= dst@.len(),
            dst@.len() == src@.len(),
            row@.len() == c,
            forall|d: int|
                0 <= d < c ==> #[trigger] row@[d] == (dst@[d] || (d != skip && src@[d])),
            added ==> exists|d: int| 0 <= d < c && !dst@[d] && #[trigger] row@[d],
            !added ==> forall|d: int| 0 <= d < c ==> #[trigger] row@[d] == dst@[d],
        decreases dst@.len() - c,
    {
        let bit = dst[c] || (c != skip && src[c]);
        let newly = bit && !dst[c];
        let ghost old_row = row@;
        let ghost was = added;
        if newly {
            added = true;
        }
        row.push(bit);
        proof {
            assert(row@[c as int] == bit);
            if newly {
                assert(!dst@[c as int] && row@[c as int]);
            } else if was {
                let d = choose|d: int| 0 <= d < c && !dst@[d] && #[trigger] old_row[d];
                assert(row@[d] == old_row[d]);
            }
        }
        c = c + 1;
    }
    if !added {
        assert(row@ =~= dst@);
    }
    (row, added)
}

/// `row` with column `c` set.
fn with_bit(row: &Vec<bool>, c: usize) -> (r: Vec<bool>)
    requires
        c < row@.len(),
    ensures
        r@ == row@.update(c as int, true),
{
    let mut out: Vec<bool> = Vec::new();
    let mut d: usize = 0;
    while d < row.len()
        invariant
            d <= row@.len(),
            c < row@.len(),
            out@ == row@.update(c as int, true).subrange(0, d as int),
        decreases row@.len() - d,
    {
        out.push(d == c || row[d]);
        d = d + 1;
        assert(out@ =~= row@.update(c as int, true).subrange(0, d as int));
    }
    assert(out@ =~= row@.update(c as int, true));
    out
}

/// A table over `n` symbols with no entries.
fn empty_table(n: usize) -> (r: Vec<Vec<bool>>)
    requires
        n + 2 <= usize::MAX,
    ensures
        table_shape(rows_of(r@), n as nat),
        forall|x: int, c: int| 0 <= x < n && 0 <= c < n + 2 ==> !#[trigger] rows_of(r@)[x][c],
{
    let mut t: Vec<Vec<bool>> = Vec::new();
    let mut x: usize = 0;
    while x < n
        invariant
            x <= n,
            n + 2 <= usize::MAX,
            t@.len() == x,
            forall|y: int| 0 <= y < x ==> #[trigger] t@[y]@.len() == n + 2,
            forall|y: int, c: int| 0 <= y < x && 0 <= c < n + 2 ==> !#[trigger] t@[y]@[c],
        decreases n - x,
    {
        let mut row: Vec<bool> = Vec::new();
        let mut c: usize = 0;
        while c < n + 2
            invariant
                c <= n + 2,
                n + 2 <= usize::MAX,
                row@.len() == c,
                forall|d: int| 0 <= d < c ==> !#[trigger] row@[d],
            decreases n + 2 - c,
        {
            row.push(false);
            c = c + 1;
        }
        t.push(row);
        x = x + 1;
    }
    t
}


/// Every table that meets the equations of FIRST holds all of `f`.
pub open spec fn below_every_first(g: &Grammer, f: Seq<Seq<bool>>) -> bool {
    forall|h: Seq<Seq<bool>>| #[trigger] first_closed(g, h) ==> table_le(f, h, g.num_symbols())
}

/// One pass over the rules, carrying FIRST of each alternate into its head.
/// A pass only adds entries, and adds only entries that FIRST has; when it
/// adds nothing, every rule's equation holds.
pub fn first_pass(g: &Grammer, f: &mut Vec<Vec<bool>>) -> (changed: bool)
    requires
        g.wf(),
        table_shape(rows_of(old(f)@), g.num_symbols()),
        below_every_first(g, rows_of(old(f)@)),
    ensures
        table_shape(rows_of(final(f)@), g.num_symbols()),
        below_every_first(g, rows_of(final(f)@)),
        table_le(rows_of(old(f)@), rows_of(final(f)@), g.num_symbols()),
        changed ==> table_grew(rows_of(old(f)@), rows_of(final(f)@), g.num_symbols()),
        !changed ==> rows_of(final(f)@) == rows_of(old(f)@),
        !changed ==> forall|k: int|
            0 <= k < g.rules_view().len() ==> #[trigger] first_rule_closed(g, rows_of(final(f)@), k),
{
    let n = g.alphabet().len();
    let ghost nn = n as nat;
    let ghost f0 = rows_of(f@);
    let mut changed = false;
    let mut k: usize = 0;
    while k < g.num_rules()
        invariant
            g.wf(),
            n == g.num_symbols(),
            nn == n,
            k <= g.rules_view().len(),
            table_shape(rows_of(f@), nn),
            below_every_first(g, rows_of(f@)),
            table_le(f0, rows_of(f@), nn),
            changed ==> table_grew(f0, rows_of(f@), nn),
            !changed ==> rows_of(f@) == f0,
            !changed ==> forall|k2: int|
                0 <= k2 < k ==> #[trigger] first_rule_closed(g, rows_of(f@), k2),
        decreases g.rules_view().len() - k,
    {
        let h = g.rule_head(k).id;
        let alt = g.rule_alternate(k);
        let ghost ra = rule_alt(g, k as int);
        assert(g.rules_view()[k as int].0 < n);
        let mut i: usize = 0;
        let mut go = true;
        while i < alt.len() && go
            invariant
                g.wf(),
                n == g.num_symbols(),
                nn == n,
                k < g.rules_view().len(),
                h == rule_head(g, k as int),
                h < n,
                ra == rule_alt(g, k as int),
                alt@.len() == ra.len(),
                forall|j: int| 0 <= j < alt@.len() ==> #[trigger] alt@[j].id == ra[j],
                forall|j: int| 0 <= j < ra.len() ==> #[trigger] ra[j] < n,
                i <= alt@.len(),
                table_shape(rows_of(f@), nn),
                below_every_first(g, rows_of(f@)),
                table_le(f0, rows_of(f@), nn),
                changed ==> table_grew(f0, rows_of(f@), nn),
                !changed ==> rows_of(f@) == f0,
                !changed ==> forall|k2: int|
                    0 <= k2 < k ==> #[trigger] first_rule_closed(g, rows_of(f@), k2),
                go ==> forall|j: int| 0 <= j < i ==> rows_of(f@)[#[trigger] ra[j] as int][n as int],
                !go ==> 0 < i && !rows_of(f@)[ra[i - 1] as int][n as int],
                !changed ==> forall|j: int, c: int|
                    0 <= j < i && 0 <= c < n + 2 && c != n && #[trigger] rows_of(f@)[ra[j] as int][c]
                        ==> rows_of(f@)[h as int][c],
            decreases alt@.len() - i,
        {
            let s = alt[i].id;
            let ghost fb = rows_of(f@);
            assert(fb[h as int] == f@[h as int]@ && fb[s as int] == f@[s as int]@);
            let (row, added) = union_row(&f[h], &f[s], n);
            let ghost fa = fb.update(h as int, row@);
            proof {
                assert forall|hh: Seq<Seq<bool>>| #[trigger] first_closed(g, hh) implies table_le(
                    fa,
                    hh,
                    nn,
                ) by {
                    assert(table_le(fb, hh, nn));
                    assert forall|x: int, c: int|
                        0 <= x < n && 0 <= c < n + 2 && #[trigger] fa[x][c] implies hh[x][c] by {
                        if x == h && !fb[x][c] {
                            assert(fb[s as int][c]);
                            assert forall|j: int| 0 <= j < i implies hh[ra[j] as int][n as int] by {
                                assert(fb[ra[j] as int][n as int]);
                            }
                            lemma_in_first_intro(hh, nn, ra, i as int, c);
                            assert(first_rule_closed(g, hh, k as int));
                        }
                    }
                }
            }
            f.set(h, row);
            proof {
                assert(rows_of(f@) =~= fa);
                assert(fa[h as int][n as int] == fb[h as int][n as int]);
                assert forall|x: int, c: int|
                    0 <= x < n && 0 <= c < n + 2 && #[trigger] f0[x][c] implies fa[x][c] by {
                    assert(fb[x][c]);
                }
                if added {
                    let c = choose|c: int| 0 <= c < fb[h as int].len() && !fb[h as int][c] && #[trigger] row@[c];
                    assert(fa[h as int][c]);
                    if !changed {
                        assert(!f0[h as int][c]);
                    } else {
                        let (x2, c2) = choose|x2: int, c2: int|
                            0 <= x2 < nn && 0 <= c2 < nn + 2 && !f0[x2][c2] && #[trigger] fb[x2][c2];
                        assert(fa[x2][c2]);
                    }
                } else {
                    assert(fa =~= fb);
                }
            }
            changed = changed || added;
            go = f[s][n];
            proof {
                assert(rows_of(f@)[s as int] == f@[s as int]@);
                assert(ra[i as int] == s);
                if go {
                    assert forall|j: int| 0 <= j <= i implies rows_of(f@)[#[trigger] ra[j] as int][n as int] by {
                        if j < i {
                            assert(fb[ra[j] as int][n as int]);
                        }
                    }
                }
            }
            i = i + 1;
        }
        if go {
            assert(rows_of(f@)[h as int] == f@[h as int]@);
            if !f[h][n] {
                let ghost fb = rows_of(f@);
                let row = with_bit(&f[h], n);
                let ghost fa = fb.update(h as int, row@);
                proof {
                    assert forall|hh: Seq<Seq<bool>>| #[trigger] first_closed(g, hh) implies table_le(
                        fa,
                        hh,
                        nn,
                    ) by {
                        assert(table_le(fb, hh, nn));
                        assert forall|x: int, c: int|
                            0 <= x < n && 0 <= c < n + 2 && #[trigger] fa[x][c] implies hh[x][c] by {
                            if x == h && !fb[x][c] {
                                assert forall|j: int| 0 <= j < ra.len() implies hh[ra[j] as int][n as int] by {
                                    assert(fb[ra[j] as int][n as int]);
                                }
                                lemma_in_first_vanish(hh, nn, ra);
                                assert(first_rule_closed(g, hh, k as int));
                            }
                        }
                    }
                }
                f.set(h, row);
                proof {
                    assert(rows_of(f@) =~= fa);
                    assert forall|x: int, c: int|
                        0 <= x < n && 0 <= c < n + 2 && #[trigger] f0[x][c] implies fa[x][c] by {
                        assert(fb[x][c]);
                    }
                    if !changed {
                        assert(!f0[h as int][n as int]);
                        assert(fa[h as int][n as int]);
                    } else {
                        let (x2, c2) = choose|x2: int, c2: int|
                            0 <= x2 < nn && 0 <= c2 < nn + 2 && !f0[x2][c2] && #[trigger] fb[x2][c2];
                        assert(fa[x2][c2]);
                    }
                }
                changed = true;
            }
        }
        proof {
            if !changed {
                let ft = rows_of(f@);
                assert forall|c: int|
                    0 <= c < n + 2 && #[trigger] in_first_of_seq(ft, nn, ra, c) implies ft[h as int][c] by {
                    lemma_in_first_elim(ft, nn, ra, c);
                    if c != n {
                        let i0 = choose|i0: int|
                            0 <= i0 < ra.len() && ft[ra[i0] as int][c] && forall|j: int|
                                0 <= j < i0 ==> ft[ra[j] as int][n as int];
                        if !go {
                            if i0 > i - 1 {
                                assert(ft[ra[i - 1] as int][n as int]);
                            }
                        }
                        assert(ft[ra[i0] as int][c]);
                    } else {
                        if !go {
                            assert(ft[ra[i - 1] as int][n as int]);
                        }
                    }
                }
                assert(first_rule_closed(g, ft, k as int));
            }
        }
        k = k + 1;
    }
    changed
}


/// FIRST or FOLLOW sets of every symbol of a grammar, one row per symbol.
pub struct EntrySets {
    rows: Vec<Vec<bool>>,
}

impl View for EntrySets {
    type V = Seq<Seq<bool>>;

    closed spec fn view(&self) -> Seq<Seq<bool>> {
        rows_of(self.rows@)
    }
}

impl EntrySets {
    pub open spec fn wf(&self) -> bool {
        table_shape(self@, self@.len()) && self@.len() + 2 <= usize::MAX
    }

    /// Number of symbols that the sets cover.
    pub fn len(&self) -> (r: usize)
        ensures
            r == self@.len(),
    {
        self.rows.len()
    }

    /// Whether `e` is in the set of `sym`.
    pub fn contains(&self, sym: SymbolId, e: SetEntry) -> (r: bool)
        requires
            self.wf(),
        ensures
            r == (sym.id < self@.len() && entry_valid(e, self@.len()) && self@[sym.id as int][entry_code(
                e,
                self@.len(),
            )]),
    {
        let n = self.rows.len();
        if sym.id >= n {
            return false;
        }
        assert(self@[sym.id as int] == self.rows@[sym.id as int]@);
        match e {
            SetEntry::Id(t) => t.id < n && self.rows[sym.id][t.id],
            SetEntry::Empty => self.rows[sym.id][n],
            SetEntry::End => self.rows[sym.id][n + 1],
        }
    }

    /// The entries of the set of `sym`: terminals by increasing identity, then
    /// `Empty`, then `End`.
    pub fn entries(&self, sym: SymbolId) -> (r: Vec<SetEntry>)
        requires
            self.wf(),
            sym.id < self@.len(),
        ensures
            forall|e: SetEntry|
                r@.contains(e) <==> (entry_valid(e, self@.len()) && self@[sym.id as int][entry_code(
                    e,
                    self@.len(),
                )]),
            forall|a: int, b: int|
                0 <= a < b < r@.len() ==> entry_code(r@[a], self@.len()) < entry_code(
                    r@[b],
                    self@.len(),
                ),
    {
        let n = self.rows.len();
        let ghost nn = n as nat;
        let ghost row = self@[sym.id as int];
        assert(row == self.rows@[sym.id as int]@);
        let mut out: Vec<SetEntry> = Vec::new();
        let mut c: usize = 0;
        while c < n + 2
            invariant
                n == self@.len(),
                nn == n,
                self.wf(),
                sym.id < n,
                row == self@[sym.id as int],
                row == self.rows@[sym.id as int]@,
                c <= n + 2,
                forall|a: int|
                    0 <= a < out@.len() ==> 0 <= #[trigger] entry_code(out@[a], nn) < c && entry_valid(
                        out@[a],
                        nn,
                    ) && row[entry_code(out@[a], nn)],
                forall|a: int, b: int|
                    0 <= a < b < out@.len() ==> entry_code(out@[a], nn) < entry_code(out@[b], nn),
                forall|e: SetEntry|
                    0 <= #[trigger] entry_code(e, nn) < c && entry_valid(e, nn) && row[entry_code(e, nn)]
                        ==> out@.contains(e),
            decreases n + 2 - c,
        {
            if self.rows[sym.id][c] {
                let e = if c < n {
                    SetEntry::Id(SymbolId { id: c })
                } else if c == n {
                    SetEntry::Empty
                } else {
                    SetEntry::End
                };
                let ghost before = out@;
                out.push(e);
                proof {
                    assert(entry_code(e, nn) == c);
                    assert(out@[before.len() as int] == e);
                    assert forall|e2: SetEntry|
                        0 <= #[trigger] entry_code(e2, nn) < c + 1 && entry_valid(e2, nn) && row[entry_code(e2, nn)] implies out@.contains(e2) by {
                        if entry_code(e2, nn) < c {
                            let a = choose|a: int| 0 <= a < before.len() && before[a] == e2;
                            assert(out@[a] == e2);
                        } else {
                            match e2 {
                                SetEntry::Id(t) => assert(e2 == e),
                                SetEntry::Empty => assert(e2 == e),
                                SetEntry::End => assert(e2 == e),
                            }
                            assert(out@[before.len() as int] == e2);
                        }
                    }
                }
            }
            c = c + 1;
        }
        proof {
            assert forall|e: SetEntry|
                out@.contains(e) <==> (entry_valid(e, nn) && row[entry_code(e, nn)]) by {
                if out@.contains(e) {
                    let a = choose|a: int| 0 <= a < out@.len() && out@[a] == e;
                    assert(0 <= entry_code(out@[a], nn));
                }
                if entry_valid(e, nn) && row[entry_code(e, nn)] {
                    assert(0 <= entry_code(e, nn) < n + 2);
                }
            }
        }
        out
    }
}

/// FIRST of every symbol of `g`.
pub fn first_sets(g: &Grammer) -> (r: EntrySets)
    requires
        g.wf(),
    ensures
        r.wf(),
        is_first(g, r@),
{
    let n = g.alphabet().len();
    let ghost nn = n as nat;
    let mut f = empty_table(n);
    let mut t: usize = 0;
    while t < n
        invariant
            g.wf(),
            n == g.num_symbols(),
            nn == n,
            t <= n,
            table_shape(rows_of(f@), nn),
            below_every_first(g, rows_of(f@)),
            forall|u: int|
                0 <= u < t && g.class_of(u as nat) == SymbolType::Terminal ==> #[trigger] rows_of(
                    f@,
                )[u][u],
        decreases n - t,
    {
        let ghost fb = rows_of(f@);
        if g.alphabet().is_type(&SymbolId { id: t }, SymbolType::Terminal) {
            assert(fb[t as int] == f@[t as int]@);
            let row = with_bit(&f[t], t);
            let ghost fa = fb.update(t as int, row@);
            proof {
                assert forall|hh: Seq<Seq<bool>>| #[trigger] first_closed(g, hh) implies table_le(fa, hh, nn) by {
                    assert(table_le(fb, hh, nn));
                    assert forall|x: int, c: int|
                        0 <= x < n && 0 <= c < n + 2 && #[trigger] fa[x][c] implies hh[x][c] by {
                        if x == t && c == t {
                            assert(g.class_of(t as nat) == SymbolType::Terminal);
                        } else {
                            assert(fb[x][c]);
                        }
                    }
                }
            }
            f.set(t, row);
            proof {
                assert(rows_of(f@) =~= fa);
                assert forall|u: int|
                    0 <= u < t + 1 && g.class_of(u as nat) == SymbolType::Terminal implies #[trigger] rows_of(f@)[u][u] by {
                    if u < t {
                        assert(fb[u][u]);
                    }
                }
            }
        }
        t = t + 1;
    }
    let mut done = false;
    proof {
        lemma_count_table_max(rows_of(f@), nn + 2);
    }
    while !done
        invariant
            g.wf(),
            n == g.num_symbols(),
            nn == n,
            table_shape(rows_of(f@), nn),
            below_every_first(g, rows_of(f@)),
            forall|u: int|
                0 <= u < n && g.class_of(u as nat) == SymbolType::Terminal ==> #[trigger] rows_of(
                    f@,
                )[u][u],
            count_table(rows_of(f@)) <= nn * (nn + 2),
            done ==> forall|k: int|
                0 <= k < g.rules_view().len() ==> #[trigger] first_rule_closed(g, rows_of(f@), k),
        decreases nn * (nn + 2) - count_table(rows_of(f@)) + if done {
            0int
        } else {
            1int
        },
    {
        let ghost before = rows_of(f@);
        let changed = first_pass(g, &mut f);
        proof {
            let after = rows_of(f@);
            assert forall|u: int|
                0 <= u < n && g.class_of(u as nat) == SymbolType::Terminal implies #[trigger] after[u][u] by {
                assert(before[u][u]);
            }
            assert forall|x: int| 0 <= x < before.len() implies #[trigger] before[x].len() == after[x].len() by {
            }
            lemma_count_table_le(before, after);
            lemma_count_table_max(after, nn + 2);
        }
        if !changed {
            done = true;
        }
    }
    EntrySets { rows: f }
}


/// Every table that meets the equations of FOLLOW over `first` holds all of `fo`.
pub open spec fn below_every_follow(g: &Grammer, first: Seq<Seq<bool>>, fo: Seq<Seq<bool>>) -> bool {
    forall|h: Seq<Seq<bool>>|
        #[trigger] follow_closed(g, first, h) ==> table_le(fo, h, g.num_symbols())
}

/// One pass over every position of every rule, carrying into FOLLOW of each
/// non-terminal what may come after it. A pass only adds entries, and adds
/// only entries that FOLLOW has; when it adds nothing, every equation holds.
pub fn follow_pass(g: &Grammer, first: &EntrySets, fo: &mut Vec<Vec<bool>>) -> (changed: bool)
    requires
        g.wf(),
        first.wf(),
        first@.len() == g.num_symbols(),
        table_shape(rows_of(old(fo)@), g.num_symbols()),
        below_every_follow(g, first@, rows_of(old(fo)@)),
    ensures
        table_shape(rows_of(final(fo)@), g.num_symbols()),
        below_every_follow(g, first@, rows_of(final(fo)@)),
        table_le(rows_of(old(fo)@), rows_of(final(fo)@), g.num_symbols()),
        changed ==> table_grew(rows_of(old(fo)@), rows_of(final(fo)@), g.num_symbols()),
        !changed ==> rows_of(final(fo)@) == rows_of(old(fo)@),
        !changed ==> forall|k: int, i: int|
            0 <= k < g.rules_view().len() && 0 <= i < rule_alt(g, k).len()
                ==> #[trigger] follow_pos_closed(g, first@, rows_of(final(fo)@), k, i),
{
    let n = g.alphabet().len();
    let ghost nn = n as nat;
    let ghost f0 = rows_of(fo@);
    let ghost fi = first@;
    let mut changed = false;
    let mut k: usize = 0;
    while k < g.num_rules()
        invariant
            g.wf(),
            first.wf(),
            fi == first@,
            fi == rows_of(first.rows@),
            n == g.num_symbols(),
            nn == n,
            fi.len() == n,
            k <= g.rules_view().len(),
            table_shape(rows_of(fo@), nn),
            below_every_follow(g, fi, rows_of(fo@)),
            table_le(f0, rows_of(fo@), nn),
            changed ==> table_grew(f0, rows_of(fo@), nn),
            !changed ==> rows_of(fo@) == f0,
            !changed ==> forall|k2: int, i2: int|
                0 <= k2 < k && 0 <= i2 < rule_alt(g, k2).len() ==> #[trigger] follow_pos_closed(
                    g,
                    fi,
                    rows_of(fo@),
                    k2,
                    i2,
                ),
        decreases g.rules_view().len() - k,
    {
        let h = g.rule_head(k).id;
        let alt = g.rule_alternate(k);
        let ghost ra = rule_alt(g, k as int);
        assert(g.rules_view()[k as int].0 < n);
        let mut i: usize = 0;
        while i < alt.len()
            invariant
                g.wf(),
                first.wf(),
                fi == first@,
                fi == rows_of(first.rows@),
                n == g.num_symbols(),
                nn == n,
                fi.len() == n,
                k < g.rules_view().len(),
                h == rule_head(g, k as int),
                h < n,
                ra == rule_alt(g, k as int),
                alt@.len() == ra.len(),
                forall|j: int| 0 <= j < alt@.len() ==> #[trigger] alt@[j].id == ra[j],
                forall|j: int| 0 <= j < ra.len() ==> #[trigger] ra[j] < n,
                i <= alt@.len(),
                table_shape(rows_of(fo@), nn),
                below_every_follow(g, fi, rows_of(fo@)),
                table_le(f0, rows_of(fo@), nn),
                changed ==> table_grew(f0, rows_of(fo@), nn),
                !changed ==> rows_of(fo@) == f0,
                !changed ==> forall|k2: int, i2: int|
                    0 <= k2 < k && 0 <= i2 < rule_alt(g, k2).len() ==> #[trigger] follow_pos_closed(
                        g,
                        fi,
                        rows_of(fo@),
                        k2,
                        i2,
                    ),
                !changed ==> forall|i2: int|
                    0 <= i2 < i ==> #[trigger] follow_pos_closed(g, fi, rows_of(fo@), k as int, i2),
            decreases alt@.len() - i,
        {
            let x = alt[i].id;
            let ghost rr = rule_rest(g, k as int, i as int);
            assert(x == ra[i as int]);
            if g.alphabet().is_type(&alt[i], SymbolType::NonTerminal) {
                let alen = alt.len();
                let rest_len = alen - i - 1;
                let mut m: usize = 0;
                let mut go = true;
                while m < rest_len && go
                    invariant
                        rest_len == rr.len(),
                        i + 1 + rest_len == alen,
                        alen == alt@.len(),
                        !changed ==> forall|k2: int, i2: int|
                            0 <= k2 < k && 0 <= i2 < rule_alt(g, k2).len() ==> #[trigger] follow_pos_closed(
                                g,
                                fi,
                                rows_of(fo@),
                                k2,
                                i2,
                            ),
                        !changed ==> forall|i2: int|
                            0 <= i2 < i ==> #[trigger] follow_pos_closed(g, fi, rows_of(fo@), k as int, i2),
                        g.wf(),
                        first.wf(),
                        fi == first@,
                        fi == rows_of(first.rows@),
                        n == g.num_symbols(),
                        nn == n,
                        fi.len() == n,
                        k < g.rules_view().len(),
                        h == rule_head(g, k as int),
                        h < n,
                        ra == rule_alt(g, k as int),
                        alt@.len() == ra.len(),
                        forall|j: int| 0 <= j < alt@.len() ==> #[trigger] alt@[j].id == ra[j],
                        forall|j: int| 0 <= j < ra.len() ==> #[trigger] ra[j] < n,
                        i < alt@.len(),
                        x == ra[i as int],
                        g.class_of(x as nat) == SymbolType::NonTerminal,
                        rr == rule_rest(g, k as int, i as int),
                        rr.len() == alt@.len() - i - 1,
                        m <= rr.len(),
                        table_shape(rows_of(fo@), nn),
                        below_every_follow(g, fi, rows_of(fo@)),
                        table_le(f0, rows_of(fo@), nn),
                        changed ==> table_grew(f0, rows_of(fo@), nn),
                        !changed ==> rows_of(fo@) == f0,
                        go ==> forall|j: int| 0 <= j < m ==> fi[#[trigger] rr[j] as int][n as int],
                        !go ==> 0 < m && !fi[rr[m - 1] as int][n as int],
                        !changed ==> forall|j: int, c: int|
                            0 <= j < m && 0 <= c < n + 2 && c != n && #[trigger] fi[rr[j] as int][c]
                                ==> rows_of(fo@)[x as int][c],
                    decreases rr.len() - m,
                {
                    let s = alt[i + 1 + m].id;
                    assert(rr[m as int] == ra[i + 1 + m]);
                    assert(s == rr[m as int]);
                    let ghost fb = rows_of(fo@);
                    assert(fb[x as int] == fo@[x as int]@ && fi[s as int] == first.rows@[s as int]@);
                    let (row, added) = union_row(&fo[x], &first.rows[s], n);
                    let ghost fa = fb.update(x as int, row@);
                    proof {
                        assert forall|hh: Seq<Seq<bool>>| #[trigger] follow_closed(g, fi, hh) implies table_le(
                            fa,
                            hh,
                            nn,
                        ) by {
                            assert(table_le(fb, hh, nn));
                            assert forall|y: int, c: int|
                                0 <= y < n && 0 <= c < n + 2 && #[trigger] fa[y][c] implies hh[y][c] by {
                                if y == x && !fb[y][c] {
                                    assert(fi[s as int][c]);
                                    lemma_in_first_intro(fi, nn, rr, m as int, c);
                                    assert(follow_pos_closed(g, fi, hh, k as int, i as int));
                                }
                            }
                        }
                    }
                    fo.set(x, row);
                    proof {
                        assert(rows_of(fo@) =~= fa);
                        assert forall|y: int, c: int|
                            0 <= y < n && 0 <= c < n + 2 && #[trigger] f0[y][c] implies fa[y][c] by {
                            assert(fb[y][c]);
                        }
                        if added {
                            let c = choose|c: int|
                                0 <= c < fb[x as int].len() && !fb[x as int][c] && #[trigger] row@[c];
                            assert(fa[x as int][c]);
                            if !changed {
                                assert(!f0[x as int][c]);
                            } else {
                                let (x2, c2) = choose|x2: int, c2: int|
                                    0 <= x2 < nn && 0 <= c2 < nn + 2 && !f0[x2][c2] && #[trigger] fb[x2][c2];
                                assert(fa[x2][c2]);
                            }
                        } else {
                            assert(fa =~= fb);
                        }
                    }
                    changed = changed || added;
                    go = first.rows[s][n];
                    m = m + 1;
                }
                if go {
                    let ghost fb = rows_of(fo@);
                    assert(fb[x as int] == fo@[x as int]@ && fb[h as int] == fo@[h as int]@);
                    let (row, added) = union_row(&fo[x], &fo[h], n + 2);
                    let ghost fa = fb.update(x as int, row@);
                    proof {
                        assert forall|hh: Seq<Seq<bool>>| #[trigger] follow_closed(g, fi, hh) implies table_le(
                            fa,
                            hh,
                            nn,
                        ) by {
                            assert(table_le(fb, hh, nn));
                            assert forall|y: int, c: int|
                                0 <= y < n && 0 <= c < n + 2 && #[trigger] fa[y][c] implies hh[y][c] by {
                                if y == x && !fb[y][c] {
                                    assert(fb[h as int][c]);
                                    assert(hh[h as int][c]);
                                    lemma_in_first_vanish(fi, nn, rr);
                                    assert(follow_pos_closed(g, fi, hh, k as int, i as int));
                                }
                            }
                        }
                    }
                    fo.set(x, row);
                    proof {
                        assert(rows_of(fo@) =~= fa);
                        assert forall|y: int, c: int|
                            0 <= y < n && 0 <= c < n + 2 && #[trigger] f0[y][c] implies fa[y][c] by {
                            assert(fb[y][c]);
                        }
                        if added {
                            let c = choose|c: int|
                                0 <= c < fb[x as int].len() && !fb[x as int][c] && #[trigger] row@[c];
                            assert(fa[x as int][c]);
                            if !changed {
                                assert(!f0[x as int][c]);
                            } else {
                                let (x2, c2) = choose|x2: int, c2: int|
                                    0 <= x2 < nn && 0 <= c2 < nn + 2 && !f0[x2][c2] && #[trigger] fb[x2][c2];
                                assert(fa[x2][c2]);
                            }
                        } else {
                            assert(fa =~= fb);
                            assert forall|c: int| 0 <= c < n + 2 && fb[h as int][c] implies fb[x as int][c] by {
                                assert(row@[c] == (fb[x as int][c] || fb[h as int][c]));
                            }
                        }
                    }
                    changed = changed || added;
                }
                proof {
                    if !changed {
                        let ft = rows_of(fo@);
                        assert forall|c: int|
                            0 <= c < n + 2 && c != n && #[trigger] in_first_of_seq(fi, nn, rr, c) implies ft[x as int][c] by {
                            lemma_in_first_elim(fi, nn, rr, c);
                            let m0 = choose|m0: int|
                                0 <= m0 < rr.len() && fi[rr[m0] as int][c] && forall|j: int|
                                    0 <= j < m0 ==> fi[rr[j] as int][n as int];
                            if !go {
                                if m0 > m - 1 {
                                    assert(fi[rr[m - 1] as int][n as int]);
                                }
                            }
                            assert(fi[rr[m0] as int][c]);
                        }
                        if in_first_of_seq(fi, nn, rr, n as int) {
                            lemma_in_first_elim(fi, nn, rr, n as int);
                            if !go {
                                assert(fi[rr[m - 1] as int][n as int]);
                            }
                        }
                        assert(follow_pos_closed(g, fi, ft, k as int, i as int));
                    }
                }
            } else {
                assert(g.class_of(x as nat) != SymbolType::NonTerminal);
                assert(follow_pos_closed(g, fi, rows_of(fo@), k as int, i as int));
            }
            i = i + 1;
        }
        k = k + 1;
    }
    changed
}


/// FOLLOW of every symbol of `g`, over the FIRST table `first`.
pub fn follow_sets_from(g: &Grammer, first: &EntrySets) -> (r: EntrySets)
    requires
        g.wf(),
        first.wf(),
        first@.len() == g.num_symbols(),
    ensures
        r.wf(),
        is_follow(g, first@, r@),
{
    let n = g.alphabet().len();
    let ghost nn = n as nat;
    let ghost fi = first@;
    let mut fo = empty_table(n);
    let st = g.start().id;
    let ghost fb = rows_of(fo@);
    assert(fb[st as int] == fo@[st as int]@);
    let row = with_bit(&fo[st], n + 1);
    let ghost fa = fb.update(st as int, row@);
    proof {
        assert forall|hh: Seq<Seq<bool>>| #[trigger] follow_closed(g, fi, hh) implies table_le(fa, hh, nn) by {
            assert forall|x: int, c: int|
                0 <= x < n && 0 <= c < n + 2 && #[trigger] fa[x][c] implies hh[x][c] by {
                if !(x == st && c == n + 1) {
                    assert(fb[x][c]);
                }
            }
        }
    }
    fo.set(st, row);
    proof {
        assert(rows_of(fo@) =~= fa);
        lemma_count_table_max(rows_of(fo@), nn + 2);
    }
    let mut done = false;
    while !done
        invariant
            g.wf(),
            first.wf(),
            fi == first@,
            fi.len() == n,
            n == g.num_symbols(),
            nn == n,
            st == g.start_id(),
            table_shape(rows_of(fo@), nn),
            below_every_follow(g, fi, rows_of(fo@)),
            rows_of(fo@)[st as int][n + 1],
            count_table(rows_of(fo@)) <= nn * (nn + 2),
            done ==> forall|k: int, i: int|
                0 <= k < g.rules_view().len() && 0 <= i < rule_alt(g, k).len()
                    ==> #[trigger] follow_pos_closed(g, fi, rows_of(fo@), k, i),
        decreases nn * (nn + 2) - count_table(rows_of(fo@)) + if done {
            0int
        } else {
            1int
        },
    {
        let ghost before = rows_of(fo@);
        let changed = follow_pass(g, first, &mut fo);
        proof {
            let after = rows_of(fo@);
            assert(before[st as int][n + 1]);
            assert forall|x: int| 0 <= x < before.len() implies #[trigger] before[x].len() == after[x].len() by {
            }
            lemma_count_table_le(before, after);
            lemma_count_table_max(after, nn + 2);
        }
        if !changed {
            done = true;
        }
    }
    EntrySets { rows: fo }
}

/// The FIRST table of `g`.
pub open spec fn first_of(g: &Grammer) -> Seq<Seq<bool>> {
    choose|f: Seq<Seq<bool>>| is_first(g, f)
}

/// Two tables of the same shape that hold each other are equal.
proof fn lemma_table_antisym(a: Seq<Seq<bool>>, b: Seq<Seq<bool>>, n: nat)
    requires
        table_shape(a, n),
        table_shape(b, n),
        table_le(a, b, n),
        table_le(b, a, n),
    ensures
        a == b,
{
    assert forall|x: int| 0 <= x < n implies a[x] == b[x] by {
        assert forall|c: int| 0 <= c < n + 2 implies a[x][c] == b[x][c] by {
            if a[x][c] {
                assert(b[x][c]);
            }
            if b[x][c] {
                assert(a[x][c]);
            }
        }
        assert(a[x] =~= b[x]);
    }
    assert(a =~= b);
}

/// FIRST is determined by the grammar: two computations of it agree.
pub proof fn lemma_first_unique(g: &Grammer, a: Seq<Seq<bool>>, b: Seq<Seq<bool>>)
    requires
        is_first(g, a),
        is_first(g, b),
    ensures
        a == b,
        a == first_of(g),
{
    assert(first_closed(g, b));
    assert(first_closed(g, a));
    lemma_table_antisym(a, b, g.num_symbols());
    let c = first_of(g);
    assert(is_first(g, c));
    assert(first_closed(g, c));
    lemma_table_antisym(a, c, g.num_symbols());
}

/// FOLLOW is determined by the grammar and FIRST: two computations of it agree.
pub proof fn lemma_follow_unique(
    g: &Grammer,
    first: Seq<Seq<bool>>,
    a: Seq<Seq<bool>>,
    b: Seq<Seq<bool>>,
)
    requires
        is_follow(g, first, a),
        is_follow(g, first, b),
    ensures
        a == b,
{
    assert(follow_closed(g, first, b));
    assert(follow_closed(g, first, a));
    lemma_table_antisym(a, b, g.num_symbols());
}

/// FOLLOW of every symbol of `g`.
pub fn follow_sets(g: &Grammer) -> (r: EntrySets)
    requires
        g.wf(),
    ensures
        r.wf(),
        is_follow(g, first_of(g), r@),
{
    let first = first_sets(g);
    proof {
        lemma_first_unique(g, first@, first@);
    }
    follow_sets_from(g, &first)
}

/// FIRST and FOLLOW of every symbol of `g`.
pub fn compute_first_and_follow(g: &Grammer) -> (r: (EntrySets, EntrySets))
    requires
        g.wf(),
    ensures
        r.0.wf(),
        r.1.wf(),
        r.0@ == first_of(g),
        is_first(g, r.0@),
        is_follow(g, r.0@, r.1@),
{
    let first = first_sets(g);
    proof {
        lemma_first_unique(g, first@, first@);
    }
    let follow = follow_sets_from(g, &first);
    (first, follow)
}

/// FIRST of a terminal holds that terminal and nothing else.
pub proof fn lemma_first_of_terminal(g: &Grammer, f: Seq<Seq<bool>>, t: nat, e: SetEntry)
    requires
        g.wf(),
        is_first(g, f),
        t < g.num_symbols(),
        g.class_of(t) == SymbolType::Terminal,
        entry_valid(e, g.num_symbols()),
    ensures
        f[t as int][entry_code(e, g.num_symbols())] <==> e == SetEntry::Id(SymbolId { id: t as usize }),
{
    let n = g.num_symbols();
    let h = Seq::new(
        n,
        |x: int|
            if g.class_of(x as nat) == SymbolType::Terminal {
                Seq::new(n + 2, |c: int| c == x)
            } else {
                f[x]
            },
    );
    assert(first_closed(g, f));
    assert(table_le(h, f, n)) by {
        assert forall|x: int, c: int| 0 <= x < n && 0 <= c < n + 2 && #[trigger] h[x][c] implies f[x][c] by {
            if g.class_of(x as nat) == SymbolType::Terminal {
                assert(c == x);
            }
        }
    }
    assert forall|k: int| 0 <= k < g.rules_view().len() implies #[trigger] first_rule_closed(g, h, k) by {
        assert(first_rule_closed(g, f, k));
        assert(g.rules_view()[k].0 < n);
        assert forall|c: int|
            0 <= c < n + 2 && #[trigger] in_first_of_seq(h, n, rule_alt(g, k), c) implies h[rule_head(g, k)][c] by {
            assert forall|j: int| 0 <= j < rule_alt(g, k).len() implies rule_alt(g, k)[j] < n by {
                assert(g.rules_view()[k].1[j] < n);
            }
            lemma_in_first_mono(h, f, n, rule_alt(g, k), c);
        }
    }
    assert(first_closed(g, h));
    let c0 = entry_code(e, n);
    assert(0 <= c0 < n + 2);
    if f[t as int][c0] {
        assert(h[t as int][c0]);
        assert(c0 == t);
    } else {
        assert(f[t as int][t as int]);
    }
}

/// A non-terminal with an epsilon rule has `Empty` in its FIRST set.
pub proof fn lemma_first_of_epsilon_rule(g: &Grammer, f: Seq<Seq<bool>>, k: int)
    requires
        g.wf(),
        is_first(g, f),
        0 <= k < g.rules_view().len(),
        rule_alt(g, k).len() == 0,
    ensures
        f[rule_head(g, k)][entry_code(SetEntry::Empty, g.num_symbols())],
{
    assert(first_rule_closed(g, f, k));
    assert(in_first_of_seq(f, g.num_symbols(), rule_alt(g, k), g.num_symbols() as int));
}

/// `End` is in FOLLOW of the start symbol.
pub proof fn lemma_follow_of_start(g: &Grammer, first: Seq<Seq<bool>>, fo: Seq<Seq<bool>>)
    requires
        is_follow(g, first, fo),
    ensures
        fo[g.start_id() as int][entry_code(SetEntry::End, g.num_symbols())],
{
}


/// Every rule of `g1` is a rule of `g2`.
pub open spec fn rules_within(g1: &Grammer, g2: &Grammer) -> bool {
    forall|k1: int|
        0 <= k1 < g1.rules_view().len() ==> exists|k2: int|
            0 <= k2 < g2.rules_view().len() && g2.rules_view()[k2] == #[trigger] g1.rules_view()[k1]
}

proof fn lemma_first_closed_transfer(g1: &Grammer, g2: &Grammer, h: Seq<Seq<bool>>)
    requires
        g1.symbols() == g2.symbols(),
        rules_within(g2, g1),
        first_closed(g1, h),
    ensures
        first_closed(g2, h),
{
    assert forall|k: int| 0 <= k < g2.rules_view().len() implies #[trigger] first_rule_closed(g2, h, k) by {
        let r = g2.rules_view()[k];
        assert(exists|k1: int| 0 <= k1 < g1.rules_view().len() && g1.rules_view()[k1] == r);
        let k1 = choose|k1: int| 0 <= k1 < g1.rules_view().len() && g1.rules_view()[k1] == r;
        assert(first_rule_closed(g1, h, k1));
        assert(rule_alt(g1, k1) == rule_alt(g2, k));
        assert(rule_head(g1, k1) == rule_head(g2, k));
        assert(g1.num_symbols() == g2.num_symbols());
    }
}

/// FIRST does not depend on the order in which the rules are listed: two
/// grammars over the same symbols with the same rules have the same FIRST.
pub proof fn lemma_first_rule_order(g1: &Grammer, g2: &Grammer, f1: Seq<Seq<bool>>, f2: Seq<Seq<bool>>)
    requires
        g1.symbols() == g2.symbols(),
        rules_within(g1, g2),
        rules_within(g2, g1),
        is_first(g1, f1),
        is_first(g2, f2),
    ensures
        f1 == f2,
{
    lemma_first_closed_transfer(g1, g2, f1);
    lemma_first_closed_transfer(g2, g1, f2);
    assert(first_closed(g2, f1));
    assert(first_closed(g1, f2));
    lemma_table_antisym(f1, f2, g1.num_symbols());
}

proof fn lemma_follow_closed_transfer(
    g1: &Grammer,
    g2: &Grammer,
    first: Seq<Seq<bool>>,
    h: Seq<Seq<bool>>,
)
    requires
        g1.symbols() == g2.symbols(),
        g1.start_id() == g2.start_id(),
        rules_within(g2, g1),
        follow_closed(g1, first, h),
    ensures
        follow_closed(g2, first, h),
{
    assert forall|k: int, i: int|
        0 <= k < g2.rules_view().len() && 0 <= i < rule_alt(g2, k).len() implies #[trigger] follow_pos_closed(
        g2,
        first,
        h,
        k,
        i,
    ) by {
        let r = g2.rules_view()[k];
        assert(exists|k1: int| 0 <= k1 < g1.rules_view().len() && g1.rules_view()[k1] == r);
        let k1 = choose|k1: int| 0 <= k1 < g1.rules_view().len() && g1.rules_view()[k1] == r;
        assert(follow_pos_closed(g1, first, h, k1, i));
        assert(rule_alt(g1, k1) == rule_alt(g2, k));
        assert(rule_head(g1, k1) == rule_head(g2, k));
        assert(g1.num_symbols() == g2.num_symbols());
        assert(g1.class_of(rule_alt(g1, k1)[i]) == g2.class_of(rule_alt(g2, k)[i]));
        assert(rule_rest(g1, k1, i) == rule_rest(g2, k, i));
    }
}

/// FOLLOW does not depend on the order in which the rules are listed.
pub proof fn lemma_follow_rule_order(
    g1: &Grammer,
    g2: &Grammer,
    first: Seq<Seq<bool>>,
    f1: Seq<Seq<bool>>,
    f2: Seq<Seq<bool>>,
)
    requires
        g1.symbols() == g2.symbols(),
        g1.start_id() == g2.start_id(),
        rules_within(g1, g2),
        rules_within(g2, g1),
        is_follow(g1, first, f1),
        is_follow(g2, first, f2),
    ensures
        f1 == f2,
{
    lemma_follow_closed_transfer(g1, g2, first, f1);
    lemma_follow_closed_transfer(g2, g1, first, f2);
    assert(follow_closed(g2, first, f1));
    assert(follow_closed(g1, first, f2));
    lemma_table_antisym(f1, f2, g1.num_symbols());
}

} // verus!
