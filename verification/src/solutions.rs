//! Solutions: values for symbols that satisfy the rows of a tableau.
use crate::equations::{mix, reexpressed, share, swapped};
use crate::exact::{at, lemma_plain_product, lemma_regroup, lemma_spread};
use crate::row::RowModel;
use crate::simplex::{TableauModel, Tag};
use crate::symbol::Symbol;
use vstd::prelude::*;

verus! {

/// Values for symbols.
pub type Assignment = spec_fn(Symbol) -> real;

/// The symbol with the given place among all symbols.
pub open spec fn nth(i: nat) -> Symbol {
    Symbol { raw: i as u64 }
}

/// A sum over the first symbols.
pub open spec fn tally(f: spec_fn(Symbol) -> real, n: nat) -> real
    decreases n,
{
    if n == 0 {
        0 as real
    } else {
        tally(f, (n - 1) as nat) + f(nth((n - 1) as nat))
    }
}

/// What a symbol comes to, when the symbols that it is made of have the given values.
pub open spec fn comes_to(t: TableauModel, k: Symbol, a: Assignment, n: nat) -> real {
    share(t, k, None) + tally(|s: Symbol| share(t, k, Some(s)) * a(s), n)
}

/// What a row comes to.
pub open spec fn row_comes_to(row: RowModel, a: Assignment, n: nat) -> real {
    at(row, None) + tally(|s: Symbol| at(row, Some(s)) * a(s), n)
}

/// Whether values satisfy the rows of a tableau, all of whose symbols are among the first ones.
pub open spec fn satisfies(a: Assignment, t: TableauModel, n: nat) -> bool {
    &&& n <= u64::MAX
    &&& forall|k: Symbol| #[trigger]
        t.rows.contains_key(k) ==> k.raw < n && a(k) == comes_to(t, k, a, n)
}

/// What a sum of multiples of symbols comes to.
pub open spec fn total(terms: Seq<(Symbol, real)>, a: Assignment) -> real
    decreases terms.len(),
{
    if terms.len() == 0 {
        0 as real
    } else {
        total(terms.drop_last(), a) + terms.last().1 * a(terms.last().0)
    }
}

/// Whether two symbols occur only together: in every row, so much of the one with so much of the
/// other.
pub open spec fn coupled(t: TableauModel, tag: Tag, f: real, g: real) -> bool {
    forall|k: Symbol| #[trigger]
        share(t, k, Some(tag.marker)) * g - share(t, k, Some(tag.other->0)) * f == if k
            == tag.marker {
            g
        } else if tag.other == Some(k) {
            -f
        } else {
            0 as real
        }
}

/// Sums of the same numbers are the same.
pub proof fn lemma_tally_same(f: spec_fn(Symbol) -> real, g: spec_fn(Symbol) -> real, n: nat)
    requires
        forall|i: nat| i < n ==> f(#[trigger] nth(i)) == g(nth(i)),
    ensures
        tally(f, n) == tally(g, n),
    decreases n,
{
    if n > 0 {
        lemma_tally_same(f, g, (n - 1) as nat);
        assert(f(nth((n - 1) as nat)) == g(nth((n - 1) as nat)));
    }
}

/// A sum of sums and multiples.
pub proof fn lemma_tally_linear(
    f: spec_fn(Symbol) -> real,
    g: spec_fn(Symbol) -> real,
    h: spec_fn(Symbol) -> real,
    c: real,
    n: nat,
)
    requires
        forall|i: nat| i < n ==> h(#[trigger] nth(i)) == f(nth(i)) + c * g(nth(i)),
    ensures
        tally(h, n) == tally(f, n) + c * tally(g, n),
    decreases n,
{
    lemma_plain_product(c);
    if n > 0 {
        lemma_tally_linear(f, g, h, c, (n - 1) as nat);
        let i = (n - 1) as nat;
        assert(h(nth(i)) == f(nth(i)) + c * g(nth(i)));
        let (x, y) = (tally(g, i), g(nth(i)));
        lemma_spread(c, x, y);
    }
}

/// A sum in which one symbol counts.
pub proof fn lemma_tally_single(f: spec_fn(Symbol) -> real, s: Symbol, n: nat)
    requires
        n <= u64::MAX,
        forall|i: nat| i < n && nth(i) != s ==> f(#[trigger] nth(i)) == 0 as real,
    ensures
        tally(f, n) == if s.raw < n {
            f(s)
        } else {
            0 as real
        },
    decreases n,
{
    if n > 0 {
        lemma_tally_single(f, s, (n - 1) as nat);
        let i = (n - 1) as nat;
        assert(nth(i).raw == i);
        if nth(i) == s {
        } else {
            assert(f(nth(i)) == 0 as real);
        }
    }
}

/// A symbol that is not basic comes to its value.
proof fn lemma_free_comes_to(t: TableauModel, k: Symbol, a: Assignment, n: nat)
    requires
        n <= u64::MAX,
        k.raw < n,
        !t.rows.contains_key(k),
    ensures
        comes_to(t, k, a, n) == a(k),
{
    let f = |s: Symbol| share(t, k, Some(s)) * a(s);
    assert forall|i: nat| i < n && nth(i) != k implies f(#[trigger] nth(i)) == 0 as real by {
        lemma_plain_product(a(nth(i)));
    }
    lemma_tally_single(f, k, n);
    lemma_plain_product(a(k));
}

/// A sum of multiples of symbols comes to what they are made of.
pub proof fn lemma_total(t: TableauModel, terms: Seq<(Symbol, real)>, a: Assignment, n: nat)
    requires
        satisfies(a, t, n),
        forall|i: int| 0 <= i < terms.len() ==> (#[trigger] terms[i]).0.raw < n,
    ensures
        total(terms, a) == mix(t, terms, None) + tally(
            |s: Symbol| mix(t, terms, Some(s)) * a(s),
            n,
        ),
    decreases terms.len(),
{
    let h = |s: Symbol| mix(t, terms, Some(s)) * a(s);
    if terms.len() == 0 {
        assert forall|i: nat| i < n && nth(i) != nth(0) implies h(#[trigger] nth(i))
            == 0 as real by {
            lemma_plain_product(a(nth(i)));
        }
        lemma_tally_single(h, nth(0), n);
        lemma_plain_product(a(nth(0)));
    } else {
        let rest = terms.drop_last();
        let (k, w) = terms[terms.len() - 1];
        assert forall|i: int| 0 <= i < rest.len() implies (#[trigger] rest[i]).0.raw < n by {
            assert(rest[i] == terms[i]);
        }
        lemma_total(t, rest, a, n);
        let f = |s: Symbol| mix(t, rest, Some(s)) * a(s);
        let g = |s: Symbol| share(t, k, Some(s)) * a(s);
        assert forall|i: nat| i < n implies h(#[trigger] nth(i)) == f(nth(i)) + w * g(nth(i)) by {
            let (p, q, y) = (mix(t, rest, Some(nth(i))), share(t, k, Some(nth(i))), a(nth(i)));
            lemma_spread(y, p, w * q);
            lemma_regroup(w, q, y);
        }
        lemma_tally_linear(f, g, h, w, n);
        assert(a(k) == comes_to(t, k, a, n)) by {
            if !t.rows.contains_key(k) {
                lemma_free_comes_to(t, k, a, n);
            }
        }
        let (x, y) = (share(t, k, None), tally(g, n));
        lemma_spread(w, x, y);
    }
}

/// What every symbol comes to stays the same when a row takes the place of a symbol that comes to
/// the same.
proof fn lemma_comes_to_reexpressed(
    t: TableauModel,
    u: TableauModel,
    e: Symbol,
    row: RowModel,
    k: Symbol,
    a: Assignment,
    n: nat,
)
    requires
        reexpressed(t, u, e, row),
        n <= u64::MAX,
        e.raw < n,
        a(e) == row_comes_to(row, a, n),
    ensures
        comes_to(u, k, a, n) == comes_to(t, k, a, n),
{
    let b = share(t, k, Some(e));
    let h = |s: Symbol| share(u, k, Some(s)) * a(s);
    let f = |s: Symbol| share(t, k, Some(s)) * a(s);
    let g = |s: Symbol| at(row, Some(s)) * a(s);
    let d = |s: Symbol|
        if s == e {
            a(e)
        } else {
            0 as real
        };
    let r = |s: Symbol| g(s) - d(s);
    // h = f + b * (g - d)
    assert forall|i: nat| i < n implies h(#[trigger] nth(i)) == f(nth(i)) + b * r(nth(i)) by {
        let s = nth(i);
        let (y, v, w) = (a(s), at(row, Some(s)), share(t, k, Some(s)));
        assert(share(u, k, Some(s)) == swapped(w, b, e, row, Some(s)));
        if s == e {
            lemma_regroup(b, v, y);
            lemma_spread(b, v * y, y);
        } else {
            lemma_spread(y, w, b * v);
            lemma_regroup(b, v, y);
        }
    }
    lemma_tally_linear(f, r, h, b, n);
    assert forall|i: nat| i < n implies r(#[trigger] nth(i)) == g(nth(i)) + (-1 as real) * d(
        nth(i),
    ) by {
        lemma_plain_product(d(nth(i)));
    }
    lemma_tally_linear(g, d, r, -1 as real, n);
    lemma_tally_single(d, e, n);
    lemma_plain_product(tally(d, n));
    let (x, y) = (at(row, None), tally(g, n));
    assert(share(u, k, None) == swapped(share(t, k, None), b, e, row, None));
    lemma_spread(b, x, y + -a(e));
    assert(x + (y + -a(e)) == 0 as real);
    lemma_plain_product(b);
}

/// Solutions stay solutions when a row takes the place of a symbol that it fits.
pub proof fn lemma_satisfies_reexpressed(
    t: TableauModel,
    u: TableauModel,
    e: Symbol,
    row: RowModel,
    a: Assignment,
    n: nat,
)
    requires
        reexpressed(t, u, e, row),
        satisfies(a, t, n),
        e.raw < n,
        a(e) == row_comes_to(row, a, n),
        forall|k: Symbol| #[trigger]
            u.rows.contains_key(k) ==> k == e || t.rows.contains_key(k),
        u.rows.contains_key(e) ==> u.rows[e] == row,
    ensures
        satisfies(a, u, n),
{
    assert forall|k: Symbol| #[trigger] u.rows.contains_key(k) implies k.raw < n && a(k)
        == comes_to(u, k, a, n) by {
        lemma_comes_to_reexpressed(t, u, e, row, k, a, n);
        if k == e {
            lemma_tally_same(
                |s: Symbol| share(u, e, Some(s)) * a(s),
                |s: Symbol| at(row, Some(s)) * a(s),
                n,
            );
        }
    }
}

/// Symbols that occur only together still do when a row takes the place of a symbol, where the
/// row holds them so too.
pub proof fn lemma_coupled_reexpressed(
    t: TableauModel,
    u: TableauModel,
    e: Symbol,
    row: RowModel,
    tag: Tag,
    f: real,
    g: real,
)
    requires
        reexpressed(t, u, e, row),
        coupled(t, tag, f, g),
        tag.other is Some,
        tag.other->0 != tag.marker,
        at(row, Some(e)) == 0 as real,
        at(row, Some(tag.marker)) * g - at(row, Some(tag.other->0)) * f == if e == tag.marker {
            g
        } else if tag.other == Some(e) {
            -f
        } else {
            0 as real
        },
    ensures
        coupled(u, tag, f, g),
{
    let (p, q) = (Some(tag.marker), Some(tag.other->0));
    assert forall|k: Symbol| #[trigger] share(u, k, p) * g - share(u, k, q) * f == if k
        == tag.marker {
        g
    } else if tag.other == Some(k) {
        -f
    } else {
        0 as real
    } by {
        let (x, y, b) = (share(t, k, p), share(t, k, q), share(t, k, Some(e)));
        let (v, w) = (at(row, p), at(row, q));
        assert(share(u, k, p) == swapped(x, b, e, row, p));
        assert(share(u, k, q) == swapped(y, b, e, row, q));
        assert(x * g - y * f == share(t, k, p) * g - share(t, k, q) * f);
        lemma_spread(g, x, b * v);
        lemma_spread(f, y, b * w);
        lemma_regroup(b, v, g);
        lemma_regroup(b, w, f);
        lemma_spread(b, v * g, w * f);
        lemma_plain_product(b);
        lemma_regroup(b, f, f);
    }
}

} // verus!
