//! Choosing one symbol of several, so that the choice depends on what there is to choose from and
//! not on the order in which it is looked at.
use crate::number::Number;
use crate::symbol::Symbol;
use crate::table::Table;
use vstd::prelude::*;

verus! {

/// Whether `a` is preferred to `b`: it has the smaller number, or, of equal ones, it is the
/// smaller symbol.
pub open spec fn precedes(c: Map<Symbol, Number>, a: Symbol, b: Symbol) -> bool {
    c[a].value() < c[b].value() || (c[a].value() == c[b].value() && a.raw <= b.raw)
}

/// Whether `s` is preferred to every candidate.
pub open spec fn is_least(c: Map<Symbol, Number>, s: Symbol) -> bool {
    c.contains_key(s) && forall|t: Symbol| #[trigger] c.contains_key(t) ==> precedes(c, s, t)
}

/// The candidate that is preferred to all others.
pub open spec fn least(c: Map<Symbol, Number>) -> Option<Symbol> {
    if exists|s: Symbol| is_least(c, s) {
        Some(choose|s: Symbol| is_least(c, s))
    } else {
        None
    }
}

/// Whether `s` is the smallest symbol of a set.
pub open spec fn is_smallest(c: Set<Symbol>, s: Symbol) -> bool {
    c.contains(s) && forall|t: Symbol| #[trigger] c.contains(t) ==> s.raw <= t.raw
}

/// The smallest symbol of a set.
pub open spec fn smallest(c: Set<Symbol>) -> Option<Symbol> {
    if exists|s: Symbol| is_smallest(c, s) {
        Some(choose|s: Symbol| is_smallest(c, s))
    } else {
        None
    }
}

/// `best` is what a search through the candidates has to find.
pub(crate) open spec fn found(best: Option<(Symbol, Number)>, c: Map<Symbol, Number>) -> bool {
    &&& forall|t: Symbol| #[trigger] c.contains_key(t) ==> !c[t].nan()
    &&& match best {
        None => forall|t: Symbol| !c.contains_key(t),
        Some((s, v)) => is_least(c, s) && c[s] == v,
    }
}

/// `best` is what a search through the set has to find.
pub(crate) open spec fn found_smallest(best: Option<Symbol>, c: Set<Symbol>) -> bool {
    match best {
        None => forall|t: Symbol| !c.contains(t),
        Some(s) => is_smallest(c, s),
    }
}

/// The candidates among the first `i` entries of a table.
pub(crate) open spec fn seen<V>(c: Map<Symbol, Number>, t: Table<Symbol, V>, i: int) -> Map<
    Symbol,
    Number,
> {
    Map::new(|s: Symbol| c.contains_key(s) && t.spot(s) < i, |s: Symbol| c[s])
}

/// The members of a set among the first `i` entries of a table.
pub(crate) open spec fn seen_members<V>(c: Set<Symbol>, t: Table<Symbol, V>, i: int) -> Set<
    Symbol,
> {
    Set::new(|s: Symbol| c.contains(s) && t.spot(s) < i)
}

/// One more entry of the table has been looked at.
pub(crate) proof fn lemma_seen_step<V>(c: Map<Symbol, Number>, t: Table<Symbol, V>, i: int)
    requires
        t.wf(),
        0 <= i < t.entries@.len(),
        forall|s: Symbol| #[trigger] c.contains_key(s) ==> t@.contains_key(s),
    ensures
        c.contains_key(t.entries@[i].0) ==> seen(c, t, i + 1) == seen(c, t, i).insert(
            t.entries@[i].0,
            c[t.entries@[i].0],
        ) && !seen(c, t, i).contains_key(t.entries@[i].0),
        !c.contains_key(t.entries@[i].0) ==> seen(c, t, i + 1) == seen(c, t, i),
{
    t.lemma_entries();
    let s = t.entries@[i].0;
    if c.contains_key(s) {
        assert(seen(c, t, i + 1) =~= seen(c, t, i).insert(s, c[s]));
    } else {
        assert(seen(c, t, i + 1) =~= seen(c, t, i));
    }
}

/// One more entry of the table has been looked at.
pub(crate) proof fn lemma_seen_members_step<V>(c: Set<Symbol>, t: Table<Symbol, V>, i: int)
    requires
        t.wf(),
        0 <= i < t.entries@.len(),
        forall|s: Symbol| #[trigger] c.contains(s) ==> t@.contains_key(s),
    ensures
        c.contains(t.entries@[i].0) ==> seen_members(c, t, i + 1) == seen_members(c, t, i).insert(
            t.entries@[i].0,
        ) && !seen_members(c, t, i).contains(t.entries@[i].0),
        !c.contains(t.entries@[i].0) ==> seen_members(c, t, i + 1) == seen_members(c, t, i),
{
    t.lemma_entries();
    let s = t.entries@[i].0;
    if c.contains(s) {
        assert(seen_members(c, t, i + 1) =~= seen_members(c, t, i).insert(s));
    } else {
        assert(seen_members(c, t, i + 1) =~= seen_members(c, t, i));
    }
}

/// At first nothing has been seen, and at last everything.
pub(crate) proof fn lemma_seen_ends<V>(c: Map<Symbol, Number>, t: Table<Symbol, V>)
    requires
        t.wf(),
        forall|s: Symbol| #[trigger] c.contains_key(s) ==> t@.contains_key(s),
    ensures
        found(None, seen(c, t, 0)),
        seen(c, t, t.entries@.len() as int) == c,
{
    t.lemma_entries();
    assert(seen(c, t, t.entries@.len() as int) =~= c);
}

/// At first nothing has been seen, and at last everything.
pub(crate) proof fn lemma_seen_members_ends<V>(c: Set<Symbol>, t: Table<Symbol, V>)
    requires
        t.wf(),
        forall|s: Symbol| #[trigger] c.contains(s) ==> t@.contains_key(s),
    ensures
        seen_members(c, t, 0) == Set::<Symbol>::empty(),
        seen_members(c, t, t.entries@.len() as int) == c,
{
    t.lemma_entries();
    assert(seen_members(c, t, 0) =~= Set::<Symbol>::empty());
    assert(seen_members(c, t, t.entries@.len() as int) =~= c);
}

/// What is chosen is a candidate.
pub(crate) proof fn lemma_least_is_candidate(c: Map<Symbol, Number>)
    ensures
        least(c) matches Some(s) ==> c.contains_key(s) && is_least(c, s),
{
}

/// What is chosen is a member.
pub(crate) proof fn lemma_smallest_is_member(c: Set<Symbol>)
    ensures
        smallest(c) matches Some(s) ==> c.contains(s) && is_smallest(c, s),
{
}

/// A search finds the one candidate that is preferred to all others.
pub(crate) proof fn lemma_found(best: Option<(Symbol, Number)>, c: Map<Symbol, Number>)
    requires
        found(best, c),
    ensures
        least(c) == (match best {
            None => None,
            Some((s, _)) => Some(s),
        }),
{
    if let Some((s, _)) = best {
        let t = choose|t: Symbol| is_least(c, t);
        assert(is_least(c, s));
        assert(precedes(c, s, t) && precedes(c, t, s));
    }
}

/// A search finds the one smallest symbol.
pub(crate) proof fn lemma_found_smallest(best: Option<Symbol>, c: Set<Symbol>)
    requires
        found_smallest(best, c),
    ensures
        smallest(c) == best,
{
    if let Some(s) = best {
        let t = choose|t: Symbol| is_smallest(c, t);
        assert(is_smallest(c, s));
        assert(s.raw <= t.raw && t.raw <= s.raw);
    }
}

/// Takes one more candidate into account.
pub(crate) fn better(best: Option<(Symbol, Number)>, s: Symbol, v: Number) -> (r: Option<
    (Symbol, Number),
>)
    requires
        !v.nan(),
    ensures
        forall|c: Map<Symbol, Number>| #[trigger]
            found(best, c) && !c.contains_key(s) ==> found(r, c.insert(s, v)),
{
    let r = match best {
        None => Some((s, v)),
        Some((t, w)) => {
            if v.less_than(w) || (v.equals(w) && s.raw < t.raw) {
                Some((s, v))
            } else {
                Some((t, w))
            }
        },
    };
    proof {
        assert forall|c: Map<Symbol, Number>| #[trigger] found(best, c) && !c.contains_key(
            s,
        ) implies found(r, c.insert(s, v)) by {
            let d = c.insert(s, v);
            assert forall|t: Symbol| #[trigger] d.contains_key(t) implies !d[t].nan() by {
                assert(t != s ==> c.contains_key(t));
            }
            let (b, _) = r.unwrap();
            assert forall|t: Symbol| #[trigger] d.contains_key(t) implies precedes(d, b, t) by {
                if t != s {
                    assert(c.contains_key(t));
                }
            }
        }
    }
    r
}

/// Takes one more member into account.
pub(crate) fn smaller(best: Option<Symbol>, s: Symbol) -> (r: Option<Symbol>)
    ensures
        forall|c: Set<Symbol>| #[trigger]
            found_smallest(best, c) ==> found_smallest(r, c.insert(s)),
{
    match best {
        None => Some(s),
        Some(t) => {
            if s.raw < t.raw {
                Some(s)
            } else {
                Some(t)
            }
        },
    }
}

/// There is never more than one choice: at most one candidate is preferred to all others, and at
/// most one symbol is the smallest, in whatever order they are looked at.
pub proof fn law_choice_is_unique(
    c: Map<Symbol, Number>,
    a: Symbol,
    b: Symbol,
    d: Set<Symbol>,
    x: Symbol,
    y: Symbol,
)
    requires
        is_least(c, a),
        is_least(c, b),
        is_smallest(d, x),
        is_smallest(d, y),
    ensures
        a == b,
        x == y,
{
    assert(precedes(c, a, b) && precedes(c, b, a));
    assert(x.raw <= y.raw && y.raw <= x.raw);
}

} // verus!
