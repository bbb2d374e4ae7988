//! Sequences in order.
use vstd::prelude::*;
use vstd::relations::*;
use vstd::seq_lib::*;

verus! {

/// What has a place in a total order.
pub trait Ranked: View + Sized {
    /// Whether the first stands before the second, or is the second.
    spec fn leq(a: Self::V, b: Self::V) -> bool;

    proof fn reflexive(a: Self::V)
        ensures
            Self::leq(a, a),
    ;

    proof fn antisymmetric(a: Self::V, b: Self::V)
        requires
            Self::leq(a, b),
            Self::leq(b, a),
        ensures
            a == b,
    ;

    proof fn transitive(a: Self::V, b: Self::V, c: Self::V)
        requires
            Self::leq(a, b),
            Self::leq(b, c),
        ensures
            Self::leq(a, c),
    ;

    proof fn total(a: Self::V, b: Self::V)
        ensures
            Self::leq(a, b) || Self::leq(b, a),
    ;

    /// Tells whether this stands before the other, or is the other.
    fn not_after(&self, other: &Self) -> (r: bool)
        ensures
            r == Self::leq(self@, other@),
    ;
}

/// The order as a relation.
pub open spec fn ranking<T: Ranked>() -> spec_fn(T::V, T::V) -> bool {
    |a: T::V, b: T::V| T::leq(a, b)
}

/// The views of some items.
pub open spec fn views<T: View>(s: Seq<T>) -> Seq<T::V> {
    Seq::new(s.len(), |i: int| s[i]@)
}

/// Some items in order.
pub open spec fn in_order<T: Ranked>(s: Seq<T::V>) -> Seq<T::V> {
    s.sort_by(ranking::<T>())
}

/// Whether a sequence holds the members of a set, each once and in order.
pub open spec fn lists<T: Ranked>(s: Seq<T::V>, set: Set<T::V>) -> bool {
    &&& sorted_by(s, ranking::<T>())
    &&& s.no_duplicates()
    &&& forall|x: T::V| #[trigger] s.contains(x) <==> set.contains(x)
}

/// The members of a set, in order.
pub open spec fn listing<T: Ranked>(set: Set<T::V>) -> Seq<T::V> {
    choose|s: Seq<T::V>| lists::<T>(s, set)
}

/// Whether a sequence stands before another, or is the other, as words do in a dictionary.
pub open spec fn lexical<T: Ranked>(a: Seq<T::V>, b: Seq<T::V>) -> bool
    decreases a.len(),
{
    if a.len() == 0 {
        true
    } else if b.len() == 0 {
        false
    } else if a[0] != b[0] {
        T::leq(a[0], b[0])
    } else {
        lexical::<T>(a.drop_first(), b.drop_first())
    }
}

pub proof fn lemma_lexical_reflexive<T: Ranked>(a: Seq<T::V>)
    ensures
        lexical::<T>(a, a),
    decreases a.len(),
{
    if a.len() > 0 {
        lemma_lexical_reflexive::<T>(a.drop_first());
    }
}

pub proof fn lemma_lexical_antisymmetric<T: Ranked>(a: Seq<T::V>, b: Seq<T::V>)
    requires
        lexical::<T>(a, b),
        lexical::<T>(b, a),
    ensures
        a == b,
    decreases a.len(),
{
    if a.len() > 0 && b.len() > 0 {
        if a[0] != b[0] {
            T::antisymmetric(a[0], b[0]);
        }
        lemma_lexical_antisymmetric::<T>(a.drop_first(), b.drop_first());
        assert forall|i: int| 0 <= i < a.len() && 0 <= i < b.len() implies a[i] == b[i] by {
            if i > 0 {
                assert(a.drop_first()[i - 1] == b.drop_first()[i - 1]);
            }
        }
        assert(a.drop_first().len() == b.drop_first().len());
    }
    assert(a =~= b);
}

pub proof fn lemma_lexical_transitive<T: Ranked>(a: Seq<T::V>, b: Seq<T::V>, c: Seq<T::V>)
    requires
        lexical::<T>(a, b),
        lexical::<T>(b, c),
    ensures
        lexical::<T>(a, c),
    decreases a.len(),
{
    if a.len() > 0 {
        if a[0] == b[0] && b[0] == c[0] {
            lemma_lexical_transitive::<T>(a.drop_first(), b.drop_first(), c.drop_first());
        } else if a[0] != b[0] && b[0] != c[0] {
            T::transitive(a[0], b[0], c[0]);
            if a[0] == c[0] {
                T::antisymmetric(a[0], b[0]);
            }
        }
    }
}

pub proof fn lemma_lexical_total<T: Ranked>(a: Seq<T::V>, b: Seq<T::V>)
    ensures
        lexical::<T>(a, b) || lexical::<T>(b, a),
    decreases a.len(),
{
    if a.len() > 0 && b.len() > 0 {
        T::total(a[0], b[0]);
        lemma_lexical_total::<T>(a.drop_first(), b.drop_first());
    }
}

/// The order is total.
pub proof fn lemma_ranking<T: Ranked>()
    ensures
        total_ordering(ranking::<T>()),
{
    let r = ranking::<T>();
    assert forall|a: T::V| #[trigger] r(a, a) by {
        T::reflexive(a);
    }
    assert forall|a: T::V, b: T::V| #[trigger] r(a, b) && #[trigger] r(b, a) implies a == b by {
        T::antisymmetric(a, b);
    }
    assert forall|a: T::V, b: T::V, c: T::V| #[trigger] r(a, b) && #[trigger] r(b, c) implies r(
        a,
        c,
    ) by {
        T::transitive(a, b, c);
    }
    assert forall|a: T::V, b: T::V| #[trigger] r(a, b) || #[trigger] r(b, a) by {
        T::total(a, b);
    }
}

/// There is one way to put items in order.
pub proof fn lemma_in_order<T: Ranked>(s: Seq<T::V>, t: Seq<T::V>)
    requires
        sorted_by(s, ranking::<T>()),
        s.to_multiset() == t.to_multiset(),
    ensures
        s == in_order::<T>(t),
{
    lemma_ranking::<T>();
    t.lemma_sort_by_ensures(ranking::<T>());
    lemma_sorted_unique(s, in_order::<T>(t), ranking::<T>());
}

/// There is one way to list a set.
pub proof fn lemma_listing<T: Ranked>(s: Seq<T::V>, set: Set<T::V>)
    requires
        lists::<T>(s, set),
    ensures
        s == listing::<T>(set),
{
    broadcast use group_to_multiset_ensures;
    broadcast use vstd::multiset::group_multiset_axioms;

    let t = listing::<T>(set);
    assert(lists::<T>(t, set));
    lemma_ranking::<T>();
    s.lemma_multiset_has_no_duplicates();
    t.lemma_multiset_has_no_duplicates();
    assert forall|x: T::V| s.to_multiset().count(x) == t.to_multiset().count(x) by {
        assert(s.contains(x) <==> t.contains(x));
        assert(s.to_multiset().contains(x) <==> s.contains(x));
        assert(t.to_multiset().contains(x) <==> t.contains(x));
    }
    assert(s.to_multiset() =~= t.to_multiset());
    lemma_sorted_unique(s, t, ranking::<T>());
}

/// A finite set can be listed.
pub proof fn lemma_listed<T: Ranked>(set: Set<T::V>)
    requires
        set.finite(),
    ensures
        lists::<T>(listing::<T>(set), set),
{
    broadcast use group_to_multiset_ensures;
    broadcast use vstd::multiset::group_multiset_axioms;

    let q = set.to_seq();
    lemma_to_seq(set);
    let s = in_order::<T>(q);
    lemma_ranking::<T>();
    q.lemma_sort_by_ensures(ranking::<T>());
    q.lemma_multiset_has_no_duplicates();
    s.lemma_multiset_has_no_duplicates_conv();
    assert forall|x: T::V| #[trigger] s.contains(x) <==> set.contains(x) by {
        assert(s.contains(x) <==> s.to_multiset().count(x) > 0);
        assert(q.contains(x) <==> q.to_multiset().count(x) > 0);
    }
    assert(lists::<T>(s, set));
}

/// A finite set as a sequence holds each member once.
proof fn lemma_to_seq<A>(set: Set<A>)
    requires
        set.finite(),
    ensures
        set.to_seq().no_duplicates(),
        forall|x: A| #[trigger] set.to_seq().contains(x) <==> set.contains(x),
    decreases set.len(),
{
    broadcast use vstd::set::group_set_axioms;

    if set.len() > 0 {
        let x = set.choose();
        assert(set.contains(x)) by {
            if !set.contains(x) {
                assert(set =~= Set::empty());
            }
        }
        lemma_to_seq(set.remove(x));
        let rest = set.remove(x).to_seq();
        let s = set.to_seq();
        assert(s == Seq::<A>::empty().push(x) + rest);
        assert forall|y: A| #[trigger] s.contains(y) <==> set.contains(y) by {
            if set.contains(y) && y != x {
                assert(set.remove(x).contains(y));
                assert(rest.contains(y));
                let i = rest.index_of(y);
                assert(s[i + 1] == y);
            }
            if s.contains(y) {
                let i = s.index_of(y);
                if i > 0 {
                    assert(rest[i - 1] == y);
                    assert(rest.contains(y));
                }
            }
            assert(s[0] == x);
        }
        assert forall|i: int, j: int| 0 <= i < s.len() && 0 <= j < s.len() && i != j implies s[i]
            != s[j] by {
            if i > 0 {
                assert(rest.contains(rest[i - 1]));
            }
            if j > 0 {
                assert(rest.contains(rest[j - 1]));
            }
        }
    } else {
        assert(set =~= Set::empty());
    }
}

/// The place before the first item that stands after the given one, or is the given one.
pub(crate) fn place_of<T: Ranked>(items: &Vec<T>, x: &T) -> (r: usize)
    requires
        sorted_by(views(items@), ranking::<T>()),
    ensures
        r <= items@.len(),
        forall|i: int| 0 <= i < r ==> !T::leq(x@, (#[trigger] items@[i])@),
        forall|i: int| r <= i < items@.len() ==> T::leq(x@, (#[trigger] items@[i])@),
{
    let mut i: usize = 0;
    while i < items.len() && !x.not_after(&items[i])
        invariant
            i <= items@.len(),
            forall|j: int| 0 <= j < i ==> !T::leq(x@, (#[trigger] items@[j])@),
        decreases items@.len() - i,
    {
        i = i + 1;
    }
    proof {
        assert forall|j: int| i <= j < items@.len() implies T::leq(
            x@,
            (#[trigger] items@[j])@,
        ) by {
            if i < j {
                let s = views(items@);
                assert(ranking::<T>()(s[i as int], s[j]));
                T::transitive(x@, items@[i as int]@, items@[j]@);
            }
        }
    }
    i
}

/// Puts an item in its place among others.
pub(crate) fn put<T: Ranked>(items: &mut Vec<T>, x: T)
    requires
        sorted_by(views(old(items)@), ranking::<T>()),
    ensures
        sorted_by(views(final(items)@), ranking::<T>()),
        views(final(items)@).to_multiset() == views(old(items)@).to_multiset().insert(x@),
{
    broadcast use group_to_multiset_ensures;

    let i = place_of(items, &x);
    let ghost before = items@;
    let ghost y = x@;
    items.insert(i, x);
    proof {
        let s = views(before);
        let t = views(items@);
        assert(t =~= s.insert(i as int, y));
        to_multiset_insert(s, i as int, y);
        assert forall|a: int, b: int| 0 <= a < b < t.len() implies #[trigger] ranking::<T>()(
            t[a],
            t[b],
        ) by {
            let a0 = if a < i {
                a
            } else {
                a - 1
            };
            let b0 = if b < i {
                b
            } else {
                b - 1
            };
            if a == i {
                assert(T::leq(y, before[b0]@));
            } else if b == i {
                assert(!T::leq(y, before[a0]@));
                T::total(y, before[a0]@);
            } else {
                assert(ranking::<T>()(s[a0], s[b0]));
            }
        }
    }
}

} // verus!
