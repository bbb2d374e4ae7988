//! Laws of fingerprints: which constraints say the same.
use crate::constraint::{Constraint, ConstraintModel, Strength};
use crate::expression::{Term, Variable};
use crate::fingerprint::{combined, fingerprint, remains, shares, total, FingerprintModel, Share};
use crate::number::{lemma_units_increase, Number};
use crate::order::{in_order, lemma_in_order, lemma_listed, lemma_ranking, ranking, Ranked};
use crate::semantic::{keeps_first, merged, saying, says_first};
use vstd::prelude::*;
use vstd::relations::*;
use vstd::seq_lib::*;

verus! {

/// The share of a term.
spec fn share(t: Term) -> Share {
    Share { variable: t.variable, bits: t.coefficient.canonical() }
}

/// The number with some bits.
spec fn share_number(bits: u64) -> Number {
    Number { bits }
}

/// One term more or less.
proof fn lemma_shares_without(terms: Seq<Term>, i: int)
    requires
        0 <= i < terms.len(),
    ensures
        shares(terms).to_multiset() == (if terms[i].coefficient.negligible() {
            shares(terms.remove(i)).to_multiset()
        } else {
            shares(terms.remove(i)).to_multiset().insert(share(terms[i]))
        }),
    decreases terms.len(),
{
    broadcast use group_to_multiset_ensures;
    broadcast use vstd::multiset::group_multiset_axioms;

    let last = terms.last();
    let rest = terms.drop_last();
    if i == terms.len() - 1 {
        assert(terms.remove(i) =~= rest);
        to_multiset_build(shares(rest), share(last));
    } else {
        lemma_shares_without(rest, i);
        let less = terms.remove(i);
        assert(less.drop_last() =~= rest.remove(i));
        assert(less.last() == last);
        to_multiset_build(shares(rest), share(last));
        to_multiset_build(shares(rest.remove(i)), share(last));
        assert(shares(terms).to_multiset() =~= (if terms[i].coefficient.negligible() {
            shares(less).to_multiset()
        } else {
            shares(less).to_multiset().insert(share(terms[i]))
        }));
    }
}

/// The shares depend on which terms there are, and not on their order.
proof fn lemma_shares_reordered(a: Seq<Term>, b: Seq<Term>)
    requires
        a.to_multiset() == b.to_multiset(),
    ensures
        shares(a).to_multiset() == shares(b).to_multiset(),
    decreases a.len(),
{
    broadcast use group_to_multiset_ensures;
    broadcast use vstd::multiset::group_multiset_axioms;

    assert(a.to_multiset().len() == a.len());
    assert(b.to_multiset().len() == b.len());
    if a.len() > 0 {
        let n = a.len() - 1;
        assert(a.contains(a[n]));
        assert(a.to_multiset().count(a[n]) > 0);
        assert(b.contains(a[n]));
        let i = choose|i: int| 0 <= i < b.len() && b[i] == a[n];
        to_multiset_remove(a, n);
        to_multiset_remove(b, i);
        lemma_shares_reordered(a.remove(n), b.remove(i));
        lemma_shares_without(a, n);
        lemma_shares_without(b, i);
    } else {
        assert(a =~= b);
    }
}

/// Shares with the same members have the same order.
proof fn lemma_same_order(a: Seq<Share>, b: Seq<Share>)
    requires
        a.to_multiset() == b.to_multiset(),
    ensures
        in_order::<Share>(a) == in_order::<Share>(b),
{
    lemma_ranking::<Share>();
    a.lemma_sort_by_ensures(ranking::<Share>());
    lemma_in_order::<Share>(in_order::<Share>(a), b);
}

/// The shares of one variable.
spec fn of(s: Seq<Share>, v: Variable) -> Seq<Share>
    decreases s.len(),
{
    if s.len() == 0 {
        Seq::empty()
    } else if s.last().variable == v {
        of(s.drop_last(), v).push(s.last())
    } else {
        of(s.drop_last(), v)
    }
}

proof fn lemma_of(s: Seq<Share>, v: Variable)
    ensures
        total(of(s, v), v) == total(s, v),
        forall|x: Share|
            #[trigger] of(s, v).to_multiset().count(x) == (if x.variable == v {
                s.to_multiset().count(x)
            } else {
                0
            }),
        forall|x: Share| #[trigger] of(s, v).contains(x) ==> s.contains(x),
        sorted_by(s, ranking::<Share>()) ==> sorted_by(of(s, v), ranking::<Share>()),
    decreases s.len(),
{
    broadcast use group_to_multiset_ensures;
    broadcast use vstd::multiset::group_multiset_axioms;

    if s.len() > 0 {
        let rest = s.drop_last();
        let last = s.last();
        lemma_of(rest, v);
        assert(s =~= rest.push(last));
        to_multiset_build(rest, last);
        to_multiset_build(of(rest, v), last);
        assert(of(rest, v).push(last).drop_last() =~= of(rest, v));
        assert forall|x: Share| #[trigger] of(s, v).contains(x) implies s.contains(x) by {
            if of(rest, v).contains(x) {
                let i = rest.index_of(x);
                assert(rest.contains(x) && s[i] == x);
            } else {
                let j = of(s, v).index_of(x);
                if j < of(rest, v).len() {
                    assert(of(rest, v)[j] == x);
                }
                assert(s[s.len() - 1] == last);
            }
        }
        if sorted_by(s, ranking::<Share>()) {
            assert forall|i: int, j: int| 0 <= i < j < rest.len() implies #[trigger] ranking::<
                Share,
            >()(rest[i], rest[j]) by {
                assert(ranking::<Share>()(s[i], s[j]));
            }
            let t = of(s, v);
            assert forall|i: int, j: int| 0 <= i < j < t.len() implies #[trigger] ranking::<
                Share,
            >()(t[i], t[j]) by {
                if last.variable == v && j == t.len() - 1 {
                    let x = of(rest, v)[i];
                    assert(t[i] == x);
                    assert(of(rest, v).contains(x));
                    let k = rest.index_of(x);
                    assert(rest.contains(x) && rest[k] == x);
                    assert(ranking::<Share>()(s[k], s[s.len() - 1]));
                } else {
                    assert(ranking::<Share>()(of(rest, v)[i], of(rest, v)[j]));
                }
            }
        }
    } else {
        assert(of(s, v) =~= s);
    }
}

/// What remains of a variable depends on its own shares.
proof fn lemma_total_of(s: Seq<Share>, v: Variable)
    ensures
        total(in_order::<Share>(s), v) == total(in_order::<Share>(of(s, v)), v),
{
    broadcast use group_to_multiset_ensures;
    broadcast use vstd::multiset::group_multiset_axioms;

    let t = in_order::<Share>(s);
    lemma_ranking::<Share>();
    s.lemma_sort_by_ensures(ranking::<Share>());
    lemma_of(t, v);
    lemma_of(s, v);
    assert(of(t, v).to_multiset() =~= of(s, v).to_multiset());
    lemma_in_order::<Share>(of(t, v), of(s, v));
}

/// Terms whose variables have the same shares say the same.
proof fn lemma_combined(a: Seq<Term>, b: Seq<Term>)
    requires
        forall|x: Share|
            remains(in_order::<Share>(shares(a)), x) == #[trigger] remains(
                in_order::<Share>(shares(b)),
                x,
            ),
    ensures
        combined(a) == combined(b),
{
    let (s, t) = (in_order::<Share>(shares(a)), in_order::<Share>(shares(b)));
    assert(Set::new(|x: Share| remains(s, x)) =~= Set::new(|x: Share| remains(t, x)));
}

/// What a constraint says does not depend on which object says it.
pub proof fn law_fingerprint_ignores_identity(c: ConstraintModel, identity: Option<u64>)
    ensures
        fingerprint(ConstraintModel { identity, ..c }) == fingerprint(c),
{
}

/// What a constraint says does not depend on the order of its terms.
pub proof fn law_fingerprint_ignores_order(c: ConstraintModel, terms: Seq<Term>)
    requires
        terms.to_multiset() == c.terms.to_multiset(),
    ensures
        fingerprint(ConstraintModel { terms, ..c }) == fingerprint(c),
{
    lemma_shares_reordered(terms, c.terms);
    lemma_same_order(shares(terms), shares(c.terms));
}

/// A term near zero, wherever it stands, does not change what a constraint says.
pub proof fn law_fingerprint_ignores_negligible_terms(c: ConstraintModel, i: int, t: Term)
    requires
        0 <= i <= c.terms.len(),
        t.coefficient.negligible(),
    ensures
        fingerprint(ConstraintModel { terms: c.terms.insert(i, t), ..c }) == fingerprint(c),
{
    let terms = c.terms.insert(i, t);
    lemma_shares_without(terms, i);
    assert(terms.remove(i) =~= c.terms);
    lemma_same_order(shares(terms), shares(c.terms));
}

/// Numbers with the same canonical bits are the same to a fingerprint, in a term, in the constant
/// and in the strength: the two zeros, and any two NaNs.
pub proof fn law_fingerprint_is_canonical(
    c: ConstraintModel,
    i: int,
    coefficient: Number,
    constant: Number,
    strength: Strength,
)
    requires
        0 <= i < c.terms.len(),
        coefficient.canonical() == c.terms[i].coefficient.canonical(),
        constant.canonical() == c.constant.canonical(),
        strength.value.canonical() == c.strength.value.canonical(),
    ensures
        fingerprint(
            ConstraintModel {
                terms: c.terms.update(i, Term { coefficient, ..c.terms[i] }),
                constant,
                strength,
                ..c
            },
        ) == fingerprint(c),
{
    let t = Term { coefficient, ..c.terms[i] };
    let terms = c.terms.update(i, t);
    lemma_canonical_negligible(coefficient, c.terms[i].coefficient);
    lemma_shares_without(terms, i);
    lemma_shares_without(c.terms, i);
    assert(terms.remove(i) =~= c.terms.remove(i));
    lemma_same_order(shares(terms), shares(c.terms));
}

/// Numbers with the same canonical bits are near zero alike.
proof fn lemma_canonical_negligible(a: Number, b: Number)
    requires
        a.canonical() == b.canonical(),
    ensures
        a.negligible() == b.negligible(),
{
    if a.nan() {
        assert(b.nan() || b.zero() || b.bits == a.canonical());
        assert(share_number(crate::number::QUIET_NAN).nan());
    } else if b.nan() {
        assert(share_number(crate::number::QUIET_NAN).nan());
    }
}

/// The order of two summands does not matter.
pub proof fn law_sum_is_commutative(a: Number, b: Number)
    ensures
        a.sum(b) == b.sum(a),
{
    reveal(Number::sum);
}

/// Canonical summands give the same sum, where they are not zero.
proof fn lemma_canonical_sum(a: Number, b: Number)
    requires
        !a.negligible(),
        !b.negligible(),
    ensures
        share_number(a.canonical()).sum(share_number(b.canonical())) == a.sum(b),
        share_number(a.canonical()).canonical() == a.canonical(),
{
    reveal(Number::sum);
    lemma_units_increase(0, crate::number::EPSILON as nat);
    assert(!a.zero() && !b.zero());
    assert(share_number(crate::number::QUIET_NAN).nan());
}

/// A variable that comes twice counts as if it came once, with the sum of its coefficients.
///
/// Where the sum is near zero, the two terms say nothing.
pub proof fn law_fingerprint_merges_terms(c: ConstraintModel, v: Variable, a: Number, b: Number)
    requires
        forall|i: int| 0 <= i < c.terms.len() ==> (#[trigger] c.terms[i]).variable != v,
        !a.negligible(),
        !b.negligible(),
    ensures
        fingerprint(
            ConstraintModel {
                terms: c.terms.push(Term { variable: v, coefficient: a }).push(
                    Term { variable: v, coefficient: b },
                ),
                ..c
            },
        ) == fingerprint(
            ConstraintModel {
                terms: c.terms.push(Term { variable: v, coefficient: a.sum(b) }),
                ..c
            },
        ),
        a.sum(b).negligible() ==> fingerprint(
            ConstraintModel {
                terms: c.terms.push(Term { variable: v, coefficient: a }).push(
                    Term { variable: v, coefficient: b },
                ),
                ..c
            },
        ) == fingerprint(c),
{
    let (ta, tb) = (Term { variable: v, coefficient: a }, Term { variable: v, coefficient: b });
    let sum = Term { variable: v, coefficient: a.sum(b) };
    let one = c.terms.push(ta);
    let two = one.push(tb);
    let joint = c.terms.push(sum);
    let base = shares(c.terms);
    assert(one.drop_last() =~= c.terms);
    assert(two.drop_last() =~= one);
    assert(joint.drop_last() =~= c.terms);
    let s = shares(two);
    let t = shares(joint);
    assert(one.last() == ta && two.last() == tb && joint.last() == sum);
    assert(shares(one) == base.push(share(ta)));
    assert(s == base.push(share(ta)).push(share(tb)));
    assert(base.push(share(ta)).push(share(tb)).drop_last() =~= base.push(share(ta)));
    assert(base.push(share(ta)).drop_last() =~= base);
    assert(base.push(share(sum)).drop_last() =~= base);
    lemma_not_shared(c.terms, v);
    lemma_canonical_sum(a, b);
    law_sum_is_commutative(share_number(a.canonical()), share_number(b.canonical()));
    assert forall|x: Share| remains(in_order::<Share>(s), x) == #[trigger] remains(
        in_order::<Share>(t),
        x,
    ) by {
        let w = x.variable;
        lemma_total_of(s, w);
        lemma_total_of(t, w);
        if w == v {
            let pair = seq![share(ta), share(tb)];
            assert(of(base.push(share(ta)), v) =~= seq![share(ta)]);
            assert(of(s, v) =~= pair);
            lemma_total_pair(share(ta), share(tb));
            assert(total(in_order::<Share>(s), v) == Some(a.sum(b)));
            if a.sum(b).negligible() {
                assert(of(t, v) =~= Seq::<Share>::empty());
                lemma_total_few(Seq::<Share>::empty());
            } else {
                assert(of(t, v) =~= seq![share(sum)]);
                lemma_total_few(seq![share(sum)]);
                lemma_total_one(share(sum));
                lemma_canonical_sum(a.sum(b), a.sum(b));
                lemma_canonical_negligible(
                    share_number(a.sum(b).canonical()),
                    a.sum(b),
                );
                assert(total(in_order::<Share>(t), v) == Some(
                    share_number(a.sum(b).canonical()),
                ));
            }
        } else {
            assert(of(base.push(share(ta)), w) =~= of(base, w));
            assert(of(s, w) =~= of(base, w));
            assert(of(t, w) =~= of(base, w));
        }
    }
    lemma_combined(two, joint);
    if a.sum(b).negligible() {
        assert(shares(joint) == base);
    }
}

/// Terms of other variables give a variable no share.
proof fn lemma_not_shared(terms: Seq<Term>, v: Variable)
    requires
        forall|i: int| 0 <= i < terms.len() ==> (#[trigger] terms[i]).variable != v,
    ensures
        of(shares(terms), v) == Seq::<Share>::empty(),
    decreases terms.len(),
{
    if terms.len() > 0 {
        assert forall|i: int| 0 <= i < terms.drop_last().len() implies (
        #[trigger] terms.drop_last()[i]).variable != v by {
            assert(terms.drop_last()[i] == terms[i]);
        }
        lemma_not_shared(terms.drop_last(), v);
        assert(terms[terms.len() - 1].variable != v);
        let rest = shares(terms.drop_last());
        assert(rest.push(share(terms.last())).drop_last() =~= rest);
    }
}

/// At most one share is in order as it is.
proof fn lemma_total_few(s: Seq<Share>)
    requires
        s.len() <= 1,
    ensures
        in_order::<Share>(s) == s,
{
    lemma_in_order::<Share>(s, s);
}

/// Two shares of a variable give their sum, whichever comes first.
proof fn lemma_total_pair(x: Share, y: Share)
    requires
        x.variable == y.variable,
        share_number(x.bits).sum(share_number(y.bits)) == share_number(y.bits).sum(
            share_number(x.bits),
        ),
    ensures
        total(in_order::<Share>(seq![x, y]), x.variable) == Some(
            share_number(x.bits).sum(share_number(y.bits)),
        ),
{
    broadcast use group_to_multiset_ensures;

    let pair = seq![x, y];
    if Share::leq(x, y) {
        lemma_in_order::<Share>(pair, pair);
        lemma_total_two(x, y);
    } else {
        let turned = seq![y, x];
        assert(pair =~= Seq::<Share>::empty().push(x).push(y));
        assert(turned =~= Seq::<Share>::empty().push(y).push(x));
        to_multiset_build(Seq::<Share>::empty(), x);
        to_multiset_build(Seq::<Share>::empty(), y);
        to_multiset_build(Seq::<Share>::empty().push(x), y);
        to_multiset_build(Seq::<Share>::empty().push(y), x);
        assert(pair.to_multiset() =~= turned.to_multiset());
        lemma_in_order::<Share>(turned, pair);
        lemma_total_two(y, x);
    }
}

proof fn lemma_total_one(x: Share)
    ensures
        total(seq![x], x.variable) == Some(share_number(x.bits)),
{
    assert(seq![x].drop_last() =~= Seq::<Share>::empty());
    assert(total(Seq::<Share>::empty(), x.variable) is None);
}

proof fn lemma_total_two(x: Share, y: Share)
    requires
        x.variable == y.variable,
    ensures
        total(seq![x, y], x.variable) == Some(
            share_number(x.bits).sum(share_number(y.bits)),
        ),
{
    let s = seq![x, y];
    assert(s.drop_last() =~= seq![x]);
    lemma_total_one(x);
}

/// The canonical bits of the coefficient that a variable has once its terms are put together, if
/// one remains.
pub open spec fn effective(terms: Seq<Term>, v: Variable) -> Option<u64> {
    match total(in_order::<Share>(shares(terms)), v) {
        None => None,
        Some(n) => if n.negligible() {
            None
        } else {
            Some(n.canonical())
        },
    }
}

/// Numbers have the same canonical bits exactly if they are equal or both not a number.
pub proof fn law_canonical_bits_tell_apart(a: Number, b: Number)
    ensures
        a.canonical() == b.canonical() <==> a.alike(b),
{
    reveal(Number::value);
    let (x, y) = (a.magnitude() as nat, b.magnitude() as nat);
    assert(share_number(crate::number::QUIET_NAN).nan());
    assert(crate::number::units(0) == 0) by {
        reveal(crate::number::units);
    }
    if x > 0 {
        lemma_units_increase(0, x);
    }
    if y > 0 {
        lemma_units_increase(0, y);
    }
    if x < y {
        lemma_units_increase(x, y);
    } else if y < x {
        lemma_units_increase(y, x);
    }
}

/// What remains of some shares is a finite set.
proof fn lemma_remains_finite(s: Seq<Share>)
    ensures
        Set::new(|x: Share| remains(s, x)).finite(),
{
    let set = Set::new(|x: Share| remains(s, x));
    let image = Seq::new(
        s.len(),
        |i: int|
            Share {
                variable: s[i].variable,
                bits: total(s, s[i].variable).unwrap().canonical(),
            },
    );
    assert forall|x: Share| #[trigger] set.contains(x) implies image.to_set().contains(x) by {
        lemma_total_some(s, x.variable);
        let i = choose|i: int| 0 <= i < s.len() && (#[trigger] s[i]).variable == x.variable;
        assert(image[i] == x);
        assert(image.contains(x));
    }
    seq_to_set_is_finite(image);
    assert(set.subset_of(image.to_set()));
    vstd::set_lib::lemma_set_subset_finite(image.to_set(), set);
}

/// A variable with a sum has a share.
proof fn lemma_total_some(s: Seq<Share>, v: Variable)
    requires
        total(s, v) is Some,
    ensures
        exists|i: int| 0 <= i < s.len() && (#[trigger] s[i]).variable == v,
    decreases s.len(),
{
    if s.last().variable == v {
        assert(s[s.len() - 1].variable == v);
    } else {
        lemma_total_some(s.drop_last(), v);
        let i = choose|i: int|
            0 <= i < s.drop_last().len() && (#[trigger] s.drop_last()[i]).variable == v;
        assert(s[i].variable == v);
    }
}

/// Two constraints have the same fingerprint exactly if they mean the same: the same operator,
/// equal strengths and constants, and for every variable the same coefficient once its terms are
/// put together.
pub proof fn law_fingerprint_is_meaning(c: ConstraintModel, d: ConstraintModel)
    ensures
        fingerprint(c) == fingerprint(d) <==> {
            &&& c.operator == d.operator
            &&& c.strength.value.alike(d.strength.value)
            &&& c.constant.alike(d.constant)
            &&& forall|v: Variable| #[trigger] effective(c.terms, v) == effective(d.terms, v)
        },
{
    law_canonical_bits_tell_apart(c.strength.value, d.strength.value);
    law_canonical_bits_tell_apart(c.constant, d.constant);
    let s = in_order::<Share>(shares(c.terms));
    let t = in_order::<Share>(shares(d.terms));
    let a = Set::new(|x: Share| remains(s, x));
    let b = Set::new(|x: Share| remains(t, x));
    if combined(c.terms) == combined(d.terms) {
        lemma_remains_finite(s);
        lemma_remains_finite(t);
        lemma_listed::<Share>(a);
        lemma_listed::<Share>(b);
        assert forall|x: Share| remains(s, x) == remains(t, x) by {
            assert(combined(c.terms).contains(x) <==> a.contains(x));
            assert(combined(d.terms).contains(x) <==> b.contains(x));
        }
        assert forall|v: Variable| #[trigger] effective(c.terms, v) == effective(d.terms, v) by {
            if let Some(bits) = effective(c.terms, v) {
                assert(remains(s, Share { variable: v, bits }));
                assert(remains(t, Share { variable: v, bits }));
            }
            if let Some(bits) = effective(d.terms, v) {
                assert(remains(t, Share { variable: v, bits }));
                assert(remains(s, Share { variable: v, bits }));
            }
        }
    }
    if forall|v: Variable| #[trigger] effective(c.terms, v) == effective(d.terms, v) {
        assert forall|x: Share| remains(s, x) == #[trigger] remains(t, x) by {
            assert(effective(c.terms, x.variable) == effective(d.terms, x.variable));
        }
        lemma_combined(c.terms, d.terms);
    }
}

/// Whether each variable has one term, and no term is near zero.
pub open spec fn plain(terms: Seq<Term>) -> bool {
    &&& forall|i: int| 0 <= i < terms.len() ==> !(#[trigger] terms[i]).coefficient.negligible()
    &&& forall|i: int, j: int|
        0 <= i < j < terms.len() ==> (#[trigger] terms[i]).variable != (
        #[trigger] terms[j]).variable
}

/// Whether some terms have a term that is like another.
pub open spec fn has_like(terms: Seq<Term>, t: Term) -> bool {
    exists|i: int|
        0 <= i < terms.len() && (#[trigger] terms[i]).variable == t.variable
            && terms[i].coefficient.alike(t.coefficient)
}

/// Constraints that differ in meaning have different fingerprints: where two constraints, each
/// with one term for each variable and none near zero, have the same fingerprint, they have the
/// same operator, equal strengths and constants, and like terms.
pub proof fn law_fingerprint_tells_apart(c: ConstraintModel, d: ConstraintModel)
    requires
        plain(c.terms),
        plain(d.terms),
        fingerprint(c) == fingerprint(d),
    ensures
        c.operator == d.operator,
        c.strength.value.alike(d.strength.value),
        c.constant.alike(d.constant),
        forall|i: int| 0 <= i < c.terms.len() ==> has_like(d.terms, #[trigger] c.terms[i]),
        forall|i: int| 0 <= i < d.terms.len() ==> has_like(c.terms, #[trigger] d.terms[i]),
{
    law_fingerprint_is_meaning(c, d);
    assert forall|i: int| 0 <= i < c.terms.len() implies has_like(
        d.terms,
        #[trigger] c.terms[i],
    ) by {
        lemma_has_like(c.terms, d.terms, i);
    }
    assert forall|i: int| 0 <= i < d.terms.len() implies has_like(
        c.terms,
        #[trigger] d.terms[i],
    ) by {
        lemma_has_like(d.terms, c.terms, i);
    }
}

proof fn lemma_has_like(a: Seq<Term>, b: Seq<Term>, i: int)
    requires
        plain(a),
        plain(b),
        0 <= i < a.len(),
        forall|v: Variable| #[trigger] effective(a, v) == effective(b, v),
    ensures
        has_like(b, a[i]),
{
    let v = a[i].variable;
    lemma_sole_term(a, i);
    assert(effective(a, v) == effective(b, v));
    lemma_canonical_sum(a[i].coefficient, a[i].coefficient);
    lemma_canonical_negligible(
        share_number(a[i].coefficient.canonical()),
        a[i].coefficient,
    );
    if forall|j: int| 0 <= j < b.len() ==> (#[trigger] b[j]).variable != v {
        lemma_not_shared(b, v);
        lemma_total_of(shares(b), v);
        lemma_total_few(Seq::<Share>::empty());
    } else {
        let j = choose|j: int| 0 <= j < b.len() && (#[trigger] b[j]).variable == v;
        lemma_sole_term(b, j);
        lemma_canonical_sum(b[j].coefficient, b[j].coefficient);
        lemma_canonical_negligible(
            share_number(b[j].coefficient.canonical()),
            b[j].coefficient,
        );
        law_canonical_bits_tell_apart(b[j].coefficient, a[i].coefficient);
    }
}

/// The one term of a variable is all that it has.
proof fn lemma_sole_term(terms: Seq<Term>, i: int)
    requires
        plain(terms),
        0 <= i < terms.len(),
    ensures
        total(in_order::<Share>(shares(terms)), terms[i].variable) == Some(
            share_number(terms[i].coefficient.canonical()),
        ),
{
    lemma_sole_share(terms, i);
    lemma_total_of(shares(terms), terms[i].variable);
    lemma_total_few(seq![share(terms[i])]);
    lemma_total_one(share(terms[i]));
}

proof fn lemma_sole_share(terms: Seq<Term>, i: int)
    requires
        plain(terms),
        0 <= i < terms.len(),
    ensures
        of(shares(terms), terms[i].variable) == seq![share(terms[i])],
    decreases terms.len(),
{
    let rest = terms.drop_last();
    let n = terms.len() - 1;
    let v = terms[i].variable;
    assert(!terms[n].coefficient.negligible());
    assert(shares(terms) == shares(rest).push(share(terms[n])));
    assert(shares(rest).push(share(terms[n])).drop_last() =~= shares(rest));
    if i == n {
        assert forall|j: int| 0 <= j < rest.len() implies (#[trigger] rest[j]).variable != v by {
            assert(terms[j].variable != terms[n].variable);
        }
        lemma_not_shared(rest, v);
        assert(of(shares(terms), v) =~= seq![share(terms[i])]);
    } else {
        assert(plain(rest)) by {
            assert forall|j: int| 0 <= j < rest.len() implies !(
            #[trigger] rest[j]).coefficient.negligible() by {
                assert(!terms[j].coefficient.negligible());
            }
            assert forall|j: int, k: int| 0 <= j < k < rest.len() implies (
            #[trigger] rest[j]).variable != (#[trigger] rest[k]).variable by {
                assert(terms[j].variable != terms[k].variable);
            }
        }
        lemma_sole_share(rest, i);
        assert(terms[i].variable != terms[n].variable);
    }
}

/// There is one set that keeps, for each thing that is said, the first constraint to say it.
pub proof fn law_first_constraints_are_unique(
    cs: Seq<&Constraint>,
    m: Map<FingerprintModel, Constraint>,
    n: Map<FingerprintModel, Constraint>,
)
    requires
        keeps_first(cs, m),
        keeps_first(cs, n),
    ensures
        m == n,
{
    assert forall|k: FingerprintModel| m.contains_key(k) == n.contains_key(k) && (m.contains_key(k)
        ==> m[k] == n[k]) by {
        if m.contains_key(k) {
            let i = choose|i: int| #[trigger] says_first(cs, k, i) && m[k] == *cs[i];
            assert(n.contains_key(saying(cs, i)));
            let j = choose|j: int| #[trigger] says_first(cs, k, j) && n[k] == *cs[j];
            assert(i == j) by {
                if i < j {
                    assert(saying(cs, i) != k);
                } else if j < i {
                    assert(saying(cs, j) != k);
                }
            }
        } else if n.contains_key(k) {
            let j = choose|j: int| #[trigger] says_first(cs, k, j) && n[k] == *cs[j];
            assert(m.contains_key(saying(cs, j)));
        }
    }
    assert(m =~= n);
}

/// Each constraint that is kept says what it is kept under, and so does each one after a merge.
pub proof fn law_kept_constraints_say_their_keys(
    cs: Seq<&Constraint>,
    m: Map<FingerprintModel, Constraint>,
    ds: Seq<&Constraint>,
    n: Map<FingerprintModel, Constraint>,
    k: FingerprintModel,
)
    requires
        keeps_first(cs, m),
        keeps_first(ds, n),
    ensures
        m.contains_key(k) ==> fingerprint(m[k]@) == k,
        merged(m, n).contains_key(k) ==> fingerprint(merged(m, n)[k]@) == k,
{
    if m.contains_key(k) {
        let i = choose|i: int| #[trigger] says_first(cs, k, i) && m[k] == *cs[i];
        assert(saying(cs, i) == k);
    }
    if n.contains_key(k) {
        let i = choose|i: int| #[trigger] says_first(ds, k, i) && n[k] == *ds[i];
        assert(saying(ds, i) == k);
    }
}

/// Merging takes over what is newest and nothing else: the same things are said, by the previous
/// objects where there are such. Merging again changes nothing.
pub proof fn law_merge(previous: Map<FingerprintModel, Constraint>, newest: Map<
    FingerprintModel,
    Constraint,
>)
    ensures
        merged(previous, newest).dom() == newest.dom(),
        forall|k: FingerprintModel|
            newest.contains_key(k) && previous.contains_key(k) ==> #[trigger] merged(
                previous,
                newest,
            )[k] == previous[k],
        forall|k: FingerprintModel|
            newest.contains_key(k) && !previous.contains_key(k) ==> #[trigger] merged(
                previous,
                newest,
            )[k] == newest[k],
        merged(previous, merged(previous, newest)) == merged(previous, newest),
{
    assert(merged(previous, newest).dom() =~= newest.dom());
    assert(merged(previous, merged(previous, newest)) =~= merged(previous, newest));
}

} // verus!
