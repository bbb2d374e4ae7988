//! What a constraint says, as a key that does not depend on how the constraint was written.
use crate::constraint::{Constraint, ConstraintModel, RelationalOperator};
use crate::expression::{Term, Variable};
use crate::number::Number;
use crate::order::{
    in_order, lemma_in_order, lemma_lexical_antisymmetric, lemma_lexical_reflexive,
    lemma_lexical_total, lemma_lexical_transitive, lemma_listing, lexical, listing, put, ranking,
    views, Ranked,
};
use vstd::prelude::*;
use vstd::relations::*;
use vstd::seq_lib::*;

verus! {

/// A variable with the bits of its coefficient.
#[derive(Clone, Copy, Debug, PartialEq, Eq, PartialOrd, Ord, Hash, Structural)]
pub struct Share {
    pub variable: Variable,
    pub bits: u64,
}

impl View for Share {
    type V = Share;

    open spec fn view(&self) -> Share {
        *self
    }
}

impl Ranked for Share {
    open spec fn leq(a: Share, b: Share) -> bool {
        a.variable.id < b.variable.id || (a.variable.id == b.variable.id && a.bits <= b.bits)
    }

    proof fn reflexive(a: Share) {
    }

    proof fn antisymmetric(a: Share, b: Share) {
    }

    proof fn transitive(a: Share, b: Share, c: Share) {
    }

    proof fn total(a: Share, b: Share) {
    }

    fn not_after(&self, other: &Share) -> (r: bool) {
        self.variable.id < other.variable.id || (self.variable.id == other.variable.id && self.bits
            <= other.bits)
    }
}

/// The terms that count, with canonical coefficients. A term near zero does not count.
pub open spec fn shares(terms: Seq<Term>) -> Seq<Share>
    decreases terms.len(),
{
    if terms.len() == 0 {
        Seq::empty()
    } else {
        let rest = shares(terms.drop_last());
        let t = terms.last();
        if t.coefficient.negligible() {
            rest
        } else {
            rest.push(Share { variable: t.variable, bits: t.coefficient.canonical() })
        }
    }
}

/// The sum of the coefficients of a variable, from the first to the last.
pub open spec fn total(s: Seq<Share>, v: Variable) -> Option<Number>
    decreases s.len(),
{
    if s.len() == 0 {
        None
    } else {
        let rest = total(s.drop_last(), v);
        let n = Number { bits: s.last().bits };
        if s.last().variable != v {
            rest
        } else {
            match rest {
                None => Some(n),
                Some(m) => Some(m.sum(n)),
            }
        }
    }
}

/// Whether a variable has this coefficient once its terms are put together.
pub open spec fn remains(s: Seq<Share>, x: Share) -> bool {
    match total(s, x.variable) {
        None => false,
        Some(n) => !n.negligible() && x.bits == n.canonical(),
    }
}

/// The terms by which constraints are told to say the same: each variable once, in order, and
/// none near zero.
pub open spec fn combined(terms: Seq<Term>) -> Seq<Share> {
    let s = in_order::<Share>(shares(terms));
    listing::<Share>(Set::new(|x: Share| remains(s, x)))
}

/// Whether a variable has a share.
spec fn names(r: Seq<Share>, v: Variable) -> bool {
    exists|i: int| 0 <= i < r.len() && (#[trigger] r[i]).variable == v
}

/// Whether the second sequence holds the sum of each variable of the first, in order.
spec fn joins(s: Seq<Share>, r: Seq<Share>) -> bool {
    &&& forall|i: int, j: int|
        0 <= i < j < r.len() ==> (#[trigger] r[i]).variable.id < (#[trigger] r[j]).variable.id
    &&& forall|i: int|
        0 <= i < r.len() ==> total(s, (#[trigger] r[i]).variable) == Some(
            Number { bits: r[i].bits },
        )
    &&& forall|v: Variable| total(s, v) is Some ==> #[trigger] names(r, v)
}

/// The place of an operator in the order.
pub open spec fn place(op: RelationalOperator) -> nat {
    match op {
        RelationalOperator::LessOrEqual => 0,
        RelationalOperator::Equal => 1,
        RelationalOperator::GreaterOrEqual => 2,
    }
}

/// What a constraint says, as a mathematical object.
#[verifier::ext_equal]
pub struct FingerprintModel {
    pub operator: RelationalOperator,
    pub strength: u64,
    pub constant: u64,
    pub terms: Seq<Share>,
}

/// What a constraint says.
pub open spec fn fingerprint(c: ConstraintModel) -> FingerprintModel {
    FingerprintModel {
        operator: c.operator,
        strength: c.strength.value.canonical(),
        constant: c.constant.canonical(),
        terms: combined(c.terms),
    }
}

/// The fingerprint of a constraint. It holds what the constraint says and not which object says
/// it: terms may come in any order, a variable may come more than once, and terms near zero may
/// be there or not.
#[derive(Debug, PartialOrd, Ord, Hash)]
pub struct ConstraintFingerprint {
    pub(crate) op: RelationalOperator,
    pub(crate) strength_bits: u64,
    pub(crate) constant_bits: u64,
    pub(crate) terms: Vec<Share>,
}

impl View for ConstraintFingerprint {
    type V = FingerprintModel;

    open(crate) spec fn view(&self) -> FingerprintModel {
        FingerprintModel {
            operator: self.op,
            strength: self.strength_bits,
            constant: self.constant_bits,
            terms: self.terms@,
        }
    }
}

fn place_number(op: RelationalOperator) -> (r: u8)
    ensures
        r == place(op),
{
    match op {
        RelationalOperator::LessOrEqual => 0,
        RelationalOperator::Equal => 1,
        RelationalOperator::GreaterOrEqual => 2,
    }
}

impl Ranked for ConstraintFingerprint {
    /// By operator, strength, constant and terms, in this order.
    open spec fn leq(a: FingerprintModel, b: FingerprintModel) -> bool {
        if place(a.operator) != place(b.operator) {
            place(a.operator) < place(b.operator)
        } else if a.strength != b.strength {
            a.strength < b.strength
        } else if a.constant != b.constant {
            a.constant < b.constant
        } else {
            lexical::<Share>(a.terms, b.terms)
        }
    }

    proof fn reflexive(a: FingerprintModel) {
        lemma_lexical_reflexive::<Share>(a.terms);
    }

    proof fn antisymmetric(a: FingerprintModel, b: FingerprintModel) {
        assert(a.operator == b.operator);
        lemma_lexical_antisymmetric::<Share>(a.terms, b.terms);
    }

    proof fn transitive(a: FingerprintModel, b: FingerprintModel, c: FingerprintModel) {
        if lexical::<Share>(a.terms, b.terms) && lexical::<Share>(b.terms, c.terms) {
            lemma_lexical_transitive::<Share>(a.terms, b.terms, c.terms);
        }
    }

    proof fn total(a: FingerprintModel, b: FingerprintModel) {
        lemma_lexical_total::<Share>(a.terms, b.terms);
    }

    fn not_after(&self, other: &ConstraintFingerprint) -> (r: bool) {
        let p = place_number(self.op);
        let q = place_number(other.op);
        if p != q {
            return p < q;
        }
        if self.strength_bits != other.strength_bits {
            return self.strength_bits < other.strength_bits;
        }
        if self.constant_bits != other.constant_bits {
            return self.constant_bits < other.constant_bits;
        }
        let ghost a = self.terms@;
        let ghost b = other.terms@;
        let mut i: usize = 0;
        assert(a.skip(0) =~= a);
        assert(b.skip(0) =~= b);
        while i < self.terms.len() && i < other.terms.len()
            invariant
                i <= a.len(),
                i <= b.len(),
                a == self.terms@,
                b == other.terms@,
                lexical::<Share>(a, b) == lexical::<Share>(a.skip(i as int), b.skip(i as int)),
                Self::leq(self@, other@) == lexical::<Share>(a, b),
            decreases a.len() - i,
        {
            if self.terms[i] != other.terms[i] {
                return self.terms[i].not_after(&other.terms[i]);
            }
            proof {
                assert(a.skip(i as int).drop_first() =~= a.skip(i + 1));
                assert(b.skip(i as int).drop_first() =~= b.skip(i + 1));
            }
            i = i + 1;
        }
        i == self.terms.len()
    }
}

impl ConstraintFingerprint {
    /// Tells whether this fingerprint is the other.
    fn same(&self, other: &ConstraintFingerprint) -> (r: bool)
        ensures
            r == (self@ == other@),
    {
        let r = self.not_after(other) && other.not_after(self);
        proof {
            if r {
                Self::antisymmetric(self@, other@);
            } else if self@ == other@ {
                Self::reflexive(self@);
            }
        }
        r
    }

    /// The shares of some terms, in order.
    fn gather(terms: &Vec<Term>) -> (r: Vec<Share>)
        ensures
            r@ == in_order::<Share>(shares(terms@)),
    {
        let mut sorted: Vec<Share> = Vec::new();
        assert(terms@.take(0) =~= Seq::<Term>::empty());
        assert(views(sorted@) =~= shares(terms@.take(0)));
        for i in 0..terms.len()
            invariant
                sorted_by(views(sorted@), ranking::<Share>()),
                views(sorted@).to_multiset() == shares(terms@.take(i as int)).to_multiset(),
        {
            let term = terms[i];
            proof {
                assert(terms@.take(i + 1).drop_last() =~= terms@.take(i as int));
                assert(terms@.take(i + 1).last() == term);
            }
            if !term.coefficient.near_zero() {
                let share = Share {
                    variable: term.variable,
                    bits: term.coefficient.canonical_bits(),
                };
                let ghost s = shares(terms@.take(i as int));
                assert(shares(terms@.take(i + 1)) == s.push(share));
                put(&mut sorted, share);
                proof {
                    to_multiset_build(s, share);
                }
            }
        }
        proof {
            assert(terms@.take(terms@.len() as int) =~= terms@);
            lemma_in_order::<Share>(views(sorted@), shares(terms@));
            assert(views(sorted@) =~= sorted@);
        }
        sorted
    }

    /// Puts the shares of each variable together.
    fn join(sorted: &Vec<Share>) -> (r: Vec<Share>)
        requires
            sorted_by(sorted@, ranking::<Share>()),
        ensures
            joins(sorted@, r@),
    {
        let mut r: Vec<Share> = Vec::new();
        let ghost s = sorted@;
        assert(s.take(0) =~= Seq::<Share>::empty());
        assert(joins(s.take(0), r@));
        for k in 0..sorted.len()
            invariant
                s == sorted@,
                sorted_by(s, ranking::<Share>()),
                joins(s.take(k as int), r@),
                r@.len() == 0 <==> k == 0,
                k > 0 ==> r@.last().variable == s[k - 1].variable,
        {
            let x = sorted[k];
            let ghost before = r@;
            let ghost past = s.take(k as int);
            proof {
                assert(s.take(k + 1).drop_last() =~= past);
                assert(s.take(k + 1).last() == x);
                if k > 0 {
                    assert(ranking::<Share>()(s[k - 1], s[k as int]));
                }
            }
            let n = r.len();
            if n > 0 && r[n - 1].variable == x.variable {
                let sum = Number::from_bits(r[n - 1].bits).plus(Number::from_bits(x.bits));
                r.set(n - 1, Share { variable: x.variable, bits: sum.to_bits() });
            } else {
                proof {
                    if total(past, x.variable) is Some {
                        assert(names(before, x.variable));
                        let i = choose|i: int|
                            0 <= i < before.len() && (#[trigger] before[i]).variable == x.variable;
                        assert(i == n - 1);
                    }
                }
                r.push(x);
            }
            proof {
                let last = r@.len() - 1;
                assert forall|i: int| 0 <= i < r@.len() implies total(
                    s.take(k + 1),
                    (#[trigger] r@[i]).variable,
                ) == Some(Number { bits: r@[i].bits }) by {
                    if i < last {
                        assert(before[i].variable == r@[i].variable);
                        assert(r@[i].variable.id < r@[last].variable.id) by {
                            if n > 0 {
                                assert(before[i].variable.id <= before[n - 1].variable.id);
                            }
                        }
                    }
                }
                assert forall|v: Variable| total(s.take(k + 1), v) is Some implies #[trigger] names(
                    r@,
                    v,
                ) by {
                    if v == x.variable {
                        assert(r@[last].variable == v);
                    } else {
                        assert(total(past, v) is Some);
                        assert(names(before, v));
                        let i = choose|i: int|
                            0 <= i < before.len() && (#[trigger] before[i]).variable == v;
                        assert(r@[i].variable == v);
                    }
                }
            }
        }
        assert(s.take(s.len() as int) =~= s);
        r
    }

    /// Makes the fingerprint of a constraint.
    #[must_use]
    pub fn new(constraint: &Constraint) -> (r: ConstraintFingerprint)
        ensures
            r@ == fingerprint(constraint@),
    {
        let expr = constraint.expr();
        let sorted = ConstraintFingerprint::gather(&expr.terms);
        proof {
            crate::order::lemma_ranking::<Share>();
            shares(expr.terms@).lemma_sort_by_ensures(ranking::<Share>());
        }
        let joined = ConstraintFingerprint::join(&sorted);
        let mut terms: Vec<Share> = Vec::new();
        let ghost s = sorted@;
        for k in 0..joined.len()
            invariant
                s == sorted@,
                joins(s, joined@),
                forall|i: int, j: int|
                    0 <= i < j < terms@.len() ==> (#[trigger] terms@[i]).variable.id < (
                    #[trigger] terms@[j]).variable.id,
                forall|i: int|
                    0 <= i < terms@.len() ==> remains(s, #[trigger] terms@[i]),
                forall|i: int, j: int|
                    0 <= i < terms@.len() && k <= j < joined@.len() ==> (
                    #[trigger] terms@[i]).variable.id < (#[trigger] joined@[j]).variable.id,
                forall|j: int, x: Share|
                    0 <= j < k && (#[trigger] joined@[j]).variable == x.variable
                        && #[trigger] remains(s, x) ==> terms@.contains(x),
        {
            let x = joined[k];
            let n = Number::from_bits(x.bits);
            let ghost before = terms@;
            if !n.near_zero() {
                let kept = Share { variable: x.variable, bits: n.canonical_bits() };
                terms.push(kept);
                proof {
                    assert(terms@[before.len() as int] == kept);
                    assert forall|j: int, y: Share|
                        0 <= j < k + 1 && (#[trigger] joined@[j]).variable == y.variable
                            && #[trigger] remains(s, y) implies terms@.contains(y) by {
                        if j < k {
                            assert(before.contains(y));
                            let i = choose|i: int| 0 <= i < before.len() && before[i] == y;
                            assert(terms@[i] == y);
                        } else {
                            assert(y == kept);
                        }
                    }
                }
            }
        }
        proof {
            let set = Set::new(|x: Share| remains(s, x));
            let t = terms@;
            assert forall|i: int, j: int| 0 <= i < j < t.len() implies #[trigger] ranking::<
                Share,
            >()(t[i], t[j]) by {
                assert(t[i].variable.id < t[j].variable.id);
            }
            assert forall|i: int, j: int| 0 <= i < t.len() && 0 <= j < t.len() && i != j implies t[i]
                != t[j] by {
                if i < j {
                    assert(t[i].variable.id < t[j].variable.id);
                } else {
                    assert(t[j].variable.id < t[i].variable.id);
                }
            }
            assert forall|x: Share| #[trigger] t.contains(x) <==> set.contains(x) by {
                if remains(s, x) {
                    assert(names(joined@, x.variable));
                    let j = choose|j: int|
                        0 <= j < joined@.len() && (#[trigger] joined@[j]).variable == x.variable;
                    assert(joined@[j].variable == x.variable);
                }
            }
            lemma_listing::<Share>(t, set);
        }
        ConstraintFingerprint {
            op: constraint.op(),
            strength_bits: constraint.strength().value.canonical_bits(),
            constant_bits: expr.constant.canonical_bits(),
            terms,
        }
    }
}

impl Clone for ConstraintFingerprint {
    fn clone(&self) -> (r: ConstraintFingerprint)
        ensures
            r@ == self@,
    {
        let mut terms: Vec<Share> = Vec::new();
        for i in 0..self.terms.len()
            invariant
                terms@ == self.terms@.take(i as int),
        {
            terms.push(self.terms[i]);
            assert(self.terms@.take(i + 1) =~= self.terms@.take(i as int).push(
                self.terms@[i as int],
            ));
        }
        assert(self.terms@.take(self.terms@.len() as int) =~= self.terms@);
        ConstraintFingerprint {
            op: self.op,
            strength_bits: self.strength_bits,
            constant_bits: self.constant_bits,
            terms,
        }
    }
}

impl PartialEq for ConstraintFingerprint {
    fn eq(&self, other: &ConstraintFingerprint) -> (r: bool) {
        self.same(other)
    }
}

impl vstd::std_specs::cmp::PartialEqSpecImpl for ConstraintFingerprint {
    open spec fn obeys_eq_spec() -> bool {
        true
    }

    open spec fn eq_spec(&self, other: &ConstraintFingerprint) -> bool {
        self@ == other@
    }
}

impl Eq for ConstraintFingerprint {

}

} // verus!
