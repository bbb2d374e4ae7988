//! Constraints, their operators and their strengths.
use crate::expression::{Expression, Term};
use crate::number::{zero, Number};
use std::sync::Arc;
use vstd::prelude::*;

verus! {

/// How a constraint relates its expression to zero.
#[derive(Clone, Copy, Debug, PartialEq, Eq, Hash, PartialOrd, Ord, Structural)]
pub enum RelationalOperator {
    LessOrEqual,
    Equal,
    GreaterOrEqual,
}

/// How much it costs to miss a constraint.
#[derive(Clone, Copy, Debug, PartialEq, Eq, Structural)]
pub struct Strength {
    pub value: Number,
}

impl Strength {
    /// The strength with the given value, brought into the range from zero to `required`.
    pub fn new(value: Number) -> (r: Strength)
        ensures
            r.value == (if value.below(zero()) {
                zero()
            } else if Strength::required().value.below(value) {
                Strength::required().value
            } else {
                value
            }),
    {
        let most = Strength::required();
        if value.less_than(zero()) {
            Strength { value: zero() }
        } else if most.value.less_than(value) {
            most
        } else {
            Strength { value }
        }
    }

    /// The strength of a constraint that must not be missed: 1001001000.
    #[verifier::allow_in_spec]
    pub fn required() -> Strength
        returns
            (Strength { value: Number { bits: 0x41cd_d508_1400_0000 } }),
    {
        Strength { value: Number { bits: 0x41cd_d508_1400_0000 } }
    }

    /// The strength 1000000.
    #[verifier::allow_in_spec]
    pub fn strong() -> Strength
        returns
            (Strength { value: Number { bits: 0x412e_8480_0000_0000 } }),
    {
        Strength { value: Number { bits: 0x412e_8480_0000_0000 } }
    }

    /// The strength 1000.
    #[verifier::allow_in_spec]
    pub fn medium() -> Strength
        returns
            (Strength { value: Number { bits: 0x408f_4000_0000_0000 } }),
    {
        Strength { value: Number { bits: 0x408f_4000_0000_0000 } }
    }

    /// The strength 1.
    #[verifier::allow_in_spec]
    pub fn weak() -> Strength
        returns
            (Strength { value: Number { bits: 0x3ff0_0000_0000_0000 } }),
    {
        Strength { value: Number { bits: 0x3ff0_0000_0000_0000 } }
    }
}

/// What a constraint says.
#[derive(Debug)]
pub struct ConstraintData {
    pub(crate) expression: Expression,
    pub(crate) op: RelationalOperator,
    pub(crate) strength: Strength,
}

/// A constraint. Each one that is made is an object of its own, told apart by its identity: its
/// clones are equal to it, and another constraint that says the same is not.
#[derive(Debug)]
pub struct Constraint {
    pub(crate) inner: Arc<ConstraintData>,
    pub(crate) identity: Option<u64>,
}

/// A constraint, as a mathematical object.
#[verifier::ext_equal]
pub struct ConstraintModel {
    /// What tells the constraint apart from others that say the same. A constraint that the
    /// solver makes for itself has no identity.
    pub identity: Option<u64>,
    pub terms: Seq<Term>,
    pub constant: Number,
    pub operator: RelationalOperator,
    pub strength: Strength,
}

impl View for Constraint {
    type V = ConstraintModel;

    open(crate) spec fn view(&self) -> ConstraintModel {
        ConstraintModel {
            identity: self.identity,
            terms: self.inner.expression.terms@,
            constant: self.inner.expression.constant,
            operator: self.inner.op,
            strength: self.inner.strength,
        }
    }
}

impl Constraint {
    /// Makes a constraint with an identity of the caller's choice.
    pub fn new(
        identity: u64,
        expression: Expression,
        op: RelationalOperator,
        strength: Strength,
    ) -> (r: Constraint)
        ensures
            r@ == (ConstraintModel {
                identity: Some(identity),
                terms: expression.terms@,
                constant: expression.constant,
                operator: op,
                strength,
            }),
    {
        Constraint {
            inner: Arc::new(ConstraintData { expression, op, strength }),
            identity: Some(identity),
        }
    }

    /// Makes a constraint that has no identity.
    pub(crate) fn anonymous(
        expression: Expression,
        op: RelationalOperator,
        strength: Strength,
    ) -> (r: Constraint)
        ensures
            r@ == (ConstraintModel {
                identity: None,
                terms: expression.terms@,
                constant: expression.constant,
                operator: op,
                strength,
            }),
    {
        Constraint {
            inner: Arc::new(ConstraintData { expression, op, strength }),
            identity: None,
        }
    }

    /// Gives the expression.
    pub fn expr(&self) -> (r: &Expression)
        ensures
            r.terms@ == self@.terms,
            r.constant == self@.constant,
    {
        &self.inner.expression
    }

    /// Gives the operator.
    pub fn op(&self) -> (r: RelationalOperator)
        ensures
            r == self@.operator,
    {
        self.inner.op
    }

    /// Gives the strength.
    pub fn strength(&self) -> (r: Strength)
        ensures
            r == self@.strength,
    {
        self.inner.strength
    }
}

impl Clone for Constraint {
    fn clone(&self) -> (r: Constraint)
        ensures
            r == *self,
    {
        Constraint { inner: Arc::clone(&self.inner), identity: self.identity }
    }
}

impl PartialEq for Constraint {
    fn eq(&self, other: &Constraint) -> (r: bool) {
        match (self.identity, other.identity) {
            (Some(a), Some(b)) => a == b,
            (None, None) => true,
            _ => false,
        }
    }
}

impl vstd::std_specs::cmp::PartialEqSpecImpl for Constraint {
    open spec fn obeys_eq_spec() -> bool {
        true
    }

    open spec fn eq_spec(&self, other: &Constraint) -> bool {
        self@.identity == other@.identity
    }
}

impl Eq for Constraint {

}

} // verus!
