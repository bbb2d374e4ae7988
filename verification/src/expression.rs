//! Variables, terms and linear expressions.
use crate::number::{zero, Number};
use crate::table::Key;
use vstd::prelude::*;

verus! {

/// A variable of the user, told apart by its number.
#[derive(Clone, Copy, Debug, PartialEq, Eq, Hash, PartialOrd, Ord, Structural)]
pub struct Variable {
    pub id: u64,
}

impl Variable {
    /// The variable with the given number.
    pub fn from_id(id: u64) -> (r: Variable)
        ensures
            r.id == id,
    {
        Variable { id }
    }
}

impl Key for Variable {
    open spec fn word(self) -> u64 {
        self.id
    }

    proof fn distinct(a: Self, b: Self) {
    }

    fn to_word(self) -> (w: u64) {
        self.id
    }
}

/// A variable times a coefficient.
#[derive(Clone, Copy, Debug, PartialEq, Eq, Structural)]
pub struct Term {
    pub variable: Variable,
    pub coefficient: Number,
}

impl Term {
    /// `coefficient * variable`.
    pub fn new(variable: Variable, coefficient: Number) -> (r: Term)
        ensures
            r == (Term { variable, coefficient }),
    {
        Term { variable, coefficient }
    }
}

/// A sum of terms and a constant.
#[derive(Debug)]
pub struct Expression {
    pub terms: Vec<Term>,
    pub constant: Number,
}

impl Expression {
    /// The sum of the terms and the constant.
    pub fn new(terms: Vec<Term>, constant: Number) -> (r: Expression)
        ensures
            r.terms@ == terms@,
            r.constant == constant,
    {
        Expression { terms, constant }
    }

    /// The sum of one term.
    pub fn from_term(term: Term) -> (r: Expression)
        ensures
            r.terms@ == seq![term],
            r.constant == zero(),
    {
        let mut terms: Vec<Term> = Vec::new();
        terms.push(term);
        assert(terms@ =~= seq![term]);
        Expression { terms, constant: zero() }
    }
}

} // verus!
