//! Edit variables and the values that are suggested for them.
use crate::constraint::{Constraint, RelationalOperator, Strength};
use crate::error::{
    AddConstraintError, AddEditVariableError, InternalSolverError, RemoveConstraintError,
    RemoveEditVariableError, SuggestValueError,
};
use crate::expression::{Expression, Term, Variable};
use crate::number::{one, zero, Number};
use crate::solver::Solver;
use crate::symbol::Symbol;
use crate::system::{lemma_next_tableau, EditInfo, SolverModel};
use vstd::multiset::Multiset;
use vstd::prelude::*;

verus! {

/// Whether two systems differ at most in their edit variables, and the tags of the second's are
/// in order.
pub(crate) proof fn lemma_edits_changed(m: SolverModel, u: SolverModel)
    requires
        m.sound(),
        u == (SolverModel { edits: u.edits, ..m }),
        forall|v: Variable| #[trigger]
            u.edits.contains_key(v) ==> SolverModel::tag_below(u.edits[v].tag, u.id_tick),
    ensures
        u.sound(),
{
    assert forall|v: Variable| #[trigger] u.var_data.contains_key(v) implies u.caught(v) by {
        assert(m.caught(v));
    }
}

impl Solver {
    /// Adds an edit variable to the solver.
    ///
    /// This is to be called before a value is suggested for the variable.
    pub fn add_edit_variable(&mut self, v: Variable, strength: Strength) -> (r: Result<
        (),
        AddEditVariableError,
    >)
        requires
            old(self).wf(),
            old(self)@.has_room(5),
        ensures
            final(self).wf(),
            (final(self)@, r) == old(self)@.edit_added(v, strength),
            r is Ok ==> final(self)@.tableau.minimal(),
            r is Ok <==> final(self)@.edits.contains_key(v) && !old(self)@.edits.contains_key(v),
            forall|w: Variable|
                w != v ==> (#[trigger] final(self)@.edits.contains_key(w) <==> old(
                    self,
                )@.edits.contains_key(w)),
            r == Err::<(), AddEditVariableError>(AddEditVariableError::DuplicateEditVariable)
                <==> old(self)@.edits.contains_key(v),
            r == Err::<(), AddEditVariableError>(AddEditVariableError::BadRequiredStrength)
                <==> !old(self)@.edits.contains_key(v) && strength.value.same(
                Strength::required().value,
            ),
            forall|n: nat| old(self)@.has_room(n + 5) ==> #[trigger] final(self)@.has_room(n),
    {
        if self.edits.contains(v) {
            return Err(AddEditVariableError::DuplicateEditVariable);
        }
        if strength.value.equals(Strength::required().value) {
            return Err(AddEditVariableError::BadRequiredStrength);
        }
        let constraint = Constraint::anonymous(
            Expression::from_term(Term::new(v, one())),
            RelationalOperator::Equal,
            strength,
        );
        let ghost m = self@;
        let ghost c = constraint@;
        assert(c =~= SolverModel::edit_constraint(v, strength));
        let id = match self.add_constraint(constraint) {
            Ok(id) => id,
            Err(AddConstraintError::DuplicateConstraint) => {
                return Err(AddEditVariableError::DuplicateEditVariable);
            },
            Err(AddConstraintError::UnsatisfiableConstraint) => {
                return Err(AddEditVariableError::UnsatisfiableConstraint);
            },
            Err(AddConstraintError::InternalSolverError(e)) => {
                return Err(AddEditVariableError::InternalSolverError(e));
            },
        };
        let ghost added = self@;
        let tag = match self.constraints.get(id) {
            Some(entry) => entry.tag,
            None => {
                return Err(AddEditVariableError::DuplicateEditVariable);
            },
        };
        assert(tag == added.constraints[id].tag);
        self.edits.insert(v, EditInfo { tag, constraint_id: id, constant: zero() });
        proof {
            assert(added.constraints.contains_key(id));
            assert forall|w: Variable| #[trigger] self@.edits.contains_key(w) implies SolverModel::tag_below(
                self@.edits[w].tag,
                self@.id_tick,
            ) by {
                if w != v {
                    assert(added.edits.contains_key(w));
                }
            }
            assert(self@ =~= m.edit_added(v, strength).0);
            lemma_edits_changed(added, self@);
            assert forall|n: nat| m.has_room(n + 5) implies #[trigger] self@.has_room(n) by {
                assert(added.has_room(n));
            }
        }
        Ok(())
    }

    /// Removes an edit variable from the solver.
    pub fn remove_edit_variable(&mut self, v: Variable) -> (r: Result<(), RemoveEditVariableError>)
        requires
            old(self).wf(),
        ensures
            final(self).wf(),
            (final(self)@, r) == old(self)@.edit_removed(v),
            r is Ok ==> final(self)@.tableau.minimal(),
            r == Err::<(), RemoveEditVariableError>(RemoveEditVariableError::UnknownEditVariable)
                <==> !old(self)@.edits.contains_key(v),
            final(self)@.edits == old(self)@.edits.remove(v),
            forall|n: nat| old(self)@.has_room(n) ==> #[trigger] final(self)@.has_room(n),
    {
        let ghost m = self@;
        match self.edits.remove(v) {
            None => {
                assert(m.edits.remove(v) =~= m.edits);
                assert(self@ =~= m);
                Err(RemoveEditVariableError::UnknownEditVariable)
            },
            Some(info) => {
                proof {
                    assert(self@ =~= (SolverModel { edits: m.edits.remove(v), ..m }));
                    assert forall|w: Variable| #[trigger] self@.edits.contains_key(w) implies SolverModel::tag_below(
                        self@.edits[w].tag,
                        self@.id_tick,
                    ) by {
                        assert(m.edits.contains_key(w));
                    }
                    lemma_edits_changed(m, self@);
                }
                let ghost u = self@;
                let r = self.remove_constraint(info.constraint_id);
                proof {
                    assert forall|n: nat| m.has_room(n) implies #[trigger] self@.has_room(n) by {
                        assert(u.has_room(n));
                    }
                }
                match r {
                    Ok(_) => Ok(()),
                    Err(RemoveConstraintError::UnknownConstraint) => Err(
                        RemoveEditVariableError::InternalSolverError(
                            InternalSolverError::EditConstraintNotInSystem,
                        ),
                    ),
                    Err(RemoveConstraintError::InternalSolverError(e)) => Err(
                        RemoveEditVariableError::InternalSolverError(e),
                    ),
                }
            },
        }
    }

    /// Tells whether a variable is an edit variable.
    pub fn has_edit_variable(&self, v: &Variable) -> (r: bool)
        requires
            self.wf(),
        ensures
            r == self@.edits.contains_key(*v),
    {
        self.edits.contains(*v)
    }

    /// Moves the equation of an edit variable to a new value.
    fn shift(&mut self, v: Variable, value: Number)
        requires
            old(self).wf(),
            old(self)@.edits.contains_key(v),
        ensures
            final(self).wf(),
            final(self)@ == old(self)@.shifted(v, value),
    {
        let ghost m = self@;
        let known = match self.edits.get(v) {
            Some(info) => Some(*info),
            None => None,
        };
        if let Some(info) = known {
            let delta = value.minus(info.constant);
            self.tableau.edit(&info.tag, delta, Ghost(m.id_tick));
            let ghost t = self.tableau@;
            proof {
                lemma_next_tableau(m, t, m.id_tick);
                assert(self@ =~= (SolverModel { tableau: t, ..m }));
            }
            let ghost u = self@;
            self.edits.insert(
                v,
                EditInfo { tag: info.tag, constraint_id: info.constraint_id, constant: value },
            );
            proof {
                assert forall|w: Variable| #[trigger] self@.edits.contains_key(w) implies SolverModel::tag_below(
                    self@.edits[w].tag,
                    self@.id_tick,
                ) by {
                    assert(m.edits.contains_key(w) || w == v);
                    assert(m.edits.contains_key(v));
                }
                assert(self@ =~= (SolverModel { edits: self@.edits, ..u }));
                lemma_edits_changed(u, self@);
                assert(self@ =~= m.shifted(v, value));
            }
        }
    }

    /// Makes the rows that came out negative feasible again.
    fn rebalance(&mut self) -> (r: Result<(), SuggestValueError>)
        requires
            old(self).wf(),
        ensures
            final(self).wf(),
            (final(self)@, r) == old(self)@.rebalanced(),
            r is Ok ==> final(self)@.tableau.infeasible == Multiset::<Symbol>::empty(),
    {
        let ghost m = self@;
        let r = self.tableau.dual_optimize(Ghost(m.id_tick));
        proof {
            lemma_next_tableau(m, self.tableau@, m.id_tick);
            assert(self@ =~= (SolverModel { tableau: self.tableau@, ..m }));
        }
        match r {
            Ok(_) => Ok(()),
            Err(e) => Err(SuggestValueError::InternalSolverError(e)),
        }
    }

    /// Suggests a value for an edit variable.
    pub fn suggest_value(&mut self, variable: Variable, value: Number) -> (r: Result<
        (),
        SuggestValueError,
    >)
        requires
            old(self).wf(),
        ensures
            final(self).wf(),
            (final(self)@, r) == old(self)@.suggested(variable, value),
            r is Ok ==> final(self)@.tableau.infeasible == Multiset::<Symbol>::empty(),
            r == Err::<(), SuggestValueError>(SuggestValueError::UnknownEditVariable) <==> !old(
                self,
            )@.edits.contains_key(variable),
            forall|n: nat| old(self)@.has_room(n) ==> #[trigger] final(self)@.has_room(n),
    {
        if !self.edits.contains(variable) {
            return Err(SuggestValueError::UnknownEditVariable);
        }
        self.shift(variable, value);
        self.rebalance()
    }

    /// Suggests values for several edit variables at once. The values are all taken in before the
    /// solution is looked for. Where one of the variables is no edit variable nothing happens.
    pub fn suggest_values(&mut self, values: &[(Variable, Number)]) -> (r: Result<
        (),
        SuggestValueError,
    >)
        requires
            old(self).wf(),
        ensures
            final(self).wf(),
            (final(self)@, r) == old(self)@.suggested_all(values@),
            r is Ok ==> final(self)@.tableau.infeasible == Multiset::<Symbol>::empty(),
            r == Err::<(), SuggestValueError>(SuggestValueError::UnknownEditVariable) <==> !old(
                self,
            )@.all_editable(values@),
            r == Err::<(), SuggestValueError>(SuggestValueError::UnknownEditVariable)
                ==> final(self)@ == old(self)@,
            forall|n: nat| old(self)@.has_room(n) ==> #[trigger] final(self)@.has_room(n),
    {
        let ghost m = self@;
        for i in 0..values.len()
            invariant
                self.wf(),
                self@ == m,
                m == old(self)@,
                forall|j: int|
                    0 <= j < i ==> m.edits.contains_key((#[trigger] values@[j]).0),
        {
            if !self.edits.contains(values[i].0) {
                assert(!m.edits.contains_key(values@[i as int].0));
                return Err(SuggestValueError::UnknownEditVariable);
            }
        }
        assert(values@.take(0) =~= Seq::<(Variable, Number)>::empty());
        for i in 0..values.len()
            invariant
                self.wf(),
                m.all_editable(values@),
                self@ == m.shifted_all(values@.take(i as int)),
                self@.edits.dom() == m.edits.dom(),
                forall|n: nat| m.has_room(n) ==> #[trigger] self@.has_room(n),
        {
            let (v, value) = values[i];
            proof {
                assert(values@.take(i + 1).drop_last() =~= values@.take(i as int));
                assert(values@.take(i + 1).last() == values@[i as int]);
                assert(m.edits.contains_key(values@[i as int].0));
            }
            let ghost u = self@;
            self.shift(v, value);
            proof {
                assert(self@.edits.dom() =~= m.edits.dom());
                assert forall|n: nat| m.has_room(n) implies #[trigger] self@.has_room(n) by {
                    assert(u.has_room(n));
                }
            }
        }
        assert(values@.take(values@.len() as int) =~= values@);
        let ghost u = self@;
        let r = self.rebalance();
        proof {
            assert forall|n: nat| m.has_room(n) implies #[trigger] self@.has_room(n) by {
                assert(u.has_room(n));
            }
        }
        r
    }
}

} // verus!
