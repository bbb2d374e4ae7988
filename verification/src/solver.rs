//! The solver: constraints go in and out, and the values of the variables follow.
use crate::constraint::{Constraint, ConstraintModel, RelationalOperator, Strength};
use crate::error::{AddConstraintError, InternalSolverError, RemoveConstraintError};
use crate::expression::{Term, Variable};
use crate::number::{minus_one, not_a_number, one, zero, Number};
use crate::row::{Row, RowModel};
use crate::simplex::Tag;
use crate::symbol::{Symbol, SymbolKind};
use crate::system::{
    admissible, lemma_absorbed_frame, lemma_added_as_frame, lemma_expanded, lemma_fetched,
    lemma_marked, lemma_next_tableau, lemma_referred, lemma_registered, lemma_released,
    lemma_room_added, lemma_room_less, lemma_unreferred, lemma_unregistered, lemma_withdrawn_frame, total_weight,
    weight, ConstraintEntry, ConstraintId, EditInfo, EntryModel, SolverModel, VariableData,
};
use crate::table::Table;
use crate::tableau::Tableau;
use vstd::prelude::*;

verus! {

/// A constraint solver using the Cassowary algorithm.
pub struct Solver {
    pub(crate) constraints: Table<ConstraintId, ConstraintEntry>,
    pub(crate) constraint_ids: Table<u64, ConstraintId>,
    pub(crate) var_data: Table<Variable, VariableData>,
    pub(crate) edits: Table<Variable, EditInfo>,
    pub(crate) tableau: Tableau,
    pub(crate) public_changes: Vec<(Variable, Number)>,
    pub(crate) id_tick: u64,
    pub(crate) next_constraint_id: u64,
}

/// The entries of a table, as mathematical ones.
pub(crate) open spec fn entry_models(entries: Map<ConstraintId, ConstraintEntry>) -> Map<
    ConstraintId,
    EntryModel,
> {
    entries.map_values(|e: ConstraintEntry| EntryModel { constraint: e.constraint@, tag: e.tag })
}

/// Constraints, as mathematical ones.
pub open spec fn models(cs: Seq<Constraint>) -> Seq<ConstraintModel> {
    cs.map_values(|c: Constraint| c@)
}

impl View for Solver {
    type V = SolverModel;

    open(crate) spec fn view(&self) -> SolverModel {
        SolverModel {
            constraints: entry_models(self.constraints@),
            constraint_ids: self.constraint_ids@,
            var_data: self.var_data@,
            edits: self.edits@,
            tableau: self.tableau@,
            id_tick: self.id_tick as nat,
            next_constraint_id: self.next_constraint_id as nat,
        }
    }
}

impl Solver {
    /// What holds of every solver between two calls.
    pub open(crate) spec fn wf(self) -> bool {
        &&& self.constraints.wf()
        &&& self.constraint_ids.wf()
        &&& self.var_data.wf()
        &&& self.edits.wf()
        &&& self.tableau.wf()
        &&& self@.sound()
    }

    /// Constructs a new solver.
    pub fn new() -> (r: Solver)
        ensures
            r.wf(),
            r@ == SolverModel::initial(),
    {
        let r = Solver {
            constraints: Table::new(),
            constraint_ids: Table::new(),
            var_data: Table::new(),
            edits: Table::new(),
            tableau: Tableau::new(),
            public_changes: Vec::new(),
            id_tick: 1,
            next_constraint_id: 1,
        };
        assert(r@.constraints =~= SolverModel::initial().constraints);
        assert(r@ =~= SolverModel::initial());
        r
    }

    /// Brings the solver back to the state of a new one.
    pub fn reset(&mut self)
        ensures
            final(self).wf(),
            final(self)@ == SolverModel::initial(),
    {
        self.constraints.clear();
        self.constraint_ids.clear();
        self.var_data.clear();
        self.edits.clear();
        self.tableau.clear();
        self.id_tick = 1;
        self.next_constraint_id = 1;
        assert(self@.constraints =~= SolverModel::initial().constraints);
        assert(self@ =~= SolverModel::initial());
    }

    /// Gives the next handle.
    fn alloc_constraint_id(&mut self) -> (r: ConstraintId)
        requires
            old(self).wf(),
            old(self)@.next_constraint_id < u64::MAX,
        ensures
            final(self).wf(),
            r == old(self)@.next_id(),
            final(self)@ == (SolverModel {
                next_constraint_id: old(self)@.next_constraint_id + 1,
                ..old(self)@
            }),
    {
        let id = ConstraintId { raw: self.next_constraint_id };
        self.next_constraint_id = self.next_constraint_id + 1;
        proof {
            assert forall|v: Variable| #[trigger] self@.var_data.contains_key(v) implies self@.caught(v) by {
                assert(old(self)@.caught(v));
            }
        }
        id
    }

    /// Gives the symbol of a variable to one more term.
    fn get_var_symbol(&mut self, v: Variable, Ghost(n): Ghost<nat>) -> (r: Symbol)
        requires
            old(self).wf(),
            old(self)@.has_room(n + 1),
        ensures
            final(self).wf(),
            final(self)@ == old(self)@.referred(v),
            final(self)@.has_room(n),
            r == final(self)@.var_data[v].symbol,
            final(self)@.var_data.contains_key(v),
    {
        proof {
            lemma_referred(self@, v, n);
        }
        let known = match self.var_data.get(v) {
            Some(d) => Some(*d),
            None => None,
        };
        match known {
            Some(d) => {
                self.var_data.insert(
                    v,
                    VariableData { value: d.value, symbol: d.symbol, count: d.count + 1 },
                );
                assert(self@ =~= old(self)@.referred(v));
                d.symbol
            },
            None => {
                let s = Symbol::new(self.id_tick, SymbolKind::External);
                self.tableau.owners.insert(s, v);
                self.var_data.insert(
                    v,
                    VariableData { value: not_a_number(), symbol: s, count: 1 },
                );
                self.id_tick = self.id_tick + 1;
                assert(self@.tableau =~= old(self)@.referred(v).tableau);
                assert(self@ =~= old(self)@.referred(v));
                s
            },
        }
    }

    /// Makes the row of a constraint, over the symbols that are not basic.
    fn create_row(&mut self, constraint: &Constraint, Ghost(n): Ghost<nat>) -> (r: (Row, Tag))
        requires
            old(self).wf(),
            old(self)@.has_room(n + constraint@.terms.len() + 2),
        ensures
            final(self).wf(),
            (final(self)@, r.0@, r.1) == old(self)@.created(constraint@),
            final(self)@.has_room(n),
            r.0.wf(),
            admissible(final(self)@, r.0@),
            SolverModel::tag_below(r.1, final(self)@.id_tick),
            r.0@.cells.contains_key(r.1.marker),
    {
        let expr = constraint.expr();
        let mut row = Row::new(expr.constant);
        let len = expr.terms.len();
        let ghost terms = constraint@.terms;
        let ghost start = RowModel::only(constraint@.constant);
        assert(terms.take(0) =~= Seq::<Term>::empty());
        for i in 0..len
            invariant
                self.wf(),
                row.wf(),
                terms == constraint@.terms,
                expr.terms@ == terms,
                len == terms.len(),
                start == RowModel::only(constraint@.constant),
                (self@, row@) == old(self)@.absorbed(start, terms.take(i as int)),
                self@.has_room((n + len - i + 2) as nat),
                admissible(self@, row@),
        {
            let term = expr.terms[i];
            proof {
                assert(terms.take(i + 1).drop_last() =~= terms.take(i as int));
                assert(terms.take(i + 1).last() == term);
            }
            if !term.coefficient.near_zero() {
                let ghost m = self@;
                proof {
                    lemma_referred(m, term.variable, (n + len - i + 1) as nat);
                    assert(admissible(m.referred(term.variable), row@));
                }
                let symbol = self.get_var_symbol(
                    term.variable,
                    Ghost((n + len - i + 1) as nat),
                );
                proof {
                    lemma_expanded(self@, row@, term.variable, term.coefficient);
                    self.tableau.lemma_rows();
                }
                match self.tableau.rows.get(symbol) {
                    Some(other) => {
                        let _ = row.insert_row(other, term.coefficient);
                    },
                    None => {
                        row.insert_symbol(symbol, term.coefficient);
                    },
                }
            }
        }
        assert(terms.take(len as int) =~= terms);
        let ghost m = self@;
        let ghost r = row@;
        proof {
            lemma_marked(m, r, constraint@, n);
        }
        let strength = constraint.strength();
        let is_soft = strength.value.less_than(Strength::required().value);
        let k = self.id_tick;
        let tag = match constraint.op() {
            RelationalOperator::Equal => {
                if is_soft {
                    let plus = Symbol::new(k, SymbolKind::Error);
                    let minus = Symbol::new(k + 1, SymbolKind::Error);
                    self.id_tick = k + 2;
                    row.insert_symbol(plus, minus_one());
                    row.insert_symbol(minus, one());
                    self.tableau.objective.insert_symbol(plus, strength.value);
                    self.tableau.objective.insert_symbol(minus, strength.value);
                    Tag { marker: plus, other: Some(minus) }
                } else {
                    let dummy = Symbol::new(k, SymbolKind::Dummy);
                    self.id_tick = k + 1;
                    row.insert_symbol(dummy, one());
                    Tag { marker: dummy, other: None }
                }
            },
            RelationalOperator::LessOrEqual | RelationalOperator::GreaterOrEqual => {
                let sign = if constraint.op() == RelationalOperator::LessOrEqual {
                    one()
                } else {
                    minus_one()
                };
                let slack = Symbol::new(k, SymbolKind::Slack);
                row.insert_symbol(slack, sign);
                if is_soft {
                    let error = Symbol::new(k + 1, SymbolKind::Error);
                    self.id_tick = k + 2;
                    row.insert_symbol(error, sign.negated());
                    self.tableau.objective.insert_symbol(error, strength.value);
                    Tag { marker: slack, other: Some(error) }
                } else {
                    self.id_tick = k + 1;
                    Tag { marker: slack, other: None }
                }
            },
        };
        proof {
            let (m2, r2, tag2) = m.marked(r, constraint@);
            assert(self@.tableau =~= m2.tableau);
            assert(self@ =~= m2);
            assert(row@ =~= r2);
            assert(tag == tag2);
        }
        if row.constant.less_than(zero()) {
            let ghost before = row@;
            row.reverse_sign();
            proof {
                assert forall|s: Symbol| #[trigger] row@.cells.contains_key(s) <==> before.cells.contains_key(s) by {}
            }
        }
        (row, tag)
    }

    /// Gives a new row its place in the tableau. Tells whether it has one.
    fn place_row(&mut self, row: Row, tag: &Tag, Ghost(n): Ghost<nat>) -> (r: Result<
        bool,
        InternalSolverError,
    >)
        requires
            old(self).wf(),
            old(self)@.has_room(n + 1),
            row.wf(),
            admissible(old(self)@, row@),
            SolverModel::tag_below(*tag, old(self)@.id_tick),
            row@.cells.contains_key(tag.marker),
        ensures
            final(self).wf(),
            (final(self)@, r) == old(self)@.placed(row@, *tag),
            final(self)@.has_room(n),
            final(self)@.id_tick >= old(self)@.id_tick,
    {
        let ghost m = self@;
        let ghost start = row@;
        let mut row = row;
        let mut subject = Tableau::choose_subject(&row, tag);
        proof {
            crate::choice::lemma_smallest_is_member(
                Set::new(|s: Symbol| start.cells.contains_key(s) && s.external()),
            );
            assert(!zero().below(zero()));
        }
        if subject.is_none() && Tableau::all_dummies(&row) {
            if !row.constant.near_zero() {
                return Ok(false);
            }
            subject = Some(tag.marker);
        }
        match subject {
            Some(s) => {
                assert(start.cells.contains_key(s));
                row.solve_for_symbol(s);
                proof {
                    assert forall|k: Symbol| #[trigger] row@.cells.contains_key(k) implies start.cells.contains_key(k)
                        && k != s by {}
                    crate::simplex::lemma_entered(m.tableau, s, row@, m.id_tick);
                    lemma_next_tableau(m, m.tableau.entered(s, row@), m.id_tick);
                }
                self.tableau.enter(s, row);
                assert(self@ =~= m.placed(start, *tag).0);
                Ok(true)
            },
            None => {
                let art = Symbol::new(self.id_tick, SymbolKind::Slack);
                self.id_tick = self.id_tick + 1;
                let r = self.tableau.add_with_artificial_variable(
                    art,
                    &row,
                    Ghost(m.id_tick + 1),
                );
                proof {
                    lemma_next_tableau(m, self.tableau@, m.id_tick + 1);
                    assert(self@ =~= m.placed(start, *tag).0);
                    assert(self@ =~= (SolverModel {
                        tableau: self.tableau@,
                        id_tick: m.id_tick + 1,
                        ..m
                    }));
                }
                r
            },
        }
    }

    /// Brings the objective to its minimum.
    fn optimize(&mut self) -> (r: Result<(), InternalSolverError>)
        requires
            old(self).wf(),
        ensures
            final(self).wf(),
            (final(self)@, r) == old(self)@.optimized(),
            final(self)@.id_tick == old(self)@.id_tick,
            r is Ok ==> final(self)@.tableau.minimal(),
    {
        let ghost m = self@;
        let r = self.tableau.optimize(false, Ghost(m.id_tick));
        proof {
            lemma_next_tableau(m, self.tableau@, m.id_tick);
            assert(self@ =~= (SolverModel { tableau: self.tableau@, ..m }));
        }
        r
    }

    /// Adds a constraint under a handle.
    pub(crate) fn add_constraint_with_id(
        &mut self,
        id: ConstraintId,
        constraint: Constraint,
    ) -> (r: Result<(), AddConstraintError>)
        requires
            old(self).wf(),
            old(self)@.has_room(constraint@.terms.len() + 3),
            id.number() < old(self)@.next_constraint_id,
        ensures
            final(self).wf(),
            (final(self)@, r) == old(self)@.added_as(id, constraint@),
            r is Ok ==> final(self)@.tableau.minimal(),
    {
        proof {
            reveal(SolverModel::added_as);
        }
        let known = match constraint.identity {
            Some(k) => self.constraint_ids.contains(k),
            None => false,
        };
        if known || self.constraints.contains(id) {
            return Err(AddConstraintError::DuplicateConstraint);
        }
        let (row, tag) = self.create_row(&constraint, Ghost(1));
        match self.place_row(row, &tag, Ghost(0)) {
            Err(e) => {
                return Err(AddConstraintError::InternalSolverError(e));
            },
            Ok(satisfiable) => {
                if !satisfiable {
                    return Err(AddConstraintError::UnsatisfiableConstraint);
                }
            },
        }
        let ghost placed = self@;
        proof {
            lemma_absorbed_frame(old(self)@, RowModel::only(constraint@.constant), constraint@.terms);
        }
        if let Some(k) = constraint.identity {
            self.constraint_ids.insert(k, id);
        }
        let ghost c = constraint@;
        self.constraints.insert(id, ConstraintEntry { constraint, tag });
        proof {
            assert(self@.constraints =~= placed.registered(id, c, tag).constraints);
            assert(self@ =~= placed.registered(id, c, tag));
            lemma_registered(placed, id, c, tag);
        }
        match self.optimize() {
            Ok(_) => Ok(()),
            Err(e) => Err(AddConstraintError::InternalSolverError(e)),
        }
    }

    /// Adds a constraint to the solver and gives its handle.
    ///
    /// A constraint that is refused as a duplicate leaves the constraints of the solver as they
    /// were; one that is refused otherwise may have left symbols behind.
    pub fn add_constraint(&mut self, constraint: Constraint) -> (r: Result<
        ConstraintId,
        AddConstraintError,
    >)
        requires
            old(self).wf(),
            old(self)@.has_room(weight(constraint@)),
        ensures
            final(self).wf(),
            (final(self)@, r) == old(self)@.added(constraint@),
            r is Ok ==> r == Ok::<ConstraintId, AddConstraintError>(old(self)@.next_id())
                && final(self)@.constraints.contains_key(old(self)@.next_id()),
            r == Err::<ConstraintId, AddConstraintError>(AddConstraintError::DuplicateConstraint)
                <==> constraint@.identity is Some && old(self)@.constraint_ids.contains_key(
                constraint@.identity->0,
            ),
            r is Ok ==> final(self)@.tableau.minimal(),
            final(self)@.next_constraint_id == old(self)@.next_constraint_id + 1,
            final(self)@.edits == old(self)@.edits,
            forall|n: nat|
                old(self)@.has_room(n + weight(constraint@)) ==> #[trigger] final(self)@.has_room(n),
    {
        let ghost (m, c) = (self@, constraint@);
        let id = self.alloc_constraint_id();
        proof {
            lemma_added_as_frame(self@, id, c);
            assert(!m.constraints.contains_key(id));
        }
        let r = self.add_constraint_with_id(id, constraint);
        proof {
            assert(self@ == m.added(c).0);
            assert forall|n: nat| m.has_room(n + weight(c)) implies #[trigger] self@.has_room(n) by {
                lemma_room_added(m, c, n);
            }
        }
        match r {
            Ok(_) => Ok(id),
            Err(e) => Err(e),
        }
    }

    /// Adds constraints one after the other, up to the first that is refused.
    pub fn add_constraints(&mut self, constraints: Vec<Constraint>) -> (r: Result<
        (),
        AddConstraintError,
    >)
        requires
            old(self).wf(),
            old(self)@.has_room(total_weight(models(constraints@))),
        ensures
            final(self).wf(),
            (final(self)@, r) == old(self)@.added_all(models(constraints@)),
            forall|n: nat|
                old(self)@.has_room(n + total_weight(models(constraints@)))
                    ==> #[trigger] final(self)@.has_room(n),
    {
        let ghost cs = models(constraints@);
        assert(cs.take(0) =~= Seq::<ConstraintModel>::empty());
        assert(cs.skip(0) =~= cs);
        proof {
            lemma_weight_split(cs, 0);
        }
        for i in 0..constraints.len()
            invariant
                self.wf(),
                models(constraints@) == cs,
                (self@, Ok::<(), AddConstraintError>(())) == old(self)@.added_all(
                    cs.take(i as int),
                ),
                self@.has_room((total_weight(cs) - total_weight(cs.take(i as int))) as nat),
                total_weight(cs.take(i as int)) <= total_weight(cs),
                forall|n: nat| #[trigger]
                    old(self)@.has_room(n + total_weight(cs)) ==> self@.has_room(
                        (n + total_weight(cs) - total_weight(cs.take(i as int))) as nat,
                    ),
        {
            let constraint = constraints[i].clone();
            proof {
                assert(cs.take(i + 1).drop_last() =~= cs.take(i as int));
                assert(cs.take(i + 1).last() == constraint@);
                lemma_weight_split(cs, i + 1);
                let rest = (total_weight(cs) - total_weight(cs.take(i + 1))) as nat;
                assert(self@.has_room(rest + weight(constraint@)));
                lemma_added_all_stops(old(self)@, cs, i + 1);
            }
            let ghost rest = (total_weight(cs) - total_weight(cs.take(i + 1))) as nat;
            let ghost before = self@;
            let ghost w = weight(constraint@);
            let added = self.add_constraint(constraint);
            proof {
                assert forall|n: nat| #[trigger]
                    old(self)@.has_room(n + total_weight(cs)) implies self@.has_room(
                    (n + rest) as nat,
                ) by {
                    assert(before.has_room((n + rest) as nat + w));
                }
            }
            match added {
                Ok(_) => {},
                Err(e) => {
                    proof {
                        assert forall|n: nat|
                            old(self)@.has_room(n + total_weight(cs)) implies
                            #[trigger] self@.has_room(n) by {
                            lemma_room_less(self@, (n + rest) as nat, n);
                        }
                    }
                    return Err(e);
                },
            }
        }
        assert(cs.take(cs.len() as int) =~= cs);
        Ok(())
    }

    /// Lets some terms no longer refer to their variables.
    fn release(&mut self, terms: &Vec<Term>)
        requires
            old(self).wf(),
        ensures
            final(self).wf(),
            final(self)@ == old(self)@.released(terms@),
            final(self)@.tableau.objective == old(self)@.tableau.objective,
    {
        assert(terms@.take(0) =~= Seq::<Term>::empty());
        for i in 0..terms.len()
            invariant
                self.wf(),
                self@ == old(self)@.released(terms@.take(i as int)),
                self@.tableau.objective == old(self)@.tableau.objective,
        {
            let term = terms[i];
            let ghost m = self@;
            proof {
                assert(terms@.take(i + 1).drop_last() =~= terms@.take(i as int));
                assert(terms@.take(i + 1).last() == term);
                lemma_unreferred(m, term.variable, 0);
            }
            if !term.coefficient.near_zero() {
                let known = match self.var_data.get(term.variable) {
                    Some(d) => Some(*d),
                    None => None,
                };
                if let Some(d) = known {
                    assert(m.var_data.contains_key(term.variable));
                    if d.count == 1 {
                        let _ = self.tableau.owners.remove(d.symbol);
                        let _ = self.var_data.remove(term.variable);
                    } else {
                        self.var_data.insert(
                            term.variable,
                            VariableData { value: d.value, symbol: d.symbol, count: d.count - 1 },
                        );
                    }
                    proof {
                        assert(self@.tableau =~= m.unreferred(term.variable).tableau);
                    }
                }
                assert(self@ =~= m.unreferred(term.variable));
            }
        }
        assert(terms@.take(terms@.len() as int) =~= terms@);
    }

    /// Takes the equation and the costs of a constraint out of the tableau.
    fn remove_constraint_with_tag(&mut self, constraint: &Constraint, tag: &Tag) -> (r: Result<
        (),
        RemoveConstraintError,
    >)
        requires
            old(self).wf(),
            SolverModel::tag_below(*tag, old(self)@.id_tick),
        ensures
            final(self).wf(),
            (final(self)@, r) == old(self)@.withdrawn(constraint@, *tag),
            r is Ok ==> final(self)@.tableau.minimal(),
            forall|n: nat| old(self)@.has_room(n) ==> #[trigger] final(self)@.has_room(n),
    {
        proof {
            reveal(SolverModel::withdrawn);
        }
        let ghost m = self@;
        self.tableau.remove_constraint_effects(tag, constraint.strength().value, Ghost(m.id_tick));
        let ghost t1 = self.tableau@;
        let found = self.tableau.drop_marker(tag.marker, Ghost(m.id_tick));
        proof {
            crate::simplex::lemma_accounted_twice(m.tableau, t1, self.tableau@);
            lemma_next_tableau(m, self.tableau@, m.id_tick);
            assert(self@ =~= (SolverModel { tableau: self.tableau@, ..m }));
        }
        if !found {
            return Err(
                RemoveConstraintError::InternalSolverError(
                    InternalSolverError::FailedToFindLeavingRow,
                ),
            );
        }
        match self.optimize() {
            Err(e) => Err(RemoveConstraintError::InternalSolverError(e)),
            Ok(_) => {
                let ghost m2 = self@;
                proof {
                    lemma_released(m2, constraint@.terms);
                    assert forall|n: nat| m.has_room(n) implies #[trigger] m2.released(
                        constraint@.terms,
                    ).has_room(n) by {
                        assert(m2.has_room(n));
                    }
                }
                self.release(&constraint.expr().terms);
                Ok(())
            },
        }
    }

    /// Removes a constraint from the solver.
    pub fn remove_constraint(&mut self, constraint_id: ConstraintId) -> (r: Result<
        (),
        RemoveConstraintError,
    >)
        requires
            old(self).wf(),
        ensures
            final(self).wf(),
            (final(self)@, r) == old(self)@.removed(constraint_id),
            r is Ok ==> final(self)@.tableau.minimal(),
            r == Err::<(), RemoveConstraintError>(RemoveConstraintError::UnknownConstraint)
                <==> !old(self)@.constraints.contains_key(constraint_id),
            final(self)@.constraints == old(self)@.constraints.remove(constraint_id),
            final(self)@.edits == old(self)@.edits,
            final(self)@.next_constraint_id == old(self)@.next_constraint_id,
            forall|n: nat| old(self)@.has_room(n) ==> #[trigger] final(self)@.has_room(n),
    {
        let ghost m = self@;
        match self.constraints.remove(constraint_id) {
            None => {
                assert(self@.constraints =~= m.constraints);
                assert(m.constraints.remove(constraint_id) =~= m.constraints);
                assert(self@ =~= m);
                Err(RemoveConstraintError::UnknownConstraint)
            },
            Some(entry) => {
                if let Some(k) = entry.constraint.identity {
                    let _ = self.constraint_ids.remove(k);
                }
                proof {
                    assert(m.constraints.contains_key(constraint_id));
                    assert(self@.constraints =~= m.unregistered(constraint_id).constraints);
                    assert(self@ =~= m.unregistered(constraint_id));
                    lemma_unregistered(m, constraint_id);
                    lemma_withdrawn_frame(self@, entry.constraint@, entry.tag);
                    assert forall|n: nat| m.has_room(n) implies #[trigger] m.unregistered(
                        constraint_id,
                    ).has_room(n) by {}
                }
                let ghost u = self@;
                let r = self.remove_constraint_with_tag(&entry.constraint, &entry.tag);
                proof {
                    assert forall|n: nat| m.has_room(n) implies #[trigger] self@.has_room(n) by {
                        assert(u.has_room(n));
                    }
                }
                r
            },
        }
    }

    /// Tells whether a constraint is in the solver.
    pub fn has_constraint(&self, constraint_id: ConstraintId) -> (r: bool)
        requires
            self.wf(),
        ensures
            r == self@.constraints.contains_key(constraint_id),
    {
        self.constraints.contains(constraint_id)
    }

    /// Gives the value of a variable; zero where the solver does not know it.
    pub fn get_value(&self, v: Variable) -> (r: Number)
        requires
            self.wf(),
        ensures
            r == self@.value_of(v),
    {
        proof {
            self.tableau.lemma_rows();
        }
        match self.var_data.get(v) {
            Some(d) => match self.tableau.rows.get(d.symbol) {
                Some(row) => row.constant,
                None => zero(),
            },
            None => zero(),
        }
    }

    /// Gives the variables whose values have changed since the last call, with their values, each
    /// once and in no particular order.
    pub fn fetch_changes(&mut self) -> (r: &Vec<(Variable, Number)>)
        requires
            old(self).wf(),
        ensures
            final(self).wf(),
            final(self)@ == old(self)@.fetched(),
            forall|i: int|
                0 <= i < r@.len() ==> old(self)@.is_update((#[trigger] r@[i]).0) && r@[i].1
                    == old(self)@.value_of(r@[i].0),
            forall|v: Variable| #[trigger]
                old(self)@.is_update(v) ==> r@.contains((v, old(self)@.value_of(v))),
            forall|i: int, j: int|
                0 <= i < j < r@.len() ==> (#[trigger] r@[i]).0 != (#[trigger] r@[j]).0,
    {
        let ghost m = self@;
        proof {
            lemma_fetched(m);
        }
        if self.tableau.reported {
            self.tableau.changed.clear();
            self.tableau.reported = false;
        } else {
            self.tableau.reported = true;
        }
        self.public_changes.clear();
        let n = self.tableau.changed.len();
        let ghost start = *self;
        proof {
            assert(start.tableau@.changed =~= m.fetchable());
            assert(start@.tableau =~= m.fetched().tableau);
            start.tableau.changed.lemma_entries();
        }
        for i in 0..n
            invariant
                m == old(self)@,
                start.tableau.wf(),
                start.tableau@ == m.fetched().tableau,
                start@.var_data == m.var_data,
                self.tableau == start.tableau,
                self.constraints == start.constraints,
                self.constraint_ids == start.constraint_ids,
                self.edits == start.edits,
                self.id_tick == start.id_tick,
                self.next_constraint_id == start.next_constraint_id,
                self.var_data.wf(),
                n == start.tableau.changed.entries@.len(),
                self.var_data@.dom() == m.var_data.dom(),
                forall|v: Variable| #[trigger]
                    m.var_data.contains_key(v) ==> self.var_data@[v] == (if m.is_update(v)
                        && start.tableau.changed.spot(v) < i {
                        m.fetched().var_data[v]
                    } else {
                        m.var_data[v]
                    }),
                forall|k: int|
                    0 <= k < self.public_changes@.len() ==> m.is_update(
                        (#[trigger] self.public_changes@[k]).0,
                    ) && self.public_changes@[k].1 == m.value_of(self.public_changes@[k].0)
                        && start.tableau.changed.spot(self.public_changes@[k].0) < i,
                forall|v: Variable| #[trigger]
                    m.is_update(v) && start.tableau.changed.spot(v) < i
                        ==> self.public_changes@.contains((v, m.value_of(v))),
                forall|a: int, b: int|
                    0 <= a < b < self.public_changes@.len() ==> (#[trigger] self.public_changes@[a]).0
                        != (#[trigger] self.public_changes@[b]).0,
        {
            proof {
                start.tableau.changed.lemma_entries();
                start.tableau.lemma_rows();
            }
            let v = self.tableau.changed.key_at(i);
            let ghost before = self.public_changes@;
            let known = match self.var_data.get(v) {
                Some(d) => Some(*d),
                None => None,
            };
            assert(m.fetchable().contains(v));
            if let Some(d) = known {
                assert(m.var_data.contains_key(v));
                let value = match self.tableau.rows.get(d.symbol) {
                    Some(row) => row.constant,
                    None => zero(),
                };
                assert(value == m.value_of(v));
                if !d.value.equals(value) {
                    self.public_changes.push((v, value));
                    self.var_data.insert(
                        v,
                        VariableData { value, symbol: d.symbol, count: d.count },
                    );
                    assert(m.is_update(v));
                    assert(self.public_changes@.last() == (v, value));
                    assert(self.var_data@.dom() =~= m.var_data.dom());
                }
            }
            proof {
                assert forall|w: Variable| #[trigger] m.is_update(w) && start.tableau.changed.spot(w) < i
                    + 1 implies self.public_changes@.contains((w, m.value_of(w))) by {
                    assert(start.tableau.changed@.contains_key(w));
                    if w != v {
                        let x = (w, m.value_of(w));
                        assert(before.contains(x));
                        let k = choose|k: int| 0 <= k < before.len() && before[k] == x;
                        assert(self.public_changes@[k] == x);
                    }
                }
            }
        }
        proof {
            start.tableau.changed.lemma_entries();
            assert forall|v: Variable| #[trigger] m.is_update(v) implies self.public_changes@.contains(
                (v, m.value_of(v)),
            ) by {
                assert(start.tableau.changed@.contains_key(v));
            }
            assert(self@.var_data =~= m.fetched().var_data) by {
                assert forall|v: Variable| #[trigger] m.var_data.contains_key(v) implies self@.var_data[v]
                    == m.fetched().var_data[v] by {
                    if m.is_update(v) {
                        assert(start.tableau.changed@.contains_key(v));
                    }
                }
            }
            assert(self@ =~= m.fetched());
        }
        &self.public_changes
    }
}

/// A part of some constraints weighs no more than all of them.
pub(crate) proof fn lemma_weight_split(cs: Seq<ConstraintModel>, i: int)
    requires
        0 <= i <= cs.len(),
    ensures
        total_weight(cs.take(i)) <= total_weight(cs),
    decreases cs.len(),
{
    if i == cs.len() {
        assert(cs.take(i) =~= cs);
    } else {
        lemma_weight_split(cs.drop_last(), i);
        assert(cs.drop_last().take(i) =~= cs.take(i));
    }
}

/// Once a constraint is refused, the rest is not looked at.
proof fn lemma_added_all_stops(m: SolverModel, cs: Seq<ConstraintModel>, i: int)
    requires
        0 <= i <= cs.len(),
    ensures
        m.added_all(cs.take(i)).1 is Err ==> m.added_all(cs) == m.added_all(cs.take(i)),
    decreases cs.len(),
{
    if i == cs.len() {
        assert(cs.take(i) =~= cs);
    } else {
        lemma_added_all_stops(m, cs.drop_last(), i);
        assert(cs.drop_last().take(i) =~= cs.take(i));
    }
}

impl Default for Solver {
    fn default() -> (r: Solver)
        ensures
            r.wf(),
            r@ == SolverModel::initial(),
    {
        Solver::new()
    }
}

} // verus!
