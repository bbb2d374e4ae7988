//! A system of constraints, as a mathematical object: what the solver holds and what each
//! operation makes of it.
use crate::constraint::{Constraint, ConstraintModel, RelationalOperator, Strength};
use crate::error::{
    AddConstraintError, AddEditVariableError, InternalSolverError, RemoveConstraintError,
    RemoveEditVariableError, SuggestValueError,
};
use crate::expression::{Term, Variable};
use crate::number::{minus_one, not_a_number, one, zero, Number};
use crate::row::RowModel;
use crate::simplex::{TableauModel, Tag};
use crate::symbol::{symbol, Symbol, SymbolKind, SYMBOL_LIMIT};
use crate::table::Key;
use std::cmp::Ordering;
use vstd::prelude::*;
use vstd::std_specs::cmp::PartialOrdSpecImpl;

verus! {

/// The handle of a constraint in the solver. It is no part of the constraint itself: a constraint
/// can be built anew, and its handle still finds what it says.
#[derive(Clone, Copy, Debug, PartialEq, Eq, Ord, Hash, Structural)]
pub struct ConstraintId {
    pub(crate) raw: u64,
}

impl ConstraintId {
    #[verifier::type_invariant]
    pub(crate) open(crate) spec fn nonzero(self) -> bool {
        self.raw != 0
    }

    /// The number of the handle.
    pub open(crate) spec fn number(self) -> u64 {
        self.raw
    }

    /// The handle with the given number.
    pub open(crate) spec fn numbered(raw: nat) -> ConstraintId {
        ConstraintId { raw: raw as u64 }
    }

    /// Gives the number of the handle, which is never zero.
    #[must_use]
    pub fn get(self) -> (r: u64)
        ensures
            r == self.number(),
            r != 0,
    {
        proof {
            use_type_invariant(self);
        }
        self.raw
    }
}

/// Handles are ordered by their numbers.
impl PartialOrd for ConstraintId {
    fn partial_cmp(&self, other: &Self) -> (r: Option<Ordering>) {
        if self.raw < other.raw {
            Some(Ordering::Less)
        } else if self.raw == other.raw {
            Some(Ordering::Equal)
        } else {
            Some(Ordering::Greater)
        }
    }
}

impl PartialOrdSpecImpl for ConstraintId {
    open spec fn obeys_partial_cmp_spec() -> bool {
        true
    }

    open spec fn partial_cmp_spec(&self, other: &Self) -> Option<Ordering> {
        if self.number() < other.number() {
            Some(Ordering::Less)
        } else if self.number() == other.number() {
            Some(Ordering::Equal)
        } else {
            Some(Ordering::Greater)
        }
    }
}

/// A handle is its number: equal handles have equal numbers, and no others have.
pub proof fn law_handle_is_its_number(a: ConstraintId, b: ConstraintId)
    ensures
        a == b <==> a.number() == b.number(),
{
}

impl Key for ConstraintId {
    open(crate) spec fn word(self) -> u64 {
        self.raw
    }

    proof fn distinct(a: Self, b: Self) {
    }

    fn to_word(self) -> (w: u64) {
        self.raw
    }
}

impl Key for u64 {
    open spec fn word(self) -> u64 {
        self
    }

    proof fn distinct(a: Self, b: Self) {
    }

    fn to_word(self) -> (w: u64) {
        self
    }
}

/// A constraint in the solver.
pub struct ConstraintEntry {
    pub constraint: Constraint,
    pub tag: Tag,
}

/// A constraint in a system.
#[verifier::ext_equal]
pub struct EntryModel {
    pub constraint: ConstraintModel,
    pub tag: Tag,
}

/// What is known of a variable.
#[derive(Clone, Copy, Debug, PartialEq, Eq, Structural)]
pub struct VariableData {
    /// The value that was last handed out; not a number at first.
    pub value: Number,
    /// The symbol that stands for the variable.
    pub symbol: Symbol,
    /// How many terms refer to the variable.
    pub count: u64,
}

/// What is known of an edit variable.
#[derive(Clone, Copy, Debug, PartialEq, Eq, Structural)]
pub struct EditInfo {
    pub tag: Tag,
    pub constraint_id: ConstraintId,
    /// The value that was suggested last.
    pub constant: Number,
}

/// A system of constraints.
#[verifier::ext_equal]
pub struct SolverModel {
    pub constraints: Map<ConstraintId, EntryModel>,
    /// The constraints by their identities.
    pub constraint_ids: Map<u64, ConstraintId>,
    pub var_data: Map<Variable, VariableData>,
    pub edits: Map<Variable, EditInfo>,
    pub tableau: TableauModel,
    /// The number of the next symbol.
    pub id_tick: nat,
    /// The number of the next handle.
    pub next_constraint_id: nat,
}

/// How much of the machine's limits a constraint may use up.
pub open spec fn weight(c: ConstraintModel) -> nat {
    c.terms.len() + 4
}

/// How much of the machine's limits some constraints may use up.
pub open spec fn total_weight(cs: Seq<ConstraintModel>) -> nat
    decreases cs.len(),
{
    if cs.len() == 0 {
        0
    } else {
        total_weight(cs.drop_last()) + weight(cs.last())
    }
}

/// Whether a constraint may be missed at a cost.
pub open spec fn soft(c: ConstraintModel) -> bool {
    c.strength.value.below(Strength::required().value)
}

/// The symbol that a new row is solved for at once, if there is one.
pub open spec fn entry_symbol(row: RowModel, tag: Tag) -> Option<Symbol> {
    match TableauModel::subject(row, tag) {
        Some(s) => Some(s),
        None => if TableauModel::all_dummies(row) && row.constant.negligible() {
            Some(tag.marker)
        } else {
            None
        },
    }
}

/// Whether a new row contradicts itself.
pub open spec fn contradictory(row: RowModel, tag: Tag) -> bool {
    TableauModel::subject(row, tag) is None && TableauModel::all_dummies(row)
        && !row.constant.negligible()
}

impl SolverModel {
    /// The system without constraints.
    pub open spec fn initial() -> SolverModel {
        SolverModel {
            constraints: Map::empty(),
            constraint_ids: Map::empty(),
            var_data: Map::empty(),
            edits: Map::empty(),
            tableau: TableauModel::initial(),
            id_tick: 1,
            next_constraint_id: 1,
        }
    }

    /// Whether the machine's limits leave room for this much more.
    pub open spec fn has_room(self, n: nat) -> bool {
        &&& self.id_tick + n <= SYMBOL_LIMIT
        &&& self.next_constraint_id + n <= u64::MAX
        &&& forall|v: Variable| #[trigger]
            self.var_data.contains_key(v) ==> self.var_data[v].count + n <= u64::MAX
    }

    /// One more term refers to a variable, which gets a symbol if it has none.
    pub open spec fn referred(self, v: Variable) -> SolverModel {
        if self.var_data.contains_key(v) {
            let d = self.var_data[v];
            SolverModel {
                var_data: self.var_data.insert(
                    v,
                    VariableData { count: (d.count + 1) as u64, ..d },
                ),
                ..self
            }
        } else {
            let s = symbol(self.id_tick, SymbolKind::External);
            SolverModel {
                var_data: self.var_data.insert(
                    v,
                    VariableData { value: not_a_number(), symbol: s, count: 1 },
                ),
                tableau: TableauModel {
                    owners: self.tableau.owners.insert(s, v),
                    ..self.tableau
                },
                id_tick: self.id_tick + 1,
                ..self
            }
        }
    }

    /// A row plus a multiple of a variable, over the symbols that are not basic.
    pub open spec fn expanded(self, row: RowModel, v: Variable, coefficient: Number) -> RowModel {
        let s = self.var_data[v].symbol;
        if self.tableau.rows.contains_key(s) {
            row.plus_row(self.tableau.rows[s], coefficient)
        } else {
            row.plus_symbol(s, coefficient)
        }
    }

    /// A row plus some terms, one after the other; a term near zero is passed over.
    pub open spec fn absorbed(self, row: RowModel, terms: Seq<Term>) -> (SolverModel, RowModel)
        decreases terms.len(),
    {
        if terms.len() == 0 {
            (self, row)
        } else {
            let (m, r) = self.absorbed(row, terms.drop_last());
            let t = terms.last();
            if t.coefficient.negligible() {
                (m, r)
            } else {
                let m = m.referred(t.variable);
                (m, m.expanded(r, t.variable, t.coefficient))
            }
        }
    }

    /// The system with a cost for an error symbol.
    pub open spec fn with_cost(self, s: Symbol, strength: Number) -> SolverModel {
        SolverModel {
            tableau: TableauModel {
                objective: self.tableau.objective.plus_symbol(s, strength),
                ..self.tableau
            },
            ..self
        }
    }

    /// The row of a constraint with its slack, error and dummy symbols.
    pub open spec fn marked(self, row: RowModel, c: ConstraintModel) -> (SolverModel, RowModel, Tag) {
        let k = self.id_tick;
        let strength = c.strength.value;
        match c.operator {
            RelationalOperator::Equal => if soft(c) {
                let plus = symbol(k, SymbolKind::Error);
                let minus = symbol(k + 1, SymbolKind::Error);
                (
                    SolverModel { id_tick: k + 2, ..self }.with_cost(plus, strength).with_cost(
                        minus,
                        strength,
                    ),
                    row.plus_symbol(plus, minus_one()).plus_symbol(minus, one()),
                    Tag { marker: plus, other: Some(minus) },
                )
            } else {
                let dummy = symbol(k, SymbolKind::Dummy);
                (
                    SolverModel { id_tick: k + 1, ..self },
                    row.plus_symbol(dummy, one()),
                    Tag { marker: dummy, other: None },
                )
            },
            _ => {
                let sign = if c.operator is LessOrEqual {
                    one()
                } else {
                    minus_one()
                };
                let slack = symbol(k, SymbolKind::Slack);
                if soft(c) {
                    let error = symbol(k + 1, SymbolKind::Error);
                    (
                        SolverModel { id_tick: k + 2, ..self }.with_cost(error, strength),
                        row.plus_symbol(slack, sign).plus_symbol(error, sign.negation()),
                        Tag { marker: slack, other: Some(error) },
                    )
                } else {
                    (
                        SolverModel { id_tick: k + 1, ..self },
                        row.plus_symbol(slack, sign),
                        Tag { marker: slack, other: None },
                    )
                }
            },
        }
    }

    /// The row of a constraint, with a constant that is not negative.
    pub open spec fn created(self, c: ConstraintModel) -> (SolverModel, RowModel, Tag) {
        let (m, r) = self.absorbed(RowModel::only(c.constant), c.terms);
        let (m, r, tag) = m.marked(r, c);
        (
            m,
            if r.constant.below(zero()) {
                r.reversed()
            } else {
                r
            },
            tag,
        )
    }

    /// Whether a constraint, or a handle, is in the system.
    pub open spec fn knows(self, id: ConstraintId, c: ConstraintModel) -> bool {
        self.constraints.contains_key(id) || (c.identity is Some
            && self.constraint_ids.contains_key(c.identity->0))
    }

    /// The system in which a constraint is noted under a handle.
    pub open spec fn registered(self, id: ConstraintId, c: ConstraintModel, tag: Tag) -> SolverModel {
        SolverModel {
            constraints: self.constraints.insert(id, EntryModel { constraint: c, tag }),
            constraint_ids: match c.identity {
                Some(k) => self.constraint_ids.insert(k, id),
                None => self.constraint_ids,
            },
            ..self
        }
    }

    /// The objective is brought to its minimum.
    pub open spec fn optimized(self) -> (SolverModel, Result<(), InternalSolverError>) {
        let (t, r) = self.tableau.optimized(false);
        (SolverModel { tableau: t, ..self }, r)
    }

    /// A new row takes its place in the tableau. Tells whether it has one.
    pub open spec fn placed(self, row: RowModel, tag: Tag) -> (SolverModel, Result<
        bool,
        InternalSolverError,
    >) {
        if contradictory(row, tag) {
            (self, Ok(false))
        } else {
            match entry_symbol(row, tag) {
                Some(s) => (
                    SolverModel { tableau: self.tableau.entered(s, row.solved_for(s)), ..self },
                    Ok(true),
                ),
                None => {
                    let (t, r) = self.tableau.taken_in(
                        symbol(self.id_tick, SymbolKind::Slack),
                        row,
                    );
                    (SolverModel { tableau: t, id_tick: self.id_tick + 1, ..self }, r)
                },
            }
        }
    }

    /// A constraint is added under a handle.
    #[verifier::opaque]
    pub open spec fn added_as(self, id: ConstraintId, c: ConstraintModel) -> (SolverModel, Result<
        (),
        AddConstraintError,
    >) {
        if self.knows(id, c) {
            (self, Err(AddConstraintError::DuplicateConstraint))
        } else {
            let (m, row, tag) = self.created(c);
            match m.placed(row, tag) {
                (m, Err(e)) => (m, Err(AddConstraintError::InternalSolverError(e))),
                (m, Ok(false)) => (m, Err(AddConstraintError::UnsatisfiableConstraint)),
                (m, Ok(true)) => match m.registered(id, c, tag).optimized() {
                    (m, Err(e)) => (m, Err(AddConstraintError::InternalSolverError(e))),
                    (m, Ok(_)) => (m, Ok(())),
                },
            }
        }
    }

    /// The handle that comes next.
    pub open spec fn next_id(self) -> ConstraintId {
        ConstraintId::numbered(self.next_constraint_id)
    }

    /// A constraint is added under the next handle.
    pub open spec fn added(self, c: ConstraintModel) -> (SolverModel, Result<
        ConstraintId,
        AddConstraintError,
    >) {
        let id = self.next_id();
        match (SolverModel { next_constraint_id: self.next_constraint_id + 1, ..self }).added_as(
            id,
            c,
        ) {
            (m, Ok(_)) => (m, Ok(id)),
            (m, Err(e)) => (m, Err(e)),
        }
    }

    /// Constraints are added one after the other, up to the first that is refused.
    pub open spec fn added_all(self, cs: Seq<ConstraintModel>) -> (SolverModel, Result<
        (),
        AddConstraintError,
    >)
        decreases cs.len(),
    {
        if cs.len() == 0 {
            (self, Ok(()))
        } else {
            match self.added_all(cs.drop_last()) {
                (m, Err(e)) => (m, Err(e)),
                (m, Ok(_)) => match m.added(cs.last()) {
                    (m, Ok(_)) => (m, Ok(())),
                    (m, Err(e)) => (m, Err(e)),
                },
            }
        }
    }

    /// One term less refers to a variable, which is forgotten with the last one.
    pub open spec fn unreferred(self, v: Variable) -> SolverModel {
        if !self.var_data.contains_key(v) {
            self
        } else {
            let d = self.var_data[v];
            if d.count == 1 {
                SolverModel {
                    var_data: self.var_data.remove(v),
                    tableau: TableauModel {
                        owners: self.tableau.owners.remove(d.symbol),
                        ..self.tableau
                    },
                    ..self
                }
            } else {
                SolverModel {
                    var_data: self.var_data.insert(
                        v,
                        VariableData { count: (d.count - 1) as u64, ..d },
                    ),
                    ..self
                }
            }
        }
    }

    /// Some terms no longer refer to their variables.
    pub open spec fn released(self, terms: Seq<Term>) -> SolverModel
        decreases terms.len(),
    {
        if terms.len() == 0 {
            self
        } else {
            let m = self.released(terms.drop_last());
            if terms.last().coefficient.negligible() {
                m
            } else {
                m.unreferred(terms.last().variable)
            }
        }
    }

    /// The system in which a handle means nothing.
    pub open spec fn unregistered(self, id: ConstraintId) -> SolverModel {
        SolverModel {
            constraints: self.constraints.remove(id),
            constraint_ids: match self.constraints[id].constraint.identity {
                Some(k) => self.constraint_ids.remove(k),
                None => self.constraint_ids,
            },
            ..self
        }
    }

    /// The tableau gives up the equation and the costs of a constraint.
    #[verifier::opaque]
    pub open spec fn withdrawn(self, c: ConstraintModel, tag: Tag) -> (SolverModel, Result<
        (),
        RemoveConstraintError,
    >) {
        let t = self.tableau.without_costs(tag, c.strength.value);
        match t.without_marker(tag.marker) {
            None => (
                SolverModel { tableau: t, ..self },
                Err(
                    RemoveConstraintError::InternalSolverError(
                        InternalSolverError::FailedToFindLeavingRow,
                    ),
                ),
            ),
            Some(u) => match (SolverModel { tableau: u, ..self }).optimized() {
                (m, Err(e)) => (m, Err(RemoveConstraintError::InternalSolverError(e))),
                (m, Ok(_)) => (m.released(c.terms), Ok(())),
            },
        }
    }

    /// A constraint is removed.
    pub open spec fn removed(self, id: ConstraintId) -> (SolverModel, Result<
        (),
        RemoveConstraintError,
    >) {
        if !self.constraints.contains_key(id) {
            (self, Err(RemoveConstraintError::UnknownConstraint))
        } else {
            let entry = self.constraints[id];
            self.unregistered(id).withdrawn(entry.constraint, entry.tag)
        }
    }

    /// The constraint of an edit variable.
    pub open spec fn edit_constraint(v: Variable, strength: Strength) -> ConstraintModel {
        ConstraintModel {
            identity: None,
            terms: seq![Term { variable: v, coefficient: one() }],
            constant: zero(),
            operator: RelationalOperator::Equal,
            strength,
        }
    }

    /// A variable becomes an edit variable.
    pub open spec fn edit_added(self, v: Variable, strength: Strength) -> (SolverModel, Result<
        (),
        AddEditVariableError,
    >) {
        if self.edits.contains_key(v) {
            (self, Err(AddEditVariableError::DuplicateEditVariable))
        } else if strength.value.same(Strength::required().value) {
            (self, Err(AddEditVariableError::BadRequiredStrength))
        } else {
            match self.added(SolverModel::edit_constraint(v, strength)) {
                (m, Ok(id)) => (
                    SolverModel {
                        edits: m.edits.insert(
                            v,
                            EditInfo {
                                tag: m.constraints[id].tag,
                                constraint_id: id,
                                constant: zero(),
                            },
                        ),
                        ..m
                    },
                    Ok(()),
                ),
                (m, Err(AddConstraintError::DuplicateConstraint)) => (
                    m,
                    Err(AddEditVariableError::DuplicateEditVariable),
                ),
                (m, Err(AddConstraintError::UnsatisfiableConstraint)) => (
                    m,
                    Err(AddEditVariableError::UnsatisfiableConstraint),
                ),
                (m, Err(AddConstraintError::InternalSolverError(e))) => (
                    m,
                    Err(AddEditVariableError::InternalSolverError(e)),
                ),
            }
        }
    }

    /// A variable is no longer an edit variable.
    pub open spec fn edit_removed(self, v: Variable) -> (SolverModel, Result<
        (),
        RemoveEditVariableError,
    >) {
        if !self.edits.contains_key(v) {
            (self, Err(RemoveEditVariableError::UnknownEditVariable))
        } else {
            let m = SolverModel { edits: self.edits.remove(v), ..self };
            match m.removed(self.edits[v].constraint_id) {
                (m, Ok(_)) => (m, Ok(())),
                (m, Err(RemoveConstraintError::UnknownConstraint)) => (
                    m,
                    Err(
                        RemoveEditVariableError::InternalSolverError(
                            InternalSolverError::EditConstraintNotInSystem,
                        ),
                    ),
                ),
                (m, Err(RemoveConstraintError::InternalSolverError(e))) => (
                    m,
                    Err(RemoveEditVariableError::InternalSolverError(e)),
                ),
            }
        }
    }

    /// The equation of an edit variable moves to a new value.
    pub open spec fn shifted(self, v: Variable, value: Number) -> SolverModel {
        let info = self.edits[v];
        SolverModel {
            edits: self.edits.insert(v, EditInfo { constant: value, ..info }),
            tableau: self.tableau.edited(info.tag, value.difference(info.constant)),
            ..self
        }
    }

    /// The equations of some edit variables move to new values, one after the other.
    pub open spec fn shifted_all(self, values: Seq<(Variable, Number)>) -> SolverModel
        decreases values.len(),
    {
        if values.len() == 0 {
            self
        } else {
            self.shifted_all(values.drop_last()).shifted(values.last().0, values.last().1)
        }
    }

    /// The rows that came out negative are made feasible again.
    pub open spec fn rebalanced(self) -> (SolverModel, Result<(), SuggestValueError>) {
        let (t, r) = self.tableau.dual_optimized();
        (
            SolverModel { tableau: t, ..self },
            match r {
                Ok(_) => Ok(()),
                Err(e) => Err(SuggestValueError::InternalSolverError(e)),
            },
        )
    }

    /// A value is suggested for an edit variable.
    pub open spec fn suggested(self, v: Variable, value: Number) -> (SolverModel, Result<
        (),
        SuggestValueError,
    >) {
        if !self.edits.contains_key(v) {
            (self, Err(SuggestValueError::UnknownEditVariable))
        } else {
            self.shifted(v, value).rebalanced()
        }
    }

    /// Whether all variables are edit variables.
    pub open spec fn all_editable(self, values: Seq<(Variable, Number)>) -> bool {
        forall|i: int| 0 <= i < values.len() ==> self.edits.contains_key((#[trigger] values[i]).0)
    }

    /// Values are suggested for several edit variables at once.
    pub open spec fn suggested_all(self, values: Seq<(Variable, Number)>) -> (SolverModel, Result<
        (),
        SuggestValueError,
    >) {
        if !self.all_editable(values) {
            (self, Err(SuggestValueError::UnknownEditVariable))
        } else {
            self.shifted_all(values).rebalanced()
        }
    }

    /// What is noted as changed when the changes are fetched. Every second fetch without a change
    /// in between forgets what the one before has handed out.
    pub open spec fn fetchable(self) -> Set<Variable> {
        if self.tableau.reported {
            Set::empty()
        } else {
            self.tableau.changed
        }
    }

    /// Whether a fetch hands out the value of a variable.
    pub open spec fn is_update(self, v: Variable) -> bool {
        &&& self.fetchable().contains(v)
        &&& self.var_data.contains_key(v)
        &&& !self.var_data[v].value.same(self.value_of(v))
    }

    /// The changes are fetched.
    pub open spec fn fetched(self) -> SolverModel {
        SolverModel {
            var_data: Map::new(
                |v: Variable| self.var_data.contains_key(v),
                |v: Variable|
                    if self.is_update(v) {
                        VariableData { value: self.value_of(v), ..self.var_data[v] }
                    } else {
                        self.var_data[v]
                    },
            ),
            tableau: TableauModel {
                changed: self.fetchable(),
                reported: !self.tableau.reported,
                ..self.tableau
            },
            ..self
        }
    }

    /// The value of a variable.
    pub open spec fn value_of(self, v: Variable) -> Number {
        if self.var_data.contains_key(v) && self.tableau.rows.contains_key(
            self.var_data[v].symbol,
        ) {
            self.tableau.rows[self.var_data[v].symbol].constant
        } else {
            zero()
        }
    }

    /// Whether a change of a variable's value since it was last handed out is noted, if there is
    /// one. A variable that was never handed out counts as zero.
    pub open spec fn caught(self, v: Variable) -> bool {
        let known = self.var_data[v].value;
        let now = self.value_of(v);
        ||| known.alike(now)
        ||| known.nan() && now.same(zero())
        ||| !self.tableau.reported && self.tableau.changed.contains(v)
    }

    /// Whether a tag has numbers below a limit and names restricted symbols.
    pub open spec fn tag_below(tag: Tag, limit: nat) -> bool {
        &&& tag.marker.id() < limit
        &&& !tag.marker.external()
        &&& tag.other matches Some(o) ==> o.id() < limit && !o.external()
    }

    /// What every operation keeps.
    pub open spec fn sound(self) -> bool {
        &&& self.tableau.tidy()
        &&& self.tableau.all_below(self.id_tick)
        &&& self.next_constraint_id >= 1
        &&& forall|v: Variable| #[trigger]
            self.var_data.contains_key(v) ==> {
                let d = self.var_data[v];
                &&& d.count >= 1
                &&& d.symbol.external()
                &&& d.symbol.id() < self.id_tick
                &&& self.tableau.owners.contains_key(d.symbol)
                &&& self.tableau.owners[d.symbol] == v
                &&& self.caught(v)
            }
        &&& forall|s: Symbol| #[trigger]
            self.tableau.owners.contains_key(s) ==> {
                &&& self.var_data.contains_key(self.tableau.owners[s])
                &&& self.var_data[self.tableau.owners[s]].symbol == s
            }
        &&& forall|id: ConstraintId| #[trigger]
            self.constraints.contains_key(id) ==> SolverModel::tag_below(
                self.constraints[id].tag,
                self.id_tick,
            )
        &&& forall|v: Variable| #[trigger]
            self.edits.contains_key(v) ==> SolverModel::tag_below(
                self.edits[v].tag,
                self.id_tick,
            )
        &&& self.coherent()
    }

    /// Each constraint with an identity is found by it, handles are given out once, and identities
    /// lead to the constraints that have them.
    pub open spec fn coherent(self) -> bool {
        &&& forall|id: ConstraintId| #[trigger]
            self.constraints.contains_key(id) ==> id.number() < self.next_constraint_id
        &&& forall|id: ConstraintId| #[trigger]
            self.constraints.contains_key(id) ==> (
            self.constraints[id].constraint.identity matches Some(k) ==>
                self.constraint_ids.contains_key(k) && self.constraint_ids[k] == id)
        &&& forall|k: u64| #[trigger]
            self.constraint_ids.contains_key(k) ==> self.constraints.contains_key(
                self.constraint_ids[k],
            ) && self.constraints[self.constraint_ids[k]].constraint.identity == Some(k)
    }
}

/// A system stays sound while its tableau goes on to one that accounts for its changes.
pub proof fn lemma_next_tableau(m: SolverModel, t: TableauModel, limit: nat)
    requires
        m.sound(),
        m.tableau.accounted_in(t),
        t.tidy(),
        t.all_below(limit),
        limit >= m.id_tick,
    ensures
        (SolverModel { tableau: t, id_tick: limit, ..m }).sound(),
{
    let n = SolverModel { tableau: t, id_tick: limit, ..m };
    assert forall|v: Variable| #[trigger] n.var_data.contains_key(v) implies n.caught(v) by {
        assert(m.var_data.contains_key(v));
        assert(m.caught(v));
        let s = m.var_data[v].symbol;
        assert(m.tableau.owners.contains_key(s));
        assert(m.value_of(v) == m.tableau.value(s));
        assert(n.value_of(v) == t.value(s));
    }
}

/// One more reference to a variable keeps a system sound.
pub proof fn lemma_referred(m: SolverModel, v: Variable, n: nat)
    requires
        m.sound(),
        m.has_room(n + 1),
    ensures
        m.referred(v).sound(),
        m.referred(v).has_room(n),
        m.referred(v).var_data.contains_key(v),
        m.referred(v).id_tick >= m.id_tick,
{
    let u = m.referred(v);
    let s = symbol(m.id_tick, SymbolKind::External);
    if !m.var_data.contains_key(v) {
        assert(s.external() && s.id() == m.id_tick);
        assert(!m.tableau.rows.contains_key(s));
        assert(!m.tableau.owners.contains_key(s)) by {
            if m.tableau.owners.contains_key(s) {
                assert(m.var_data.contains_key(m.tableau.owners[s]));
            }
        }
    }
    assert(u.tableau.tidy() && u.tableau.all_below(u.id_tick)) by {
        assert forall|k: Symbol| #[trigger] u.tableau.rows.contains_key(k) implies u.tableau.free_of_basics(
            u.tableau.rows[k],
        ) && TableauModel::row_below(u.tableau.rows[k], u.id_tick) by {
            assert(m.tableau.rows.contains_key(k));
            assert(m.tableau.free_of_basics(m.tableau.rows[k]));
        }
    }
    assert forall|w: Variable| #[trigger] u.var_data.contains_key(w) implies u.caught(w) by {
        if w != v {
            assert(m.var_data.contains_key(w));
            assert(m.caught(w));
        } else if m.var_data.contains_key(v) {
            assert(m.caught(v));
        }
    }
    assert forall|id: ConstraintId| #[trigger]
        u.constraints.contains_key(id) implies SolverModel::tag_below(
        u.constraints[id].tag,
        u.id_tick,
    ) by {
        assert(m.constraints.contains_key(id));
    }
    assert forall|w: Variable| #[trigger] u.edits.contains_key(w) implies SolverModel::tag_below(
        u.edits[w].tag,
        u.id_tick,
    ) by {
        assert(m.edits.contains_key(w));
    }
    assert forall|k: Symbol| #[trigger] u.tableau.owners.contains_key(k) implies u.var_data.contains_key(
        u.tableau.owners[k],
    ) && u.var_data[u.tableau.owners[k]].symbol == k by {
        if k != s || m.var_data.contains_key(v) {
            assert(m.tableau.owners.contains_key(k));
            let w = m.tableau.owners[k];
            assert(m.var_data.contains_key(w));
        }
    }
}

/// One reference less keeps a system sound.
pub proof fn lemma_unreferred(m: SolverModel, v: Variable, n: nat)
    requires
        m.sound(),
    ensures
        m.unreferred(v).sound(),
        m.has_room(n) ==> m.unreferred(v).has_room(n),
{
    let u = m.unreferred(v);
    if m.var_data.contains_key(v) {
        let gone = m.var_data[v].symbol;
        assert(u.tableau.tidy() && u.tableau.all_below(u.id_tick)) by {
            assert forall|k: Symbol| #[trigger] u.tableau.rows.contains_key(k) implies u.tableau.free_of_basics(
                u.tableau.rows[k],
            ) by {
                assert(m.tableau.free_of_basics(m.tableau.rows[k]));
            }
        }
        assert forall|w: Variable| #[trigger] u.var_data.contains_key(w) implies u.caught(w)
            && u.tableau.owners.contains_key(u.var_data[w].symbol) by {
            assert(m.var_data.contains_key(w));
            assert(m.caught(w));
            if w != v {
                assert(m.tableau.owners[m.var_data[w].symbol] == w);
                assert(m.tableau.owners[gone] == v);
            }
        }
        assert forall|k: Symbol| #[trigger] u.tableau.owners.contains_key(k) implies u.var_data.contains_key(
            u.tableau.owners[k],
        ) && u.var_data[u.tableau.owners[k]].symbol == k by {
            assert(m.tableau.owners.contains_key(k));
            let w = m.tableau.owners[k];
            assert(m.var_data.contains_key(w));
        }
        assert forall|w: Variable| #[trigger] u.var_data.contains_key(w) implies m.var_data.contains_key(w)
            && u.var_data[w].count <= m.var_data[w].count by {}
    }
}

/// A row that may be worked with: over symbols that are numbered already and are not basic.
pub open spec fn admissible(m: SolverModel, row: RowModel) -> bool {
    m.tableau.free_of_basics(row) && TableauModel::row_below(row, m.id_tick)
}

/// Expanding a term keeps a row admissible.
pub proof fn lemma_expanded(m: SolverModel, row: RowModel, v: Variable, coefficient: Number)
    requires
        m.sound(),
        admissible(m, row),
        m.var_data.contains_key(v),
    ensures
        admissible(m, m.expanded(row, v, coefficient)),
{
    let s = m.var_data[v].symbol;
    let r = m.expanded(row, v, coefficient);
    if m.tableau.rows.contains_key(s) {
        let other = m.tableau.rows[s];
        assert(m.tableau.free_of_basics(other));
        assert forall|k: Symbol| #[trigger] r.cells.contains_key(k) implies row.cells.contains_key(k)
            || other.cells.contains_key(k) by {
            crate::simplex::lemma_joint_cells(row, other, coefficient, k);
        }
    }
}

/// A symbol that is new to a system.
pub open spec fn unused(m: SolverModel, s: Symbol) -> bool {
    s.id() >= m.id_tick
}

/// The slack, error and dummy symbols of a constraint keep the system sound and the row
/// admissible.
pub proof fn lemma_marked(m: SolverModel, row: RowModel, c: ConstraintModel, n: nat)
    requires
        m.sound(),
        m.has_room(n + 2),
        admissible(m, row),
    ensures
        m.marked(row, c).0.sound(),
        m.marked(row, c).0.has_room(n),
        admissible(m.marked(row, c).0, m.marked(row, c).1),
        SolverModel::tag_below(m.marked(row, c).2, m.marked(row, c).0.id_tick),
        m.marked(row, c).1.cells.contains_key(m.marked(row, c).2.marker),
        m.tableau.accounted_in(m.marked(row, c).0.tableau),
{
    let (u, r, tag) = m.marked(row, c);
    let k = m.id_tick;
    crate::number::lemma_one_counts();
    assert forall|s: Symbol| #[trigger] unused(m, s) implies !row.cells.contains_key(s)
        && !m.tableau.rows.contains_key(s) && !m.tableau.objective.cells.contains_key(s) by {}
    assert(symbol(k, SymbolKind::Error).id() == k && symbol(k + 1, SymbolKind::Error).id() == k + 1);
    assert(symbol(k, SymbolKind::Slack).id() == k && symbol(k, SymbolKind::Dummy).id() == k);
    assert(unused(m, symbol(k, SymbolKind::Error)) && unused(m, symbol(k + 1, SymbolKind::Error)));
    assert(unused(m, symbol(k, SymbolKind::Slack)) && unused(m, symbol(k, SymbolKind::Dummy)));
    assert(symbol(k, SymbolKind::Error) != symbol(k + 1, SymbolKind::Error));
    assert(symbol(k, SymbolKind::Slack) != symbol(k + 1, SymbolKind::Error));
    assert(u.tableau.tidy() && u.tableau.all_below(u.id_tick)) by {
        assert forall|s: Symbol| #[trigger] u.tableau.objective.cells.contains_key(s) implies s.id()
            < u.id_tick && !u.tableau.rows.contains_key(s) by {
            if !m.tableau.objective.cells.contains_key(s) {
                assert(s == symbol(k, SymbolKind::Error) || s == symbol(k + 1, SymbolKind::Error));
            }
        }
        assert forall|t: Symbol| #[trigger] u.tableau.rows.contains_key(t) implies u.tableau.free_of_basics(
            u.tableau.rows[t],
        ) && TableauModel::row_below(u.tableau.rows[t], u.id_tick) by {
            assert(m.tableau.rows.contains_key(t));
            assert(m.tableau.free_of_basics(m.tableau.rows[t]));
            assert(TableauModel::row_below(m.tableau.rows[t], k));
        }
    }
    assert(m.tableau.accounted_in(u.tableau)) by {
        assert forall|s: Symbol| #[trigger] m.tableau.owners.contains_key(s) implies m.tableau.value(s).alike(
            u.tableau.value(s),
        ) by {
            crate::simplex::lemma_alike(m.tableau.value(s));
        }
    }
    lemma_next_tableau(m, u.tableau, u.id_tick);
    assert(u =~= (SolverModel { tableau: u.tableau, id_tick: u.id_tick, ..m }));
    assert forall|v: Variable| #[trigger] u.var_data.contains_key(v) implies u.var_data[v].count + n
        <= u64::MAX by {
        assert(m.var_data.contains_key(v));
    }
}

/// Absorbing terms uses up no more room than there are terms.
pub proof fn lemma_room_absorbed(m: SolverModel, row: RowModel, terms: Seq<Term>, n: nat)
    requires
        m.has_room(n + terms.len()),
    ensures
        m.absorbed(row, terms).0.has_room(n),
    decreases terms.len(),
{
    if terms.len() > 0 {
        lemma_room_absorbed(m, row, terms.drop_last(), n + 1);
        let a = m.absorbed(row, terms.drop_last()).0;
        let b = a.referred(terms.last().variable);
        assert forall|v: Variable| #[trigger] b.var_data.contains_key(v) implies b.var_data[v].count
            + n <= u64::MAX by {
            if v != terms.last().variable {
                assert(a.var_data.contains_key(v));
            }
        }
    }
}

/// Adding a constraint uses up no more room than its weight.
pub proof fn lemma_room_added_as(m: SolverModel, id: ConstraintId, c: ConstraintModel, n: nat)
    requires
        m.has_room(n + c.terms.len() + 3),
    ensures
        m.added_as(id, c).0.has_room(n),
{
    reveal(SolverModel::added_as);
    lemma_room_less(m, n + c.terms.len() + 3, n);
    if !m.knows(id, c) {
        let start = RowModel::only(c.constant);
        lemma_room_absorbed(m, start, c.terms, n + 3);
        let a = m.absorbed(start, c.terms).0;
        let b = m.created(c).0;
        assert(b.var_data == a.var_data && b.next_constraint_id == a.next_constraint_id);
        assert(b.id_tick <= a.id_tick + 2);
        let d = b.placed(m.created(c).1, m.created(c).2).0;
        assert(d.var_data == a.var_data && d.id_tick <= b.id_tick + 1);
        let e = m.added_as(id, c).0;
        assert(e.var_data == a.var_data && e.id_tick == d.id_tick && e.next_constraint_id
            == a.next_constraint_id);
    }
}

/// Where there is much room there is some.
pub proof fn lemma_room_less(m: SolverModel, more: nat, less: nat)
    requires
        m.has_room(more),
        less <= more,
    ensures
        m.has_room(less),
{
}

/// Adding a constraint under the next handle uses up no more room than its weight.
pub proof fn lemma_room_added(m: SolverModel, c: ConstraintModel, n: nat)
    requires
        m.has_room(n + weight(c)),
    ensures
        m.added(c).0.has_room(n),
{
    let u = SolverModel { next_constraint_id: m.next_constraint_id + 1, ..m };
    assert(u.has_room(n + c.terms.len() + 3));
    lemma_room_added_as(u, m.next_id(), c, n);
}

/// Absorbing terms touches no constraint and no edit variable.
pub proof fn lemma_absorbed_frame(m: SolverModel, row: RowModel, terms: Seq<Term>)
    ensures
        m.absorbed(row, terms).0.next_constraint_id == m.next_constraint_id,
        m.absorbed(row, terms).0.constraints == m.constraints,
        m.absorbed(row, terms).0.constraint_ids == m.constraint_ids,
        m.absorbed(row, terms).0.edits == m.edits,
    decreases terms.len(),
{
    if terms.len() > 0 {
        lemma_absorbed_frame(m, row, terms.drop_last());
    }
}

/// Adding a constraint touches no other constraint and no edit variable.
pub proof fn lemma_added_as_frame(m: SolverModel, id: ConstraintId, c: ConstraintModel)
    ensures
        m.added_as(id, c).0.edits == m.edits,
        m.added_as(id, c).0.next_constraint_id == m.next_constraint_id,
        forall|k: ConstraintId| k != id ==> (#[trigger] m.added_as(id, c).0.constraints.contains_key(k)
            <==> m.constraints.contains_key(k)),
        forall|k: ConstraintId|
            k != id && m.constraints.contains_key(k) ==> #[trigger] m.added_as(
                id,
                c,
            ).0.constraints[k] == m.constraints[k],
        m.added_as(id, c).1 is Ok ==> m.added_as(id, c).0.constraints.contains_key(id)
            && m.added_as(id, c).0.constraints[id].constraint == c,
        m.added_as(id, c).1 == Err::<(), AddConstraintError>(AddConstraintError::DuplicateConstraint)
            <==> m.knows(id, c),
{
    reveal(SolverModel::added_as);
    lemma_absorbed_frame(m, RowModel::only(c.constant), c.terms);
}

/// Releasing terms uses up no room.
pub proof fn lemma_released(m: SolverModel, terms: Seq<Term>)
    requires
        m.sound(),
    ensures
        m.released(terms).sound(),
        forall|n: nat| m.has_room(n) ==> #[trigger] m.released(terms).has_room(n),
        m.released(terms).constraints == m.constraints,
        m.released(terms).constraint_ids == m.constraint_ids,
        m.released(terms).edits == m.edits,
        m.released(terms).id_tick == m.id_tick,
        m.released(terms).next_constraint_id == m.next_constraint_id,
    decreases terms.len(),
{
    if terms.len() > 0 {
        lemma_released(m, terms.drop_last());
        let a = m.released(terms.drop_last());
        assert forall|n: nat| m.has_room(n) implies #[trigger] m.released(terms).has_room(n) by {
            assert(a.has_room(n));
            lemma_unreferred(a, terms.last().variable, n);
        }
        lemma_unreferred(a, terms.last().variable, 0);
    }
}

/// A system in which a new constraint is noted is sound.
pub proof fn lemma_registered(m: SolverModel, id: ConstraintId, c: ConstraintModel, tag: Tag)
    requires
        m.sound(),
        !m.knows(id, c),
        id.number() < m.next_constraint_id,
        SolverModel::tag_below(tag, m.id_tick),
    ensures
        m.registered(id, c, tag).sound(),
{
    let u = m.registered(id, c, tag);
    assert forall|v: Variable| #[trigger] u.var_data.contains_key(v) implies u.caught(v) by {
        assert(m.caught(v));
    }
    assert forall|j: ConstraintId| #[trigger]
        u.constraints.contains_key(j) implies SolverModel::tag_below(
        u.constraints[j].tag,
        u.id_tick,
    ) && j.number() < u.next_constraint_id && (u.constraints[j].constraint.identity matches Some(k)
        ==> u.constraint_ids.contains_key(k) && u.constraint_ids[k] == j) by {
        if j != id {
            assert(m.constraints.contains_key(j));
        }
    }
    assert forall|k: u64| #[trigger] u.constraint_ids.contains_key(k) implies u.constraints.contains_key(
        u.constraint_ids[k],
    ) && u.constraints[u.constraint_ids[k]].constraint.identity == Some(k) by {
        if c.identity != Some(k) {
            assert(m.constraint_ids.contains_key(k));
        }
    }
}

/// A system without a handle is sound.
pub proof fn lemma_unregistered(m: SolverModel, id: ConstraintId)
    requires
        m.sound(),
        m.constraints.contains_key(id),
    ensures
        m.unregistered(id).sound(),
{
    let u = m.unregistered(id);
    assert forall|k: u64| #[trigger] u.constraint_ids.contains_key(k) implies u.constraints.contains_key(
        u.constraint_ids[k],
    ) && u.constraints[u.constraint_ids[k]].constraint.identity == Some(k) by {
        assert(m.constraint_ids.contains_key(k));
    }
    assert forall|j: ConstraintId| #[trigger] u.constraints.contains_key(j) implies (
    u.constraints[j].constraint.identity matches Some(k) ==> u.constraint_ids.contains_key(k)
        && u.constraint_ids[k] == j) by {
        assert(m.constraints.contains_key(j));
    }
    assert forall|v: Variable| #[trigger] u.var_data.contains_key(v) implies u.caught(v) by {
        assert(m.caught(v));
    }
    assert forall|k: ConstraintId| #[trigger]
        u.constraints.contains_key(k) implies SolverModel::tag_below(
        u.constraints[k].tag,
        u.id_tick,
    ) by {
        assert(m.constraints.contains_key(k));
    }
}

/// Withdrawing a constraint touches the tableau and the variables only.
pub proof fn lemma_withdrawn_frame(m: SolverModel, c: ConstraintModel, tag: Tag)
    ensures
        m.withdrawn(c, tag).0.constraints == m.constraints,
        m.withdrawn(c, tag).0.constraint_ids == m.constraint_ids,
        m.withdrawn(c, tag).0.edits == m.edits,
        m.withdrawn(c, tag).0.id_tick == m.id_tick,
        m.withdrawn(c, tag).0.next_constraint_id == m.next_constraint_id,
        m.withdrawn(c, tag).1 != Err::<(), RemoveConstraintError>(
            RemoveConstraintError::UnknownConstraint,
        ),
{
    reveal(SolverModel::withdrawn);
    let t = m.tableau.without_costs(tag, c.strength.value);
    if let Some(u) = t.without_marker(tag.marker) {
        lemma_released_frame((SolverModel { tableau: u, ..m }).optimized().0, c.terms);
    }
}

proof fn lemma_released_frame(m: SolverModel, terms: Seq<Term>)
    ensures
        m.released(terms).constraints == m.constraints,
        m.released(terms).constraint_ids == m.constraint_ids,
        m.released(terms).edits == m.edits,
        m.released(terms).id_tick == m.id_tick,
        m.released(terms).next_constraint_id == m.next_constraint_id,
    decreases terms.len(),
{
    if terms.len() > 0 {
        lemma_released_frame(m, terms.drop_last());
    }
}

/// After a fetch every value that was handed out is up to date.
pub proof fn lemma_fetched(m: SolverModel)
    requires
        m.sound(),
    ensures
        m.fetched().sound(),
        forall|v: Variable| #[trigger]
            m.fetched().var_data.contains_key(v) ==> m.fetched().var_data[v].value.alike(
                m.value_of(v),
            ) || (m.fetched().var_data[v].value.nan() && m.value_of(v).same(zero())),
{
    let u = m.fetched();
    assert forall|v: Variable| #[trigger] u.var_data.contains_key(v) implies u.caught(v)
        && m.value_of(v) == u.value_of(v) && (u.var_data[v].value.alike(m.value_of(v)) || (
    u.var_data[v].value.nan() && m.value_of(v).same(zero()))) by {
        assert(m.var_data.contains_key(v));
        assert(m.caught(v));
        crate::simplex::lemma_alike(m.value_of(v));
    }
    assert(u.tableau.tidy() && u.tableau.all_below(u.id_tick)) by {
        assert forall|k: Symbol| #[trigger] u.tableau.rows.contains_key(k) implies u.tableau.free_of_basics(
            u.tableau.rows[k],
        ) by {
            assert(m.tableau.free_of_basics(m.tableau.rows[k]));
        }
    }
    assert forall|s: Symbol| #[trigger] u.tableau.owners.contains_key(s) implies u.var_data.contains_key(
        u.tableau.owners[s],
    ) && u.var_data[u.tableau.owners[s]].symbol == s by {
        assert(m.tableau.owners.contains_key(s));
        assert(m.var_data.contains_key(m.tableau.owners[s]));
    }
}

} // verus!
