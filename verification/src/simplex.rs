//! The simplex method on a tableau, as functions from tableau to tableau.
use crate::choice::{least, smallest};
use crate::error::InternalSolverError;
use crate::expression::Variable;
use crate::number::{zero, Number};
use crate::row::RowModel;
use crate::symbol::Symbol;
use vstd::multiset::Multiset;
use vstd::prelude::*;

verus! {

/// A tableau. Each row gives the value of one symbol, which is called basic.
#[verifier::ext_equal]
pub struct TableauModel {
    /// The rows, by their basic symbols.
    pub rows: Map<Symbol, RowModel>,
    /// What is to be minimized.
    pub objective: RowModel,
    /// What is to be brought to zero while a row is taken in that has no other place.
    pub artificial: Option<RowModel>,
    /// The symbols whose rows came out negative.
    pub infeasible: Multiset<Symbol>,
    /// The variables that the external symbols stand for.
    pub owners: Map<Symbol, Variable>,
    /// The variables whose values have changed.
    pub changed: Set<Variable>,
    /// Whether these changes have been handed out.
    pub reported: bool,
}

impl TableauModel {
    /// The empty tableau.
    pub open spec fn initial() -> TableauModel {
        TableauModel {
            rows: Map::empty(),
            objective: RowModel::only(zero()),
            artificial: None,
            infeasible: Multiset::empty(),
            owners: Map::empty(),
            changed: Set::empty(),
            reported: false,
        }
    }

    /// The variables that the given symbols stand for.
    pub open spec fn owned(self, moved: Set<Symbol>) -> Set<Variable> {
        Set::new(
            |v: Variable|
                exists|s: Symbol| #[trigger]
                    moved.contains(s) && self.owners.contains_key(s) && self.owners[s] == v,
        )
    }

    /// Notes that the values of some symbols have changed. Changes that have been handed out are
    /// forgotten as soon as there is a new one.
    pub open spec fn noted(self, moved: Set<Symbol>) -> TableauModel {
        let vs = self.owned(moved);
        if vs == Set::<Variable>::empty() {
            self
        } else {
            TableauModel {
                changed: (if self.reported {
                    Set::empty()
                } else {
                    self.changed
                }).union(vs),
                reported: false,
                ..self
            }
        }
    }

    /// The external symbols whose constants move when a row takes the place of a symbol.
    pub open spec fn moved_by(self, s: Symbol, row: RowModel) -> Set<Symbol> {
        Set::new(
            |t: Symbol|
                self.rows.contains_key(t) && t.external() && self.rows[t].substitution_moves(
                    s,
                    row,
                ),
        )
    }

    /// The restricted symbols whose rows are negative.
    pub open spec fn negative(self) -> Set<Symbol> {
        Set::new(
            |t: Symbol|
                self.rows.contains_key(t) && !t.external() && self.rows[t].constant.below(zero()),
        )
    }

    /// A row takes the place of a symbol in every row and in what is to be minimized.
    pub open spec fn substituted(self, s: Symbol, row: RowModel) -> TableauModel {
        let after = TableauModel {
            rows: self.rows.map_values(|r: RowModel| r.substituted(s, row)),
            objective: self.objective.substituted(s, row),
            artificial: match self.artificial {
                Some(a) => Some(a.substituted(s, row)),
                None => None,
            },
            ..self
        };
        TableauModel {
            infeasible: self.infeasible.add(Multiset::from_set(after.negative())),
            ..after
        }.noted(self.moved_by(s, row))
    }

    /// The symbol, where it is external and has a value other than zero in the row.
    pub open spec fn nonzero(s: Symbol, row: RowModel) -> Set<Symbol> {
        if s.external() && !row.constant.same(zero()) {
            set![s]
        } else {
            Set::empty()
        }
    }

    /// A symbol becomes basic, with the given row.
    pub open spec fn entered(self, s: Symbol, row: RowModel) -> TableauModel {
        let t = self.substituted(s, row).noted(TableauModel::nonzero(s, row));
        TableauModel { rows: t.rows.insert(s, row), ..t }
    }

    /// The tableau without a row.
    pub open spec fn without_row(self, s: Symbol) -> TableauModel {
        TableauModel { rows: self.rows.remove(s), ..self }
    }

    /// One symbol leaves the basis and another one enters it.
    pub open spec fn pivoted(self, leaving: Symbol, entering: Symbol) -> TableauModel {
        self.without_row(leaving).entered(
            entering,
            self.rows[leaving].exchanged(leaving, entering),
        )
    }

    /// The objective that an optimization is about.
    pub open spec fn goal(self, artificial: bool) -> RowModel {
        if artificial {
            self.artificial->0
        } else {
            self.objective
        }
    }

    /// The symbols that would lower the objective, with their coefficients.
    pub open spec fn entering_candidates(objective: RowModel) -> Map<Symbol, Number> {
        Map::new(
            |s: Symbol|
                objective.cells.contains_key(s) && !(s.sort() is Dummy)
                    && objective.cells[s].below(zero()),
            |s: Symbol| objective.cells[s],
        )
    }

    /// The symbol that enters the basis: the one that lowers the objective most.
    pub open spec fn entering(objective: RowModel) -> Option<Symbol> {
        least(TableauModel::entering_candidates(objective))
    }

    /// Whether no symbol lowers the objective any more: each one that may enter the basis costs at
    /// least nothing.
    pub open spec fn minimal(self) -> bool {
        forall|s: Symbol| #[trigger]
            self.objective.cells.contains_key(s) && !(s.sort() is Dummy)
                ==> !self.objective.cells[s].below(zero())
    }

    /// How far the entering symbol can grow before a row becomes negative.
    pub open spec fn allowance(self, s: Symbol, entering: Symbol) -> Number {
        self.rows[s].constant.negation().quotient(self.rows[s].coefficient(entering))
    }

    /// The restricted symbols that the entering symbol lowers, with their allowances.
    pub open spec fn leaving_candidates(self, entering: Symbol) -> Map<Symbol, Number> {
        Map::new(
            |s: Symbol|
                self.rows.contains_key(s) && !s.external() && self.rows[s].coefficient(
                    entering,
                ).below(zero()) && !self.allowance(s, entering).nan(),
            |s: Symbol| self.allowance(s, entering),
        )
    }

    /// The symbol that leaves the basis: the one with the smallest allowance.
    pub open spec fn leaving(self, entering: Symbol) -> Option<Symbol> {
        least(self.leaving_candidates(entering))
    }

    /// Whether an optimization comes to its end within so many pivots: no symbol lowers the
    /// objective any more, or nothing bounds one that does.
    pub open spec fn ends_within(self, artificial: bool, pivots: nat) -> bool
        decreases pivots,
    {
        match TableauModel::entering(self.goal(artificial)) {
            None => true,
            Some(entering) => match self.leaving(entering) {
                None => true,
                Some(leaving) => pivots > 0 && self.pivoted(leaving, entering).ends_within(
                    artificial,
                    (pivots - 1) as nat,
                ),
            },
        }
    }

    /// Pivots until no symbol lowers the objective. The number of pivots is one within which the
    /// optimization comes to its end.
    pub open spec fn optimized_within(self, artificial: bool, pivots: nat) -> (TableauModel, Result<
        (),
        InternalSolverError,
    >)
        decreases pivots,
    {
        match TableauModel::entering(self.goal(artificial)) {
            None => (self, Ok(())),
            Some(entering) => match self.leaving(entering) {
                None => (self, Err(InternalSolverError::ObjectiveUnbounded)),
                Some(leaving) => if pivots == 0 {
                    (self, Err(InternalSolverError::ObjectiveUnbounded))
                } else {
                    self.pivoted(leaving, entering).optimized_within(
                        artificial,
                        (pivots - 1) as nat,
                    )
                },
            },
        }
    }

    /// Whether an optimization comes to an end. With rounded numbers one may go round in circles
    /// for ever.
    pub open spec fn ends(self, artificial: bool) -> bool {
        exists|pivots: nat| self.ends_within(artificial, pivots)
    }

    /// Pivots until no symbol lowers the objective, however many pivots that takes. Only an
    /// optimization that comes to an end has a result; one that does not never returns.
    pub open spec fn optimized(self, artificial: bool) -> (TableauModel, Result<
        (),
        InternalSolverError,
    >) {
        self.optimized_within(
            artificial,
            choose|pivots: nat| self.ends_within(artificial, pivots),
        )
    }

    /// The price of bringing a symbol into an infeasible row.
    pub open spec fn price(self, row: RowModel, s: Symbol) -> Number {
        self.objective.coefficient(s).quotient(row.cells[s])
    }

    /// The symbols that would raise an infeasible row, with their prices.
    pub open spec fn dual_candidates(self, row: RowModel) -> Map<Symbol, Number> {
        Map::new(
            |s: Symbol|
                row.cells.contains_key(s) && !(s.sort() is Dummy) && zero().below(row.cells[s])
                    && !self.price(row, s).nan(),
            |s: Symbol| self.price(row, s),
        )
    }

    /// The symbol that enters the basis in place of an infeasible one: the cheapest.
    pub open spec fn dual_entering(self, row: RowModel) -> Option<Symbol> {
        least(self.dual_candidates(row))
    }

    /// Whether working through the infeasible symbols comes to its end within so many steps: none
    /// is left, or there is one that nothing raises.
    pub open spec fn dual_ends_within(self, steps: nat) -> bool
        decreases steps,
    {
        match smallest(self.infeasible.dom()) {
            None => true,
            Some(leaving) => {
                let rest = TableauModel { infeasible: self.infeasible.remove(leaving), ..self };
                steps > 0 && if self.rows.contains_key(leaving)
                    && self.rows[leaving].constant.below(zero()) {
                    match self.dual_entering(self.rows[leaving]) {
                        None => true,
                        Some(entering) => rest.pivoted(leaving, entering).dual_ends_within(
                            (steps - 1) as nat,
                        ),
                    }
                } else {
                    rest.dual_ends_within((steps - 1) as nat)
                }
            },
        }
    }

    /// Works through the infeasible symbols, the smallest first. The number of steps is one within
    /// which this comes to its end.
    pub open spec fn dual_optimized_within(self, steps: nat) -> (TableauModel, Result<
        (),
        InternalSolverError,
    >)
        decreases steps,
    {
        match smallest(self.infeasible.dom()) {
            None => (self, Ok(())),
            Some(leaving) => {
                let rest = TableauModel { infeasible: self.infeasible.remove(leaving), ..self };
                if steps == 0 {
                    (self, Err(InternalSolverError::DualOptimizeFailed))
                } else if self.rows.contains_key(leaving) && self.rows[leaving].constant.below(
                    zero(),
                ) {
                    match self.dual_entering(self.rows[leaving]) {
                        None => (
                            rest.without_row(leaving),
                            Err(InternalSolverError::DualOptimizeFailed),
                        ),
                        Some(entering) => rest.pivoted(leaving, entering).dual_optimized_within(
                            (steps - 1) as nat,
                        ),
                    }
                } else {
                    rest.dual_optimized_within((steps - 1) as nat)
                }
            },
        }
    }

    /// Whether working through the infeasible symbols comes to an end.
    pub open spec fn dual_ends(self) -> bool {
        exists|steps: nat| self.dual_ends_within(steps)
    }

    /// Works through the infeasible symbols, the smallest first, however many steps that takes.
    /// Only where it comes to an end has it a result; where it does not, it never returns.
    pub open spec fn dual_optimized(self) -> (TableauModel, Result<(), InternalSolverError>) {
        self.dual_optimized_within(choose|steps: nat| self.dual_ends_within(steps))
    }

    /// The external symbol to solve a new row for, or else a marker that comes out negative in
    /// it.
    pub open spec fn subject(row: RowModel, tag: Tag) -> Option<Symbol> {
        match smallest(Set::new(|s: Symbol| row.cells.contains_key(s) && s.external())) {
            Some(s) => Some(s),
            None => if tag.marker.pivotable() && row.coefficient(tag.marker).below(zero()) {
                Some(tag.marker)
            } else {
                match tag.other {
                    Some(other) => if other.pivotable() && row.coefficient(other).below(zero()) {
                        Some(other)
                    } else {
                        None
                    },
                    None => None,
                }
            },
        }
    }

    /// The symbol to pivot an artificial row to.
    pub open spec fn any_pivotable(row: RowModel) -> Option<Symbol> {
        smallest(Set::new(|s: Symbol| row.cells.contains_key(s) && s.pivotable()))
    }

    /// Whether a row holds dummies only.
    pub open spec fn all_dummies(row: RowModel) -> bool {
        forall|s: Symbol| #[trigger] row.cells.contains_key(s) ==> s.sort() is Dummy
    }

    /// A row is made basic for an artificial symbol.
    pub open spec fn with_artificial(self, art: Symbol, row: RowModel) -> TableauModel {
        TableauModel { rows: self.rows.insert(art, row), artificial: Some(row), ..self }
    }

    /// The tableau without any trace of a symbol that is not basic.
    pub open spec fn purged(self, s: Symbol) -> TableauModel {
        TableauModel {
            rows: self.rows.map_values(|r: RowModel| r.without(s)),
            objective: self.objective.without(s),
            ..self
        }
    }

    /// Takes a row in by way of an artificial symbol, which is driven out again. Tells whether
    /// that brought it to zero.
    pub open spec fn taken_in(self, art: Symbol, row: RowModel) -> (TableauModel, Result<
        bool,
        InternalSolverError,
    >) {
        let (t, r) = self.with_artificial(art, row).optimized(true);
        match r {
            Err(e) => (t, Err(e)),
            Ok(_) => {
                let success = t.artificial->0.constant.negligible();
                let t = TableauModel { artificial: None, ..t };
                if t.rows.contains_key(art) {
                    if t.rows[art].cells == Map::<Symbol, Number>::empty() {
                        (t.without_row(art), Ok(success))
                    } else {
                        match TableauModel::any_pivotable(t.rows[art]) {
                            None => (t.without_row(art), Ok(false)),
                            Some(entering) => (
                                t.pivoted(art, entering).purged(art),
                                Ok(success),
                            ),
                        }
                    }
                } else {
                    (t.purged(art), Ok(success))
                }
            },
        }
    }

    /// The restricted symbols that a marker lowers, with their allowances.
    pub open spec fn marker_first(self, marker: Symbol) -> Map<Symbol, Number> {
        self.leaving_candidates(marker)
    }

    /// What is left of a row for each step of the marker.
    pub open spec fn headroom(self, s: Symbol, marker: Symbol) -> Number {
        self.rows[s].constant.quotient(self.rows[s].coefficient(marker))
    }

    /// The restricted symbols that a marker raises, with what is left of their rows.
    pub open spec fn marker_second(self, marker: Symbol) -> Map<Symbol, Number> {
        Map::new(
            |s: Symbol|
                {
                    let c = self.rows[s].coefficient(marker);
                    self.rows.contains_key(s) && !s.external() && !c.same(zero()) && !c.below(
                        zero(),
                    ) && !self.headroom(s, marker).nan()
                },
            |s: Symbol| self.headroom(s, marker),
        )
    }

    /// The external symbols whose rows hold a marker.
    pub open spec fn marker_third(self, marker: Symbol) -> Set<Symbol> {
        Set::new(
            |s: Symbol|
                self.rows.contains_key(s) && s.external() && !self.rows[s].coefficient(
                    marker,
                ).same(zero()),
        )
    }

    /// The symbol that leaves the basis for a marker.
    pub open spec fn marker_leaving(self, marker: Symbol) -> Option<Symbol> {
        match least(self.marker_first(marker)) {
            Some(s) => Some(s),
            None => match least(self.marker_second(marker)) {
                Some(s) => Some(s),
                None => smallest(self.marker_third(marker)),
            },
        }
    }

    /// The tableau without the equation that a marker stands for, if it is in there.
    pub open spec fn without_marker(self, marker: Symbol) -> Option<TableauModel> {
        if self.rows.contains_key(marker) {
            Some(self.without_row(marker))
        } else {
            match self.marker_leaving(marker) {
                None => None,
                Some(s) => Some(
                    self.noted(TableauModel::nonzero(s, self.rows[s])).without_row(s).substituted(
                        marker,
                        self.rows[s].exchanged(s, marker),
                    ),
                ),
            }
        }
    }

    /// The objective without the cost of an error symbol.
    pub open spec fn without_cost(self, s: Symbol, strength: Number) -> TableauModel {
        TableauModel {
            objective: if self.rows.contains_key(s) {
                self.objective.plus_row(self.rows[s], strength.negation())
            } else {
                self.objective.plus_symbol(s, strength.negation())
            },
            ..self
        }
    }

    /// The objective without the costs of a constraint.
    pub open spec fn without_costs(self, tag: Tag, strength: Number) -> TableauModel {
        let t = if tag.marker.sort() is Error {
            self.without_cost(tag.marker, strength)
        } else {
            self
        };
        match tag.other {
            Some(other) => if other.sort() is Error {
                t.without_cost(other, strength)
            } else {
                t
            },
            None => t,
        }
    }

    /// A row with a constant that is moved; a restricted one that comes out negative is to be
    /// worked on.
    pub open spec fn raised(self, s: Symbol, by: Number) -> TableauModel {
        let c = self.rows[s].constant.sum(by);
        TableauModel {
            rows: self.rows.insert(s, RowModel { constant: c, ..self.rows[s] }),
            infeasible: if c.below(zero()) {
                self.infeasible.insert(s)
            } else {
                self.infeasible
            },
            ..self
        }
    }

    /// How much the constant of a row moves with a marker.
    pub open spec fn drift(row: RowModel, marker: Symbol, delta: Number) -> Number {
        delta.product(row.coefficient(marker))
    }

    /// The row, with its constant moved by a marker.
    pub open spec fn drifted_row(row: RowModel, marker: Symbol, delta: Number) -> RowModel {
        if row.coefficient(marker).same(zero()) {
            row
        } else {
            RowModel {
                constant: row.constant.sum(TableauModel::drift(row, marker, delta)),
                ..row
            }
        }
    }

    /// Every row that holds a marker moves with it.
    pub open spec fn drifted(self, marker: Symbol, delta: Number) -> TableauModel {
        let after = TableauModel {
            rows: self.rows.map_values(
                |r: RowModel| TableauModel::drifted_row(r, marker, delta),
            ),
            ..self
        };
        let sunk = Set::new(
            |s: Symbol|
                after.negative().contains(s) && !self.rows[s].coefficient(marker).same(zero()),
        );
        let moved = Set::new(
            |s: Symbol|
                self.rows.contains_key(s) && s.external() && !TableauModel::drift(
                    self.rows[s],
                    marker,
                    delta,
                ).same(zero()),
        );
        TableauModel {
            infeasible: self.infeasible.add(Multiset::from_set(sunk)),
            ..after
        }.noted(moved)
    }

    /// The constant of the equation of an edit variable moves.
    pub open spec fn edited(self, tag: Tag, delta: Number) -> TableauModel {
        if self.rows.contains_key(tag.marker) {
            self.raised(tag.marker, delta.negation())
        } else if tag.other is Some && self.rows.contains_key(tag.other->0) {
            self.raised(tag.other->0, delta)
        } else {
            self.drifted(tag.marker, delta)
        }
    }

    /// Whether no symbol of a row is basic.
    pub open spec fn free_of_basics(self, row: RowModel) -> bool {
        forall|s: Symbol| #[trigger] row.cells.contains_key(s) ==> !self.rows.contains_key(s)
    }

    /// The basis is what the rows are solved for: no basic symbol occurs in a row or in what is
    /// to be minimized.
    pub open spec fn tidy(self) -> bool {
        &&& forall|t: Symbol| #[trigger]
            self.rows.contains_key(t) ==> self.free_of_basics(self.rows[t])
        &&& self.free_of_basics(self.objective)
        &&& self.artificial matches Some(a) ==> self.free_of_basics(a)
        &&& forall|s: Symbol| self.infeasible.count(s) > 0 ==> !#[trigger] s.external()
        &&& forall|s: Symbol| #[trigger] self.owners.contains_key(s) ==> s.external()
    }

    /// The value of a symbol.
    pub open spec fn value(self, s: Symbol) -> Number {
        if self.rows.contains_key(s) {
            self.rows[s].constant
        } else {
            zero()
        }
    }

    /// Whether every change of a variable's value on the way to another tableau is noted there,
    /// and nothing that was noted and not handed out is forgotten.
    pub open spec fn accounted_in(self, after: TableauModel) -> bool {
        &&& after.owners == self.owners
        &&& after.reported ==> self.reported
        &&& !self.reported ==> self.changed.subset_of(after.changed)
        &&& forall|s: Symbol| #[trigger]
            self.owners.contains_key(s) ==> self.value(s).alike(after.value(s)) || (
            !after.reported && after.changed.contains(self.owners[s]))
    }

    /// Whether the symbols of a row have numbers below a limit.
    pub open spec fn row_below(row: RowModel, limit: nat) -> bool {
        forall|s: Symbol| #[trigger] row.cells.contains_key(s) ==> s.id() < limit
    }

    /// Whether all symbols have numbers below a limit.
    pub open spec fn all_below(self, limit: nat) -> bool {
        &&& forall|t: Symbol| #[trigger]
            self.rows.contains_key(t) ==> t.id() < limit && TableauModel::row_below(
                self.rows[t],
                limit,
            )
        &&& TableauModel::row_below(self.objective, limit)
        &&& self.artificial matches Some(a) ==> TableauModel::row_below(a, limit)
        &&& self.rows.dom().finite()
    }
}

/// The symbols by which a constraint is found in the tableau.
#[derive(Clone, Copy, Debug, PartialEq, Eq, Structural)]
pub struct Tag {
    pub marker: Symbol,
    pub other: Option<Symbol>,
}

/// The cells of a row with another one added come from the two rows.
pub proof fn lemma_joint_cells(a: RowModel, b: RowModel, c: Number, s: Symbol)
    requires
        a.plus_row(b, c).cells.contains_key(s),
    ensures
        a.cells.contains_key(s) || b.cells.contains_key(s),
{
}

/// Exchanging keeps the symbols of the row but for the two that change places.
pub proof fn lemma_exchanged_cells(row: RowModel, basic: Symbol, e: Symbol, s: Symbol)
    requires
        row.exchanged(basic, e).cells.contains_key(s),
    ensures
        s != e,
        s == basic || row.cells.contains_key(s),
{
    assert(row.plus_symbol(basic, crate::number::minus_one()).without(e).cells.contains_key(s));
}

/// A number is like itself.
pub proof fn lemma_alike(a: Number)
    ensures
        a.alike(a),
{
}

/// Changes are accounted for over two steps if they are over each.
pub proof fn lemma_accounted_twice(a: TableauModel, b: TableauModel, c: TableauModel)
    requires
        a.accounted_in(b),
        b.accounted_in(c),
    ensures
        a.accounted_in(c),
{
    assert forall|s: Symbol| #[trigger] a.owners.contains_key(s) implies a.value(s).alike(
        c.value(s),
    ) || (!c.reported && c.changed.contains(a.owners[s])) by {
        assert(b.owners.contains_key(s));
    }
}

/// Noting something loses nothing.
pub proof fn lemma_accounted_noted(t: TableauModel, moved: Set<Symbol>)
    ensures
        t.accounted_in(t.noted(moved)),
        t.accounted_in(t),
{
    assert forall|s: Symbol| #[trigger] t.owners.contains_key(s) implies t.value(s).alike(
        t.noted(moved).value(s),
    ) by {
        lemma_alike(t.value(s));
    }
}

/// A restricted row can go without a variable's value changing.
pub proof fn lemma_accounted_without_row(t: TableauModel, l: Symbol)
    requires
        t.tidy(),
        !l.external(),
    ensures
        t.accounted_in(t.without_row(l)),
{
    assert forall|s: Symbol| #[trigger] t.owners.contains_key(s) implies t.value(s).alike(
        t.without_row(l).value(s),
    ) by {
        assert(s != l);
        lemma_alike(t.value(s));
    }
}

/// A substitution accounts for the values that it changes.
pub proof fn lemma_accounted_substituted(t: TableauModel, s: Symbol, row: RowModel)
    requires
        t.tidy(),
    ensures
        t.accounted_in(t.substituted(s, row)),
{
    let u = t.substituted(s, row);
    let moved = t.moved_by(s, row);
    assert(u.rows.dom() =~= t.rows.dom());
    let after = TableauModel {
        infeasible: u.infeasible,
        rows: u.rows,
        objective: u.objective,
        artificial: u.artificial,
        ..t
    };
    assert(after.owned(moved) =~= t.owned(moved));
    assert(u == after.noted(moved));
    assert forall|k: Symbol| #[trigger] t.owners.contains_key(k) implies t.value(k).alike(
        u.value(k),
    ) || (!u.reported && u.changed.contains(t.owners[k])) by {
        lemma_alike(t.value(k));
        if t.rows.contains_key(k) && t.rows[k].cells.contains_key(s) {
            let d = row.constant.product(t.rows[k].cells[s]);
            if d.same(zero()) {
                crate::number::lemma_plus_zero(t.rows[k].constant, d);
            } else {
                assert(moved.contains(k));
                assert(after.owned(moved).contains(t.owners[k]));
            }
        }
    }
}

/// A substitution sets restricted symbols only to work.
pub proof fn lemma_negative_added(t: TableauModel, u: TableauModel)
    requires
        t.tidy(),
        u.rows.dom() == t.rows.dom(),
        t.rows.dom().finite(),
        u.infeasible == t.infeasible.add(Multiset::from_set(u.negative())),
    ensures
        forall|s: Symbol| u.infeasible.count(s) > 0 ==> !#[trigger] s.external(),
{
    lemma_set_added(t, u.negative());
}

/// Restricted symbols may be set to work.
pub proof fn lemma_set_added(t: TableauModel, c: Set<Symbol>)
    requires
        t.tidy(),
        t.rows.dom().finite(),
        forall|s: Symbol| #[trigger] c.contains(s) ==> t.rows.contains_key(s) && !s.external(),
    ensures
        forall|s: Symbol|
            t.infeasible.add(Multiset::from_set(c)).count(s) > 0 ==> !#[trigger] s.external(),
{
    broadcast use vstd::multiset::group_multiset_axioms;

    assert(c.subset_of(t.rows.dom()));
    vstd::set_lib::lemma_set_subset_finite(t.rows.dom(), c);
    let m = Map::new(|k: Symbol| c.contains(k), |k: Symbol| 1nat);
    assert(m.dom() =~= c);
    assert forall|s: Symbol|
        t.infeasible.add(Multiset::from_set(c)).count(s) > 0 implies !#[trigger] s.external() by {
        if !c.contains(s) {
            assert(Multiset::from_map(m).count(s) == 0);
        }
    }
}

/// A symbol that is not basic may enter with a row over symbols that are not basic either.
pub proof fn lemma_entered(t: TableauModel, s: Symbol, row: RowModel, limit: nat)
    requires
        t.tidy(),
        t.all_below(limit),
        !t.rows.contains_key(s),
        s.id() < limit,
        t.free_of_basics(row),
        !row.cells.contains_key(s),
        TableauModel::row_below(row, limit),
    ensures
        t.substituted(s, row).tidy(),
        t.substituted(s, row).all_below(limit),
        t.substituted(s, row).rows.dom() == t.rows.dom(),
        t.entered(s, row).tidy(),
        t.entered(s, row).all_below(limit),
        t.accounted_in(t.entered(s, row)),
{
    let u = t.substituted(s, row);
    let v = t.entered(s, row);
    assert(u.rows.dom() =~= t.rows.dom());
    lemma_accounted_substituted(t, s, row);
    lemma_negative_added(t, u);
    let w = u.noted(TableauModel::nonzero(s, row));
    lemma_accounted_noted(u, TableauModel::nonzero(s, row));
    assert(w.accounted_in(v)) by {
        assert forall|k: Symbol| #[trigger] w.owners.contains_key(k) implies w.value(k).alike(
            v.value(k),
        ) || (!v.reported && v.changed.contains(w.owners[k])) by {
            if k == s {
                assert(u.rows.dom() =~= t.rows.dom());
                assert(w.value(k) == zero());
                if !row.constant.same(zero()) {
                    assert(TableauModel::nonzero(s, row).contains(s));
                    assert(u.owned(TableauModel::nonzero(s, row)).contains(u.owners[s]));
                }
            } else {
                lemma_alike(w.value(k));
            }
        }
    }
    lemma_accounted_twice(t, u, w);
    lemma_accounted_twice(t, w, v);
    assert(u.rows.dom() =~= t.rows.dom());
    assert forall|k: Symbol| #[trigger] u.rows.contains_key(k) implies u.free_of_basics(u.rows[k])
        && TableauModel::row_below(u.rows[k], limit) && !u.rows[k].cells.contains_key(s) by {
        assert(t.rows.contains_key(k));
        lemma_substituted_row(t, t.rows[k], s, row, limit);
    }
    lemma_substituted_row(t, t.objective, s, row, limit);
    if let Some(a) = t.artificial {
        lemma_substituted_row(t, a, s, row, limit);
    }
    assert(v.rows =~= u.rows.insert(s, row));
    assert forall|k: Symbol| #[trigger] v.rows.contains_key(k) implies v.free_of_basics(v.rows[k])
        && k.id() < limit && TableauModel::row_below(v.rows[k], limit) by {
        if k != s {
            assert(u.rows.contains_key(k));
        }
    }
}

proof fn lemma_substituted_row(
    t: TableauModel,
    r: RowModel,
    s: Symbol,
    row: RowModel,
    limit: nat,
)
    requires
        t.free_of_basics(r),
        TableauModel::row_below(r, limit),
        t.free_of_basics(row),
        !row.cells.contains_key(s),
        TableauModel::row_below(row, limit),
    ensures
        t.free_of_basics(r.substituted(s, row)),
        TableauModel::row_below(r.substituted(s, row), limit),
        !r.substituted(s, row).cells.contains_key(s),
{
    if r.cells.contains_key(s) {
        assert forall|k: Symbol| #[trigger] r.substituted(s, row).cells.contains_key(k) implies (
        r.cells.contains_key(k) && k != s) || row.cells.contains_key(k) by {
            lemma_joint_cells(r.without(s), row, r.cells[s], k);
        }
    }
}

/// A pivot keeps the tableau tidy.
pub proof fn lemma_pivoted(t: TableauModel, leaving: Symbol, entering: Symbol, limit: nat)
    requires
        t.tidy(),
        t.all_below(limit),
        t.rows.contains_key(leaving),
        t.rows[leaving].cells.contains_key(entering),
    ensures
        leaving != entering,
        !t.rows.contains_key(entering),
        t.pivoted(leaving, entering).tidy(),
        t.pivoted(leaving, entering).all_below(limit),
        !leaving.external() ==> t.accounted_in(t.pivoted(leaving, entering)),
{
    let u = t.without_row(leaving);
    let row = t.rows[leaving].exchanged(leaving, entering);
    lemma_without_row(t, leaving, limit);
    assert(t.free_of_basics(t.rows[leaving]));
    assert forall|s: Symbol| #[trigger] row.cells.contains_key(s) implies !u.rows.contains_key(s)
        && s != entering && s.id() < limit by {
        lemma_exchanged_cells(t.rows[leaving], leaving, entering, s);
    }
    lemma_entered(u, entering, row, limit);
    if !leaving.external() {
        lemma_accounted_without_row(t, leaving);
        lemma_accounted_twice(t, u, t.pivoted(leaving, entering));
    }
}

/// A tableau stays tidy without one of its rows.
pub proof fn lemma_without_row(t: TableauModel, s: Symbol, limit: nat)
    requires
        t.tidy(),
        t.all_below(limit),
    ensures
        t.without_row(s).tidy(),
        t.without_row(s).all_below(limit),
{
    let u = t.without_row(s);
    assert forall|k: Symbol| #[trigger] u.rows.contains_key(k) implies u.free_of_basics(u.rows[k])
        && k.id() < limit && TableauModel::row_below(u.rows[k], limit) by {
        assert(t.rows.contains_key(k));
    }
}

/// All numbers of pivots within which an optimization comes to its end give the same.
proof fn lemma_same_end(t: TableauModel, artificial: bool, a: nat, b: nat)
    requires
        t.ends_within(artificial, a),
        t.ends_within(artificial, b),
    ensures
        t.optimized_within(artificial, a) == t.optimized_within(artificial, b),
    decreases a,
{
    if let Some(entering) = TableauModel::entering(t.goal(artificial)) {
        if let Some(leaving) = t.leaving(entering) {
            lemma_same_end(
                t.pivoted(leaving, entering),
                artificial,
                (a - 1) as nat,
                (b - 1) as nat,
            );
        }
    }
}

/// An optimization that comes to its end within some pivots gives what it then has.
pub proof fn lemma_optimized(t: TableauModel, artificial: bool, pivots: nat)
    requires
        t.ends_within(artificial, pivots),
    ensures
        t.ends(artificial),
        t.optimized(artificial) == t.optimized_within(artificial, pivots),
{
    lemma_same_end(
        t,
        artificial,
        pivots,
        choose|n: nat| t.ends_within(artificial, n),
    );
}

/// All numbers of steps within which the infeasible symbols are worked through give the same.
proof fn lemma_same_dual_end(t: TableauModel, a: nat, b: nat)
    requires
        t.dual_ends_within(a),
        t.dual_ends_within(b),
    ensures
        t.dual_optimized_within(a) == t.dual_optimized_within(b),
    decreases a,
{
    if let Some(leaving) = smallest(t.infeasible.dom()) {
        let rest = TableauModel { infeasible: t.infeasible.remove(leaving), ..t };
        if t.rows.contains_key(leaving) && t.rows[leaving].constant.below(zero()) {
            if let Some(entering) = t.dual_entering(t.rows[leaving]) {
                lemma_same_dual_end(
                    rest.pivoted(leaving, entering),
                    (a - 1) as nat,
                    (b - 1) as nat,
                );
            }
        } else {
            lemma_same_dual_end(rest, (a - 1) as nat, (b - 1) as nat);
        }
    }
}

/// What works through the infeasible symbols within some steps gives what it then has.
pub proof fn lemma_dual_optimized(t: TableauModel, steps: nat)
    requires
        t.dual_ends_within(steps),
    ensures
        t.dual_ends(),
        t.dual_optimized() == t.dual_optimized_within(steps),
{
    lemma_same_dual_end(t, steps, choose|n: nat| t.dual_ends_within(n));
}

} // verus!
