//! The tableau and the simplex method on it.
use crate::choice::{
    better, found, found_smallest, lemma_found, lemma_found_smallest, lemma_seen_ends,
    lemma_seen_members_ends, lemma_seen_members_step, lemma_seen_step, seen, seen_members, smaller,
};
use crate::count::Count;
use crate::error::InternalSolverError;
use crate::expression::Variable;
use crate::number::{zero, Number};
use crate::row::{Row, RowModel};
use crate::simplex::{
    lemma_accounted_noted, lemma_accounted_substituted, lemma_accounted_twice,
    lemma_accounted_without_row, lemma_alike, lemma_dual_optimized, lemma_entered,
    lemma_exchanged_cells, lemma_optimized, lemma_pivoted, lemma_without_row, TableauModel, Tag,
};
use crate::symbol::{Symbol, SymbolKind};
use crate::table::Table;
use crate::worklist::Worklist;
use vstd::multiset::Multiset;
use vstd::prelude::*;

verus! {

/// A tableau.
pub struct Tableau {
    pub(crate) rows: Table<Symbol, Row>,
    pub(crate) objective: Row,
    pub(crate) artificial: Option<Row>,
    pub(crate) infeasible: Worklist,
    pub(crate) owners: Table<Symbol, Variable>,
    pub(crate) changed: Table<Variable, ()>,
    pub(crate) reported: bool,
}

/// The rows of a table, as mathematical ones.
pub(crate) open spec fn row_models(rows: Map<Symbol, Row>) -> Map<Symbol, RowModel> {
    rows.map_values(|r: Row| r@)
}

impl View for Tableau {
    type V = TableauModel;

    open(crate) spec fn view(&self) -> TableauModel {
        TableauModel {
            rows: row_models(self.rows@),
            objective: self.objective@,
            artificial: match self.artificial {
                Some(a) => Some(a@),
                None => None,
            },
            infeasible: self.infeasible@,
            owners: self.owners@,
            changed: self.changed@.dom(),
            reported: self.reported,
        }
    }
}

/// Noting in two steps is noting at once.
proof fn lemma_noted_step(t: TableauModel, moved: Set<Symbol>, s: Symbol)
    ensures
        t.noted(moved).noted(set![s]) == t.noted(moved.insert(s)),
        t.noted(Set::empty()) == t,
        !t.owners.contains_key(s) ==> t.noted(moved.insert(s)) == t.noted(moved),
{
    let one = set![s];
    assert(t.owned(Set::empty()) =~= Set::<Variable>::empty());
    assert forall|v: Variable| t.owned(moved.insert(s)).contains(v) <==> t.owned(moved).union(
        t.owned(one),
    ).contains(v) by {
        if t.owned(moved.insert(s)).contains(v) {
            let k = choose|k: Symbol| #[trigger]
                moved.insert(s).contains(k) && t.owners.contains_key(k) && t.owners[k] == v;
            assert(moved.contains(k) || one.contains(k));
        }
        if t.owned(moved).contains(v) {
            let k = choose|k: Symbol| #[trigger]
                moved.contains(k) && t.owners.contains_key(k) && t.owners[k] == v;
            assert(moved.insert(s).contains(k));
        }
        if t.owned(one).contains(v) {
            assert(moved.insert(s).contains(s));
        }
    }
    assert(t.owned(moved.insert(s)) =~= t.owned(moved).union(t.owned(one)));
    if !t.owners.contains_key(s) {
        assert(t.owned(one) =~= Set::<Variable>::empty());
        assert(t.owned(moved.insert(s)) =~= t.owned(moved));
    } else {
        assert(one.contains(s));
        assert(t.owned(one).contains(t.owners[s]));
        assert(t.owned(moved.insert(s)).contains(t.owners[s]));
    }
    assert(t.noted(moved).owned(one) =~= t.owned(one));
    if t.owned(moved) =~= Set::<Variable>::empty() {
        assert(t.owned(moved.insert(s)) =~= t.owned(one));
    }
    assert(t.noted(moved).noted(one).changed =~= t.noted(moved.insert(s)).changed);
}

/// Adding the members of a set to a multiset one by one.
proof fn lemma_from_set_insert(m: Multiset<Symbol>, c: Set<Symbol>, s: Symbol)
    requires
        c.finite(),
        !c.contains(s),
    ensures
        m.add(Multiset::from_set(c.insert(s))) == m.add(Multiset::from_set(c)).insert(s),
        m.add(Multiset::from_set(Set::empty())) == m,
{
    broadcast use vstd::multiset::group_multiset_axioms;

    let ones = |k: Symbol| 1nat;
    let (a, b) = (
        Map::new(|k: Symbol| c.insert(s).contains(k), ones),
        Map::new(|k: Symbol| c.contains(k), ones),
    );
    let e = Map::new(|k: Symbol| Set::<Symbol>::empty().contains(k), ones);
    assert(a.dom() =~= c.insert(s));
    assert(b.dom() =~= c);
    assert(e.dom() =~= Set::<Symbol>::empty());
    assert(Multiset::from_set(c.insert(s)) =~= Multiset::from_set(c).insert(s)) by {
        assert forall|k: Symbol|
            Multiset::from_set(c.insert(s)).count(k) == Multiset::from_set(c).insert(s).count(
                k,
            ) by {
            assert(a.dom().contains(k) <==> (b.dom().contains(k) || k == s));
            assert(Multiset::from_map(a).count(k) == if a.dom().contains(k) {
                1nat
            } else {
                0
            });
            assert(Multiset::from_map(b).count(k) == if b.dom().contains(k) {
                1nat
            } else {
                0
            });
        }
    }
    assert(m.add(Multiset::from_set(c.insert(s))) =~= m.add(Multiset::from_set(c)).insert(s));
    assert(m.add(Multiset::from_set(Set::empty())) =~= m) by {
        assert forall|k: Symbol| Multiset::from_map(e).count(k) == 0 by {
            assert(!e.dom().contains(k));
        }
    }
}

impl Tableau {
    pub open(crate) spec fn wf(self) -> bool {
        &&& self.rows.wf()
        &&& forall|s: Symbol| #[trigger] self.rows@.contains_key(s) ==> self.rows@[s].wf()
        &&& self.objective.wf()
        &&& self.artificial matches Some(a) ==> a.wf()
        &&& self.infeasible.wf()
        &&& self.owners.wf()
        &&& self.changed.wf()
    }

    /// The rows of the model are those of the table.
    pub(crate) proof fn lemma_rows(self)
        requires
            self.wf(),
        ensures
            forall|s: Symbol| #[trigger]
                self@.rows.contains_key(s) <==> self.rows@.contains_key(s),
            forall|s: Symbol| #[trigger]
                self.rows@.contains_key(s) ==> self@.rows[s] == self.rows@[s]@,
            self@.rows.dom() == self.rows@.dom(),
            self@.rows.dom().finite(),
    {
        self.rows.lemma_entries();
        assert(self@.rows.dom() =~= self.rows@.dom());
    }

    /// An empty tableau.
    pub(crate) fn new() -> (r: Tableau)
        ensures
            r.wf(),
            r@ == TableauModel::initial(),
    {
        let r = Tableau {
            rows: Table::new(),
            objective: Row::new(zero()),
            artificial: None,
            infeasible: Worklist::new(),
            owners: Table::new(),
            changed: Table::new(),
            reported: false,
        };
        assert(r@.rows =~= Map::<Symbol, RowModel>::empty());
        assert(r@.changed =~= Set::<Variable>::empty());
        r
    }

    /// Empties the tableau.
    pub(crate) fn clear(&mut self)
        ensures
            final(self).wf(),
            final(self)@ == TableauModel::initial(),
    {
        self.rows.clear();
        self.objective = Row::new(zero());
        self.artificial = None;
        self.infeasible.clear();
        self.owners.clear();
        self.changed.clear();
        self.reported = false;
        assert(self@.rows =~= Map::<Symbol, RowModel>::empty());
        assert(self@.changed =~= Set::<Variable>::empty());
    }

    /// Notes that the value of an external symbol has changed.
    pub(crate) fn var_changed(&mut self, s: Symbol)
        requires
            old(self).wf(),
        ensures
            final(self).wf(),
            final(self)@ == old(self)@.noted(set![s]),
            final(self).rows == old(self).rows,
            final(self).objective == old(self).objective,
            final(self).artificial == old(self).artificial,
            final(self).infeasible == old(self).infeasible,
            final(self).owners == old(self).owners,
    {
        proof {
            lemma_noted_step(self@, Set::empty(), s);
            assert(Set::<Symbol>::empty().insert(s) =~= set![s]);
        }
        if let Some(v) = self.owners.get(s) {
            let v = *v;
            if self.reported {
                self.changed.clear();
                self.reported = false;
            }
            self.changed.insert(v, ());
            proof {
                let vs = old(self)@.owned(set![s]);
                assert(set![s].contains(s));
                assert(vs.contains(v));
                assert(vs =~= set![v]);
                assert(self@.changed =~= old(self)@.noted(set![s]).changed);
            }
        }
    }

    /// Puts a row in the place of a symbol, everywhere.
    pub(crate) fn substitute(&mut self, symbol: Symbol, row: &Row)
        requires
            old(self).wf(),
            row.wf(),
        ensures
            final(self).wf(),
            final(self)@ == old(self)@.substituted(symbol, row@),
    {
        let n = self.rows.len();
        let ghost before = *self;
        let ghost goal = self@.substituted(symbol, row@);
        let ghost moved = self@.moved_by(symbol, row@);
        let ghost sunk = (TableauModel {
            rows: self@.rows.map_values(|r: RowModel| r.substituted(symbol, row@)),
            ..self@
        }).negative();
        proof {
            self.lemma_rows();
            lemma_seen_members_ends(moved, self.rows);
            lemma_seen_members_ends(sunk, self.rows);
            lemma_noted_step(self@, Set::empty(), symbol);
            lemma_from_set_insert(self@.infeasible, Set::empty(), symbol);
        }
        for i in 0..n
            invariant
                before == *old(self),
                before.wf(),
                self.wf(),
                row.wf(),
                n == self.rows.entries@.len(),
                n == before.rows.entries@.len(),
                self.rows@.dom() == before.rows@.dom(),
                self.objective == before.objective,
                self.artificial == before.artificial,
                self.owners == before.owners,
                moved == before@.moved_by(symbol, row@),
                sunk == (TableauModel {
                    rows: before@.rows.map_values(|r: RowModel| r.substituted(symbol, row@)),
                    ..before@
                }).negative(),
                forall|j: int|
                    0 <= j < n ==> (#[trigger] self.rows.entries@[j]).0 == before.rows.entries@[j].0
                        && self.rows.entries@[j].1@ == (if j < i {
                        before.rows.entries@[j].1@.substituted(symbol, row@)
                    } else {
                        before.rows.entries@[j].1@
                    }),
                self@.changed == before@.noted(seen_members(moved, before.rows, i as int)).changed,
                self@.reported == before@.noted(
                    seen_members(moved, before.rows, i as int),
                ).reported,
                self@.infeasible == before@.infeasible.add(
                    Multiset::from_set(seen_members(sunk, before.rows, i as int)),
                ),
        {
            proof {
                self.rows.lemma_entries();
                before.rows.lemma_entries();
                before.lemma_rows();
                lemma_seen_members_step(moved, before.rows, i as int);
                lemma_seen_members_step(sunk, before.rows, i as int);
            }
            let key = self.rows.key_at(i);
            let ghost mid = *self;
            assert(self.rows@.contains_key(key));
            let other = self.rows.value_at_mut(i);
            let shifted = other.substitute(symbol, row);
            let constant = other.constant;
            let ghost changed_row = *other;
            proof {
                let t = before@.rows.map_values(|r: RowModel| r.substituted(symbol, row@));
                assert(self.rows@ == mid.rows@.insert(key, changed_row));
                assert(self.rows@.dom() =~= before.rows@.dom());
                assert(before.rows.entries@[i as int].0 == key);
                assert(before.rows@[key] == before.rows.entries@[i as int].1);
                assert(before@.rows[key] == before.rows@[key]@);
                assert(t.contains_key(key));
                assert(moved.contains(key) <==> shifted && key.external());
                assert(sunk.contains(key) <==> !key.external() && constant.below(zero()));
                assert forall|s: Symbol| #[trigger] self.rows@.contains_key(s) implies self.rows@[s].wf() by {
                    if s != key {
                        assert(mid.rows@.contains_key(s));
                    }
                }
                if shifted && key.external() {
                    lemma_noted_step(
                        before@,
                        seen_members(moved, before.rows, i as int),
                        key,
                    );
                }
                if sunk.contains(key) {
                    let c = seen_members(sunk, before.rows, i as int);
                    assert(c.subset_of(before@.rows.dom()));
                    vstd::set_lib::lemma_set_subset_finite(before@.rows.dom(), c);
                    lemma_from_set_insert(before@.infeasible, c, key);
                }
            }
            if shifted && key.is_external() {
                let ghost noted_before = self@;
                self.var_changed(key);
                proof {
                    lemma_noted_alike(
                        noted_before,
                        before@.noted(seen_members(moved, before.rows, i as int)),
                        set![key],
                    );
                }
            }
            if !key.is_external() && constant.less_than(zero()) {
                self.infeasible.push(key);
            }
        }
        proof {
            assert(self@.rows =~= goal.rows) by {
                self.lemma_rows();
                before.lemma_rows();
                self.rows.lemma_entries();
                before.rows.lemma_entries();
                assert forall|s: Symbol| #[trigger] self@.rows.contains_key(s) implies self@.rows[s]
                    == goal.rows[s] by {
                    let j = self.rows.spot(s);
                    assert(self.rows.entries@[j].0 == s);
                    assert(before.rows.entries@[j].0 == s);
                }
            }
        }
        let _ = self.objective.substitute(symbol, row);
        if let Some(a) = &mut self.artificial {
            let _ = a.substitute(symbol, row);
        }
        proof {
            assert(self@.changed =~= goal.changed) by {
                assert((TableauModel {
                    infeasible: goal.infeasible,
                    rows: goal.rows,
                    objective: goal.objective,
                    artificial: goal.artificial,
                    ..before@
                }).owned(moved) =~= before@.owned(moved));
            }
            assert(sunk =~= (TableauModel {
                rows: before@.rows.map_values(|r: RowModel| r.substituted(symbol, row@)),
                objective: before@.objective.substituted(symbol, row@),
                artificial: match before@.artificial {
                    Some(a) => Some(a.substituted(symbol, row@)),
                    None => None,
                },
                ..before@
            }).negative());
            assert(self@ =~= goal);
        }
    }

    /// The symbol that lowers an objective most.
    fn get_entering_symbol(objective: &Row) -> (r: Option<Symbol>)
        requires
            objective.wf(),
        ensures
            r == TableauModel::entering(objective@),
            r is None ==> forall|s: Symbol|
                !TableauModel::entering_candidates(objective@).contains_key(s),
    {
        let ghost c = TableauModel::entering_candidates(objective@);
        let mut best: Option<(Symbol, Number)> = None;
        let n = objective.cells.len();
        proof {
            lemma_seen_ends(c, objective.cells);
        }
        for i in 0..n
            invariant
                objective.wf(),
                n == objective.cells.entries@.len(),
                c == TableauModel::entering_candidates(objective@),
                found(best, seen(c, objective.cells, i as int)),
        {
            proof {
                objective.cells.lemma_entries();
                lemma_seen_step(c, objective.cells, i as int);
            }
            let symbol = objective.cells.key_at(i);
            let value = *objective.cells.value_at(i);
            if symbol.kind() != SymbolKind::Dummy && value.less_than(zero()) {
                best = better(best, symbol, value);
            }
        }
        proof {
            lemma_found(best, c);
        }
        match best {
            Some((s, _)) => Some(s),
            None => None,
        }
    }

    /// The symbol that can be brought into an infeasible row at the lowest price.
    fn get_dual_entering_symbol(&self, row: &Row) -> (r: Option<Symbol>)
        requires
            self.wf(),
            row.wf(),
        ensures
            r == self@.dual_entering(row@),
    {
        let ghost c = self@.dual_candidates(row@);
        let mut best: Option<(Symbol, Number)> = None;
        let n = row.cells.len();
        proof {
            lemma_seen_ends(c, row.cells);
        }
        for i in 0..n
            invariant
                self.wf(),
                row.wf(),
                n == row.cells.entries@.len(),
                c == self@.dual_candidates(row@),
                found(best, seen(c, row.cells, i as int)),
        {
            proof {
                row.cells.lemma_entries();
                lemma_seen_step(c, row.cells, i as int);
            }
            let symbol = row.cells.key_at(i);
            let value = *row.cells.value_at(i);
            if zero().less_than(value) && symbol.kind() != SymbolKind::Dummy {
                let price = self.objective.coefficient_for(symbol).divided_by(value);
                if !price.is_nan() {
                    best = better(best, symbol, price);
                }
            }
        }
        proof {
            lemma_found(best, c);
        }
        match best {
            Some((s, _)) => Some(s),
            None => None,
        }
    }

    /// The restricted symbol that stops the entering one first.
    fn get_leaving_symbol(&self, entering: Symbol) -> (r: Option<Symbol>)
        requires
            self.wf(),
        ensures
            r == self@.leaving(entering),
    {
        let ghost c = self@.leaving_candidates(entering);
        let mut best: Option<(Symbol, Number)> = None;
        let n = self.rows.len();
        proof {
            self.lemma_rows();
            lemma_seen_ends(c, self.rows);
        }
        for i in 0..n
            invariant
                self.wf(),
                n == self.rows.entries@.len(),
                c == self@.leaving_candidates(entering),
                found(best, seen(c, self.rows, i as int)),
        {
            proof {
                self.lemma_rows();
                self.rows.lemma_entries();
                lemma_seen_step(c, self.rows, i as int);
            }
            let symbol = self.rows.key_at(i);
            let row = self.rows.value_at(i);
            assert(self.rows@.contains_key(symbol));
            if !symbol.is_external() {
                let value = row.coefficient_for(entering);
                if value.less_than(zero()) {
                    let ratio = row.constant.negated().divided_by(value);
                    if !ratio.is_nan() {
                        best = better(best, symbol, ratio);
                    }
                }
            }
        }
        proof {
            lemma_found(best, c);
        }
        match best {
            Some((s, _)) => Some(s),
            None => None,
        }
    }

    /// The symbol whose row is given up for a marker.
    fn get_marker_leaving_symbol(&self, marker: Symbol) -> (r: Option<Symbol>)
        requires
            self.wf(),
        ensures
            r == self@.marker_leaving(marker),
    {
        let ghost c1 = self@.marker_first(marker);
        let ghost c2 = self@.marker_second(marker);
        let ghost c3 = self@.marker_third(marker);
        let mut first: Option<(Symbol, Number)> = None;
        let mut second: Option<(Symbol, Number)> = None;
        let mut third: Option<Symbol> = None;
        let n = self.rows.len();
        proof {
            self.lemma_rows();
            lemma_seen_ends(c1, self.rows);
            lemma_seen_ends(c2, self.rows);
            lemma_seen_members_ends(c3, self.rows);
        }
        for i in 0..n
            invariant
                self.wf(),
                n == self.rows.entries@.len(),
                c1 == self@.marker_first(marker),
                c2 == self@.marker_second(marker),
                c3 == self@.marker_third(marker),
                found(first, seen(c1, self.rows, i as int)),
                found(second, seen(c2, self.rows, i as int)),
                found_smallest(third, seen_members(c3, self.rows, i as int)),
        {
            proof {
                self.lemma_rows();
                self.rows.lemma_entries();
                lemma_seen_step(c1, self.rows, i as int);
                lemma_seen_step(c2, self.rows, i as int);
                lemma_seen_members_step(c3, self.rows, i as int);
                reveal(Number::value);
            }
            let symbol = self.rows.key_at(i);
            let row = self.rows.value_at(i);
            assert(self.rows@.contains_key(symbol));
            let c = row.coefficient_for(marker);
            if !c.equals(zero()) {
                if symbol.is_external() {
                    third = smaller(third, symbol);
                } else if c.less_than(zero()) {
                    let ratio = row.constant.negated().divided_by(c);
                    if !ratio.is_nan() {
                        first = better(first, symbol, ratio);
                    }
                } else {
                    let ratio = row.constant.divided_by(c);
                    if !ratio.is_nan() {
                        second = better(second, symbol, ratio);
                    }
                }
            }
        }
        proof {
            lemma_found(first, c1);
            lemma_found(second, c2);
            lemma_found_smallest(third, c3);
        }
        match first {
            Some((s, _)) => Some(s),
            None => match second {
                Some((s, _)) => Some(s),
                None => third,
            },
        }
    }

    /// The smallest symbol of a row that is a slack or an error.
    fn any_pivotable_symbol(row: &Row) -> (r: Option<Symbol>)
        requires
            row.wf(),
        ensures
            r == TableauModel::any_pivotable(row@),
    {
        let ghost c = Set::new(|s: Symbol| row@.cells.contains_key(s) && s.pivotable());
        let mut best: Option<Symbol> = None;
        let n = row.cells.len();
        proof {
            lemma_seen_members_ends(c, row.cells);
        }
        for i in 0..n
            invariant
                row.wf(),
                n == row.cells.entries@.len(),
                c == Set::new(|s: Symbol| row@.cells.contains_key(s) && s.pivotable()),
                found_smallest(best, seen_members(c, row.cells, i as int)),
        {
            proof {
                row.cells.lemma_entries();
                lemma_seen_members_step(c, row.cells, i as int);
            }
            let symbol = row.cells.key_at(i);
            if symbol.is_pivotable() {
                best = smaller(best, symbol);
            }
        }
        proof {
            lemma_found_smallest(best, c);
        }
        best
    }

    /// The symbol to solve a new row for.
    pub(crate) fn choose_subject(row: &Row, tag: &Tag) -> (r: Option<Symbol>)
        requires
            row.wf(),
        ensures
            r == TableauModel::subject(row@, *tag),
    {
        let ghost c = Set::new(|s: Symbol| row@.cells.contains_key(s) && s.external());
        let mut best: Option<Symbol> = None;
        let n = row.cells.len();
        proof {
            lemma_seen_members_ends(c, row.cells);
        }
        for i in 0..n
            invariant
                row.wf(),
                n == row.cells.entries@.len(),
                c == Set::new(|s: Symbol| row@.cells.contains_key(s) && s.external()),
                found_smallest(best, seen_members(c, row.cells, i as int)),
        {
            proof {
                row.cells.lemma_entries();
                lemma_seen_members_step(c, row.cells, i as int);
            }
            let symbol = row.cells.key_at(i);
            if symbol.is_external() {
                best = smaller(best, symbol);
            }
        }
        proof {
            lemma_found_smallest(best, c);
        }
        if best.is_some() {
            return best;
        }
        if tag.marker.is_pivotable() && row.coefficient_for(tag.marker).less_than(zero()) {
            return Some(tag.marker);
        }
        if let Some(other) = tag.other {
            if other.is_pivotable() && row.coefficient_for(other).less_than(zero()) {
                return Some(other);
            }
        }
        None
    }

    /// Tells whether a row holds dummies only.
    pub(crate) fn all_dummies(row: &Row) -> (r: bool)
        requires
            row.wf(),
        ensures
            r == TableauModel::all_dummies(row@),
    {
        let n = row.cells.len();
        proof {
            row.cells.lemma_entries();
        }
        for i in 0..n
            invariant
                row.wf(),
                n == row.cells.entries@.len(),
                forall|j: int|
                    0 <= j < i ==> (#[trigger] row.cells.entries@[j]).0.sort() is Dummy,
        {
            proof {
                row.cells.lemma_entries();
            }
            let symbol = row.cells.key_at(i);
            if symbol.kind() != SymbolKind::Dummy {
                assert(row@.cells.contains_key(symbol));
                return false;
            }
        }
        true
    }

    /// Makes a symbol basic, with a row that is solved for it.
    pub(crate) fn enter(&mut self, s: Symbol, row: Row)
        requires
            old(self).wf(),
            row.wf(),
        ensures
            final(self).wf(),
            final(self)@ == old(self)@.entered(s, row@),
    {
        self.substitute(s, &row);
        proof {
            lemma_noted_step(self@, Set::empty(), s);
            assert(Set::<Symbol>::empty().insert(s) =~= set![s]);
        }
        let ghost t = old(self)@.substituted(s, row@).noted(TableauModel::nonzero(s, row@));
        if s.is_external() && !row.constant.equals(zero()) {
            self.var_changed(s);
        }
        assert(self@ == t);
        let ghost before = *self;
        let ghost model = row@;
        self.rows.insert(s, row);
        proof {
            assert forall|k: Symbol| #[trigger] self.rows@.contains_key(k) implies self.rows@[k].wf() by {
                if k != s {
                    assert(before.rows@.contains_key(k));
                }
            }
            assert(self@.rows =~= t.rows.insert(s, model));
            assert(self@ =~= old(self)@.entered(s, model));
        }
    }

    /// Takes a row out of the tableau.
    fn take_row(&mut self, s: Symbol) -> (r: Option<Row>)
        requires
            old(self).wf(),
        ensures
            final(self).wf(),
            final(self)@ == old(self)@.without_row(s),
            r is Some <==> old(self)@.rows.contains_key(s),
            r matches Some(row) ==> row.wf() && row@ == old(self)@.rows[s],
    {
        proof {
            self.lemma_rows();
        }
        let r = self.rows.remove(s);
        proof {
            assert forall|k: Symbol| #[trigger] self.rows@.contains_key(k) implies self.rows@[k].wf() by {
                assert(old(self).rows@.contains_key(k));
            }
            assert(self@.rows =~= old(self)@.rows.remove(s));
            assert(self@ =~= old(self)@.without_row(s));
        }
        r
    }

    /// Exchanges a basic symbol for one of its row.
    fn pivot(&mut self, leaving: Symbol, entering: Symbol)
        requires
            old(self).wf(),
            old(self)@.rows.contains_key(leaving),
            old(self)@.rows[leaving].cells.contains_key(entering),
            leaving != entering,
        ensures
            final(self).wf(),
            final(self)@ == old(self)@.pivoted(leaving, entering),
    {
        if let Some(mut row) = self.take_row(leaving) {
            row.solve_for_symbols(leaving, entering);
            self.enter(entering, row);
        }
    }

    /// Pivots until the objective is at its minimum, however many pivots that takes. It returns
    /// only where the optimization comes to an end.
    pub(crate) fn optimize(&mut self, artificial: bool, Ghost(limit): Ghost<nat>) -> (r: Result<
        (),
        InternalSolverError,
    >)
        requires
            old(self).wf(),
            old(self)@.tidy(),
            old(self)@.all_below(limit),
            artificial ==> old(self)@.artificial is Some,
        ensures
            final(self).wf(),
            (final(self)@, r) == old(self)@.optimized(artificial),
            old(self)@.ends(artificial),
            final(self)@.tidy(),
            final(self)@.all_below(limit),
            old(self)@.accounted_in(final(self)@),
            artificial ==> final(self)@.artificial is Some,
            r is Ok && !artificial ==> final(self)@.minimal(),
    {
        let mut count = Count::new();
        proof {
            lemma_accounted_noted(self@, Set::empty());
        }
        loop
            invariant
                self.wf(),
                self@.tidy(),
                self@.all_below(limit),
                old(self)@.accounted_in(self@),
                artificial ==> self@.artificial is Some,
                forall|n: nat| #[trigger]
                    self@.ends_within(artificial, n) ==> old(self)@.ends_within(
                        artificial,
                        n + count.value(),
                    ) && old(self)@.optimized_within(artificial, n + count.value())
                        == self@.optimized_within(artificial, n),
                count.value() < Count::ceiling(),
            decreases Count::ceiling() - count.value(),
        {
            let entering = if artificial {
                match &self.artificial {
                    Some(goal) => Self::get_entering_symbol(goal),
                    None => None,
                }
            } else {
                Self::get_entering_symbol(&self.objective)
            };
            let entering = match entering {
                Some(s) => s,
                None => {
                    assert(!artificial ==> self@.minimal()) by {
                        assert forall|s: Symbol| #[trigger]
                            self@.objective.cells.contains_key(s) && !(s.sort() is Dummy)
                                && !artificial implies !self@.objective.cells[s].below(zero()) by {
                            assert(!TableauModel::entering_candidates(
                                self@.objective,
                            ).contains_key(s));
                        }
                    }
                    proof {
                        assert(self@.ends_within(artificial, 0));
                        lemma_optimized(old(self)@, artificial, count.value());
                    }
                    return Ok(());
                },
            };
            let leaving = match self.get_leaving_symbol(entering) {
                Some(s) => s,
                None => {
                    proof {
                        assert(self@.ends_within(artificial, 0));
                        lemma_optimized(old(self)@, artificial, count.value());
                    }
                    return Err(InternalSolverError::ObjectiveUnbounded);
                },
            };
            let ghost before = self@;
            proof {
                crate::choice::lemma_least_is_candidate(self@.leaving_candidates(entering));
                lemma_below_zero();
                lemma_pivoted(self@, leaving, entering, limit);
                lemma_accounted_twice(old(self)@, self@, self@.pivoted(leaving, entering));
            }
            self.pivot(leaving, entering);
            let ghost done = count.value();
            count.tick();
            proof {
                assert forall|n: nat| #[trigger] self@.ends_within(artificial, n) implies old(self)@.ends_within(artificial, n + count.value()) && old(self)@.optimized_within(
                    artificial,
                    n + count.value(),
                ) == self@.optimized_within(artificial, n) by {
                    assert(before.ends_within(artificial, n + 1));
                    assert(n + 1 + done == n + count.value());
                }
            }
        }
    }

    /// Restores the feasibility of the rows that came out negative, however many pivots that takes.
    /// It returns only where this comes to an end.
    pub(crate) fn dual_optimize(&mut self, Ghost(limit): Ghost<nat>) -> (r: Result<
        (),
        InternalSolverError,
    >)
        requires
            old(self).wf(),
            old(self)@.tidy(),
            old(self)@.all_below(limit),
        ensures
            final(self).wf(),
            (final(self)@, r) == old(self)@.dual_optimized(),
            old(self)@.dual_ends(),
            final(self)@.tidy(),
            final(self)@.all_below(limit),
            old(self)@.accounted_in(final(self)@),
            r is Ok ==> final(self)@.infeasible == Multiset::<Symbol>::empty(),
    {
        let mut count = Count::new();
        proof {
            lemma_accounted_noted(self@, Set::empty());
        }
        loop
            invariant
                self.wf(),
                self@.tidy(),
                self@.all_below(limit),
                old(self)@.accounted_in(self@),
                forall|n: nat| #[trigger]
                    self@.dual_ends_within(n) ==> old(self)@.dual_ends_within(n + count.value())
                        && old(self)@.dual_optimized_within(n + count.value())
                        == self@.dual_optimized_within(n),
                count.value() < Count::ceiling(),
            decreases Count::ceiling() - count.value(),
        {
            let ghost before = self@;
            let leaving = match self.infeasible.pop() {
                Some(s) => s,
                None => {
                    assert(self@ =~= before);
                    proof {
                        assert(before.dual_ends_within(0));
                        lemma_dual_optimized(old(self)@, count.value());
                    }
                    return Ok(());
                },
            };
            let ghost rest = TableauModel { infeasible: before.infeasible.remove(leaving), ..before };
            assert(self@ =~= rest);
            proof {
                self.lemma_rows();
            }
            let entering = match self.rows.get(leaving) {
                Some(row) => {
                    if row.constant.less_than(zero()) {
                        Some(self.get_dual_entering_symbol(row))
                    } else {
                        None
                    }
                },
                None => None,
            };
            proof {
                assert(before.infeasible.count(leaving) > 0);
                assert(!leaving.external());
                assert(rest.tidy() && rest.all_below(limit));
                assert(before.accounted_in(rest)) by {
                    lemma_accounted_noted(before, Set::empty());
                    assert forall|s: Symbol| #[trigger] before.owners.contains_key(s) implies before.value(s).alike(
                        rest.value(s),
                    ) by {
                        lemma_alike(before.value(s));
                    }
                }
                lemma_accounted_twice(old(self)@, before, rest);
                if before.rows.contains_key(leaving) {
                    assert(rest.dual_candidates(before.rows[leaving])
                        =~= before.dual_candidates(before.rows[leaving]));
                }
            }
            match entering {
                Some(Some(entering)) => {
                    proof {
                        crate::choice::lemma_least_is_candidate(
                            before.dual_candidates(before.rows[leaving]),
                        );
                        lemma_pivoted(rest, leaving, entering, limit);
                        lemma_accounted_twice(
                            old(self)@,
                            rest,
                            rest.pivoted(leaving, entering),
                        );
                    }
                    self.pivot(leaving, entering);
                },
                Some(None) => {
                    let _ = self.take_row(leaving);
                    proof {
                        lemma_without_row(rest, leaving, limit);
                        lemma_accounted_without_row(rest, leaving);
                        lemma_accounted_twice(old(self)@, rest, self@);
                        assert(before.dual_ends_within(1));
                        lemma_dual_optimized(old(self)@, 1 + count.value());
                    }
                    return Err(InternalSolverError::DualOptimizeFailed);
                },
                None => {},
            }
            let ghost done = count.value();
            count.tick();
            proof {
                assert forall|n: nat| #[trigger] self@.dual_ends_within(n) implies old(self)@.dual_ends_within(n + count.value()) && old(self)@.dual_optimized_within(
                    n + count.value(),
                ) == self@.dual_optimized_within(n) by {
                    assert(before.dual_ends_within(n + 1));
                    assert(n + 1 + done == n + count.value());
                }
            }
        }
    }

    /// Takes a row in by way of an artificial symbol.
    pub(crate) fn add_with_artificial_variable(
        &mut self,
        art: Symbol,
        row: &Row,
        Ghost(limit): Ghost<nat>,
    ) -> (r: Result<bool, InternalSolverError>)
        requires
            old(self).wf(),
            row.wf(),
            old(self)@.tidy(),
            old(self)@.all_below(art.id()),
            art.id() < limit,
            !old(self)@.rows.contains_key(art),
            old(self)@.free_of_basics(row@),
            TableauModel::row_below(row@, art.id()),
            !art.external(),
        ensures
            final(self).wf(),
            (final(self)@, r) == old(self)@.taken_in(art, row@),
            final(self)@.tidy(),
            final(self)@.all_below(limit),
            old(self)@.accounted_in(final(self)@),
    {
        let ghost t0 = self@.with_artificial(art, row@);
        self.rows.insert(art, row.duplicate());
        self.artificial = Some(row.duplicate());
        proof {
            assert forall|k: Symbol| #[trigger] self.rows@.contains_key(k) implies self.rows@[k].wf() by {
                if k != art {
                    assert(old(self).rows@.contains_key(k));
                }
            }
            assert(self@.rows =~= t0.rows);
            assert(self@ =~= t0);
            lemma_with_artificial(old(self)@, art, row@, limit);
        }
        let r = self.optimize(true, Ghost(limit));
        proof {
            lemma_accounted_twice(old(self)@, t0, self@);
        }
        if let Err(e) = r {
            return Err(e);
        }
        let success = match &self.artificial {
            Some(a) => a.constant.near_zero(),
            None => false,
        };
        let ghost t1 = self@;
        self.artificial = None;
        let ghost t2 = TableauModel { artificial: None, ..t1 };
        proof {
            assert(self@ =~= t2);
            assert(t2.tidy() && t2.all_below(limit)) by {
                assert forall|k: Symbol| #[trigger] t2.rows.contains_key(k) implies t2.free_of_basics(t2.rows[k]) by {
                    assert(t1.rows.contains_key(k));
                }
            }
            self.lemma_rows();
            lemma_without_row(t2, art, limit);
            lemma_accounted_same_rows(t1, t2);
            lemma_accounted_twice(old(self)@, t1, t2);
            lemma_accounted_without_row(t2, art);
            lemma_accounted_twice(old(self)@, t2, t2.without_row(art));
        }
        let place = match self.rows.get(art) {
            Some(row) => {
                if row.cells.len() == 0 {
                    proof {
                        row.cells.lemma_entries();
                        assert(row@.cells =~= Map::<Symbol, Number>::empty());
                    }
                    Some(None)
                } else {
                    proof {
                        row.cells.lemma_entries();
                        assert(row@.cells.contains_key(row.cells.entries@[0].0));
                    }
                    Some(Some(Self::any_pivotable_symbol(row)))
                }
            },
            None => None,
        };
        match place {
            Some(None) => {
                let _ = self.take_row(art);
                return Ok(success);
            },
            Some(Some(None)) => {
                let _ = self.take_row(art);
                return Ok(false);
            },
            Some(Some(Some(entering))) => {
                proof {
                    crate::choice::lemma_smallest_is_member(
                        Set::new(
                            |s: Symbol| t2.rows[art].cells.contains_key(s) && s.pivotable(),
                        ),
                    );
                    lemma_pivoted(t2, art, entering, limit);
                    lemma_accounted_twice(old(self)@, t2, t2.pivoted(art, entering));
                }
                self.pivot(art, entering);
            },
            None => {},
        }
        proof {
            lemma_purged(self@, art, limit);
            lemma_accounted_twice(old(self)@, self@, self@.purged(art));
        }
        self.purge(art);
        Ok(success)
    }

    /// Takes a symbol out of every row.
    fn purge(&mut self, s: Symbol)
        requires
            old(self).wf(),
        ensures
            final(self).wf(),
            final(self)@ == old(self)@.purged(s),
    {
        let n = self.rows.len();
        let ghost before = *self;
        for i in 0..n
            invariant
                before == *old(self),
                before.wf(),
                self.wf(),
                n == self.rows.entries@.len(),
                n == before.rows.entries@.len(),
                self.rows@.dom() == before.rows@.dom(),
                self.objective == before.objective,
                self.artificial == before.artificial,
                self.owners == before.owners,
                self.changed == before.changed,
                self.reported == before.reported,
                self.infeasible == before.infeasible,
                forall|j: int|
                    0 <= j < n ==> (#[trigger] self.rows.entries@[j]).0 == before.rows.entries@[j].0
                        && self.rows.entries@[j].1@ == (if j < i {
                        before.rows.entries@[j].1@.without(s)
                    } else {
                        before.rows.entries@[j].1@
                    }),
        {
            proof {
                self.rows.lemma_entries();
            }
            let ghost mid = *self;
            let ghost key = self.rows.entries@[i as int].0;
            assert(self.rows@.contains_key(key));
            let row = self.rows.value_at_mut(i);
            row.remove(s);
            proof {
                assert(self.rows@.dom() =~= before.rows@.dom());
                assert forall|k: Symbol| #[trigger] self.rows@.contains_key(k) implies self.rows@[k].wf() by {
                    if k != key {
                        assert(mid.rows@.contains_key(k));
                    }
                }
            }
        }
        proof {
            self.lemma_rows();
            before.lemma_rows();
            self.rows.lemma_entries();
            before.rows.lemma_entries();
            assert forall|k: Symbol| #[trigger] self@.rows.contains_key(k) implies self@.rows[k]
                == before@.purged(s).rows[k] by {
                let j = self.rows.spot(k);
                assert(self.rows.entries@[j].0 == k);
                assert(before.rows.entries@[j].0 == k);
            }
            assert(self@.rows =~= before@.purged(s).rows);
        }
        self.objective.remove(s);
        assert(self@ =~= before@.purged(s));
    }

    /// Takes the equation of a marker out of the tableau. Tells whether it was there.
    pub(crate) fn drop_marker(&mut self, marker: Symbol, Ghost(limit): Ghost<nat>) -> (r: bool)
        requires
            old(self).wf(),
            old(self)@.tidy(),
            old(self)@.all_below(limit),
            !marker.external(),
        ensures
            final(self).wf(),
            r == (old(self)@.without_marker(marker) is Some),
            r ==> Some(final(self)@) == old(self)@.without_marker(marker),
            !r ==> final(self)@ == old(self)@,
            final(self)@.tidy(),
            final(self)@.all_below(limit),
            old(self)@.accounted_in(final(self)@),
    {
        let ghost t0 = self@;
        proof {
            lemma_without_row(t0, marker, limit);
            lemma_accounted_without_row(t0, marker);
            lemma_accounted_noted(t0, Set::empty());
        }
        if let Some(_) = self.take_row(marker) {
            return true;
        }
        proof {
            assert(self@.rows =~= t0.rows);
            assert(self@ =~= t0);
        }
        match self.get_marker_leaving_symbol(marker) {
            None => false,
            Some(s) => {
                proof {
                    crate::choice::lemma_least_is_candidate(t0.marker_first(marker));
                    crate::choice::lemma_least_is_candidate(t0.marker_second(marker));
                    crate::choice::lemma_smallest_is_member(t0.marker_third(marker));
                    lemma_below_zero();
                    assert(t0.rows.contains_key(s));
                    assert(t0.rows[s].cells.contains_key(marker));
                    lemma_pivoted(t0, s, marker, limit);
                    lemma_noted_step(t0, Set::empty(), s);
                    assert(Set::<Symbol>::empty().insert(s) =~= set![s]);
                    self.lemma_rows();
                }
                let moved = match self.rows.get(s) {
                    Some(row) => s.is_external() && !row.constant.equals(zero()),
                    None => false,
                };
                if moved {
                    self.var_changed(s);
                }
                let ghost t1 = self@;
                proof {
                    assert(t1 == t0.noted(TableauModel::nonzero(s, t0.rows[s])));
                    assert(t1.tidy() && t1.all_below(limit)) by {
                        assert(t1.rows == t0.rows && t1.objective == t0.objective && t1.artificial
                            == t0.artificial);
                    }
                }
                if let Some(mut row) = self.take_row(s) {
                    row.solve_for_symbols(s, marker);
                    proof {
                        let u = t1.without_row(s);
                        lemma_without_row(t1, s, limit);
                        assert(t1.free_of_basics(t1.rows[s]));
                        assert forall|k: Symbol| #[trigger] row@.cells.contains_key(k) implies !u.rows.contains_key(k)
                            && k != marker && k.id() < limit by {
                            lemma_exchanged_cells(t1.rows[s], s, marker, k);
                        }
                        lemma_entered(u, marker, row@, limit);
                        lemma_accounted_given_up(t0, s);
                        lemma_accounted_substituted(u, marker, row@);
                        lemma_accounted_twice(t0, u, u.substituted(marker, row@));
                    }
                    self.substitute(marker, &row);
                }
                true
            },
        }
    }

    /// Takes the cost of an error symbol out of the objective.
    fn remove_marker_effects(&mut self, marker: Symbol, strength: Number, Ghost(limit): Ghost<nat>)
        requires
            old(self).wf(),
            old(self)@.tidy(),
            old(self)@.all_below(limit),
            marker.id() < limit,
        ensures
            final(self).wf(),
            final(self)@ == old(self)@.without_cost(marker, strength),
            final(self)@.tidy(),
            final(self)@.all_below(limit),
            old(self)@.accounted_in(final(self)@),
    {
        proof {
            self.lemma_rows();
        }
        match self.rows.get(marker) {
            Some(row) => {
                let _ = self.objective.insert_row(row, strength.negated());
            },
            None => {
                self.objective.insert_symbol(marker, strength.negated());
            },
        }
        proof {
            assert(self@ =~= old(self)@.without_cost(marker, strength));
            let t = old(self)@;
            lemma_accounted_same_rows(t, self@);
            let o = self@.objective;
            if t.rows.contains_key(marker) {
                assert(t.free_of_basics(t.rows[marker]));
                assert forall|k: Symbol| #[trigger] o.cells.contains_key(k) implies !t.rows.contains_key(
                    k,
                ) && k.id() < limit by {
                    crate::simplex::lemma_joint_cells(
                        t.objective,
                        t.rows[marker],
                        strength.negation(),
                        k,
                    );
                }
            }
            assert forall|k: Symbol| #[trigger] self@.rows.contains_key(k) implies self@.free_of_basics(
                self@.rows[k],
            ) by {
                assert(t.free_of_basics(t.rows[k]));
            }
        }
    }

    /// Takes the costs of a constraint out of the objective.
    pub(crate) fn remove_constraint_effects(
        &mut self,
        tag: &Tag,
        strength: Number,
        Ghost(limit): Ghost<nat>,
    )
        requires
            old(self).wf(),
            old(self)@.tidy(),
            old(self)@.all_below(limit),
            tag.marker.id() < limit,
            tag.other matches Some(o) ==> o.id() < limit,
        ensures
            final(self).wf(),
            final(self)@ == old(self)@.without_costs(*tag, strength),
            final(self)@.tidy(),
            final(self)@.all_below(limit),
            old(self)@.accounted_in(final(self)@),
    {
        let ghost t0 = self@;
        proof {
            lemma_accounted_noted(t0, Set::empty());
        }
        if tag.marker.kind() == SymbolKind::Error {
            self.remove_marker_effects(tag.marker, strength, Ghost(limit));
        }
        let ghost t1 = self@;
        if let Some(other) = tag.other {
            if other.kind() == SymbolKind::Error {
                self.remove_marker_effects(other, strength, Ghost(limit));
                proof {
                    lemma_accounted_twice(t0, t1, self@);
                }
            }
        }
    }

    /// Moves the constant of a row.
    fn raise(&mut self, s: Symbol, by: Number)
        requires
            old(self).wf(),
            old(self)@.rows.contains_key(s),
        ensures
            final(self).wf(),
            final(self)@ == old(self)@.raised(s, by),
    {
        proof {
            self.lemma_rows();
        }
        let ghost before = *self;
        if let Some(i) = self.rows.position(s) {
            let row = self.rows.value_at_mut(i);
            row.add(by);
            let constant = row.constant;
            proof {
                assert forall|k: Symbol| #[trigger] self.rows@.contains_key(k) implies self.rows@[k].wf() by {
                    if k != s {
                        assert(before.rows@.contains_key(k));
                    }
                }
                assert(self@.rows =~= before@.raised(s, by).rows);
            }
            if constant.less_than(zero()) {
                self.infeasible.push(s);
            }
            assert(self@ =~= before@.raised(s, by));
        }
    }

    /// Moves every row that holds a marker.
    fn drift(&mut self, marker: Symbol, delta: Number)
        requires
            old(self).wf(),
        ensures
            final(self).wf(),
            final(self)@ == old(self)@.drifted(marker, delta),
    {
        let n = self.rows.len();
        let ghost before = *self;
        let ghost goal = self@.drifted(marker, delta);
        let ghost after = TableauModel {
            rows: self@.rows.map_values(
                |r: RowModel| TableauModel::drifted_row(r, marker, delta),
            ),
            ..self@
        };
        let ghost sunk = Set::new(
            |s: Symbol|
                after.negative().contains(s) && !before@.rows[s].coefficient(marker).same(zero()),
        );
        let ghost moved = Set::new(
            |s: Symbol|
                before@.rows.contains_key(s) && s.external() && !TableauModel::drift(
                    before@.rows[s],
                    marker,
                    delta,
                ).same(zero()),
        );
        proof {
            self.lemma_rows();
            lemma_seen_members_ends(moved, self.rows);
            lemma_seen_members_ends(sunk, self.rows);
            lemma_noted_step(self@, Set::empty(), marker);
            lemma_from_set_insert(self@.infeasible, Set::empty(), marker);
        }
        for i in 0..n
            invariant
                before == *old(self),
                before.wf(),
                self.wf(),
                n == self.rows.entries@.len(),
                n == before.rows.entries@.len(),
                self.rows@.dom() == before.rows@.dom(),
                self.objective == before.objective,
                self.artificial == before.artificial,
                self.owners == before.owners,
                after == (TableauModel {
                    rows: before@.rows.map_values(
                        |r: RowModel| TableauModel::drifted_row(r, marker, delta),
                    ),
                    ..before@
                }),
                sunk == Set::new(
                    |s: Symbol|
                        after.negative().contains(s) && !before@.rows[s].coefficient(marker).same(
                            zero(),
                        ),
                ),
                moved == Set::new(
                    |s: Symbol|
                        before@.rows.contains_key(s) && s.external() && !TableauModel::drift(
                            before@.rows[s],
                            marker,
                            delta,
                        ).same(zero()),
                ),
                forall|j: int|
                    0 <= j < n ==> (#[trigger] self.rows.entries@[j]).0 == before.rows.entries@[j].0
                        && self.rows.entries@[j].1@ == (if j < i {
                        TableauModel::drifted_row(before.rows.entries@[j].1@, marker, delta)
                    } else {
                        before.rows.entries@[j].1@
                    }),
                self@.changed == before@.noted(seen_members(moved, before.rows, i as int)).changed,
                self@.reported == before@.noted(
                    seen_members(moved, before.rows, i as int),
                ).reported,
                self@.infeasible == before@.infeasible.add(
                    Multiset::from_set(seen_members(sunk, before.rows, i as int)),
                ),
        {
            proof {
                self.rows.lemma_entries();
                before.rows.lemma_entries();
                before.lemma_rows();
                lemma_seen_members_step(moved, before.rows, i as int);
                lemma_seen_members_step(sunk, before.rows, i as int);
            }
            let key = self.rows.key_at(i);
            let ghost mid = *self;
            assert(self.rows@.contains_key(key));
            let row = self.rows.value_at_mut(i);
            let coefficient = row.coefficient_for(marker);
            let shift = delta.times(coefficient);
            let held: bool = !coefficient.equals(zero());
            if held {
                row.add(shift);
            }
            let constant = row.constant;
            let ghost changed_row = *row;
            proof {
                assert(self.rows@ == mid.rows@.insert(key, changed_row));
                assert(self.rows@.dom() =~= before.rows@.dom());
                assert(before.rows.entries@[i as int].0 == key);
                assert(before@.rows[key] == before.rows@[key]@);
                assert(after.rows.contains_key(key));
                assert(moved.contains(key) <==> !shift.same(zero()) && key.external());
                assert(sunk.contains(key) <==> held && !key.external() && constant.below(zero()));
                assert forall|s: Symbol| #[trigger] self.rows@.contains_key(s) implies self.rows@[s].wf() by {
                    if s != key {
                        assert(mid.rows@.contains_key(s));
                    }
                }
                if moved.contains(key) {
                    lemma_noted_step(
                        before@,
                        seen_members(moved, before.rows, i as int),
                        key,
                    );
                }
                if sunk.contains(key) {
                    let c = seen_members(sunk, before.rows, i as int);
                    assert(c.subset_of(before@.rows.dom()));
                    vstd::set_lib::lemma_set_subset_finite(before@.rows.dom(), c);
                    lemma_from_set_insert(before@.infeasible, c, key);
                }
            }
            if !shift.equals(zero()) && key.is_external() {
                let ghost noted_before = self@;
                self.var_changed(key);
                proof {
                    lemma_noted_alike(
                        noted_before,
                        before@.noted(seen_members(moved, before.rows, i as int)),
                        set![key],
                    );
                }
            }
            if held && constant.less_than(zero()) && !key.is_external() {
                self.infeasible.push(key);
            }
        }
        proof {
            assert(self@.rows =~= goal.rows) by {
                self.lemma_rows();
                before.lemma_rows();
                self.rows.lemma_entries();
                before.rows.lemma_entries();
                assert forall|s: Symbol| #[trigger] self@.rows.contains_key(s) implies self@.rows[s]
                    == goal.rows[s] by {
                    let j = self.rows.spot(s);
                    assert(self.rows.entries@[j].0 == s);
                    assert(before.rows.entries@[j].0 == s);
                }
            }
            assert(self@.changed =~= goal.changed) by {
                assert((TableauModel {
                    infeasible: goal.infeasible,
                    ..after
                }).owned(moved) =~= before@.owned(moved));
            }
            assert(self@ =~= goal);
        }
    }

    /// Moves the constant of the equation of an edit variable.
    pub(crate) fn edit(&mut self, tag: &Tag, delta: Number, Ghost(limit): Ghost<nat>)
        requires
            old(self).wf(),
            old(self)@.tidy(),
            old(self)@.all_below(limit),
            !tag.marker.external(),
            tag.other matches Some(o) ==> !o.external(),
        ensures
            final(self).wf(),
            final(self)@ == old(self)@.edited(*tag, delta),
            final(self)@.tidy(),
            final(self)@.all_below(limit),
            old(self)@.accounted_in(final(self)@),
    {
        proof {
            self.lemma_rows();
            lemma_edited(self@, *tag, delta, limit);
        }
        if self.rows.contains(tag.marker) {
            self.raise(tag.marker, delta.negated());
        } else {
            let other = match tag.other {
                Some(other) => {
                    if self.rows.contains(other) {
                        Some(other)
                    } else {
                        None
                    }
                },
                None => None,
            };
            match other {
                Some(other) => {
                    self.raise(other, delta);
                },
                None => {
                    self.drift(tag.marker, delta);
                },
            }
        }
    }
}

/// A coefficient below zero, or other than zero, belongs to a cell.
pub(crate) proof fn lemma_below_zero()
    ensures
        !zero().below(zero()),
        zero().same(zero()),
{
}

/// A fresh symbol may be made basic for a row over symbols that are not basic.
pub(crate) proof fn lemma_with_artificial(t: TableauModel, art: Symbol, row: RowModel, limit: nat)
    requires
        t.tidy(),
        t.all_below(art.id()),
        art.id() < limit,
        !t.rows.contains_key(art),
        t.free_of_basics(row),
        TableauModel::row_below(row, art.id()),
        !art.external(),
    ensures
        t.with_artificial(art, row).tidy(),
        t.with_artificial(art, row).all_below(limit),
        t.accounted_in(t.with_artificial(art, row)),
{
    let u = t.with_artificial(art, row);
    assert forall|k: Symbol| #[trigger] t.owners.contains_key(k) implies t.value(k).alike(
        u.value(k),
    ) by {
        lemma_alike(t.value(k));
    }
    assert forall|k: Symbol| #[trigger] u.rows.contains_key(k) implies u.free_of_basics(u.rows[k])
        && k.id() < limit && TableauModel::row_below(u.rows[k], limit) by {
        if k != art {
            assert(t.rows.contains_key(k));
            assert(t.free_of_basics(t.rows[k]));
            assert(TableauModel::row_below(t.rows[k], art.id()));
        }
    }
}

/// A tableau stays tidy when a symbol is purged.
pub(crate) proof fn lemma_purged(t: TableauModel, s: Symbol, limit: nat)
    requires
        t.tidy(),
        t.all_below(limit),
    ensures
        t.purged(s).tidy(),
        t.purged(s).all_below(limit),
        t.accounted_in(t.purged(s)),
{
    let u = t.purged(s);
    assert(u.rows.dom() =~= t.rows.dom());
    assert forall|k: Symbol| #[trigger] t.owners.contains_key(k) implies t.value(k).alike(
        u.value(k),
    ) by {
        lemma_alike(t.value(k));
    }
    assert forall|k: Symbol| #[trigger] u.rows.contains_key(k) implies u.free_of_basics(u.rows[k])
        && k.id() < limit && TableauModel::row_below(u.rows[k], limit) by {
        assert(t.rows.contains_key(k));
        assert(t.free_of_basics(t.rows[k]));
    }
}

/// No value changes where the rows and the notes stay.
pub(crate) proof fn lemma_accounted_same_rows(t: TableauModel, u: TableauModel)
    requires
        u.rows == t.rows,
        u.owners == t.owners,
        u.changed == t.changed,
        u.reported == t.reported,
    ensures
        t.accounted_in(u),
{
    assert forall|k: Symbol| #[trigger] t.owners.contains_key(k) implies t.value(k).alike(
        u.value(k),
    ) by {
        lemma_alike(t.value(k));
    }
}

/// A row may go once its value is noted.
pub(crate) proof fn lemma_accounted_given_up(t: TableauModel, s: Symbol)
    requires
        t.tidy(),
        t.rows.contains_key(s),
    ensures
        t.accounted_in(t.noted(TableauModel::nonzero(s, t.rows[s])).without_row(s)),
{
    let c = TableauModel::nonzero(s, t.rows[s]);
    let u = t.noted(c).without_row(s);
    lemma_accounted_noted(t, c);
    assert forall|k: Symbol| #[trigger] t.owners.contains_key(k) implies t.value(k).alike(
        u.value(k),
    ) || (!u.reported && u.changed.contains(t.owners[k])) by {
        lemma_alike(t.value(k));
        if k == s && !t.rows[s].constant.same(zero()) {
            assert(c.contains(s));
            assert(t.owned(c).contains(t.owners[s]));
        }
    }
}

/// Moving the constants of an edit variable keeps a tableau tidy and accounts for every change.
pub(crate) proof fn lemma_edited(t: TableauModel, tag: Tag, delta: Number, limit: nat)
    requires
        t.tidy(),
        t.all_below(limit),
        !tag.marker.external(),
        tag.other matches Some(o) ==> !o.external(),
    ensures
        t.edited(tag, delta).tidy(),
        t.edited(tag, delta).all_below(limit),
        t.accounted_in(t.edited(tag, delta)),
{
    broadcast use vstd::multiset::group_multiset_axioms;

    let u = t.edited(tag, delta);
    assert(u.rows.dom() =~= t.rows.dom());
    assert forall|k: Symbol| #[trigger] u.rows.contains_key(k) implies u.free_of_basics(u.rows[k])
        && k.id() < limit && TableauModel::row_below(u.rows[k], limit) by {
        assert(t.rows.contains_key(k));
        assert(t.free_of_basics(t.rows[k]));
        assert(u.rows[k].cells == t.rows[k].cells);
    }
    if t.rows.contains_key(tag.marker) || (tag.other is Some && t.rows.contains_key(
        tag.other->0,
    )) {
        assert forall|s: Symbol| #[trigger] t.owners.contains_key(s) implies t.value(s).alike(
            u.value(s),
        ) by {
            lemma_alike(t.value(s));
        }
    } else {
        let marker = tag.marker;
        let after = TableauModel { rows: u.rows, ..t };
        let sunk = Set::new(
            |s: Symbol|
                after.negative().contains(s) && !t.rows[s].coefficient(marker).same(zero()),
        );
        let moved = Set::new(
            |s: Symbol|
                t.rows.contains_key(s) && s.external() && !TableauModel::drift(
                    t.rows[s],
                    marker,
                    delta,
                ).same(zero()),
        );
        crate::simplex::lemma_set_added(t, sunk);
        assert forall|s: Symbol| #[trigger] t.owners.contains_key(s) implies t.value(s).alike(
            u.value(s),
        ) || (!u.reported && u.changed.contains(t.owners[s])) by {
            lemma_alike(t.value(s));
            if t.rows.contains_key(s) {
                let d = TableauModel::drift(t.rows[s], marker, delta);
                if d.same(zero()) {
                    crate::number::lemma_plus_zero(t.rows[s].constant, d);
                } else {
                    assert(moved.contains(s));
                    assert((TableauModel { infeasible: u.infeasible, ..after }).owned(
                        moved,
                    ).contains(t.owners[s]));
                }
            }
        }
    }
}

/// What is noted depends on nothing but the notes and the owners.
proof fn lemma_noted_alike(a: TableauModel, b: TableauModel, moved: Set<Symbol>)
    requires
        a.owners == b.owners,
        a.changed == b.changed,
        a.reported == b.reported,
    ensures
        a.noted(moved).changed == b.noted(moved).changed,
        a.noted(moved).reported == b.noted(moved).reported,
{
    assert(a.owned(moved) =~= b.owned(moved));
}

} // verus!
