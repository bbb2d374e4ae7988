//! The rows of the tableau.
use crate::number::{minus_one, zero, Number};
use crate::symbol::Symbol;
use crate::table::Table;
use vstd::prelude::*;

verus! {

/// A linear expression over symbols: a constant plus a coefficient for some symbols.
#[verifier::ext_equal]
pub struct RowModel {
    pub cells: Map<Symbol, Number>,
    pub constant: Number,
}

/// `base + added`, where what comes near zero is dropped.
pub open spec fn combined(base: Option<Number>, added: Number) -> Option<Number> {
    let total = match base {
        Some(b) => b.sum(added),
        None => added,
    };
    if total.negligible() {
        None
    } else {
        Some(total)
    }
}

impl RowModel {
    /// The row that is a constant.
    pub open spec fn only(constant: Number) -> RowModel {
        RowModel { cells: Map::empty(), constant }
    }

    /// The coefficient of a symbol, if the row has one.
    pub open spec fn cell(self, s: Symbol) -> Option<Number> {
        if self.cells.contains_key(s) {
            Some(self.cells[s])
        } else {
            None
        }
    }

    /// The coefficient of a symbol; zero where the row has none.
    pub open spec fn coefficient(self, s: Symbol) -> Number {
        if self.cells.contains_key(s) {
            self.cells[s]
        } else {
            zero()
        }
    }

    /// The row plus `coefficient * s`.
    pub open spec fn plus_symbol(self, s: Symbol, coefficient: Number) -> RowModel {
        RowModel {
            cells: match combined(self.cell(s), coefficient) {
                Some(total) => self.cells.insert(s, total),
                None => self.cells.remove(s),
            },
            ..self
        }
    }

    /// The coefficient of `s` in the row plus `coefficient * other`.
    pub open spec fn joint_cell(self, other: RowModel, coefficient: Number, s: Symbol) -> Option<
        Number,
    > {
        if other.cells.contains_key(s) {
            combined(self.cell(s), other.cells[s].product(coefficient))
        } else {
            self.cell(s)
        }
    }

    /// The row plus `coefficient * other`.
    pub open spec fn plus_row(self, other: RowModel, coefficient: Number) -> RowModel {
        RowModel {
            cells: Map::new(
                |s: Symbol| self.joint_cell(other, coefficient, s) is Some,
                |s: Symbol| self.joint_cell(other, coefficient, s)->0,
            ),
            constant: self.constant.sum(other.constant.product(coefficient)),
        }
    }

    /// Whether adding `coefficient * other` moves the constant of a row.
    pub open spec fn moves_constant(other: RowModel, coefficient: Number) -> bool {
        !other.constant.product(coefficient).same(zero())
    }

    /// The row without a symbol.
    pub open spec fn without(self, s: Symbol) -> RowModel {
        RowModel { cells: self.cells.remove(s), ..self }
    }

    /// The row with the other row in place of the symbol.
    pub open spec fn substituted(self, s: Symbol, other: RowModel) -> RowModel {
        if self.cells.contains_key(s) {
            self.without(s).plus_row(other, self.cells[s])
        } else {
            self
        }
    }

    /// Whether putting the other row in place of the symbol moves the constant.
    pub open spec fn substitution_moves(self, s: Symbol, other: RowModel) -> bool {
        self.cells.contains_key(s) && RowModel::moves_constant(other, self.cells[s])
    }

    /// The row times a factor.
    pub open spec fn scaled(self, factor: Number) -> RowModel {
        RowModel {
            cells: self.cells.map_values(|c: Number| c.product(factor)),
            constant: self.constant.product(factor),
        }
    }

    /// The row with every sign inverted.
    pub open spec fn reversed(self) -> RowModel {
        RowModel {
            cells: self.cells.map_values(|c: Number| c.negation()),
            constant: self.constant.negation(),
        }
    }

    /// `0 = row`, solved for a symbol of the row.
    pub open spec fn solved_for(self, s: Symbol) -> RowModel {
        self.without(s).scaled(minus_one().quotient(self.cells[s]))
    }

    /// `basic = row`, solved for a symbol of the row.
    pub open spec fn exchanged(self, basic: Symbol, s: Symbol) -> RowModel {
        self.plus_symbol(basic, minus_one()).solved_for(s)
    }
}

/// A row of the tableau.
pub struct Row {
    pub(crate) cells: Table<Symbol, Number>,
    pub(crate) constant: Number,
}

impl View for Row {
    type V = RowModel;

    open(crate) spec fn view(&self) -> RowModel {
        RowModel { cells: self.cells@, constant: self.constant }
    }
}

impl Row {
    pub open(crate) spec fn wf(self) -> bool {
        self.cells.wf()
    }

    /// The row that is a constant.
    pub(crate) fn new(constant: Number) -> (r: Row)
        ensures
            r.wf(),
            r@ == RowModel::only(constant),
    {
        Row { cells: Table::new(), constant }
    }

    /// A row of its own with the same content.
    pub(crate) fn duplicate(&self) -> (r: Row)
        requires
            self.wf(),
        ensures
            r.wf(),
            r@ == self@,
    {
        let mut cells: Table<Symbol, Number> = Table::new();
        let n = self.cells.len();
        proof {
            self.cells.lemma_entries();
        }
        for i in 0..n
            invariant
                self.wf(),
                n == self.cells.entries@.len(),
                cells.wf(),
                forall|s: Symbol| #[trigger]
                    cells@.contains_key(s) <==> self.cells@.contains_key(s) && self.cells.spot(s)
                        < i,
                forall|s: Symbol| #[trigger]
                    cells@.contains_key(s) ==> cells@[s] == self.cells@[s],
        {
            proof {
                self.cells.lemma_entries();
            }
            cells.insert(self.cells.key_at(i), *self.cells.value_at(i));
        }
        assert(cells@ =~= self.cells@);
        Row { cells, constant: self.constant }
    }

    /// The coefficient of a symbol; zero where the row has none.
    pub(crate) fn coefficient_for(&self, s: Symbol) -> (r: Number)
        requires
            self.wf(),
        ensures
            r == self@.coefficient(s),
    {
        match self.cells.get(s) {
            Some(c) => *c,
            None => zero(),
        }
    }

    /// Adds to the constant.
    pub(crate) fn add(&mut self, v: Number)
        requires
            old(self).wf(),
        ensures
            final(self).wf(),
            final(self)@ == (RowModel { constant: old(self)@.constant.sum(v), ..old(self)@ }),
    {
        self.constant = self.constant.plus(v);
    }

    /// Adds a multiple of a symbol.
    pub(crate) fn insert_symbol(&mut self, s: Symbol, coefficient: Number)
        requires
            old(self).wf(),
        ensures
            final(self).wf(),
            final(self)@ == old(self)@.plus_symbol(s, coefficient),
    {
        let total = match self.cells.get(s) {
            Some(c) => c.plus(coefficient),
            None => coefficient,
        };
        if total.near_zero() {
            let _ = self.cells.remove(s);
        } else {
            self.cells.insert(s, total);
        }
    }

    /// Adds a multiple of another row, and tells whether that moved the constant.
    pub(crate) fn insert_row(&mut self, other: &Row, coefficient: Number) -> (r: bool)
        requires
            old(self).wf(),
            other.wf(),
        ensures
            final(self).wf(),
            final(self)@ == old(self)@.plus_row(other@, coefficient),
            r == RowModel::moves_constant(other@, coefficient),
    {
        let shift = other.constant.times(coefficient);
        self.constant = self.constant.plus(shift);
        let n = other.cells.len();
        for i in 0..n
            invariant
                self.wf(),
                other.wf(),
                n == other.cells.entries@.len(),
                self.constant == old(self)@.plus_row(other@, coefficient).constant,
                forall|s: Symbol| #[trigger]
                    self@.cell(s) == if other.cells@.contains_key(s) && other.cells.spot(s) >= i {
                        old(self)@.cell(s)
                    } else {
                        old(self)@.joint_cell(other@, coefficient, s)
                    },
        {
            proof {
                other.cells.lemma_entries();
            }
            let s = other.cells.key_at(i);
            let ghost before = self@;
            self.insert_symbol(s, other.cells.value_at(i).times(coefficient));
            proof {
                assert(before.cell(s) == old(self)@.cell(s));
                assert forall|t: Symbol| #[trigger] self@.cell(t) == if other.cells@.contains_key(t)
                    && other.cells.spot(t) >= i + 1 {
                    old(self)@.cell(t)
                } else {
                    old(self)@.joint_cell(other@, coefficient, t)
                } by {
                    assert(t != s ==> self@.cell(t) == before.cell(t));
                }
            }
        }
        proof {
            let goal = old(self)@.plus_row(other@, coefficient);
            other.cells.lemma_entries();
            assert forall|s: Symbol| self@.cell(s) == old(self)@.joint_cell(
                other@,
                coefficient,
                s,
            ) by {}
            assert forall|s: Symbol| self.cells@.contains_key(s) <==> goal.cells.contains_key(
                s,
            ) by {
                assert(self@.cell(s) == old(self)@.joint_cell(other@, coefficient, s));
            }
            assert forall|s: Symbol| self.cells@.contains_key(s) implies self.cells@[s]
                == goal.cells[s] by {
                assert(self@.cell(s) == old(self)@.joint_cell(other@, coefficient, s));
            }
            assert(self@.cells =~= goal.cells);
        }
        !shift.equals(zero())
    }

    /// Takes a symbol out.
    pub(crate) fn remove(&mut self, s: Symbol)
        requires
            old(self).wf(),
        ensures
            final(self).wf(),
            final(self)@ == old(self)@.without(s),
    {
        let _ = self.cells.remove(s);
    }

    /// Puts another row in place of a symbol, and tells whether that moved the constant.
    pub(crate) fn substitute(&mut self, s: Symbol, other: &Row) -> (r: bool)
        requires
            old(self).wf(),
            other.wf(),
        ensures
            final(self).wf(),
            final(self)@ == old(self)@.substituted(s, other@),
            r == old(self)@.substitution_moves(s, other@),
    {
        match self.cells.remove(s) {
            Some(c) => self.insert_row(other, c),
            None => {
                assert(self@.cells =~= old(self)@.cells);
                false
            },
        }
    }

    /// Inverts every sign.
    pub(crate) fn reverse_sign(&mut self)
        requires
            old(self).wf(),
        ensures
            final(self).wf(),
            final(self)@ == old(self)@.reversed(),
    {
        self.constant = self.constant.negated();
        let n = self.cells.len();
        for i in 0..n
            invariant
                self.wf(),
                n == self.cells.entries@.len(),
                n == old(self).cells.entries@.len(),
                old(self).wf(),
                self.constant == old(self).constant.negation(),
                self.cells@.dom() == old(self).cells@.dom(),
                forall|j: int|
                    0 <= j < n ==> (#[trigger] self.cells.entries@[j]).0
                        == old(self).cells.entries@[j].0,
                forall|j: int|
                    0 <= j < n ==> (#[trigger] self.cells.entries@[j]).1 == if j < i {
                        old(self).cells.entries@[j].1.negation()
                    } else {
                        old(self).cells.entries@[j].1
                    },
        {
            proof {
                self.cells.lemma_entries();
            }
            let ghost before = self.cells.entries@;
            let cell = self.cells.value_at_mut(i);
            *cell = cell.negated();
            assert(self.cells@.dom() =~= old(self).cells@.dom());
        }
        proof {
            self.cells.lemma_entries();
            old(self).cells.lemma_entries();
            assert(self@.cells =~= old(self)@.reversed().cells);
        }
    }

    /// Multiplies by a factor.
    fn scale(&mut self, factor: Number)
        requires
            old(self).wf(),
        ensures
            final(self).wf(),
            final(self)@ == old(self)@.scaled(factor),
    {
        self.constant = self.constant.times(factor);
        let n = self.cells.len();
        for i in 0..n
            invariant
                self.wf(),
                n == self.cells.entries@.len(),
                n == old(self).cells.entries@.len(),
                old(self).wf(),
                self.constant == old(self).constant.product(factor),
                self.cells@.dom() == old(self).cells@.dom(),
                forall|j: int|
                    0 <= j < n ==> (#[trigger] self.cells.entries@[j]).0
                        == old(self).cells.entries@[j].0,
                forall|j: int|
                    0 <= j < n ==> (#[trigger] self.cells.entries@[j]).1 == if j < i {
                        old(self).cells.entries@[j].1.product(factor)
                    } else {
                        old(self).cells.entries@[j].1
                    },
        {
            proof {
                self.cells.lemma_entries();
            }
            let cell = self.cells.value_at_mut(i);
            *cell = cell.times(factor);
            assert(self.cells@.dom() =~= old(self).cells@.dom());
        }
        proof {
            self.cells.lemma_entries();
            old(self).cells.lemma_entries();
            assert(self@.cells =~= old(self)@.scaled(factor).cells);
        }
    }

    /// Solves `0 = row` for a symbol of the row.
    pub(crate) fn solve_for_symbol(&mut self, s: Symbol)
        requires
            old(self).wf(),
            old(self)@.cells.contains_key(s),
        ensures
            final(self).wf(),
            final(self)@ == old(self)@.solved_for(s),
    {
        let c = match self.cells.remove(s) {
            Some(c) => c,
            None => zero(),
        };
        self.scale(minus_one().divided_by(c));
    }

    /// Solves `basic = row` for a symbol of the row.
    pub(crate) fn solve_for_symbols(&mut self, basic: Symbol, s: Symbol)
        requires
            old(self).wf(),
            old(self)@.cells.contains_key(s),
            basic != s,
        ensures
            final(self).wf(),
            final(self)@ == old(self)@.exchanged(basic, s),
    {
        self.insert_symbol(basic, minus_one());
        self.solve_for_symbol(s);
    }
}

} // verus!
