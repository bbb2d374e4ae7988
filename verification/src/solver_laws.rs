//! Laws of the solver: what one call leaves of another, and what none of them touches.
use crate::constraint::{ConstraintModel, Strength};
use crate::error::AddConstraintError;
use crate::expression::{Term, Variable};
use crate::choice::{is_smallest, smallest};
use crate::number::{lemma_one_counts, lemma_units_increase, minus_one, one, zero, Number};
use crate::row::RowModel;
use crate::simplex::TableauModel;
use crate::symbol::Symbol;
use crate::system::{
    admissible, lemma_absorbed_frame, lemma_added_as_frame, lemma_expanded, lemma_fetched,
    lemma_referred, lemma_room_less, lemma_withdrawn_frame, soft, weight, ConstraintId, SolverModel,
};
use vstd::prelude::*;

verus! {

/// A new handle was never given out before, the handle after it is another one, and none is given
/// back by a removal.
pub proof fn law_handles_are_fresh(m: SolverModel, c: ConstraintModel, old_id: ConstraintId)
    requires
        m.sound(),
        m.has_room(weight(c)),
    ensures
        m.next_id().number() != 0,
        forall|id: ConstraintId| #[trigger]
            m.constraints.contains_key(id) ==> id.number() < m.next_id().number(),
        m.added(c).0.next_id().number() > m.next_id().number(),
        m.removed(old_id).0.next_id() == m.next_id(),
{
    if m.constraints.contains_key(old_id) {
        let entry = m.constraints[old_id];
        lemma_withdrawn_frame(m.unregistered(old_id), entry.constraint, entry.tag);
    }
    let n = SolverModel { next_constraint_id: m.next_constraint_id + 1, ..m };
    lemma_added_as_frame(n, m.next_id(), c);
}

/// A constraint that was added is found under its handle, and the others stay as they were.
pub proof fn law_added_is_found(m: SolverModel, c: ConstraintModel)
    requires
        m.sound(),
        m.has_room(weight(c)),
        m.added(c).1 is Ok,
    ensures
        m.added(c).1 == Ok::<ConstraintId, AddConstraintError>(m.next_id()),
        m.added(c).0.constraints.dom() == m.constraints.dom().insert(m.next_id()),
        m.added(c).0.constraints[m.next_id()].constraint == c,
        forall|id: ConstraintId|
            m.constraints.contains_key(id) ==> #[trigger] m.added(c).0.constraints[id]
                == m.constraints[id],
{
    let n = SolverModel { next_constraint_id: m.next_constraint_id + 1, ..m };
    let id = m.next_id();
    lemma_added_as_frame(n, id, c);
    assert(!m.constraints.contains_key(id));
    let a = m.added(c).0;
    assert forall|k: ConstraintId| a.constraints.dom().contains(k) <==> m.constraints.dom().insert(
        id,
    ).contains(k) by {
        if k != id {
            assert(a.constraints.contains_key(k) <==> n.constraints.contains_key(k));
        }
    }
    assert(a.constraints.dom() =~= m.constraints.dom().insert(id));
}

/// A constraint that is refused as a duplicate, or because nothing satisfies it, leaves the
/// constraints as they were.
pub proof fn law_refused_leaves_constraints(m: SolverModel, c: ConstraintModel)
    requires
        m.added(c).1 matches Err(e) && !(e is InternalSolverError),
    ensures
        m.added(c).0.constraints == m.constraints,
        m.added(c).0.constraint_ids == m.constraint_ids,
{
    reveal(SolverModel::added_as);
    let n = SolverModel { next_constraint_id: m.next_constraint_id + 1, ..m };
    lemma_absorbed_frame(n, RowModel::only(c.constant), c.terms);
}

/// A constraint is added once: the same object is refused as long as it is there.
pub proof fn law_added_once(m: SolverModel, c: ConstraintModel, d: ConstraintModel)
    requires
        m.sound(),
        m.has_room(weight(c)),
        m.added(c).1 is Ok,
        c.identity is Some,
        d.identity == c.identity,
    ensures
        m.added(c).0.added(d).1 == Err::<ConstraintId, AddConstraintError>(
            AddConstraintError::DuplicateConstraint,
        ),
        m.added(c).0.added(d).0.constraints == m.added(c).0.constraints,
{
    reveal(SolverModel::added_as);
    let a = m.added(c).0;
    assert(a.constraint_ids.contains_key(c.identity->0));
}

/// How many terms refer to a variable in a system.
spec fn references(m: SolverModel, v: Variable) -> nat {
    if m.var_data.contains_key(v) {
        m.var_data[v].count as nat
    } else {
        0
    }
}

/// How many of some terms refer to a variable.
spec fn mentions(terms: Seq<Term>, v: Variable) -> nat
    decreases terms.len(),
{
    if terms.len() == 0 {
        0
    } else {
        mentions(terms.drop_last(), v) + (if terms.last().variable == v
            && !terms.last().coefficient.negligible() {
            1nat
        } else {
            0
        })
    }
}

/// Whether every variable of a system is referred to.
spec fn counted(m: SolverModel) -> bool {
    forall|v: Variable| #[trigger] m.var_data.contains_key(v) ==> m.var_data[v].count >= 1
}

/// Whether the second system knows what the first knows of its variables, but for the counts.
spec fn remembers(m: SolverModel, u: SolverModel) -> bool {
    forall|v: Variable| #[trigger]
        u.var_data.contains_key(v) && m.var_data.contains_key(v) ==> u.var_data[v].value
            == m.var_data[v].value && u.var_data[v].symbol == m.var_data[v].symbol
}

proof fn lemma_absorbed_references(m: SolverModel, row: RowModel, terms: Seq<Term>)
    requires
        counted(m),
        m.has_room(terms.len()),
    ensures
        counted(m.absorbed(row, terms).0),
        remembers(m, m.absorbed(row, terms).0),
        forall|v: Variable| #[trigger]
            m.var_data.contains_key(v) ==> m.absorbed(row, terms).0.var_data.contains_key(v),
        forall|v: Variable| #[trigger]
            references(m.absorbed(row, terms).0, v) == references(m, v) + mentions(terms, v),
    decreases terms.len(),
{
    if terms.len() > 0 {
        let rest = terms.drop_last();
        let t = terms.last();
        lemma_absorbed_references(m, row, rest);
        let a = m.absorbed(row, rest).0;
        let b = m.absorbed(row, terms).0;
        lemma_mentions(rest, t.variable);
        assert(references(a, t.variable) == references(m, t.variable) + mentions(rest, t.variable));
        assert forall|v: Variable| #[trigger] references(b, v) == references(m, v) + mentions(
            terms,
            v,
        ) by {
            assert(references(a, v) == references(m, v) + mentions(rest, v));
        }
        assert forall|v: Variable| #[trigger]
            b.var_data.contains_key(v) && m.var_data.contains_key(v) implies b.var_data[v].value
            == m.var_data[v].value && b.var_data[v].symbol == m.var_data[v].symbol by {
            assert(a.var_data.contains_key(v));
        }
    }
}

/// Some terms refer to a variable at most as often as there are terms.
proof fn lemma_mentions(terms: Seq<Term>, v: Variable)
    ensures
        mentions(terms, v) <= terms.len(),
    decreases terms.len(),
{
    if terms.len() > 0 {
        lemma_mentions(terms.drop_last(), v);
    }
}

proof fn lemma_released_references(m: SolverModel, terms: Seq<Term>)
    requires
        counted(m),
        forall|v: Variable| #[trigger] references(m, v) >= mentions(terms, v),
    ensures
        counted(m.released(terms)),
        remembers(m, m.released(terms)),
        forall|v: Variable| #[trigger]
            m.released(terms).var_data.contains_key(v) ==> m.var_data.contains_key(v),
        forall|v: Variable| #[trigger]
            references(m.released(terms), v) == references(m, v) - mentions(terms, v),
    decreases terms.len(),
{
    if terms.len() > 0 {
        let rest = terms.drop_last();
        let t = terms.last();
        assert forall|v: Variable| #[trigger] references(m, v) >= mentions(rest, v) by {
            assert(references(m, v) >= mentions(terms, v));
        }
        lemma_released_references(m, rest);
        let a = m.released(rest);
        let b = m.released(terms);
        assert forall|v: Variable| #[trigger] references(b, v) == references(m, v) - mentions(
            terms,
            v,
        ) by {
            assert(references(a, v) == references(m, v) - mentions(rest, v));
            assert(references(m, v) >= mentions(terms, v));
        }
        assert forall|v: Variable| #[trigger] b.var_data.contains_key(v) implies a.var_data.contains_key(v) by {}
        assert forall|v: Variable| #[trigger]
            b.var_data.contains_key(v) && m.var_data.contains_key(v) implies b.var_data[v].value
            == m.var_data[v].value && b.var_data[v].symbol == m.var_data[v].symbol by {
            assert(a.var_data.contains_key(v));
        }
    }
}

/// To remove a constraint undoes its addition: the constraints, the identities, the variables
/// with what was last handed out of them, and the edit variables are as before.
pub proof fn law_removal_undoes_addition(m: SolverModel, c: ConstraintModel)
    requires
        m.sound(),
        m.has_room(weight(c)),
        m.added(c).1 is Ok,
        m.added(c).0.removed(m.next_id()).1 is Ok,
    ensures
        m.added(c).0.removed(m.next_id()).0.constraints == m.constraints,
        m.added(c).0.removed(m.next_id()).0.constraint_ids == m.constraint_ids,
        m.added(c).0.removed(m.next_id()).0.var_data == m.var_data,
        m.added(c).0.removed(m.next_id()).0.edits == m.edits,
{
    reveal(SolverModel::added_as);
    reveal(SolverModel::withdrawn);
    let id = m.next_id();
    let n = SolverModel { next_constraint_id: m.next_constraint_id + 1, ..m };
    let start = RowModel::only(c.constant);
    lemma_added_as_frame(n, id, c);
    lemma_absorbed_frame(n, start, c.terms);
    law_added_is_found(m, c);
    let a = m.added(c).0;
    let entry = a.constraints[id];
    let taken = n.absorbed(start, c.terms).0;
    lemma_absorbed_references(n, start, c.terms);
    assert(a.var_data == taken.var_data);
    let gone = a.unregistered(id);
    lemma_withdrawn_frame(gone, c, entry.tag);
    let u = a.removed(id).0;
    assert(!m.constraints.contains_key(id));
    assert(a.constraints == m.constraints.insert(id, entry));
    assert(u.constraints =~= m.constraints);
    assert(u.constraint_ids =~= m.constraint_ids);
    let t = gone.tableau.without_costs(entry.tag, c.strength.value).without_marker(
        entry.tag.marker,
    )->0;
    let before = (SolverModel { tableau: t, ..gone }).optimized().0;
    assert(u == before.released(c.terms));
    assert(before.var_data == taken.var_data);
    assert forall|v: Variable| #[trigger] references(before, v) >= mentions(c.terms, v) by {
        assert(references(taken, v) == references(n, v) + mentions(c.terms, v));
    }
    lemma_released_references(before, c.terms);
    assert forall|v: Variable| u.var_data.contains_key(v) == m.var_data.contains_key(v) && (
    m.var_data.contains_key(v) ==> u.var_data[v] == m.var_data[v]) by {
        assert(references(u, v) == references(before, v) - mentions(c.terms, v));
        assert(references(taken, v) == references(n, v) + mentions(c.terms, v));
        assert(references(u, v) == references(m, v));
        if m.var_data.contains_key(v) {
            assert(n.var_data.contains_key(v));
            assert(taken.var_data.contains_key(v));
        }
    }
    assert(u.var_data =~= m.var_data);
}

/// What was removed is gone and nothing else is; the same object can be added again.
pub proof fn law_removed_is_gone(m: SolverModel, id: ConstraintId, d: ConstraintModel)
    requires
        m.sound(),
        m.has_room(weight(d)),
        m.constraints.contains_key(id),
        d.identity == m.constraints[id].constraint.identity,
    ensures
        m.removed(id).0.constraints == m.constraints.remove(id),
        m.removed(id).0.added(d).1 != Err::<ConstraintId, AddConstraintError>(
            AddConstraintError::DuplicateConstraint,
        ),
{
    let entry = m.constraints[id];
    lemma_withdrawn_frame(m.unregistered(id), entry.constraint, entry.tag);
    let u = m.removed(id).0;
    let n = SolverModel { next_constraint_id: u.next_constraint_id + 1, ..u };
    lemma_added_as_frame(n, u.next_id(), d);
    assert(!m.constraints.contains_key(m.next_id()));
    assert(!n.knows(u.next_id(), d));
}

/// A fetch hands out every variable whose value is another than the one that was last handed
/// out. One that was never handed out counts as zero.
pub proof fn law_fetch_misses_nothing(m: SolverModel, v: Variable)
    requires
        m.sound(),
        m.var_data.contains_key(v),
        !m.var_data[v].value.alike(m.value_of(v)),
        !(m.var_data[v].value.nan() && m.value_of(v).same(zero())),
    ensures
        m.is_update(v),
{
    assert(m.caught(v));
}

/// A second fetch in a row hands out nothing.
pub proof fn law_fetch_twice(m: SolverModel, v: Variable)
    ensures
        !m.fetched().is_update(v),
{
}

/// A fetch moves no value, and afterwards the value that is known of each variable is the value
/// that it has.
pub proof fn law_fetch_brings_up_to_date(m: SolverModel, v: Variable)
    requires
        m.sound(),
        m.var_data.contains_key(v),
    ensures
        m.fetched().value_of(v) == m.value_of(v),
        m.fetched().var_data[v].value.alike(m.value_of(v)) || (
        m.fetched().var_data[v].value.nan() && m.value_of(v).same(zero())),
{
    lemma_fetched(m);
    assert(m.fetched().var_data.contains_key(v));
}

/// To suggest values moves values and nothing else: the constraints, their handles, the variables
/// and which of them are edit variables stay.
pub proof fn law_suggestions_keep_the_system(m: SolverModel, values: Seq<(Variable, Number)>)
    ensures
        m.suggested_all(values).0.constraints == m.constraints,
        m.suggested_all(values).0.constraint_ids == m.constraint_ids,
        m.suggested_all(values).0.var_data == m.var_data,
        m.suggested_all(values).0.edits.dom() == m.edits.dom(),
{
    if m.all_editable(values) {
        lemma_shifted_all(m, values);
    }
}

proof fn lemma_shifted_all(m: SolverModel, values: Seq<(Variable, Number)>)
    requires
        m.all_editable(values),
    ensures
        m.shifted_all(values).constraints == m.constraints,
        m.shifted_all(values).constraint_ids == m.constraint_ids,
        m.shifted_all(values).var_data == m.var_data,
        m.shifted_all(values).edits.dom() == m.edits.dom(),
    decreases values.len(),
{
    if values.len() > 0 {
        let rest = values.drop_last();
        assert forall|i: int| 0 <= i < rest.len() implies m.edits.contains_key(
            (#[trigger] rest[i]).0,
        ) by {
            assert(rest[i] == values[i]);
        }
        lemma_shifted_all(m, rest);
        assert(m.edits.contains_key(values[values.len() - 1].0));
        assert(m.shifted_all(values).edits.dom() =~= m.edits.dom());
    }
}

/// To suggest a single value is to suggest one of several.
pub proof fn law_single_suggestion(m: SolverModel, v: Variable, value: Number)
    ensures
        m.suggested_all(seq![(v, value)]) == m.suggested(v, value),
{
    let values = seq![(v, value)];
    assert(values.drop_last() =~= Seq::<(Variable, Number)>::empty());
    assert(values[0].0 == v);
    assert(m.shifted_all(Seq::<(Variable, Number)>::empty()) == m);
    assert(m.shifted_all(values) == m.shifted(v, value));
    assert(m.all_editable(values) == m.edits.contains_key(v)) by {
        if m.edits.contains_key(v) {
            assert forall|i: int| 0 <= i < values.len() implies m.edits.contains_key(
                (#[trigger] values[i]).0,
            ) by {}
        }
    }
}

/// To remove an edit variable undoes its addition: the edit variables, the constraints, the
/// identities and the variables are as before.
pub proof fn law_edit_removal_undoes_addition(m: SolverModel, v: Variable, strength: Strength)
    requires
        m.sound(),
        m.has_room(5),
        m.edit_added(v, strength).1 is Ok,
        m.edit_added(v, strength).0.edit_removed(v).1 is Ok,
    ensures
        m.edit_added(v, strength).0.edit_removed(v).0.edits == m.edits,
        m.edit_added(v, strength).0.edit_removed(v).0.constraints == m.constraints,
        m.edit_added(v, strength).0.edit_removed(v).0.constraint_ids == m.constraint_ids,
        m.edit_added(v, strength).0.edit_removed(v).0.var_data == m.var_data,
{
    let c = SolverModel::edit_constraint(v, strength);
    assert(weight(c) == 5);
    let id = m.next_id();
    law_added_is_found(m, c);
    let a = m.added(c).0;
    let n = SolverModel { next_constraint_id: m.next_constraint_id + 1, ..m };
    lemma_added_as_frame(n, id, c);
    let e = m.edit_added(v, strength).0;
    let back = SolverModel { edits: e.edits.remove(v), ..e };
    assert(a.edits == m.edits);
    assert(e.edits.remove(v) =~= m.edits);
    assert(back =~= a);
    law_removal_undoes_addition(m, c);
}

/// The row of some terms is over symbols that are known and not basic.
pub(crate) proof fn lemma_absorbed_admissible(m: SolverModel, row: RowModel, terms: Seq<Term>, n: nat)
    requires
        m.sound(),
        m.has_room(n + terms.len()),
        admissible(m, row),
    ensures
        m.absorbed(row, terms).0.sound(),
        m.absorbed(row, terms).0.has_room(n),
        admissible(m.absorbed(row, terms).0, m.absorbed(row, terms).1),
    decreases terms.len(),
{
    if terms.len() > 0 {
        let rest = terms.drop_last();
        let t = terms.last();
        lemma_absorbed_admissible(m, row, rest, n + 1);
        let (a, r) = m.absorbed(row, rest);
        lemma_room_less(a, n + 1, n);
        if !t.coefficient.negligible() {
            lemma_referred(a, t.variable, n);
            let b = a.referred(t.variable);
            assert(admissible(b, r)) by {
                assert(b.tableau.rows == a.tableau.rows);
            }
            lemma_expanded(b, r, t.variable, t.coefficient);
        }
    }
}

/// A constraint that may be missed always has a place: what measures by how much it is missed can
/// take up any slack. So it is never refused because nothing satisfies it.
pub proof fn law_preferences_are_satisfiable(m: SolverModel, c: ConstraintModel)
    requires
        m.sound(),
        m.has_room(weight(c)),
        soft(c),
    ensures
        m.added(c).1 != Err::<ConstraintId, AddConstraintError>(
            AddConstraintError::UnsatisfiableConstraint,
        ),
{
    reveal(SolverModel::added_as);
    let n = SolverModel { next_constraint_id: m.next_constraint_id + 1, ..m };
    let start = RowModel::only(c.constant);
    assert(n.sound()) by {
        assert forall|v: Variable| #[trigger] n.var_data.contains_key(v) implies n.caught(v) by {
            assert(m.caught(v));
        }
    }
    assert(n.has_room(2 + c.terms.len()));
    lemma_absorbed_admissible(n, start, c.terms, 2);
    let (a, r) = n.absorbed(start, c.terms);
    let (b, marked, tag) = a.marked(r, c);
    let k = a.id_tick;
    lemma_one_counts();
    let other = tag.other->0;
    assert(tag.marker.id() == k && other.id() == k + 1);
    assert(!r.cells.contains_key(tag.marker) && !r.cells.contains_key(other));
    assert(tag.marker.pivotable() && other.pivotable());
    let row = n.created(c).1;
    reveal(Number::value);
    lemma_units_increase(0, one().magnitude() as nat);
    reveal(crate::number::units);
    assert(minus_one().below(zero()));
    assert(one().negation() == minus_one() && minus_one().negation() == one());
    assert(row.coefficient(tag.marker) == minus_one() || row.coefficient(other) == minus_one());
    assert(TableauModel::subject(row, tag) is Some);
}

/// A required constraint is refused because nothing satisfies it only where it leaves no variable
/// free: over the basis, its row is without a variable of the user.
pub proof fn law_unsatisfiable_leaves_nothing_free(m: SolverModel, c: ConstraintModel, s: Symbol)
    requires
        m.added(c).1 == Err::<ConstraintId, AddConstraintError>(
            AddConstraintError::UnsatisfiableConstraint,
        ),
        s.external(),
    ensures
        !(SolverModel { next_constraint_id: m.next_constraint_id + 1, ..m }).created(
            c,
        ).1.cells.contains_key(s),
{
    reveal(SolverModel::added_as);
    let n = SolverModel { next_constraint_id: m.next_constraint_id + 1, ..m };
    let (b, row, tag) = n.created(c);
    if row.cells.contains_key(s) {
        let free = Set::new(|t: Symbol| row.cells.contains_key(t) && t.external());
        lemma_has_smallest(free, s);
    }
}

/// A set of symbols that holds anything has a smallest symbol.
proof fn lemma_has_smallest(c: Set<Symbol>, s: Symbol)
    requires
        c.contains(s),
    ensures
        smallest(c) is Some,
    decreases s.raw,
{
    if !is_smallest(c, s) {
        let t = choose|t: Symbol| #[trigger] c.contains(t) && t.raw < s.raw;
        lemma_has_smallest(c, t);
    }
}

} // verus!
