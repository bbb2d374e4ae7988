//! Required equations: the dummies that stand for them are idle, so the values meet the equations.
use crate::choice::{lemma_least_is_candidate, lemma_smallest_is_member, smallest};
use crate::conduct::{
    edit_settled, handed, law_errorless_is_met, lemma_handed, lemma_released_rows, met, settled,
};
use crate::constraint::{ConstraintModel, Strength};
use crate::equations::{lemma_cancel, within};
use crate::exact::{at, exact, lemma_at_solved, lemma_plain_product, lemma_worth, worth};
use crate::expression::Variable;
use crate::faith::{faithful, lemma_handed_faithful};
use crate::meaning::{addition_within, lemma_created, shaped};
use crate::number::{zero, Number};
use crate::optimum::shift_of;
use crate::purpose::lemma_required_stays;
use crate::row::RowModel;
use crate::simplex::{TableauModel, Tag};
use crate::symbol::{symbol, Symbol, SymbolKind};
use crate::system::{entry_symbol, soft, weight, ConstraintId, SolverModel};
use vstd::prelude::*;

verus! {

/// Whether a row is zero and holds dummies only.
pub open spec fn idle_row(row: RowModel) -> bool {
    worth(row.constant) == 0 as real && TableauModel::all_dummies(row)
}

/// Whether each dummy that a tableau is solved for is idle. The dummies of equations that say what
/// other equations say already are of this kind.
pub open spec fn idle(t: TableauModel) -> bool {
    forall|k: Symbol| #[trigger]
        t.rows.contains_key(k) && k.sort() is Dummy ==> idle_row(t.rows[k])
}

/// Whether no dummy that a tableau is solved for depends on a symbol.
pub open spec fn detached(t: TableauModel, s: Symbol) -> bool {
    forall|k: Symbol| #[trigger]
        t.rows.contains_key(k) && k.sort() is Dummy ==> !t.rows[k].cells.contains_key(s)
}

proof fn lemma_others_detached(t: TableauModel, s: Symbol)
    requires
        idle(t),
        !(s.sort() is Dummy),
    ensures
        detached(t, s),
{
    assert forall|k: Symbol| #[trigger] t.rows.contains_key(k) && k.sort() is Dummy implies
        !t.rows[k].cells.contains_key(s) by {
        assert(idle_row(t.rows[k]));
    }
}

proof fn lemma_substituted_idle(t: TableauModel, s: Symbol, row: RowModel)
    requires
        idle(t),
        detached(t, s),
    ensures
        idle(t.substituted(s, row)),
{
    let u = t.substituted(s, row);
    assert forall|k: Symbol| #[trigger] u.rows.contains_key(k) && k.sort() is Dummy implies
        idle_row(u.rows[k]) by {
        assert(t.rows.contains_key(k));
        assert(u.rows[k] == t.rows[k].substituted(s, row));
    }
}

proof fn lemma_without_row_idle(t: TableauModel, s: Symbol)
    requires
        idle(t),
    ensures
        idle(t.without_row(s)),
{
    let u = t.without_row(s);
    assert forall|k: Symbol| #[trigger] u.rows.contains_key(k) && k.sort() is Dummy implies
        idle_row(u.rows[k]) by {
        assert(t.rows.contains_key(k));
    }
}

proof fn lemma_entered_idle(t: TableauModel, s: Symbol, row: RowModel)
    requires
        idle(t),
        detached(t, s),
        s.sort() is Dummy ==> idle_row(row),
    ensures
        idle(t.entered(s, row)),
{
    let v = t.substituted(s, row);
    let u = t.entered(s, row);
    lemma_substituted_idle(t, s, row);
    assert forall|k: Symbol| #[trigger] u.rows.contains_key(k) && k.sort() is Dummy implies
        idle_row(u.rows[k]) by {
        if k != s {
            assert(v.rows.contains_key(k));
        }
    }
}

proof fn lemma_pivoted_idle(t: TableauModel, l: Symbol, e: Symbol)
    requires
        idle(t),
        !(e.sort() is Dummy),
    ensures
        idle(t.pivoted(l, e)),
{
    lemma_without_row_idle(t, l);
    lemma_others_detached(t.without_row(l), e);
    lemma_entered_idle(t.without_row(l), e, t.rows[l].exchanged(l, e));
}

proof fn lemma_optimized_idle(t: TableauModel, artificial: bool, pivots: nat)
    requires
        idle(t),
    ensures
        idle(t.optimized_within(artificial, pivots).0),
    decreases pivots,
{
    lemma_least_is_candidate(TableauModel::entering_candidates(t.goal(artificial)));
    if let Some(e) = TableauModel::entering(t.goal(artificial)) {
        if let Some(l) = t.leaving(e) {
            if pivots > 0 {
                lemma_pivoted_idle(t, l, e);
                lemma_optimized_idle(t.pivoted(l, e), artificial, (pivots - 1) as nat);
            }
        }
    }
}

proof fn lemma_dual_optimized_idle(t: TableauModel, steps: nat)
    requires
        idle(t),
    ensures
        idle(t.dual_optimized_within(steps).0),
    decreases steps,
{
    if let Some(l) = smallest(t.infeasible.dom()) {
        let rest = TableauModel { infeasible: t.infeasible.remove(l), ..t };
        assert(idle(rest)) by {
            assert forall|k: Symbol| #[trigger]
                rest.rows.contains_key(k) && k.sort() is Dummy implies idle_row(rest.rows[k]) by {
                assert(t.rows.contains_key(k));
            }
        }
        if steps > 0 {
            if t.rows.contains_key(l) && t.rows[l].constant.below(zero()) {
                lemma_least_is_candidate(t.dual_candidates(t.rows[l]));
                if let Some(e) = t.dual_entering(t.rows[l]) {
                    lemma_pivoted_idle(rest, l, e);
                    lemma_dual_optimized_idle(rest.pivoted(l, e), (steps - 1) as nat);
                }
            } else {
                lemma_dual_optimized_idle(rest, (steps - 1) as nat);
            }
        }
    }
}

proof fn lemma_purged_idle(t: TableauModel, s: Symbol)
    requires
        idle(t),
    ensures
        idle(t.purged(s)),
{
    let u = t.purged(s);
    assert forall|k: Symbol| #[trigger] u.rows.contains_key(k) && k.sort() is Dummy implies
        idle_row(u.rows[k]) by {
        assert(t.rows.contains_key(k));
        assert(u.rows[k] == t.rows[k].without(s));
        assert(idle_row(t.rows[k]));
    }
}

proof fn lemma_taken_in_idle(t: TableauModel, art: Symbol, row: RowModel)
    requires
        idle(t),
        !(art.sort() is Dummy),
    ensures
        idle(t.taken_in(art, row).0),
{
    let t0 = t.with_artificial(art, row);
    assert forall|k: Symbol| #[trigger] t0.rows.contains_key(k) && k.sort() is Dummy implies
        idle_row(t0.rows[k]) by {
        assert(t.rows.contains_key(k));
    }
    let t1 = t0.optimized(true).0;
    lemma_optimized_idle(t0, true, choose|pivots: nat| t0.ends_within(true, pivots));
    let t2 = TableauModel { artificial: None, ..t1 };
    assert(idle(t2)) by {
        assert forall|k: Symbol| #[trigger] t2.rows.contains_key(k) && k.sort() is Dummy implies
            idle_row(t2.rows[k]) by {
            assert(t1.rows.contains_key(k));
        }
    }
    lemma_without_row_idle(t2, art);
    lemma_purged_idle(t2, art);
    if t2.rows.contains_key(art) {
        let others = Set::new(|s: Symbol| t2.rows[art].cells.contains_key(s) && s.pivotable());
        lemma_smallest_is_member(others);
        if let Some(e) = TableauModel::any_pivotable(t2.rows[art]) {
            assert(others.contains(e));
            lemma_pivoted_idle(t2, art, e);
            lemma_purged_idle(t2.pivoted(art, e), art);
        }
    }
}

/// An addition, where nothing is rounded, leaves the dummies idle.
proof fn lemma_added_as_idle(z: Set<Number>, m: SolverModel, id: ConstraintId, c: ConstraintModel)
    requires
        exact(z),
        faithful(m),
        idle(m.tableau),
        m.has_room(c.terms.len() + 3),
        addition_within(m, c, z),
        m.added_as(id, c).1 is Ok,
    ensures
        idle(m.added_as(id, c).0.tableau),
{
    reveal(SolverModel::added_as);
    lemma_worth();
    let sign = lemma_created(z, m, c);
    let (b, row, tag) = m.created(c);
    let d = b.placed(row, tag).0;
    assert(idle(b.tableau)) by {
        assert forall|k: Symbol| #[trigger]
            b.tableau.rows.contains_key(k) && k.sort() is Dummy implies idle_row(
            b.tableau.rows[k],
        ) by {
            assert(m.tableau.rows.contains_key(k));
        }
    }
    let externals = Set::new(|s: Symbol| row.cells.contains_key(s) && s.external());
    lemma_smallest_is_member(externals);
    match entry_symbol(row, tag) {
        Some(s) => {
            if s.sort() is Dummy {
                assert(s == tag.marker && TableauModel::all_dummies(row));
                lemma_at_solved(z, row, s, tag.marker, None);
                let solved = row.solved_for(s);
                lemma_plain_product(at(row, Some(s)));
                lemma_cancel(at(solved, None), 0 as real, at(row, Some(s)));
                assert(TableauModel::all_dummies(solved));
                assert(detached(b.tableau, s)) by {
                    assert forall|k: Symbol| #[trigger]
                        b.tableau.rows.contains_key(k) && k.sort() is Dummy implies
                        !b.tableau.rows[k].cells.contains_key(s) by {
                        assert(m.tableau.rows.contains_key(k));
                        assert(TableauModel::row_below(m.tableau.rows[k], m.id_tick));
                    }
                }
            } else {
                lemma_others_detached(b.tableau, s);
            }
            lemma_entered_idle(b.tableau, s, row.solved_for(s));
        },
        None => {
            let art = symbol(b.id_tick, SymbolKind::Slack);
            lemma_taken_in_idle(b.tableau, art, row);
        },
    }
    lemma_optimized_idle(
        d.tableau,
        false,
        choose|pivots: nat| d.tableau.ends_within(false, pivots),
    );
}

/// An addition that succeeds, where nothing is rounded, leaves the dummies idle.
pub proof fn law_addition_leaves_dummies_idle(z: Set<Number>, m: SolverModel, c: ConstraintModel)
    requires
        exact(z),
        faithful(m),
        idle(m.tableau),
        m.has_room(weight(c) + 1),
        addition_within(handed(m), c, z),
        m.added(c).1 is Ok,
    ensures
        idle(m.added(c).0.tableau),
{
    lemma_handed(m);
    lemma_handed_faithful(m);
    lemma_added_as_idle(z, handed(m), m.next_id(), c);
}

/// The same of a variable that becomes an edit variable.
pub proof fn law_edit_addition_leaves_dummies_idle(
    z: Set<Number>,
    m: SolverModel,
    v: Variable,
    strength: Strength,
)
    requires
        exact(z),
        faithful(m),
        idle(m.tableau),
        m.has_room(6),
        addition_within(handed(m), SolverModel::edit_constraint(v, strength), z),
        m.edit_added(v, strength).1 is Ok,
    ensures
        idle(m.edit_added(v, strength).0.tableau),
{
    assert(weight(SolverModel::edit_constraint(v, strength)) == 5);
    law_addition_leaves_dummies_idle(z, m, SolverModel::edit_constraint(v, strength));
}

/// A removal leaves the dummies idle, unless it takes away an equation that makes another one
/// superfluous.
pub proof fn law_removal_leaves_dummies_idle(m: SolverModel, id: ConstraintId)
    requires
        idle(m.tableau),
        m.constraints.contains_key(id),
        detached(m.tableau, m.constraints[id].tag.marker) || m.tableau.rows.contains_key(
            m.constraints[id].tag.marker,
        ) || !(m.constraints[id].tag.marker.sort() is Dummy),
        m.removed(id).1 is Ok,
    ensures
        idle(m.removed(id).0.tableau),
{
    reveal(SolverModel::withdrawn);
    let entry = m.constraints[id];
    let marker = entry.tag.marker;
    let t = m.tableau.without_costs(entry.tag, entry.constraint.strength.value);
    assert(t.rows == m.tableau.rows);
    assert(idle(t)) by {
        assert forall|k: Symbol| #[trigger] t.rows.contains_key(k) && k.sort() is Dummy implies
            idle_row(t.rows[k]) by {
            assert(m.tableau.rows.contains_key(k));
        }
    }
    let u = t.without_marker(marker)->0;
    if t.rows.contains_key(marker) {
        lemma_without_row_idle(t, marker);
    } else {
        let s = t.marker_leaving(marker)->0;
        let rest = t.noted(TableauModel::nonzero(s, t.rows[s])).without_row(s);
        if !(marker.sort() is Dummy) {
            lemma_others_detached(t, marker);
        } else {
            assert(detached(m.tableau, marker));
        }
        assert(idle(rest) && detached(rest, marker)) by {
            assert forall|k: Symbol| #[trigger]
                rest.rows.contains_key(k) && k.sort() is Dummy implies idle_row(rest.rows[k])
                && !rest.rows[k].cells.contains_key(marker) by {
                assert(t.rows.contains_key(k) && m.tableau.rows.contains_key(k));
            }
        }
        lemma_substituted_idle(rest, marker, t.rows[s].exchanged(s, marker));
    }
    lemma_optimized_idle(u, false, choose|pivots: nat| u.ends_within(false, pivots));
    let a = SolverModel { tableau: u.optimized(false).0, ..m.unregistered(id) };
    lemma_released_rows(a, entry.constraint.terms);
    let end = m.removed(id).0.tableau;
    assert(end.rows == a.tableau.rows);
    assert forall|k: Symbol| #[trigger] end.rows.contains_key(k) && k.sort() is Dummy implies
        idle_row(end.rows[k]) by {
        assert(a.tableau.rows.contains_key(k));
    }
}

proof fn lemma_edited_idle(t: TableauModel, tag: Tag, delta: Number)
    requires
        idle(t),
        !(tag.marker.sort() is Dummy),
        tag.other matches Some(other) ==> !(other.sort() is Dummy),
    ensures
        idle(t.edited(tag, delta)),
{
    lemma_worth();
    let u = t.edited(tag, delta);
    assert forall|k: Symbol| #[trigger] u.rows.contains_key(k) && k.sort() is Dummy implies
        idle_row(u.rows[k]) by {
        assert(t.rows.contains_key(k));
        assert(idle_row(t.rows[k]));
    }
}

proof fn lemma_shifts_idle(m: SolverModel, values: Seq<(Variable, Number)>)
    requires
        faithful(m),
        idle(m.tableau),
        m.all_editable(values),
    ensures
        idle(m.shifted_all(values).tableau),
        forall|v: Variable| #[trigger]
            m.edits.contains_key(v) ==> m.shifted_all(values).edits[v].tag == m.edits[v].tag,
    decreases values.len(),
{
    if values.len() > 0 {
        let rest = values.drop_last();
        assert forall|i: int| 0 <= i < rest.len() implies m.edits.contains_key(
            (#[trigger] rest[i]).0,
        ) by {
            assert(rest[i] == values[i]);
        }
        lemma_shifts_idle(m, rest);
        let a = m.shifted_all(rest);
        let v = values[values.len() - 1].0;
        assert(m.edits.contains_key(v));
        assert(edit_settled(m, v));
        assert(shaped(m.constraints[m.edits[v].constraint_id].constraint, m.edits[v].tag));
        lemma_edited_idle(
            a.tableau,
            a.edits[v].tag,
            values.last().1.difference(a.edits[v].constant),
        );
    }
}

/// Suggestions leave the dummies idle.
pub proof fn law_suggestions_leave_dummies_idle(m: SolverModel, values: Seq<(Variable, Number)>)
    requires
        faithful(m),
        idle(m.tableau),
    ensures
        idle(m.suggested_all(values).0.tableau),
{
    if m.all_editable(values) {
        let n = m.shifted_all(values);
        lemma_shifts_idle(m, values);
        lemma_dual_optimized_idle(
            n.tableau,
            choose|steps: nat| n.tableau.dual_ends_within(steps),
        );
    }
}

/// With idle dummies the values meet all that is required: equations and inequalities.
pub proof fn law_all_required_is_met(z: Set<Number>, m: SolverModel, id: ConstraintId)
    requires
        exact(z),
        faithful(m),
        within(m.tableau, z),
        idle(m.tableau),
        m.constraints.contains_key(id),
        !soft(m.constraints[id].constraint),
    ensures
        met(m, m.constraints[id].constraint),
{
    lemma_worth();
    assert(settled(m, id, shift_of(m, id)));
    lemma_required_stays(m, id);
    law_errorless_is_met(z, m, id, 0 as real);
    let marker = m.constraints[id].tag.marker;
    if m.tableau.rows.contains_key(marker) && marker.sort() is Dummy {
        assert(idle_row(m.tableau.rows[marker]));
    }
}

} // verus!
