//! What every operation keeps: a sound system stays sound, its counters never run backwards, and
//! what is noted stays noted until it is handed out.
use crate::batch::{batch_weight, lemma_schedule, op_weight, schedule, OpModel, TicketModel};
use crate::choice::{lemma_least_is_candidate, lemma_smallest_is_member};
use crate::constraint::{ConstraintModel, Strength};
use crate::edits::lemma_edits_changed;
use crate::expression::{Term, Variable};
use crate::number::{zero, Number};
use crate::row::RowModel;
use crate::simplex::{
    lemma_accounted_noted, lemma_accounted_substituted, lemma_accounted_twice,
    lemma_accounted_without_row, lemma_alike, lemma_entered, lemma_exchanged_cells,
    lemma_joint_cells, lemma_pivoted, lemma_without_row, TableauModel, Tag,
};
use crate::solver_laws::lemma_absorbed_admissible;
use crate::symbol::{symbol, Symbol, SymbolKind, SYMBOL_LIMIT};
use crate::system::{
    admissible, contradictory, entry_symbol, lemma_absorbed_frame, lemma_added_as_frame,
    lemma_marked, lemma_next_tableau, lemma_registered, lemma_released, lemma_room_added,
    lemma_room_added_as, lemma_room_less, lemma_unregistered, total_weight, weight,
    ConstraintId, SolverModel,
};
use crate::tableau::{
    lemma_accounted_given_up, lemma_accounted_same_rows, lemma_below_zero, lemma_edited,
    lemma_purged, lemma_with_artificial,
};
use vstd::prelude::*;

verus! {

/// Whether a tableau comes from another by steps that keep it tidy and account for every change.
pub open spec fn advances(t: TableauModel, u: TableauModel, limit: nat) -> bool {
    &&& u.tidy()
    &&& u.all_below(limit)
    &&& t.accounted_in(u)
}

proof fn lemma_advances_twice(t: TableauModel, u: TableauModel, v: TableauModel, limit: nat)
    requires
        advances(t, u, limit),
        advances(u, v, limit),
    ensures
        advances(t, v, limit),
{
    lemma_accounted_twice(t, u, v);
}

/// Some pivots toward a minimum.
proof fn lemma_optimized_within_advances(t: TableauModel, artificial: bool, pivots: nat, limit: nat)
    requires
        t.tidy(),
        t.all_below(limit),
    ensures
        advances(t, t.optimized_within(artificial, pivots).0, limit),
    decreases pivots,
{
    lemma_accounted_noted(t, Set::empty());
    if let Some(entering) = TableauModel::entering(t.goal(artificial)) {
        if let Some(leaving) = t.leaving(entering) {
            if pivots > 0 {
                lemma_least_is_candidate(t.leaving_candidates(entering));
                lemma_below_zero();
                lemma_pivoted(t, leaving, entering, limit);
                let u = t.pivoted(leaving, entering);
                lemma_optimized_within_advances(u, artificial, (pivots - 1) as nat, limit);
                lemma_advances_twice(t, u, t.optimized_within(artificial, pivots).0, limit);
            }
        }
    }
}

/// Pivots toward a minimum.
pub proof fn lemma_optimized_advances(t: TableauModel, artificial: bool, limit: nat)
    requires
        t.tidy(),
        t.all_below(limit),
    ensures
        advances(t, t.optimized(artificial).0, limit),
{
    lemma_optimized_within_advances(
        t,
        artificial,
        choose|pivots: nat| t.ends_within(artificial, pivots),
        limit,
    );
}

/// Some steps toward feasibility.
proof fn lemma_dual_optimized_within_advances(t: TableauModel, steps: nat, limit: nat)
    requires
        t.tidy(),
        t.all_below(limit),
    ensures
        advances(t, t.dual_optimized_within(steps).0, limit),
    decreases steps,
{
    broadcast use vstd::multiset::group_multiset_axioms;

    lemma_accounted_noted(t, Set::empty());
    lemma_smallest_is_member(t.infeasible.dom());
    if let Some(leaving) = crate::choice::smallest(t.infeasible.dom()) {
        let rest = TableauModel { infeasible: t.infeasible.remove(leaving), ..t };
        assert(t.infeasible.count(leaving) > 0);
        assert(!leaving.external());
        assert(rest.tidy()) by {
            assert forall|s: Symbol| rest.infeasible.count(s) > 0 implies !#[trigger] s.external() by {
                assert(t.infeasible.count(s) > 0);
            }
            assert forall|k: Symbol| #[trigger] rest.rows.contains_key(k) implies rest.free_of_basics(
                rest.rows[k],
            ) by {
                assert(t.free_of_basics(t.rows[k]));
            }
        }
        lemma_accounted_same_rows(t, rest);
        assert(advances(t, rest, limit));
        if steps > 0 {
            if t.rows.contains_key(leaving) && t.rows[leaving].constant.below(zero()) {
                lemma_least_is_candidate(t.dual_candidates(t.rows[leaving]));
                match t.dual_entering(t.rows[leaving]) {
                    None => {
                        lemma_without_row(rest, leaving, limit);
                        lemma_accounted_without_row(rest, leaving);
                        lemma_advances_twice(t, rest, rest.without_row(leaving), limit);
                    },
                    Some(entering) => {
                        lemma_pivoted(rest, leaving, entering, limit);
                        let u = rest.pivoted(leaving, entering);
                        lemma_dual_optimized_within_advances(u, (steps - 1) as nat, limit);
                        lemma_advances_twice(t, rest, u, limit);
                        lemma_advances_twice(t, u, t.dual_optimized_within(steps).0, limit);
                    },
                }
            } else {
                lemma_dual_optimized_within_advances(rest, (steps - 1) as nat, limit);
                lemma_advances_twice(t, rest, t.dual_optimized_within(steps).0, limit);
            }
        }
    }
}

/// Pivots toward feasibility.
pub proof fn lemma_dual_optimized_advances(t: TableauModel, limit: nat)
    requires
        t.tidy(),
        t.all_below(limit),
    ensures
        advances(t, t.dual_optimized().0, limit),
{
    lemma_dual_optimized_within_advances(
        t,
        choose|steps: nat| t.dual_ends_within(steps),
        limit,
    );
}

/// A row is taken in by way of an artificial symbol.
pub proof fn lemma_taken_in_advances(t: TableauModel, art: Symbol, row: RowModel, limit: nat)
    requires
        t.tidy(),
        t.all_below(art.id()),
        art.id() < limit,
        t.free_of_basics(row),
        TableauModel::row_below(row, art.id()),
        !art.external(),
    ensures
        advances(t, t.taken_in(art, row).0, limit),
{
    let t0 = t.with_artificial(art, row);
    assert(!t.rows.contains_key(art));
    lemma_with_artificial(t, art, row, limit);
    let (t1, r) = t0.optimized(true);
    lemma_optimized_advances(t0, true, limit);
    lemma_advances_twice(t, t0, t1, limit);
    if r is Ok {
        let t2 = TableauModel { artificial: None, ..t1 };
        assert(t2.tidy()) by {
            assert forall|k: Symbol| #[trigger] t2.rows.contains_key(k) implies t2.free_of_basics(
                t2.rows[k],
            ) by {
                assert(t1.free_of_basics(t1.rows[k]));
            }
        }
        lemma_accounted_same_rows(t1, t2);
        lemma_advances_twice(t, t1, t2, limit);
        let t3 = t2.without_row(art);
        lemma_without_row(t2, art, limit);
        lemma_accounted_without_row(t2, art);
        lemma_advances_twice(t, t2, t3, limit);
        if t2.rows.contains_key(art) {
            if t2.rows[art].cells != Map::<Symbol, Number>::empty() {
                lemma_smallest_is_member(
                    Set::new(|s: Symbol| t2.rows[art].cells.contains_key(s) && s.pivotable()),
                );
                if let Some(entering) = TableauModel::any_pivotable(t2.rows[art]) {
                    let t4 = t2.pivoted(art, entering);
                    lemma_pivoted(t2, art, entering, limit);
                    lemma_advances_twice(t, t2, t4, limit);
                    lemma_purged(t4, art, limit);
                    lemma_advances_twice(t, t4, t4.purged(art), limit);
                }
            }
        } else {
            lemma_purged(t2, art, limit);
            lemma_advances_twice(t, t2, t2.purged(art), limit);
        }
    }
}

proof fn lemma_without_cost_advances(t: TableauModel, s: Symbol, strength: Number, limit: nat)
    requires
        t.tidy(),
        t.all_below(limit),
        s.id() < limit,
    ensures
        advances(t, t.without_cost(s, strength), limit),
{
    let u = t.without_cost(s, strength);
    lemma_accounted_same_rows(t, u);
    let o = u.objective;
    if t.rows.contains_key(s) {
        assert(t.free_of_basics(t.rows[s]));
        assert forall|k: Symbol| #[trigger] o.cells.contains_key(k) implies !t.rows.contains_key(k)
            && k.id() < limit by {
            lemma_joint_cells(t.objective, t.rows[s], strength.negation(), k);
        }
    }
    assert forall|k: Symbol| #[trigger] u.rows.contains_key(k) implies u.free_of_basics(
        u.rows[k],
    ) by {
        assert(t.free_of_basics(t.rows[k]));
    }
}

/// The costs of a constraint go.
pub proof fn lemma_without_costs_advances(t: TableauModel, tag: Tag, strength: Number, limit: nat)
    requires
        t.tidy(),
        t.all_below(limit),
        SolverModel::tag_below(tag, limit),
    ensures
        advances(t, t.without_costs(tag, strength), limit),
{
    lemma_accounted_noted(t, Set::empty());
    let u = if tag.marker.sort() is Error {
        t.without_cost(tag.marker, strength)
    } else {
        t
    };
    if tag.marker.sort() is Error {
        lemma_without_cost_advances(t, tag.marker, strength, limit);
    }
    if let Some(other) = tag.other {
        if other.sort() is Error {
            lemma_without_cost_advances(u, other, strength, limit);
            lemma_advances_twice(t, u, t.without_costs(tag, strength), limit);
        }
    }
}

/// The equation of a marker goes.
pub proof fn lemma_without_marker_advances(t: TableauModel, marker: Symbol, limit: nat)
    requires
        t.tidy(),
        t.all_below(limit),
        !marker.external(),
    ensures
        t.without_marker(marker) matches Some(u) ==> advances(t, u, limit),
{
    if t.rows.contains_key(marker) {
        lemma_without_row(t, marker, limit);
        lemma_accounted_without_row(t, marker);
    } else if let Some(s) = t.marker_leaving(marker) {
        lemma_least_is_candidate(t.marker_first(marker));
        lemma_least_is_candidate(t.marker_second(marker));
        lemma_smallest_is_member(t.marker_third(marker));
        lemma_below_zero();
        assert(t.rows.contains_key(s));
        assert(t.rows[s].cells.contains_key(marker));
        lemma_pivoted(t, s, marker, limit);
        let t1 = t.noted(TableauModel::nonzero(s, t.rows[s]));
        assert(t1.tidy() && t1.all_below(limit)) by {
            assert(t1.rows == t.rows && t1.objective == t.objective && t1.artificial
                == t.artificial);
        }
        let u = t1.without_row(s);
        let row = t.rows[s].exchanged(s, marker);
        lemma_without_row(t1, s, limit);
        assert(t1.free_of_basics(t1.rows[s]));
        assert forall|k: Symbol| #[trigger] row.cells.contains_key(k) implies !u.rows.contains_key(k)
            && k != marker && k.id() < limit by {
            lemma_exchanged_cells(t1.rows[s], s, marker, k);
        }
        lemma_entered(u, marker, row, limit);
        lemma_accounted_given_up(t, s);
        lemma_accounted_substituted(u, marker, row);
        lemma_accounted_twice(t, u, u.substituted(marker, row));
    }
}

impl SolverModel {
    /// Whether a change of a variable is noted and was not handed out yet.
    pub open spec fn noted_change(self, v: Variable) -> bool {
        !self.tableau.reported && self.tableau.changed.contains(v)
    }

    /// Whether a variable is known to two systems by the same symbol, with the same value handed
    /// out last.
    pub open spec fn kept_in(self, after: SolverModel, v: Variable) -> bool {
        &&& self.var_data.contains_key(v)
        &&& after.var_data.contains_key(v)
        &&& after.var_data[v].symbol == self.var_data[v].symbol
        &&& after.var_data[v].value == self.var_data[v].value
    }

    /// Whether a variable was taken up since: its symbol is newer than the system, and nothing was
    /// handed out of it.
    pub open spec fn taken_up_in(self, after: SolverModel, v: Variable) -> bool {
        &&& after.var_data.contains_key(v)
        &&& after.var_data[v].symbol.id() >= self.id_tick
        &&& after.var_data[v].value.nan()
    }

    /// Whether another system comes after this one, with nothing handed out in between. Counters
    /// do not run backwards, what is noted stays noted, and each variable was kept or taken up
    /// since.
    pub open spec fn leads_to(self, after: SolverModel) -> bool {
        &&& self.id_tick <= after.id_tick
        &&& self.next_constraint_id <= after.next_constraint_id
        &&& forall|v: Variable| #[trigger] self.noted_change(v) ==> after.noted_change(v)
        &&& forall|v: Variable| #[trigger]
            after.var_data.contains_key(v) ==> self.kept_in(after, v) || self.taken_up_in(after, v)
    }
}

/// A system leads to itself.
pub proof fn lemma_leads_to_itself(m: SolverModel)
    ensures
        m.leads_to(m),
{
}

/// What leads there in two steps leads there.
pub proof fn lemma_leads_to_twice(a: SolverModel, b: SolverModel, c: SolverModel)
    requires
        a.leads_to(b),
        b.leads_to(c),
    ensures
        a.leads_to(c),
{
    assert forall|v: Variable| #[trigger] a.noted_change(v) implies c.noted_change(v) by {
        assert(b.noted_change(v));
    }
    assert forall|v: Variable| #[trigger] c.var_data.contains_key(v) implies a.kept_in(c, v)
        || a.taken_up_in(c, v) by {
        if b.kept_in(c, v) {
            assert(b.var_data.contains_key(v));
        }
    }
}

/// A tableau that advances leads on.
proof fn lemma_tableau_leads(m: SolverModel, t: TableauModel, limit: nat)
    requires
        m.sound(),
        advances(m.tableau, t, limit),
        limit >= m.id_tick,
    ensures
        (SolverModel { tableau: t, id_tick: limit, ..m }).sound(),
        m.leads_to(SolverModel { tableau: t, id_tick: limit, ..m }),
{
    let u = SolverModel { tableau: t, id_tick: limit, ..m };
    lemma_next_tableau(m, t, limit);
    assert forall|v: Variable| #[trigger] u.var_data.contains_key(v) implies m.kept_in(u, v) by {}
}

/// One more reference leads on.
proof fn lemma_referred_leads(m: SolverModel, v: Variable)
    requires
        m.id_tick < SYMBOL_LIMIT,
    ensures
        m.leads_to(m.referred(v)),
{
    let u = m.referred(v);
    let s = symbol(m.id_tick, SymbolKind::External);
    assert(s.id() == m.id_tick);
    assert forall|w: Variable| #[trigger] u.var_data.contains_key(w) implies m.kept_in(u, w)
        || m.taken_up_in(u, w) by {
        if w != v {
            assert(m.var_data.contains_key(w));
        }
    }
}

/// Absorbing terms leads on.
proof fn lemma_absorbed_leads(m: SolverModel, row: RowModel, terms: Seq<Term>, n: nat)
    requires
        m.sound(),
        m.has_room(n + terms.len()),
        admissible(m, row),
    ensures
        m.leads_to(m.absorbed(row, terms).0),
    decreases terms.len(),
{
    lemma_leads_to_itself(m);
    if terms.len() > 0 {
        let rest = terms.drop_last();
        lemma_absorbed_leads(m, row, rest, n + 1);
        lemma_absorbed_admissible(m, row, rest, n + 1);
        let a = m.absorbed(row, rest).0;
        lemma_referred_leads(a, terms.last().variable);
        lemma_leads_to_twice(m, a, a.referred(terms.last().variable));
    }
}

/// A constraint is added under a handle.
pub proof fn lemma_added_as_leads(m: SolverModel, id: ConstraintId, c: ConstraintModel)
    requires
        m.sound(),
        m.has_room(c.terms.len() + 3),
        id.number() < m.next_constraint_id,
    ensures
        m.added_as(id, c).0.sound(),
        m.leads_to(m.added_as(id, c).0),
{
    reveal(SolverModel::added_as);
    lemma_leads_to_itself(m);
    if !m.knows(id, c) {
        let start = RowModel::only(c.constant);
        lemma_absorbed_admissible(m, start, c.terms, 3);
        lemma_absorbed_leads(m, start, c.terms, 3);
        lemma_absorbed_frame(m, start, c.terms);
        let (a, r) = m.absorbed(start, c.terms);
        lemma_marked(a, r, c, 1);
        let (b, r2, tag) = a.marked(r, c);
        assert(a.leads_to(b)) by {
            assert(b.var_data == a.var_data && b.tableau.changed == a.tableau.changed
                && b.tableau.reported == a.tableau.reported);
            assert forall|v: Variable| #[trigger] b.var_data.contains_key(v) implies a.kept_in(
                b,
                v,
            ) by {}
        }
        lemma_leads_to_twice(m, a, b);
        let row = m.created(c).1;
        assert forall|s: Symbol| #[trigger] row.cells.contains_key(s) <==> r2.cells.contains_key(
            s,
        ) by {}
        lemma_placed_leads(b, row, tag);
        let d = b.placed(row, tag).0;
        lemma_leads_to_twice(m, b, d);
        if b.placed(row, tag).1 == Ok::<bool, crate::error::InternalSolverError>(true) {
            lemma_registered(d, id, c, tag);
            let e = d.registered(id, c, tag);
            assert(d.leads_to(e)) by {
                assert forall|v: Variable| #[trigger] e.var_data.contains_key(v) implies d.kept_in(
                    e,
                    v,
                ) by {}
            }
            lemma_leads_to_twice(m, d, e);
            lemma_optimized_leads(e);
            lemma_leads_to_twice(m, e, e.optimized().0);
        }
    }
}

proof fn lemma_optimized_leads(m: SolverModel)
    requires
        m.sound(),
    ensures
        m.optimized().0.sound(),
        m.leads_to(m.optimized().0),
{
    lemma_optimized_advances(m.tableau, false, m.id_tick);
    lemma_tableau_leads(m, m.optimized().0.tableau, m.id_tick);
}

proof fn lemma_placed_leads(m: SolverModel, row: RowModel, tag: Tag)
    requires
        m.sound(),
        m.has_room(1),
        admissible(m, row),
        SolverModel::tag_below(tag, m.id_tick),
        row.cells.contains_key(tag.marker),
    ensures
        m.placed(row, tag).0.sound(),
        m.leads_to(m.placed(row, tag).0),
        m.placed(row, tag).0.constraints == m.constraints,
        m.placed(row, tag).0.constraint_ids == m.constraint_ids,
        m.placed(row, tag).0.next_constraint_id == m.next_constraint_id,
        m.placed(row, tag).0.id_tick >= m.id_tick,
        SolverModel::tag_below(tag, m.placed(row, tag).0.id_tick),
{
    lemma_leads_to_itself(m);
    if !contradictory(row, tag) {
        lemma_smallest_is_member(
            Set::new(|s: Symbol| row.cells.contains_key(s) && s.external()),
        );
        lemma_below_zero();
        match entry_symbol(row, tag) {
            Some(s) => {
                assert(row.cells.contains_key(s));
                let solved = row.solved_for(s);
                assert forall|k: Symbol| #[trigger]
                    solved.cells.contains_key(k) implies row.cells.contains_key(k) && k != s by {}
                lemma_entered(m.tableau, s, solved, m.id_tick);
                lemma_tableau_leads(m, m.tableau.entered(s, solved), m.id_tick);
            },
            None => {
                let art = symbol(m.id_tick, SymbolKind::Slack);
                assert(art.id() == m.id_tick && !art.external());
                lemma_taken_in_advances(m.tableau, art, row, m.id_tick + 1);
                lemma_tableau_leads(m, m.tableau.taken_in(art, row).0, m.id_tick + 1);
            },
        }
    }
}

/// A constraint is added.
pub proof fn lemma_added_leads(m: SolverModel, c: ConstraintModel)
    requires
        m.sound(),
        m.has_room(weight(c)),
    ensures
        m.added(c).0.sound(),
        m.leads_to(m.added(c).0),
{
    let n = SolverModel { next_constraint_id: m.next_constraint_id + 1, ..m };
    assert(n.sound()) by {
        assert forall|v: Variable| #[trigger] n.var_data.contains_key(v) implies n.caught(v) by {
            assert(m.caught(v));
        }
    }
    assert(m.leads_to(n)) by {
        assert forall|v: Variable| #[trigger] n.var_data.contains_key(v) implies m.kept_in(n, v) by {}
    }
    lemma_added_as_leads(n, m.next_id(), c);
    lemma_leads_to_twice(m, n, m.added(c).0);
}

/// Constraints are added.
pub proof fn lemma_added_all_leads(m: SolverModel, cs: Seq<ConstraintModel>, n: nat)
    requires
        m.sound(),
        m.has_room(n + total_weight(cs)),
    ensures
        m.added_all(cs).0.sound(),
        m.added_all(cs).0.has_room(n),
        m.leads_to(m.added_all(cs).0),
    decreases cs.len(),
{
    lemma_leads_to_itself(m);
    if cs.len() > 0 {
        let w = weight(cs.last());
        lemma_added_all_leads(m, cs.drop_last(), n + w);
        let a = m.added_all(cs.drop_last()).0;
        lemma_room_less(a, n + w, n);
        lemma_room_less(a, n + w, w);
        lemma_added_leads(a, cs.last());
        lemma_room_added(a, cs.last(), n);
        lemma_leads_to_twice(m, a, a.added(cs.last()).0);
    }
}

proof fn lemma_released_leads(m: SolverModel, terms: Seq<Term>)
    requires
        m.sound(),
    ensures
        m.leads_to(m.released(terms)),
        m.released(terms).tableau.rows == m.tableau.rows,
        m.released(terms).tableau.changed == m.tableau.changed,
        m.released(terms).tableau.reported == m.tableau.reported,
    decreases terms.len(),
{
    lemma_leads_to_itself(m);
    if terms.len() > 0 {
        let rest = terms.drop_last();
        lemma_released_leads(m, rest);
        let a = m.released(rest);
        let b = m.released(terms);
        assert(a.leads_to(b)) by {
            assert forall|v: Variable| #[trigger] b.var_data.contains_key(v) implies a.kept_in(
                b,
                v,
            ) by {}
        }
        lemma_leads_to_twice(m, a, b);
    }
}

/// Whether every move of a variable's value is noted, or was undone.
pub open spec fn moves_noted(m: SolverModel, u: SolverModel) -> bool {
    forall|v: Variable| #[trigger]
        m.var_data.contains_key(v) ==> m.tableau.value(m.var_data[v].symbol).alike(
            u.tableau.value(m.var_data[v].symbol),
        ) || u.noted_change(v)
}

/// A constraint is removed.
pub proof fn lemma_removed_leads(m: SolverModel, id: ConstraintId)
    requires
        m.sound(),
    ensures
        m.removed(id).0.sound(),
        m.leads_to(m.removed(id).0),
        moves_noted(m, m.removed(id).0),
        forall|n: nat| m.has_room(n) ==> #[trigger] m.removed(id).0.has_room(n),
{
    reveal(SolverModel::withdrawn);
    lemma_leads_to_itself(m);
    let u = m.removed(id).0;
    if !m.constraints.contains_key(id) {
        assert forall|v: Variable| #[trigger] m.var_data.contains_key(v) implies m.tableau.value(
            m.var_data[v].symbol,
        ).alike(u.tableau.value(m.var_data[v].symbol)) by {
            lemma_alike(m.tableau.value(m.var_data[v].symbol));
        }
    } else {
        let entry = m.constraints[id];
        let (c, tag) = (entry.constraint, entry.tag);
        let g = m.unregistered(id);
        lemma_unregistered(m, id);
        assert(m.leads_to(g)) by {
            assert forall|v: Variable| #[trigger] g.var_data.contains_key(v) implies m.kept_in(
                g,
                v,
            ) by {}
        }
        let k = m.id_tick;
        let t1 = g.tableau.without_costs(tag, c.strength.value);
        lemma_without_costs_advances(g.tableau, tag, c.strength.value, k);
        lemma_without_marker_advances(t1, tag.marker, k);
        match t1.without_marker(tag.marker) {
            None => {
                lemma_tableau_leads(g, t1, k);
                lemma_leads_to_twice(m, g, u);
                lemma_moves_noted(m, t1, u);
            },
            Some(t2) => {
                lemma_advances_twice(g.tableau, t1, t2, k);
                lemma_tableau_leads(g, t2, k);
                let h = SolverModel { tableau: t2, ..g };
                lemma_leads_to_twice(m, g, h);
                lemma_optimized_advances(t2, false, k);
                lemma_optimized_leads(h);
                let o = h.optimized().0;
                lemma_leads_to_twice(m, h, o);
                lemma_advances_twice(g.tableau, t2, o.tableau, k);
                if h.optimized().1 is Ok {
                    lemma_released(o, c.terms);
                    lemma_released_leads(o, c.terms);
                    lemma_leads_to_twice(m, o, u);
                    assert forall|n: nat| m.has_room(n) implies #[trigger] u.has_room(n) by {
                        assert(o.has_room(n));
                    }
                }
                lemma_moves_noted(m, o.tableau, u);
            },
        }
    }
}

proof fn lemma_moves_noted(m: SolverModel, t: TableauModel, u: SolverModel)
    requires
        m.sound(),
        m.tableau.accounted_in(t),
        u.tableau.rows == t.rows,
        u.tableau.changed == t.changed,
        u.tableau.reported == t.reported,
    ensures
        moves_noted(m, u),
{
    assert forall|v: Variable| #[trigger] m.var_data.contains_key(v) implies m.tableau.value(
        m.var_data[v].symbol,
    ).alike(u.tableau.value(m.var_data[v].symbol)) || u.noted_change(v) by {
        let s = m.var_data[v].symbol;
        assert(m.tableau.owners.contains_key(s));
        assert(u.tableau.value(s) == t.value(s));
    }
}

/// An edit variable is added.
pub proof fn lemma_edit_added_leads(m: SolverModel, v: Variable, strength: Strength)
    requires
        m.sound(),
        m.has_room(5),
    ensures
        m.edit_added(v, strength).0.sound(),
        m.leads_to(m.edit_added(v, strength).0),
{
    lemma_leads_to_itself(m);
    let c = SolverModel::edit_constraint(v, strength);
    assert(weight(c) == 5);
    lemma_added_leads(m, c);
    let n = SolverModel { next_constraint_id: m.next_constraint_id + 1, ..m };
    lemma_added_as_frame(n, m.next_id(), c);
    let a = m.added(c).0;
    let u = m.edit_added(v, strength).0;
    if m.edit_added(v, strength).1 is Ok {
        assert(a.constraints.contains_key(m.next_id()));
        assert forall|w: Variable| #[trigger] u.edits.contains_key(w) implies SolverModel::tag_below(
            u.edits[w].tag,
            u.id_tick,
        ) by {
            if w != v {
                assert(a.edits.contains_key(w));
            }
        }
        lemma_edits_changed(a, u);
        assert(a.leads_to(u)) by {
            assert forall|w: Variable| #[trigger] u.var_data.contains_key(w) implies a.kept_in(
                u,
                w,
            ) by {}
        }
        lemma_leads_to_twice(m, a, u);
    }
}

/// An edit variable is removed.
pub proof fn lemma_edit_removed_leads(m: SolverModel, v: Variable)
    requires
        m.sound(),
    ensures
        m.edit_removed(v).0.sound(),
        m.leads_to(m.edit_removed(v).0),
        moves_noted(m, m.edit_removed(v).0),
{
    lemma_leads_to_itself(m);
    if m.edits.contains_key(v) {
        let a = SolverModel { edits: m.edits.remove(v), ..m };
        assert forall|w: Variable| #[trigger] a.edits.contains_key(w) implies SolverModel::tag_below(
            a.edits[w].tag,
            a.id_tick,
        ) by {
            assert(m.edits.contains_key(w));
        }
        lemma_edits_changed(m, a);
        assert(m.leads_to(a)) by {
            assert forall|w: Variable| #[trigger] a.var_data.contains_key(w) implies m.kept_in(
                a,
                w,
            ) by {}
        }
        lemma_removed_leads(a, m.edits[v].constraint_id);
        let u = a.removed(m.edits[v].constraint_id).0;
        lemma_leads_to_twice(m, a, u);
        assert forall|w: Variable| #[trigger] m.var_data.contains_key(w) implies m.tableau.value(
            m.var_data[w].symbol,
        ).alike(u.tableau.value(m.var_data[w].symbol)) || u.noted_change(w) by {
            assert(a.var_data.contains_key(w));
        }
    } else {
        let u = m.edit_removed(v).0;
        assert forall|w: Variable| #[trigger] m.var_data.contains_key(w) implies m.tableau.value(
            m.var_data[w].symbol,
        ).alike(u.tableau.value(m.var_data[w].symbol)) by {
            lemma_alike(m.tableau.value(m.var_data[w].symbol));
        }
    }
}

/// The equation of an edit variable moves.
pub proof fn lemma_shifted_leads(m: SolverModel, v: Variable, value: Number)
    requires
        m.sound(),
        m.edits.contains_key(v),
    ensures
        m.shifted(v, value).sound(),
        m.leads_to(m.shifted(v, value)),
        m.shifted(v, value).edits.dom() == m.edits.dom(),
{
    let info = m.edits[v];
    let delta = value.difference(info.constant);
    lemma_edited(m.tableau, info.tag, delta, m.id_tick);
    let t = m.tableau.edited(info.tag, delta);
    lemma_tableau_leads(m, t, m.id_tick);
    let a = SolverModel { tableau: t, ..m };
    let u = m.shifted(v, value);
    assert(u.edits.dom() =~= m.edits.dom());
    assert forall|w: Variable| #[trigger] u.edits.contains_key(w) implies SolverModel::tag_below(
        u.edits[w].tag,
        u.id_tick,
    ) by {
        assert(m.edits.contains_key(w));
    }
    lemma_edits_changed(a, u);
    assert(a.leads_to(u)) by {
        assert forall|w: Variable| #[trigger] u.var_data.contains_key(w) implies a.kept_in(u, w) by {}
    }
    lemma_leads_to_twice(m, a, u);
}

proof fn lemma_shifted_all_leads(m: SolverModel, values: Seq<(Variable, Number)>)
    requires
        m.sound(),
        m.all_editable(values),
    ensures
        m.shifted_all(values).sound(),
        m.leads_to(m.shifted_all(values)),
        m.shifted_all(values).edits.dom() == m.edits.dom(),
    decreases values.len(),
{
    lemma_leads_to_itself(m);
    if values.len() > 0 {
        let rest = values.drop_last();
        assert forall|i: int| 0 <= i < rest.len() implies m.edits.contains_key(
            (#[trigger] rest[i]).0,
        ) by {
            assert(rest[i] == values[i]);
        }
        lemma_shifted_all_leads(m, rest);
        assert(m.edits.contains_key(values[values.len() - 1].0));
        let a = m.shifted_all(rest);
        assert(a.edits.dom().contains(values.last().0));
        lemma_shifted_leads(a, values.last().0, values.last().1);
        lemma_leads_to_twice(m, a, m.shifted_all(values));
    }
}

/// Values are suggested.
pub proof fn lemma_suggested_all_leads(m: SolverModel, values: Seq<(Variable, Number)>)
    requires
        m.sound(),
    ensures
        m.suggested_all(values).0.sound(),
        m.leads_to(m.suggested_all(values).0),
{
    lemma_leads_to_itself(m);
    if m.all_editable(values) {
        lemma_shifted_all_leads(m, values);
        let a = m.shifted_all(values);
        lemma_dual_optimized_advances(a.tableau, a.id_tick);
        lemma_tableau_leads(a, a.rebalanced().0.tableau, a.id_tick);
        lemma_leads_to_twice(m, a, a.rebalanced().0);
    }
}

/// A change of a batch is made.
pub proof fn lemma_stepped_leads(
    m: SolverModel,
    op: OpModel,
    index: usize,
    done: crate::batch::BatchModel,
    n: nat,
)
    requires
        m.sound(),
        m.has_room(n + op_weight(op)),
    ensures
        m.stepped(op, index, done).0.sound(),
        m.stepped(op, index, done).0.has_room(n),
        m.leads_to(m.stepped(op, index, done).0),
{
    lemma_room_less(m, n + op_weight(op), op_weight(op));
    lemma_room_less(m, n + op_weight(op), n);
    match op {
        OpModel::Remove(id) => {
            lemma_removed_leads(m, id);
        },
        OpModel::Update { id, constraint } => {
            lemma_removed_leads(m, id);
            let a = m.removed(id).0;
            assert(a.has_room(n + op_weight(op)));
            lemma_room_less(a, n + op_weight(op), n);
            lemma_room_less(a, n + op_weight(op), constraint.terms.len() + 3);
            lemma_room_less(a, n + op_weight(op), n + constraint.terms.len() + 3);
            if m.removed(id).1 is Ok {
                assert(m.constraints.contains_key(id));
                lemma_added_as_leads(a, id, constraint);
                lemma_room_added_as(a, id, constraint, n);
                lemma_leads_to_twice(m, a, a.added_as(id, constraint).0);
            }
        },
        OpModel::Add(c) => {
            lemma_added_leads(m, c);
            lemma_room_added(m, c, n);
        },
    }
}

/// Changes of a batch are made.
pub proof fn lemma_applied_leads(m: SolverModel, ops: Seq<OpModel>, ts: Seq<TicketModel>, n: nat)
    requires
        m.sound(),
        m.has_room(n + crate::batch::burden(ops, ts)),
    ensures
        m.applied(ops, ts).0.sound(),
        m.applied(ops, ts).0.has_room(n),
        m.leads_to(m.applied(ops, ts).0),
    decreases ts.len(),
{
    lemma_leads_to_itself(m);
    if ts.len() > 0 {
        let rest = ts.drop_last();
        let op = ops[ts.last().index as int];
        lemma_applied_leads(m, ops, rest, n + op_weight(op));
        let a = m.applied(ops, rest).0;
        lemma_room_less(a, n + op_weight(op), n);
        if let Ok(done) = m.applied(ops, rest).1 {
            lemma_stepped_leads(a, op, ts.last().index, done, n);
            lemma_leads_to_twice(m, a, m.applied(ops, ts).0);
        }
    }
}

/// A batch is applied.
pub proof fn lemma_batched_leads(m: SolverModel, ops: Seq<OpModel>)
    requires
        m.sound(),
        ops.len() <= usize::MAX,
        m.has_room(batch_weight(ops)),
    ensures
        m.batched(ops).0.sound(),
        m.leads_to(m.batched(ops).0),
{
    let s = schedule(ops);
    lemma_schedule(ops);
    crate::batch::lemma_burden_reordered(ops, s, crate::batch::tickets(ops));
    crate::batch::lemma_burden_whole(ops, ops.len() as int);
    assert(crate::batch::tickets(ops).take(ops.len() as int) =~= crate::batch::tickets(ops));
    assert(ops.take(ops.len() as int) =~= ops);
    lemma_applied_leads(m, ops, s, 0);
}

} // verus!
