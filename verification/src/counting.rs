//! Counting: a variable is known for as long as a constraint refers to it.
use crate::constraint::ConstraintModel;
use crate::expression::{Term, Variable};
use crate::row::RowModel;
use crate::system::{
    lemma_absorbed_frame, lemma_withdrawn_frame, ConstraintId, EntryModel, SolverModel,
};
use vstd::prelude::*;

verus! {

/// How often terms refer to a variable; a term near zero does not.
pub open spec fn occurrences(terms: Seq<Term>, v: Variable) -> nat
    decreases terms.len(),
{
    if terms.len() == 0 {
        0
    } else {
        occurrences(terms.drop_last(), v) + if terms.last().variable == v
            && !terms.last().coefficient.negligible() {
            1nat
        } else {
            0
        }
    }
}

/// How often constraints refer to a variable.
pub open spec fn references(
    entries: Map<ConstraintId, EntryModel>,
    ids: Seq<ConstraintId>,
    v: Variable,
) -> nat
    decreases ids.len(),
{
    if ids.len() == 0 {
        0
    } else {
        references(entries, ids.drop_last(), v) + occurrences(
            entries[ids.last()].constraint.terms,
            v,
        )
    }
}

/// How often a variable is noted to be referred to.
pub open spec fn noted_count(m: SolverModel, v: Variable) -> nat {
    if m.var_data.contains_key(v) {
        m.var_data[v].count as nat
    } else {
        0
    }
}

/// Whether handles list the constraints of a system.
pub open spec fn lists_all(m: SolverModel, ids: Seq<ConstraintId>) -> bool {
    &&& ids.no_duplicates()
    &&& forall|id: ConstraintId| #[trigger]
        m.constraints.contains_key(id) <==> ids.contains(id)
}

/// Whether each variable is noted at least as often as the constraints refer to it.
pub open spec fn counts(m: SolverModel, ids: Seq<ConstraintId>) -> bool {
    &&& lists_all(m, ids)
    &&& forall|v: Variable| #[trigger]
        references(m.constraints, ids, v) <= noted_count(m, v)
}

/// Whether no variable is forgotten that a constraint refers to.
pub open spec fn counted(m: SolverModel) -> bool {
    exists|ids: Seq<ConstraintId>| counts(m, ids)
}

proof fn lemma_absorbed_counts(m: SolverModel, row: RowModel, terms: Seq<Term>, n: nat)
    requires
        m.has_room(n + terms.len()),
    ensures
        forall|v: Variable| #[trigger]
            noted_count(m.absorbed(row, terms).0, v) == noted_count(m, v) + occurrences(terms, v),
    decreases terms.len(),
{
    if terms.len() > 0 {
        let rest = terms.drop_last();
        lemma_absorbed_counts(m, row, rest, n + 1);
        lemma_occurrences_bound(rest);
        let a = m.absorbed(row, rest).0;
        let u = m.absorbed(row, terms).0;
        assert forall|v: Variable| #[trigger] noted_count(u, v) == noted_count(m, v) + occurrences(
            terms,
            v,
        ) by {
            assert(noted_count(a, v) == noted_count(m, v) + occurrences(rest, v));
            assert(occurrences(rest, v) <= rest.len());
            if m.var_data.contains_key(v) {
                assert(m.var_data[v].count + (n + terms.len()) <= u64::MAX);
            }
        }
    }
}

proof fn lemma_occurrences_bound(terms: Seq<Term>)
    ensures
        forall|v: Variable| #[trigger] occurrences(terms, v) <= terms.len(),
    decreases terms.len(),
{
    if terms.len() > 0 {
        lemma_occurrences_bound(terms.drop_last());
        assert forall|v: Variable| #[trigger] occurrences(terms, v) <= terms.len() by {
            assert(occurrences(terms.drop_last(), v) <= terms.drop_last().len());
        }
    }
}

proof fn lemma_released_counts(m: SolverModel, terms: Seq<Term>)
    ensures
        forall|v: Variable| #[trigger]
            noted_count(m.released(terms), v) + occurrences(terms, v) >= noted_count(m, v),
    decreases terms.len(),
{
    if terms.len() > 0 {
        let rest = terms.drop_last();
        lemma_released_counts(m, rest);
        let a = m.released(rest);
        let u = m.released(terms);
        assert forall|v: Variable| #[trigger] noted_count(u, v) + occurrences(terms, v)
            >= noted_count(m, v) by {
            assert(noted_count(a, v) + occurrences(rest, v) >= noted_count(m, v));
        }
    }
}

proof fn lemma_same_references(
    a: Map<ConstraintId, EntryModel>,
    b: Map<ConstraintId, EntryModel>,
    ids: Seq<ConstraintId>,
    v: Variable,
)
    requires
        forall|i: int| 0 <= i < ids.len() ==> b[#[trigger] ids[i]] == a[ids[i]],
    ensures
        references(b, ids, v) == references(a, ids, v),
    decreases ids.len(),
{
    if ids.len() > 0 {
        let rest = ids.drop_last();
        assert forall|i: int| 0 <= i < rest.len() implies b[#[trigger] rest[i]] == a[rest[i]] by {
            assert(rest[i] == ids[i]);
        }
        lemma_same_references(a, b, rest, v);
        assert(b[ids[ids.len() - 1]] == a[ids[ids.len() - 1]]);
    }
}

proof fn lemma_references_remove(
    entries: Map<ConstraintId, EntryModel>,
    ids: Seq<ConstraintId>,
    i: int,
    v: Variable,
)
    requires
        0 <= i < ids.len(),
    ensures
        references(entries, ids.remove(i), v) + occurrences(
            entries[ids[i]].constraint.terms,
            v,
        ) == references(entries, ids, v),
    decreases ids.len(),
{
    let rest = ids.drop_last();
    if i == ids.len() - 1 {
        assert(ids.remove(i) =~= rest);
    } else {
        lemma_references_remove(entries, rest, i, v);
        assert(ids.remove(i).drop_last() =~= rest.remove(i));
        assert(ids.remove(i).last() == ids.last());
    }
}

/// A constraint refers to a variable as often as its terms do.
proof fn lemma_references_one(
    entries: Map<ConstraintId, EntryModel>,
    ids: Seq<ConstraintId>,
    i: int,
    v: Variable,
)
    requires
        0 <= i < ids.len(),
    ensures
        references(entries, ids, v) >= occurrences(entries[ids[i]].constraint.terms, v),
{
    lemma_references_remove(entries, ids, i, v);
}

proof fn lemma_occurs(terms: Seq<Term>, i: int)
    requires
        0 <= i < terms.len(),
        !terms[i].coefficient.negligible(),
    ensures
        occurrences(terms, terms[i].variable) > 0,
    decreases terms.len(),
{
    if i < terms.len() - 1 {
        lemma_occurs(terms.drop_last(), i);
    }
}

/// A variable that a constraint refers to is known.
pub proof fn lemma_counted_known(m: SolverModel, id: ConstraintId, i: int)
    requires
        counted(m),
        m.constraints.contains_key(id),
        0 <= i < m.constraints[id].constraint.terms.len(),
        !m.constraints[id].constraint.terms[i].coefficient.negligible(),
    ensures
        m.var_data.contains_key(m.constraints[id].constraint.terms[i].variable),
{
    let ids = choose|ids: Seq<ConstraintId>| counts(m, ids);
    let v = m.constraints[id].constraint.terms[i].variable;
    assert(ids.contains(id));
    let j = choose|j: int| 0 <= j < ids.len() && ids[j] == id;
    lemma_occurs(m.constraints[id].constraint.terms, i);
    lemma_references_one(m.constraints, ids, j, v);
    assert(references(m.constraints, ids, v) <= noted_count(m, v));
}

/// An addition that succeeds counts the references of the constraint.
pub proof fn lemma_added_as_counted(m: SolverModel, id: ConstraintId, c: ConstraintModel)
    requires
        m.sound(),
        m.has_room(c.terms.len() + 3),
        counted(m),
        m.added_as(id, c).1 is Ok,
    ensures
        counted(m.added_as(id, c).0),
{
    reveal(SolverModel::added_as);
    let u = m.added_as(id, c).0;
    let start = RowModel::only(c.constant);
    lemma_absorbed_counts(m, start, c.terms, 3);
    lemma_absorbed_frame(m, start, c.terms);
    let ids = choose|ids: Seq<ConstraintId>| counts(m, ids);
    let all = ids.push(id);
    let a = m.absorbed(start, c.terms).0;
    assert(u.var_data == a.var_data);
    assert(!m.constraints.contains_key(id));
    assert(!ids.contains(id));
    assert(lists_all(u, all)) by {
        assert forall|k: ConstraintId| #[trigger] u.constraints.contains_key(k) <==> all.contains(
            k,
        ) by {
            if all.contains(k) {
                let j = choose|j: int| 0 <= j < all.len() && all[j] == k;
                if j < ids.len() {
                    assert(ids[j] == k);
                }
            }
            if u.constraints.contains_key(k) {
                if k == id {
                    assert(all[ids.len() as int] == id);
                } else {
                    assert(m.constraints.contains_key(k));
                    let j = choose|j: int| 0 <= j < ids.len() && ids[j] == k;
                    assert(all[j] == k);
                }
            }
        }
    }
    assert forall|v: Variable| #[trigger] references(u.constraints, all, v) <= noted_count(u, v) by {
        assert(all.drop_last() =~= ids);
        assert forall|i: int| 0 <= i < ids.len() implies u.constraints[#[trigger] ids[i]]
            == m.constraints[ids[i]] by {
            assert(ids[i] != id);
        }
        lemma_same_references(m.constraints, u.constraints, ids, v);
        assert(references(m.constraints, ids, v) <= noted_count(m, v));
        assert(noted_count(a, v) == noted_count(m, v) + occurrences(c.terms, v));
        assert(noted_count(u, v) == noted_count(a, v));
    }
    assert(counts(u, all));
}

/// A removal that succeeds takes the references of the constraint away.
pub proof fn lemma_removed_counted(m: SolverModel, id: ConstraintId)
    requires
        m.sound(),
        counted(m),
        m.constraints.contains_key(id),
        m.removed(id).1 is Ok,
    ensures
        counted(m.removed(id).0),
{
    reveal(SolverModel::withdrawn);
    let u = m.removed(id).0;
    let c = m.constraints[id].constraint;
    let tag = m.constraints[id].tag;
    let g = m.unregistered(id);
    let t = g.tableau.without_costs(tag, c.strength.value);
    let o = (SolverModel { tableau: t.without_marker(tag.marker)->0, ..g }).optimized().0;
    assert(u == o.released(c.terms));
    lemma_released_counts(o, c.terms);
    lemma_withdrawn_frame(g, c, tag);
    let ids = choose|ids: Seq<ConstraintId>| counts(m, ids);
    assert(ids.contains(id));
    let j = choose|j: int| 0 <= j < ids.len() && ids[j] == id;
    let rest = ids.remove(j);
    assert(lists_all(u, rest)) by {
        assert forall|a: int, b: int| 0 <= a < rest.len() && 0 <= b < rest.len() && a
            != b implies rest[a] != rest[b] by {
            let (x, y) = (
                if a < j {
                    a
                } else {
                    a + 1
                },
                if b < j {
                    b
                } else {
                    b + 1
                },
            );
            assert(rest[a] == ids[x] && rest[b] == ids[y]);
        }
        assert forall|k: ConstraintId| #[trigger] u.constraints.contains_key(k) <==> rest.contains(
            k,
        ) by {
            if u.constraints.contains_key(k) {
                assert(m.constraints.contains_key(k));
                let i = choose|i: int| 0 <= i < ids.len() && ids[i] == k;
                if i < j {
                    assert(rest[i] == k);
                } else {
                    assert(rest[i - 1] == k);
                }
            }
            if rest.contains(k) {
                let i = choose|i: int| 0 <= i < rest.len() && rest[i] == k;
                let x = if i < j {
                    i
                } else {
                    i + 1
                };
                assert(ids[x] == k);
                assert(ids.contains(k));
                assert(k != id);
            }
        }
    }
    assert forall|v: Variable| #[trigger] references(u.constraints, rest, v) <= noted_count(
        u,
        v,
    ) by {
        lemma_references_remove(m.constraints, ids, j, v);
        assert forall|i: int| 0 <= i < rest.len() implies u.constraints[#[trigger] rest[i]]
            == m.constraints[rest[i]] by {
            assert(rest.contains(rest[i]));
            assert(u.constraints.contains_key(rest[i]));
        }
        lemma_same_references(m.constraints, u.constraints, rest, v);
        assert(references(m.constraints, ids, v) <= noted_count(m, v));
        assert(noted_count(o, v) == noted_count(m, v));
        assert(noted_count(u, v) + occurrences(c.terms, v) >= noted_count(o, v));
    }
    assert(counts(u, rest));
}

} // verus!
