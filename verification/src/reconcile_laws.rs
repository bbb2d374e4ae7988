//! Laws of reconciliation: what is said as before keeps its handle, and in the end the solver says
//! what is newest.
use crate::batch::{batch_weight, op_weight, BatchModel, ConstraintBatchApplyError, OpModel};
use crate::batch_laws::{concerns, granted_to, law_batch_effects, reported, untouched};
use crate::fingerprint::{ConstraintFingerprint, FingerprintModel};
use crate::order::{lemma_listed, listing};
use crate::reconcile::{absent, additions, outdated, recorded, Observation, ReconcileModel, Wishes};
use crate::system::{weight, ConstraintId, SolverModel};
use vstd::prelude::*;

verus! {

/// The report that nothing has changed.
pub open spec fn unchanged() -> ReconcileModel {
    ReconcileModel {
        did_update: false,
        removed_fingerprints: Seq::empty(),
        added_fingerprints: Seq::empty(),
        repaired_fingerprints: Seq::empty(),
        skipped_adds: Seq::empty(),
    }
}

proof fn lemma_absent<V>(s: Seq<FingerprintModel>, m: Map<FingerprintModel, V>)
    ensures
        forall|k: FingerprintModel| #[trigger]
            absent(s, m).contains(k) <==> s.contains(k) && !m.contains_key(k),
    decreases s.len(),
{
    if s.len() > 0 {
        let rest = s.drop_last();
        let last = s.last();
        lemma_absent(rest, m);
        assert forall|k: FingerprintModel| #[trigger] absent(s, m).contains(k) <==> s.contains(k)
            && !m.contains_key(k) by {
            lemma_last(s, k);
            if !m.contains_key(last) {
                let t = absent(s, m);
                assert(t.drop_last() =~= absent(rest, m));
                lemma_last(t, k);
            }
        }
    }
}

/// What a sequence holds.
proof fn lemma_last(s: Seq<FingerprintModel>, k: FingerprintModel)
    requires
        s.len() > 0,
    ensures
        s.contains(k) <==> s.drop_last().contains(k) || s.last() == k,
{
    if s.contains(k) {
        let i = s.index_of(k);
        if i < s.len() - 1 {
            assert(s.drop_last()[i] == k);
        }
    }
    if s.drop_last().contains(k) {
        let i = s.drop_last().index_of(k);
        assert(s[i] == k);
    }
    assert(s[s.len() - 1] == s.last());
}

pub(crate) proof fn lemma_lacking(m: SolverModel, s: Seq<FingerprintModel>, last: Observation)
    ensures
        forall|k: FingerprintModel| #[trigger]
            m.lacking(s, last).contains(k) <==> s.contains(k) && !m.holds(last, k),
    decreases s.len(),
{
    if s.len() > 0 {
        let rest = s.drop_last();
        lemma_lacking(m, rest, last);
        assert forall|k: FingerprintModel| #[trigger] m.lacking(s, last).contains(k)
            <==> s.contains(k) && !m.holds(last, k) by {
            lemma_last(s, k);
            assert(m.lacking(rest, last).contains(k) <==> rest.contains(k) && !m.holds(last, k));
            if !m.holds(last, s.last()) {
                let t = m.lacking(s, last);
                assert(t.drop_last() =~= m.lacking(rest, last));
                lemma_last(t, k);
            }
        }
    }
}

/// Whether a removal is among some changes.
spec fn removes(ops: Seq<OpModel>, id: ConstraintId) -> bool {
    exists|i: int| 0 <= i < ops.len() && (#[trigger] ops[i]) == OpModel::Remove(id)
}

proof fn lemma_removals_match(m: SolverModel, s: Seq<FingerprintModel>, last: Observation)
    ensures
        forall|k: FingerprintModel|
            s.contains(k) && #[trigger] m.holds(last, k) ==> removes(m.removals(s, last), last[k]),
        forall|i: int|
            0 <= i < m.removals(s, last).len() ==> exists|k: FingerprintModel|
                s.contains(k) && #[trigger] m.holds(last, k) && #[trigger] m.removals(s, last)[i]
                    == OpModel::Remove(last[k]),
    decreases s.len(),
{
    if s.len() > 0 {
        let rest = s.drop_last();
        lemma_removals_match(m, rest, last);
        let before = m.removals(rest, last);
        let after = m.removals(s, last);
        assert forall|k: FingerprintModel| s.contains(k) && #[trigger] m.holds(
            last,
            k,
        ) implies removes(after, last[k]) by {
            lemma_last(s, k);
            if rest.contains(k) {
                assert(removes(before, last[k]));
                let i = choose|i: int|
                    0 <= i < before.len() && (#[trigger] before[i]) == OpModel::Remove(last[k]);
                assert(after[i] == before[i]);
            } else {
                assert(after[before.len() as int] == OpModel::Remove(last[k]));
            }
        }
        assert forall|i: int| 0 <= i < after.len() implies exists|k: FingerprintModel|
            s.contains(k) && #[trigger] m.holds(last, k) && #[trigger] after[i] == OpModel::Remove(
                last[k],
            ) by {
            if i < before.len() {
                assert(after[i] == before[i]);
                let k = choose|k: FingerprintModel|
                    rest.contains(k) && #[trigger] m.holds(last, k) && before[i]
                        == OpModel::Remove(last[k]);
                lemma_last(s, k);
                assert(s.contains(k) && m.holds(last, k));
            } else {
                lemma_last(s, s.last());
                assert(m.holds(last, s.last()));
            }
        }
    }
}

/// Whether a handle was noted for a fingerprint.
spec fn noted_by(
    wanted: Seq<FingerprintModel>,
    first: nat,
    added: Seq<(usize, ConstraintId)>,
    k: FingerprintModel,
    l: int,
) -> bool {
    0 <= l < added.len() && wanted[added[l].0 - first] == k
}

proof fn lemma_recorded(
    last: Observation,
    wanted: Seq<FingerprintModel>,
    first: nat,
    added: Seq<(usize, ConstraintId)>,
    k: FingerprintModel,
)
    ensures
        ({
            let seen = recorded(last, wanted, first, added);
            if exists|l: int| noted_by(wanted, first, added, k, l) {
                seen.contains_key(k) && exists|l: int| #[trigger]
                    noted_by(wanted, first, added, k, l) && seen[k] == added[l].1
            } else {
                seen.contains_key(k) == last.contains_key(k) && (last.contains_key(k) ==> seen[k]
                    == last[k])
            }
        }),
    decreases added.len(),
{
    if added.len() > 0 {
        let rest = added.drop_last();
        lemma_recorded(last, wanted, first, rest, k);
        let n = rest.len() as int;
        assert forall|l: int| 0 <= l < n implies noted_by(wanted, first, rest, k, l) == noted_by(
            wanted,
            first,
            added,
            k,
            l,
        ) by {}
        if noted_by(wanted, first, added, k, n) {
            assert(recorded(last, wanted, first, added)[k] == added[n].1);
        } else if exists|l: int| noted_by(wanted, first, added, k, l) {
            let l = choose|l: int| noted_by(wanted, first, added, k, l);
            assert(noted_by(wanted, first, rest, k, l));
            let j = choose|j: int| #[trigger]
                noted_by(wanted, first, rest, k, j) && recorded(last, wanted, first, rest)[k]
                    == rest[j].1;
            assert(noted_by(wanted, first, added, k, j));
        } else {
            assert forall|l: int| !noted_by(wanted, first, rest, k, l) by {
                if noted_by(wanted, first, rest, k, l) {
                    assert(noted_by(wanted, first, added, k, l));
                }
            }
        }
    }
}

/// What is said as before, by whichever objects, is left alone: the solver, the handles and the
/// observation stay exactly as they are, and the report says that nothing has changed.
pub proof fn law_reconcile_leaves_alone(m: SolverModel, last: Observation, newest: Wishes)
    requires
        newest.dom().finite(),
        last.dom() == newest.dom(),
        forall|k: FingerprintModel| #[trigger]
            last.contains_key(k) ==> m.constraints.contains_key(last[k]),
    ensures
        m.reconciled(last, newest) == (
            m,
            last,
            Ok::<ReconcileModel, ConstraintBatchApplyError>(unchanged()),
        ),
{
    let s = listing::<ConstraintFingerprint>(newest.dom());
    lemma_listed::<ConstraintFingerprint>(newest.dom());
    let gone = outdated(last, newest);
    let wanted = m.wanted(last, newest);
    lemma_absent(s, newest);
    lemma_lacking(m, s, last);
    assert(gone =~= Seq::<FingerprintModel>::empty()) by {
        if gone.len() > 0 {
            assert(gone.contains(gone[0]));
            assert(s.contains(gone[0]));
        }
    }
    assert(wanted =~= Seq::<FingerprintModel>::empty()) by {
        if wanted.len() > 0 {
            assert(wanted.contains(wanted[0]));
            assert(s.contains(wanted[0]));
            assert(last.contains_key(wanted[0]));
        }
    }
    let plan = m.plan(last, newest);
    assert(plan =~= Seq::<OpModel>::empty());
    crate::batch::lemma_schedule(plan);
    assert(m.batched(plan) == (
        m,
        Ok::<BatchModel, ConstraintBatchApplyError>(BatchModel::empty()),
    ));
    assert(last.remove_keys(gone.to_set()) =~= last);
    let (seen, report) = m.committed(last, newest, BatchModel::empty());
    assert(report =~= unchanged());
}

/// Whether a fingerprint was passed over.
pub open spec fn passed_over(report: ReconcileModel, k: FingerprintModel) -> bool {
    exists|i: int| 0 <= i < report.skipped_adds.len() && (#[trigger] report.skipped_adds[i]).0 == k
}

/// Whether no two fingerprints have the same handle in a system.
pub open spec fn told_apart(m: SolverModel, last: Observation) -> bool {
    forall|j: FingerprintModel, k: FingerprintModel| #[trigger]
        m.holds(last, j) && #[trigger] m.holds(last, k) && j != k ==> last[j] != last[k]
}

/// What a reconciliation does that does not fail.
///
/// What was said before and still is keeps its handle and its constraint. What is said no longer
/// is gone from the solver and from the observation. Whatever else is newest was added under a
/// new handle that leads to its constraint, unless the solver passed over it. Constraints that the
/// observation does not speak of stay as they were.
pub proof fn law_reconcile_effects(m: SolverModel, last: Observation, newest: Wishes)
    requires
        m.sound(),
        last.dom().finite(),
        newest.dom().finite(),
        m.plan(last, newest).len() <= usize::MAX,
        m.has_room(batch_weight(m.plan(last, newest))),
        m.reconciled(last, newest).2 is Ok,
        told_apart(m, last),
    ensures
        ({
            let (u, seen, r) = m.reconciled(last, newest);
            let report = r->Ok_0;
            &&& forall|k: FingerprintModel| #[trigger] seen.contains_key(k) ==> newest.contains_key(k)
            &&& forall|k: FingerprintModel|
                newest.contains_key(k) && #[trigger] m.holds(last, k) ==> seen.contains_key(k)
                    && seen[k] == last[k] && u.constraints.contains_key(last[k])
                    && u.constraints[last[k]] == m.constraints[last[k]]
            &&& forall|k: FingerprintModel|
                !newest.contains_key(k) && #[trigger] m.holds(last, k)
                    ==> !u.constraints.contains_key(last[k])
            &&& forall|k: FingerprintModel| #[trigger]
                newest.contains_key(k) && !m.holds(last, k) ==> passed_over(report, k) || (
                seen.contains_key(k) && u.constraints.contains_key(seen[k])
                    && u.constraints[seen[k]].constraint == newest[k]@ && seen[k].number()
                    >= m.next_constraint_id)
            &&& forall|id: ConstraintId| #[trigger]
                m.constraints.contains_key(id) && !last.contains_value(id)
                    ==> u.constraints.contains_key(id) && u.constraints[id] == m.constraints[id]
            &&& !report.did_update ==> seen == last
        }),
{
    let gone = outdated(last, newest);
    let wanted = m.wanted(last, newest);
    let s = listing::<ConstraintFingerprint>(last.dom());
    let t = listing::<ConstraintFingerprint>(newest.dom());
    lemma_listed::<ConstraintFingerprint>(last.dom());
    lemma_listed::<ConstraintFingerprint>(newest.dom());
    lemma_absent(s, newest);
    lemma_lacking(m, t, last);
    let removals = m.removals(gone, last);
    let first = removals.len();
    let plan = m.plan(last, newest);
    lemma_removals_match(m, gone, last);
    law_batch_effects(m, plan);
    let u = m.batched(plan).0;
    let done = m.batched(plan).1->Ok_0;
    let (seen, report) = m.committed(last, newest, done);
    let kept = last.remove_keys(gone.to_set());
    lemma_additions_placed(m, last, newest, done);
    assert forall|k: FingerprintModel| #[trigger] gone.contains(k) <==> last.contains_key(k)
        && !newest.contains_key(k) by {
        assert(s.contains(k) <==> last.dom().contains(k));
    }
    assert forall|k: FingerprintModel| #[trigger] wanted.contains(k) <==> newest.contains_key(k)
        && !m.holds(last, k) by {
        assert(t.contains(k) <==> newest.dom().contains(k));
    }
    assert forall|k: FingerprintModel| #[trigger] seen.contains_key(k) implies newest.contains_key(
        k,
    ) by {
        lemma_recorded(kept, wanted, first, done.added, k);
        if exists|l: int| noted_by(wanted, first, done.added, k, l) {
            let l = choose|l: int| noted_by(wanted, first, done.added, k, l);
            assert(placed(first, wanted.len(), done.added[l].0));
            assert(wanted.contains(wanted[done.added[l].0 - first]));
        } else {
            assert(gone.contains(k) <==> last.contains_key(k) && !newest.contains_key(k));
        }
    }
    assert forall|k: FingerprintModel| newest.contains_key(k) && #[trigger] m.holds(
        last,
        k,
    ) implies seen.contains_key(k) && seen[k] == last[k] && u.constraints.contains_key(last[k])
        && u.constraints[last[k]] == m.constraints[last[k]] by {
        lemma_recorded(kept, wanted, first, done.added, k);
        assert(!gone.contains(k));
        if exists|l: int| noted_by(wanted, first, done.added, k, l) {
            let l = choose|l: int| noted_by(wanted, first, done.added, k, l);
            assert(placed(first, wanted.len(), done.added[l].0));
            assert(wanted.contains(wanted[done.added[l].0 - first]));
        }
        assert forall|i: int| 0 <= i < plan.len() implies !concerns(
            #[trigger] plan[i],
            last[k],
        ) by {
            if i < first {
                assert(plan[i] == removals[i]);
                let j = choose|j: FingerprintModel|
                    gone.contains(j) && #[trigger] m.holds(last, j) && removals[i]
                        == OpModel::Remove(last[j]);
                assert(gone.contains(j));
                assert(j != k);
            }
        }
        assert(untouched(plan, last[k]));
        assert(m.constraints.contains_key(last[k]));
    }
    assert forall|k: FingerprintModel| !newest.contains_key(k) && #[trigger] m.holds(
        last,
        k,
    ) implies !u.constraints.contains_key(last[k]) by {
        assert(gone.contains(k));
        assert(removes(removals, last[k]));
        let i = choose|i: int|
            0 <= i < removals.len() && (#[trigger] removals[i]) == OpModel::Remove(last[k]);
        assert(plan[i] == OpModel::Remove(last[k]));
    }
    assert forall|k: FingerprintModel| #[trigger] newest.contains_key(k) && !m.holds(
        last,
        k,
    ) implies passed_over(report, k) || (seen.contains_key(k) && u.constraints.contains_key(seen[k])
        && u.constraints[seen[k]].constraint == newest[k]@ && seen[k].number()
        >= m.next_constraint_id) by {
        assert(wanted.contains(k));
        let p = wanted.index_of(k);
        let i = first + p;
        assert(plan[i] == OpModel::Add(newest[k]@));
        assert(reported(done, i as usize));
        lemma_recorded(kept, wanted, first, done.added, k);
        if exists|l: int| 0 <= l < done.added.len() && (#[trigger] done.added[l]).0 == i as usize {
            let l = choose|l: int|
                0 <= l < done.added.len() && (#[trigger] done.added[l]).0 == i as usize;
            assert(noted_by(wanted, first, done.added, k, l));
            let j = choose|j: int| #[trigger]
                noted_by(wanted, first, done.added, k, j) && seen[k] == done.added[j].1;
            assert(granted_to(m, plan, u, done.added[j]));
            assert(placed(first, wanted.len(), done.added[j].0));
            let q = done.added[j].0 - first;
            assert(plan[done.added[j].0 as int] == additions(wanted, newest)[q]);
        } else {
            let l = choose|l: int|
                0 <= l < done.skipped_adds.len() && (#[trigger] done.skipped_adds[l]).0
                    == i as usize;
            assert(report.skipped_adds[l].0 == k);
        }
    }
    assert forall|id: ConstraintId| #[trigger] m.constraints.contains_key(id)
        && !last.contains_value(id) implies u.constraints.contains_key(id) && u.constraints[id]
        == m.constraints[id] by {
        assert forall|i: int| 0 <= i < plan.len() implies !concerns(#[trigger] plan[i], id) by {
            if i < first {
                assert(plan[i] == removals[i]);
                let j = choose|j: FingerprintModel|
                    gone.contains(j) && #[trigger] m.holds(last, j) && removals[i]
                        == OpModel::Remove(last[j]);
                assert(last.contains_key(j));
            }
        }
        assert(untouched(plan, id));
    }
    if !report.did_update {
        assert(gone =~= Seq::<FingerprintModel>::empty());
        assert(done.added =~= Seq::<(usize, ConstraintId)>::empty());
        assert(kept =~= last);
    }
}

/// Whether a place in a batch is that of an addition.
spec fn placed(first: nat, count: nat, index: usize) -> bool {
    first <= index < first + count
}

/// Handles are given out for additions.
proof fn lemma_additions_placed(
    m: SolverModel,
    last: Observation,
    newest: Wishes,
    done: BatchModel,
)
    requires
        forall|l: int|
            0 <= l < done.added.len() ==> granted_to(
                m,
                m.plan(last, newest),
                m.batched(m.plan(last, newest)).0,
                #[trigger] done.added[l],
            ),
    ensures
        forall|l: int|
            0 <= l < done.added.len() ==> placed(
                m.removals(outdated(last, newest), last).len(),
                m.wanted(last, newest).len(),
                (#[trigger] done.added[l]).0,
            ),
{
    let gone = outdated(last, newest);
    let removals = m.removals(gone, last);
    let plan = m.plan(last, newest);
    lemma_removals_match(m, gone, last);
    assert forall|l: int| 0 <= l < done.added.len() implies placed(
        removals.len(),
        m.wanted(last, newest).len(),
        (#[trigger] done.added[l]).0,
    ) by {
        let i = done.added[l].0 as int;
        assert(granted_to(m, plan, m.batched(plan).0, done.added[l]));
        assert(plan[i] is Add);
        if i < removals.len() {
            assert(plan[i] == removals[i]);
            let k = choose|k: FingerprintModel|
                gone.contains(k) && #[trigger] m.holds(last, k) && removals[i]
                    == OpModel::Remove(last[k]);
            assert(removals[i] is Remove);
        }
    }
}

/// A reconciliation settles the matter: where nothing was passed over, to reconcile with the same
/// constraints once more changes nothing.
pub proof fn law_reconcile_settles(m: SolverModel, last: Observation, newest: Wishes)
    requires
        m.sound(),
        last.dom().finite(),
        newest.dom().finite(),
        m.plan(last, newest).len() <= usize::MAX,
        m.has_room(batch_weight(m.plan(last, newest))),
        told_apart(m, last),
        m.reconciled(last, newest).2 matches Ok(report) && report.skipped_adds.len() == 0,
    ensures
        ({
            let (u, seen, _) = m.reconciled(last, newest);
            u.reconciled(seen, newest) == (
                u,
                seen,
                Ok::<ReconcileModel, ConstraintBatchApplyError>(unchanged()),
            )
        }),
{
    law_reconcile_effects(m, last, newest);
    let (u, seen, r) = m.reconciled(last, newest);
    let report = r->Ok_0;
    assert forall|k: FingerprintModel| newest.contains_key(k) implies #[trigger] seen.contains_key(
        k,
    ) && u.constraints.contains_key(seen[k]) by {
        if m.holds(last, k) {
            assert(seen[k] == last[k]);
        } else {
            assert(!passed_over(report, k));
        }
    }
    assert(seen.dom() =~= newest.dom());
    law_reconcile_leaves_alone(u, seen, newest);
}

/// A reconciliation uses up no more of the machine's limits than the newest constraints would.
pub proof fn law_plan_weight(m: SolverModel, last: Observation, newest: Wishes, w: nat)
    requires
        newest.dom().finite(),
        forall|k: FingerprintModel| #[trigger] newest.contains_key(k) ==> weight(newest[k]@) <= w,
    ensures
        batch_weight(m.plan(last, newest)) <= newest.dom().len() * w,
{
    let t = listing::<ConstraintFingerprint>(newest.dom());
    lemma_listed::<ConstraintFingerprint>(newest.dom());
    let gone = outdated(last, newest);
    let removals = m.removals(gone, last);
    let wanted = m.wanted(last, newest);
    lemma_removals_match(m, gone, last);
    lemma_lacking(m, t, last);
    lemma_lacking_len(m, t, last);
    t.unique_seq_to_set();
    assert(t.to_set() =~= newest.dom());
    assert forall|i: int| 0 <= i < removals.len() implies op_weight(#[trigger] removals[i]) == 0 by {
        let k = choose|k: FingerprintModel|
            gone.contains(k) && #[trigger] m.holds(last, k) && removals[i] == OpModel::Remove(
                last[k],
            );
        assert(removals[i] is Remove);
    }
    let adds = additions(wanted, newest);
    assert forall|i: int| 0 <= i < adds.len() implies op_weight(#[trigger] adds[i]) <= w by {
        assert(wanted.contains(wanted[i]));
        assert(t.contains(wanted[i]));
        assert(newest.contains_key(wanted[i]));
    }
    lemma_weights(removals, adds, w);
    assert(adds.len() * w <= newest.dom().len() * w) by (nonlinear_arith)
        requires
            adds.len() <= newest.dom().len(),
    ;
}

proof fn lemma_lacking_len(m: SolverModel, s: Seq<FingerprintModel>, last: Observation)
    ensures
        m.lacking(s, last).len() <= s.len(),
    decreases s.len(),
{
    if s.len() > 0 {
        lemma_lacking_len(m, s.drop_last(), last);
    }
}

proof fn lemma_weights(a: Seq<OpModel>, b: Seq<OpModel>, w: nat)
    requires
        forall|i: int| 0 <= i < a.len() ==> op_weight(#[trigger] a[i]) == 0,
        forall|i: int| 0 <= i < b.len() ==> op_weight(#[trigger] b[i]) <= w,
    ensures
        batch_weight(a + b) <= b.len() * w,
    decreases a.len() + b.len(),
{
    let s = a + b;
    if b.len() > 0 {
        assert(s.drop_last() =~= a + b.drop_last());
        assert(op_weight(b[b.len() - 1]) <= w);
        assert forall|i: int| 0 <= i < b.drop_last().len() implies op_weight(
            #[trigger] b.drop_last()[i],
        ) <= w by {
            assert(b.drop_last()[i] == b[i]);
        }
        lemma_weights(a, b.drop_last(), w);
        assert((b.len() - 1) * w + w == b.len() * w) by (nonlinear_arith);
    } else if a.len() > 0 {
        assert(s.drop_last() =~= a.drop_last() + b);
        assert(op_weight(a[a.len() - 1]) == 0);
        assert forall|i: int| 0 <= i < a.drop_last().len() implies op_weight(
            #[trigger] a.drop_last()[i],
        ) == 0 by {
            assert(a.drop_last()[i] == a[i]);
        }
        lemma_weights(a.drop_last(), b, w);
    }
}

} // verus!
