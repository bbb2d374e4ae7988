//! Bringing the constraints of a solver in line with the newest ones.
use crate::batch::{
    batch_weight, lemma_schedule, schedule, BatchModel, ConstraintBatchApplyError,
    ConstraintBatchOp, OpModel, TicketModel,
};
use crate::catalog::{copied_fingerprints, FingerprintMap};
use crate::constraint::Constraint;
use crate::error::AddConstraintError;
use crate::fingerprint::{ConstraintFingerprint, FingerprintModel};
use crate::order::{listing, views};
use crate::reconcile_laws::{law_reconcile_settles, told_apart, unchanged};
use crate::semantic::SemanticConstraints;
use crate::solver::Solver;
use crate::system::{ConstraintId, SolverModel};
use vstd::prelude::*;

verus! {

/// What a reconciliation has changed.
#[derive(Debug)]
pub struct SemanticReconcileResult {
    /// Whether anything has changed.
    pub did_update: bool,
    /// What is no longer said, in order, whether or not the solver still had it.
    pub removed_fingerprints: Vec<ConstraintFingerprint>,
    /// What is newly said, with the handles.
    pub added_fingerprints: Vec<(ConstraintFingerprint, ConstraintId)>,
    /// What was said before and had to be added again, with the new handles.
    pub repaired_fingerprints: Vec<(ConstraintFingerprint, ConstraintId)>,
    /// What the solver passed over, and why.
    pub skipped_adds: Vec<(ConstraintFingerprint, AddConstraintError)>,
}

/// What a reconciliation has changed, as a mathematical object.
#[verifier::ext_equal]
pub struct ReconcileModel {
    pub did_update: bool,
    pub removed_fingerprints: Seq<FingerprintModel>,
    pub added_fingerprints: Seq<(FingerprintModel, ConstraintId)>,
    pub repaired_fingerprints: Seq<(FingerprintModel, ConstraintId)>,
    pub skipped_adds: Seq<(FingerprintModel, AddConstraintError)>,
}

/// Fingerprints with their values, as mathematical objects.
pub open spec fn labelled<T>(s: Seq<(ConstraintFingerprint, T)>) -> Seq<(FingerprintModel, T)> {
    Seq::new(s.len(), |i: int| (s[i].0@, s[i].1))
}

impl View for SemanticReconcileResult {
    type V = ReconcileModel;

    open spec fn view(&self) -> ReconcileModel {
        ReconcileModel {
            did_update: self.did_update,
            removed_fingerprints: views(self.removed_fingerprints@),
            added_fingerprints: labelled(self.added_fingerprints@),
            repaired_fingerprints: labelled(self.repaired_fingerprints@),
            skipped_adds: labelled(self.skipped_adds@),
        }
    }
}

/// Copies some fingerprints with their values.
fn copied_labels<T: Copy>(items: &Vec<(ConstraintFingerprint, T)>) -> (r: Vec<
    (ConstraintFingerprint, T),
>)
    ensures
        labelled(r@) == labelled(items@),
{
    let mut r: Vec<(ConstraintFingerprint, T)> = Vec::new();
    for i in 0..items.len()
        invariant
            labelled(r@) == labelled(items@).take(i as int),
    {
        let ghost before = labelled(r@);
        let copy = items[i].0.clone();
        r.push((copy, items[i].1));
        assert(labelled(r@) =~= before.push(labelled(items@)[i as int]));
        assert(labelled(items@).take(i + 1) =~= labelled(items@).take(i as int).push(
            labelled(items@)[i as int],
        ));
    }
    assert(labelled(items@).take(items@.len() as int) =~= labelled(items@));
    r
}

impl Clone for SemanticReconcileResult {
    fn clone(&self) -> (r: SemanticReconcileResult)
        ensures
            r@ == self@,
    {
        SemanticReconcileResult {
            did_update: self.did_update,
            removed_fingerprints: copied_fingerprints(&self.removed_fingerprints),
            added_fingerprints: copied_labels(&self.added_fingerprints),
            repaired_fingerprints: copied_labels(&self.repaired_fingerprints),
            skipped_adds: copied_labels(&self.skipped_adds),
        }
    }
}

impl Default for SemanticReconcileResult {
    fn default() -> (r: SemanticReconcileResult)
        ensures
            !r.did_update,
            r.removed_fingerprints@.len() == 0,
            r.added_fingerprints@.len() == 0,
            r.repaired_fingerprints@.len() == 0,
            r.skipped_adds@.len() == 0,
    {
        SemanticReconcileResult {
            did_update: false,
            removed_fingerprints: Vec::new(),
            added_fingerprints: Vec::new(),
            repaired_fingerprints: Vec::new(),
            skipped_adds: Vec::new(),
        }
    }
}

/// The handles that were given out for what was said.
pub type Observation = Map<FingerprintModel, ConstraintId>;

/// What is to be said, and by which constraint.
pub type Wishes = Map<FingerprintModel, Constraint>;

/// Those of some fingerprints that a map does not hold, in their order.
pub open spec fn absent<V>(s: Seq<FingerprintModel>, m: Map<FingerprintModel, V>) -> Seq<
    FingerprintModel,
>
    decreases s.len(),
{
    if s.len() == 0 {
        Seq::empty()
    } else {
        let rest = absent(s.drop_last(), m);
        if m.contains_key(s.last()) {
            rest
        } else {
            rest.push(s.last())
        }
    }
}

/// What was said before and is to be said no longer, in order.
pub open spec fn outdated(last: Observation, newest: Wishes) -> Seq<FingerprintModel> {
    absent(listing::<ConstraintFingerprint>(last.dom()), newest)
}

impl SolverModel {
    /// Whether what is said is in the system, under the handle that was given out for it.
    pub open spec fn holds(self, last: Observation, k: FingerprintModel) -> bool {
        last.contains_key(k) && self.constraints.contains_key(last[k])
    }

    /// The removals of those of some fingerprints that are still in the system.
    pub open spec fn removals(self, s: Seq<FingerprintModel>, last: Observation) -> Seq<OpModel>
        decreases s.len(),
    {
        if s.len() == 0 {
            Seq::empty()
        } else {
            let rest = self.removals(s.drop_last(), last);
            if self.holds(last, s.last()) {
                rest.push(OpModel::Remove(last[s.last()]))
            } else {
                rest
            }
        }
    }

    /// Those of some fingerprints that are not in the system.
    pub open spec fn lacking(self, s: Seq<FingerprintModel>, last: Observation) -> Seq<
        FingerprintModel,
    >
        decreases s.len(),
    {
        if s.len() == 0 {
            Seq::empty()
        } else {
            let rest = self.lacking(s.drop_last(), last);
            if self.holds(last, s.last()) {
                rest
            } else {
                rest.push(s.last())
            }
        }
    }

    /// What has to be added, in order.
    pub open spec fn wanted(self, last: Observation, newest: Wishes) -> Seq<FingerprintModel> {
        self.lacking(listing::<ConstraintFingerprint>(newest.dom()), last)
    }

    /// The changes that bring the system in line with the newest constraints.
    pub open spec fn plan(self, last: Observation, newest: Wishes) -> Seq<OpModel> {
        self.removals(outdated(last, newest), last) + additions(self.wanted(last, newest), newest)
    }

    /// What comes of a batch that was applied.
    pub open spec fn committed(self, last: Observation, newest: Wishes, done: BatchModel) -> (
        Observation,
        ReconcileModel,
    ) {
        let gone = outdated(last, newest);
        let wanted = self.wanted(last, newest);
        let first = self.removals(gone, last).len();
        (
            recorded(last.remove_keys(gone.to_set()), wanted, first, done.added),
            ReconcileModel {
                did_update: gone.len() > 0 || done.added.len() > 0,
                removed_fingerprints: gone,
                added_fingerprints: granted(last, false, wanted, first, done.added),
                repaired_fingerprints: granted(last, true, wanted, first, done.added),
                skipped_adds: refused(wanted, first, done.skipped_adds),
            },
        )
    }

    /// The system is brought in line with the newest constraints.
    pub open spec fn reconciled(self, last: Observation, newest: Wishes) -> (
        SolverModel,
        Observation,
        Result<ReconcileModel, ConstraintBatchApplyError>,
    ) {
        match self.batched(self.plan(last, newest)) {
            (m, Err(e)) => (m, last, Err(e)),
            (m, Ok(done)) => {
                let (seen, report) = self.committed(last, newest, done);
                (m, seen, Ok(report))
            },
        }
    }
}

/// The additions of some fingerprints.
pub open spec fn additions(s: Seq<FingerprintModel>, newest: Wishes) -> Seq<OpModel> {
    Seq::new(s.len(), |i: int| OpModel::Add(newest[s[i]]@))
}

/// The observation with the handles that were given out; the additions start at a place in the
/// batch.
pub open spec fn recorded(
    last: Observation,
    wanted: Seq<FingerprintModel>,
    first: nat,
    added: Seq<(usize, ConstraintId)>,
) -> Observation
    decreases added.len(),
{
    if added.len() == 0 {
        last
    } else {
        let (index, id) = added.last();
        recorded(last, wanted, first, added.drop_last()).insert(wanted[index - first], id)
    }
}

/// What was added, with the handles: what was said before, or what was not.
pub open spec fn granted(
    last: Observation,
    before: bool,
    wanted: Seq<FingerprintModel>,
    first: nat,
    added: Seq<(usize, ConstraintId)>,
) -> Seq<(FingerprintModel, ConstraintId)>
    decreases added.len(),
{
    if added.len() == 0 {
        Seq::empty()
    } else {
        let rest = granted(last, before, wanted, first, added.drop_last());
        let (index, id) = added.last();
        let k = wanted[index - first];
        if last.contains_key(k) == before {
            rest.push((k, id))
        } else {
            rest
        }
    }
}

/// What was passed over, and why.
pub open spec fn refused(
    wanted: Seq<FingerprintModel>,
    first: nat,
    skipped: Seq<(usize, AddConstraintError)>,
) -> Seq<(FingerprintModel, AddConstraintError)> {
    Seq::new(skipped.len(), |i: int| (wanted[skipped[i].0 - first], skipped[i].1))
}

/// Whether every place in a report is that of an addition.
spec fn of_additions(ops: Seq<OpModel>, done: BatchModel) -> bool {
    &&& forall|i: int|
        0 <= i < done.added.len() ==> ((#[trigger] done.added[i]).0 as int) < ops.len()
            && ops[done.added[i].0 as int] is Add
    &&& forall|i: int|
        0 <= i < done.skipped_adds.len() ==> ((#[trigger] done.skipped_adds[i]).0 as int)
            < ops.len() && ops[done.skipped_adds[i].0 as int] is Add
}

/// A batch reports on additions.
proof fn lemma_of_additions(m: SolverModel, ops: Seq<OpModel>, ts: Seq<TicketModel>)
    requires
        forall|i: int| 0 <= i < ts.len() ==> (#[trigger] ts[i]).index < ops.len(),
        m.applied(ops, ts).1 is Ok,
    ensures
        of_additions(ops, m.applied(ops, ts).1->Ok_0),
    decreases ts.len(),
{
    if ts.len() > 0 {
        assert forall|i: int| 0 <= i < ts.drop_last().len() implies (
        #[trigger] ts.drop_last()[i]).index < ops.len() by {
            assert(ts.drop_last()[i] == ts[i]);
        }
        assert(ts[ts.len() - 1].index < ops.len());
        lemma_of_additions(m, ops, ts.drop_last());
        let before = m.applied(ops, ts.drop_last()).1->Ok_0;
        let after = m.applied(ops, ts).1->Ok_0;
        let index = ts.last().index;
        assert forall|i: int| 0 <= i < after.added.len() implies ((
        #[trigger] after.added[i]).0 as int) < ops.len() && ops[after.added[i].0 as int] is Add by {
            if i < before.added.len() {
                assert(after.added[i] == before.added[i]);
            }
        }
        assert forall|i: int| 0 <= i < after.skipped_adds.len() implies ((
        #[trigger] after.skipped_adds[i]).0 as int) < ops.len()
            && ops[after.skipped_adds[i].0 as int] is Add by {
            if i < before.skipped_adds.len() {
                assert(after.skipped_adds[i] == before.skipped_adds[i]);
            }
        }
    }
}

/// The removals are removals.
pub(crate) proof fn lemma_removals(m: SolverModel, s: Seq<FingerprintModel>, last: Observation)
    ensures
        forall|i: int|
            0 <= i < m.removals(s, last).len() ==> (#[trigger] m.removals(s, last)[i]) is Remove,
    decreases s.len(),
{
    if s.len() > 0 {
        lemma_removals(m, s.drop_last(), last);
    }
}

impl Solver {
    /// Collects what is to be said no longer, and the changes that take it out.
    fn collect_outdated(
        &self,
        last: &FingerprintMap<ConstraintId>,
        newest: &SemanticConstraints,
    ) -> (r: (Vec<ConstraintFingerprint>, Vec<ConstraintBatchOp>))
        requires
            self.wf(),
            last.wf(),
            newest.wf(),
        ensures
            views(r.0@) == outdated(last@, newest@),
            views(r.1@) == self@.removals(outdated(last@, newest@), last@),
    {
        let mut gone: Vec<ConstraintFingerprint> = Vec::new();
        let mut ops: Vec<ConstraintBatchOp> = Vec::new();
        let ghost s = last.order();
        let count = last.len();
        proof {
            last.lemma_order();
            assert(s.take(0) =~= Seq::<FingerprintModel>::empty());
            assert(views(gone@) =~= absent(s.take(0), newest@));
            assert(views(ops@) =~= self@.removals(absent(s.take(0), newest@), last@));
        }
        for i in 0..count
            invariant
                self.wf(),
                last.wf(),
                newest.wf(),
                s == last.order(),
                count == s.len(),
                views(gone@) == absent(s.take(i as int), newest@),
                views(ops@) == self@.removals(absent(s.take(i as int), newest@), last@),
        {
            proof {
                last.lemma_order();
                assert(s.take(i + 1).drop_last() =~= s.take(i as int));
                assert(s.take(i + 1).last() == s[i as int]);
            }
            let fp = last.key_at(i);
            let ghost before = views(gone@);
            if !newest.contains_key(fp) {
                let id = *last.value_at(i);
                gone.push(fp.clone());
                proof {
                    assert(views(gone@) =~= before.push(s[i as int]));
                    assert(views(gone@).drop_last() =~= before);
                    assert(last@.contains_key(s[i as int]));
                }
                if self.has_constraint(id) {
                    let ghost planned = views(ops@);
                    ops.push(ConstraintBatchOp::Remove(id));
                    assert(views(ops@) =~= planned.push(OpModel::Remove(id)));
                }
            }
        }
        proof {
            last.lemma_order();
            assert(s.take(s.len() as int) =~= s);
        }
        (gone, ops)
    }

    /// Collects what has to be added, the changes that add it, and whether it was said before.
    fn collect_wanted(
        &self,
        last: &FingerprintMap<ConstraintId>,
        newest: &SemanticConstraints,
        ops: &mut Vec<ConstraintBatchOp>,
    ) -> (r: (Vec<ConstraintFingerprint>, Vec<bool>))
        requires
            self.wf(),
            last.wf(),
            newest.wf(),
        ensures
            views(r.0@) == self@.wanted(last@, newest@),
            r.1@.len() == r.0@.len(),
            forall|i: int|
                0 <= i < r.1@.len() ==> (#[trigger] r.1@[i]) == last@.contains_key(r.0@[i]@),
            views(final(ops)@) == views(old(ops)@) + additions(
                self@.wanted(last@, newest@),
                newest@,
            ),
    {
        let mut wanted: Vec<ConstraintFingerprint> = Vec::new();
        let mut repairs: Vec<bool> = Vec::new();
        let ghost s = newest.order();
        let ghost start = views(ops@);
        let count = newest.len();
        proof {
            newest.lemma_order();
            assert(s.take(0) =~= Seq::<FingerprintModel>::empty());
            assert(views(wanted@) =~= self@.lacking(s.take(0), last@));
            assert(start + additions(views(wanted@), newest@) =~= start);
        }
        for i in 0..count
            invariant
                self.wf(),
                last.wf(),
                newest.wf(),
                s == newest.order(),
                count == s.len(),
                views(wanted@) == self@.lacking(s.take(i as int), last@),
                views(ops@) == start + additions(views(wanted@), newest@),
                repairs@.len() == wanted@.len(),
                forall|j: int|
                    0 <= j < repairs@.len() ==> (#[trigger] repairs@[j]) == last@.contains_key(
                        wanted@[j]@,
                    ),
        {
            proof {
                newest.lemma_order();
                assert(s.take(i + 1).drop_last() =~= s.take(i as int));
                assert(s.take(i + 1).last() == s[i as int]);
                assert(newest@.contains_key(s[i as int]));
            }
            let fp = newest.key_at(i);
            let (said, known) = match last.get(fp) {
                Some(id) => (true, self.has_constraint(*id)),
                None => (false, false),
            };
            assert(known == self@.holds(last@, fp@));
            if !known {
                let c = newest.value_at(i).clone();
                let ghost before = views(wanted@);
                let ghost planned = views(ops@);
                wanted.push(fp.clone());
                repairs.push(said);
                ops.push(ConstraintBatchOp::Add(c));
                proof {
                    assert(views(wanted@) =~= before.push(s[i as int]));
                    assert(views(ops@) =~= planned.push(OpModel::Add(newest@[s[i as int]]@)));
                    assert(views(ops@) =~= start + additions(views(wanted@), newest@));
                }
            }
        }
        proof {
            newest.lemma_order();
            assert(s.take(s.len() as int) =~= s);
        }
        (wanted, repairs)
    }

    /// Takes some fingerprints out of a map.
    fn forget(map: &mut FingerprintMap<ConstraintId>, gone: &Vec<ConstraintFingerprint>)
        requires
            old(map).wf(),
        ensures
            final(map).wf(),
            final(map)@ == old(map)@.remove_keys(views(gone@).to_set()),
    {
        let ghost start = map@;
        let ghost s = views(gone@);
        assert(start.remove_keys(s.take(0).to_set()) =~= start);
        for i in 0..gone.len()
            invariant
                map.wf(),
                s == views(gone@),
                map@ == start.remove_keys(s.take(i as int).to_set()),
        {
            let _ = map.remove(&gone[i]);
            proof {
                assert(s[i as int] == gone@[i as int]@);
                assert(s.take(i + 1) =~= s.take(i as int).push(s[i as int]));
                let (a, b) = (s.take(i as int), s.take(i + 1));
                assert forall|x: FingerprintModel| #[trigger] b.to_set().contains(x) <==> (
                a.to_set().insert(s[i as int])).contains(x) by {
                    if a.contains(x) {
                        assert(b[a.index_of(x)] == x);
                    }
                    if b.contains(x) && x != s[i as int] {
                        assert(a[b.index_of(x)] == x);
                    }
                    assert(b[i as int] == s[i as int]);
                }
                assert(b.to_set() =~= a.to_set().insert(s[i as int]));
                assert(map@ =~= start.remove_keys(s.take(i + 1).to_set()));
            }
        }
        assert(s.take(s.len() as int) =~= s);
    }

    /// Notes the handles that were given out.
    fn record(
        map: &mut FingerprintMap<ConstraintId>,
        wanted: &Vec<ConstraintFingerprint>,
        repairs: &Vec<bool>,
        first: usize,
        given: &Vec<(usize, ConstraintId)>,
        Ghost(last): Ghost<Observation>,
    ) -> (r: (Vec<(ConstraintFingerprint, ConstraintId)>, Vec<(ConstraintFingerprint, ConstraintId)>))
        requires
            old(map).wf(),
            repairs@.len() == wanted@.len(),
            forall|i: int|
                0 <= i < repairs@.len() ==> (#[trigger] repairs@[i]) == last.contains_key(
                    wanted@[i]@,
                ),
            forall|i: int|
                0 <= i < given@.len() ==> first <= (#[trigger] given@[i]).0 < first + wanted@.len(),
        ensures
            final(map).wf(),
            final(map)@ == recorded(old(map)@, views(wanted@), first as nat, given@),
            labelled(r.0@) == granted(last, false, views(wanted@), first as nat, given@),
            labelled(r.1@) == granted(last, true, views(wanted@), first as nat, given@),
    {
        let mut added: Vec<(ConstraintFingerprint, ConstraintId)> = Vec::new();
        let mut repaired: Vec<(ConstraintFingerprint, ConstraintId)> = Vec::new();
        let ghost names = views(wanted@);
        let ghost start = map@;
        assert(given@.take(0) =~= Seq::<(usize, ConstraintId)>::empty());
        assert(labelled(added@) =~= Seq::<(FingerprintModel, ConstraintId)>::empty());
        assert(labelled(repaired@) =~= Seq::<(FingerprintModel, ConstraintId)>::empty());
        for i in 0..given.len()
            invariant
                map.wf(),
                names == views(wanted@),
                repairs@.len() == wanted@.len(),
                forall|j: int|
                    0 <= j < repairs@.len() ==> (#[trigger] repairs@[j]) == last.contains_key(
                        wanted@[j]@,
                    ),
                forall|j: int|
                    0 <= j < given@.len() ==> first <= (#[trigger] given@[j]).0 < first
                        + wanted@.len(),
                map@ == recorded(start, names, first as nat, given@.take(i as int)),
                labelled(added@) == granted(
                    last,
                    false,
                    names,
                    first as nat,
                    given@.take(i as int),
                ),
                labelled(repaired@) == granted(
                    last,
                    true,
                    names,
                    first as nat,
                    given@.take(i as int),
                ),
        {
            let (index, id) = given[i];
            proof {
                assert(given@[i as int] == (index, id));
                assert(given@.take(i + 1).drop_last() =~= given@.take(i as int));
                assert(given@.take(i + 1).last() == given@[i as int]);
            }
            let place: usize = index - first;
            let fp = &wanted[place];
            let ghost k = names[index - first];
            assert(fp@ == k);
            if repairs[place] {
                let ghost before = labelled(repaired@);
                repaired.push((fp.clone(), id));
                assert(labelled(repaired@) =~= before.push((k, id)));
            } else {
                let ghost before = labelled(added@);
                added.push((fp.clone(), id));
                assert(labelled(added@) =~= before.push((k, id)));
            }
            let _ = map.insert(fp.clone(), id);
        }
        assert(given@.take(given@.len() as int) =~= given@);
        (added, repaired)
    }

    /// Puts the fingerprints to the additions that were passed over.
    fn label_skipped(
        wanted: &Vec<ConstraintFingerprint>,
        first: usize,
        skipped: &Vec<(usize, AddConstraintError)>,
    ) -> (r: Vec<(ConstraintFingerprint, AddConstraintError)>)
        requires
            forall|i: int|
                0 <= i < skipped@.len() ==> first <= (#[trigger] skipped@[i]).0 < first
                    + wanted@.len(),
        ensures
            labelled(r@) == refused(views(wanted@), first as nat, skipped@),
    {
        let mut r: Vec<(ConstraintFingerprint, AddConstraintError)> = Vec::new();
        let ghost names = views(wanted@);
        for i in 0..skipped.len()
            invariant
                names == views(wanted@),
                forall|j: int|
                    0 <= j < skipped@.len() ==> first <= (#[trigger] skipped@[j]).0 < first
                        + wanted@.len(),
                labelled(r@) == refused(names, first as nat, skipped@.take(i as int)),
        {
            let (index, e) = skipped[i];
            assert(skipped@[i as int] == (index, e));
            let ghost before = r@;
            let ghost past = refused(names, first as nat, skipped@.take(i as int));
            assert(labelled(before).len() == past.len());
            r.push((wanted[index - first].clone(), e));
            proof {
                let target = refused(names, first as nat, skipped@.take(i + 1));
                assert forall|j: int| 0 <= j < target.len() implies labelled(r@)[j] == target[j] by {
                    if j < i {
                        assert(labelled(before)[j] == past[j]);
                        assert(skipped@.take(i as int)[j] == skipped@.take(i + 1)[j]);
                    } else {
                        assert(names[index - first] == wanted@[index - first]@);
                    }
                }
                assert(labelled(r@) =~= target);
            }
        }
        assert(skipped@.take(skipped@.len() as int) =~= skipped@);
        r
    }

    /// Brings the constraints of the solver in line with the newest ones, and keeps the handles
    /// of those that say the same as before.
    ///
    /// What was said before and is said no longer is removed, as far as the solver still has it.
    /// What is newly said is added. What is said as before is left alone, whichever object says
    /// it; but where the solver no longer has it, it is added again. Where the batch of these
    /// changes fails, the observation stays as it was.
    pub fn reconcile_semantic_constraints(
        &mut self,
        last_observation: &mut FingerprintMap<ConstraintId>,
        newest: &SemanticConstraints,
    ) -> (r: Result<SemanticReconcileResult, ConstraintBatchApplyError>)
        requires
            old(self).wf(),
            old(last_observation).wf(),
            newest.wf(),
            old(self)@.has_room(batch_weight(old(self)@.plan(old(last_observation)@, newest@))),
        ensures
            final(self).wf(),
            final(last_observation).wf(),
            (final(self)@, final(last_observation)@) == ({
                let (m, seen, _) = old(self)@.reconciled(old(last_observation)@, newest@);
                (m, seen)
            }),
            match (r, old(self)@.reconciled(old(last_observation)@, newest@).2) {
                (Ok(report), Ok(model)) => report@ == model,
                (Err(e), Err(f)) => e == f,
                _ => false,
            },
            r is Err ==> final(last_observation)@ == old(last_observation)@,
            old(self)@.plan(old(last_observation)@, newest@).len() <= usize::MAX,
            old(last_observation)@.dom().finite(),
            newest@.dom().finite(),
            forall|n: nat|
                old(self)@.has_room(
                    n + batch_weight(old(self)@.plan(old(last_observation)@, newest@)),
                ) ==> #[trigger] final(self)@.has_room(n),
            r matches Ok(report) && report.skipped_adds@.len() == 0 && told_apart(
                old(self)@,
                old(last_observation)@,
            ) ==> final(self)@.reconciled(final(last_observation)@, newest@) == (
                final(self)@,
                final(last_observation)@,
                Ok::<ReconcileModel, ConstraintBatchApplyError>(unchanged()),
            ),
    {
        let ghost m = self@;
        let ghost last = last_observation@;
        proof {
            last_observation.lemma_order();
            newest.lemma_order();
        }
        let (gone, mut ops) = self.collect_outdated(last_observation, newest);
        let first = ops.len();
        let (wanted, repairs) = self.collect_wanted(last_observation, newest, &mut ops);
        let ghost plan = m.plan(last, newest@);
        let size = ops.len();
        let batch = match self.apply_constraint_batch(ops.as_slice()) {
            Ok(batch) => batch,
            Err(e) => {
                return Err(e);
            },
        };
        proof {
            assert(plan.len() == size);
            lemma_schedule(plan);
            lemma_of_additions(m, plan, schedule(plan));
            lemma_removals(m, outdated(last, newest@), last);
            assert forall|i: int| 0 <= i < batch.added@.len() implies first <= (
            #[trigger] batch.added@[i]).0 < first + wanted@.len() by {
                let index = batch@.added[i].0 as int;
                assert(index < plan.len() && plan[index] is Add);
                if index < first {
                    assert(plan[index] is Remove);
                }
            }
            assert forall|i: int| 0 <= i < batch.skipped_adds@.len() implies first <= (
            #[trigger] batch.skipped_adds@[i]).0 < first + wanted@.len() by {
                let index = batch@.skipped_adds[i].0 as int;
                assert(index < plan.len() && plan[index] is Add);
                if index < first {
                    assert(plan[index] is Remove);
                }
            }
        }
        let did_update = gone.len() > 0 || batch.added.len() > 0;
        Solver::forget(last_observation, &gone);
        let (added, repaired) = Solver::record(
            last_observation,
            &wanted,
            &repairs,
            first,
            &batch.added,
            Ghost(last),
        );
        let skipped = Solver::label_skipped(&wanted, first, &batch.skipped_adds);
        proof {
            if skipped@.len() == 0 && told_apart(m, last) {
                assert(labelled(skipped@).len() == 0);
                law_reconcile_settles(m, last, newest@);
            }
        }
        Ok(
            SemanticReconcileResult {
                did_update,
                removed_fingerprints: gone,
                added_fingerprints: added,
                repaired_fingerprints: repaired,
                skipped_adds: skipped,
            },
        )
    }
}

} // verus!
