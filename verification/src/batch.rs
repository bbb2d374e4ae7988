//! Batches of changes, which are applied in an order of the solver's own.
use crate::constraint::{Constraint, ConstraintModel};
use crate::error::{AddConstraintError, RemoveConstraintError};
use crate::fingerprint::{fingerprint, ConstraintFingerprint, FingerprintModel};
use crate::order::{in_order, lemma_in_order, put, ranking, views, Ranked};
use crate::solver::Solver;
use crate::system::{
    lemma_room_added_as, lemma_room_less, weight, ConstraintId, SolverModel,
};
use vstd::prelude::*;
use vstd::relations::*;
use vstd::seq_lib::*;

verus! {

/// A change to the constraints of a solver.
#[derive(Debug)]
pub enum ConstraintBatchOp {
    /// Adds a constraint, under a new handle.
    Add(Constraint),
    /// Removes a constraint.
    Remove(ConstraintId),
    /// Puts a constraint in the place of another, under the same handle.
    Update { id: ConstraintId, constraint: Constraint },
}

/// A change, as a mathematical object.
pub enum OpModel {
    Add(ConstraintModel),
    Remove(ConstraintId),
    Update { id: ConstraintId, constraint: ConstraintModel },
}

impl View for ConstraintBatchOp {
    type V = OpModel;

    open spec fn view(&self) -> OpModel {
        match self {
            ConstraintBatchOp::Add(c) => OpModel::Add(c@),
            ConstraintBatchOp::Remove(id) => OpModel::Remove(*id),
            ConstraintBatchOp::Update { id, constraint } => OpModel::Update {
                id: *id,
                constraint: constraint@,
            },
        }
    }
}

impl Clone for ConstraintBatchOp {
    fn clone(&self) -> (r: ConstraintBatchOp)
        ensures
            r@ == self@,
    {
        match self {
            ConstraintBatchOp::Add(c) => ConstraintBatchOp::Add(c.clone()),
            ConstraintBatchOp::Remove(id) => ConstraintBatchOp::Remove(*id),
            ConstraintBatchOp::Update { id, constraint } => ConstraintBatchOp::Update {
                id: *id,
                constraint: constraint.clone(),
            },
        }
    }
}

/// Copies some items.
fn copied<T: Copy>(items: &Vec<T>) -> (r: Vec<T>)
    ensures
        r@ == items@,
{
    let mut r: Vec<T> = Vec::new();
    for i in 0..items.len()
        invariant
            r@ == items@.take(i as int),
    {
        r.push(items[i]);
        assert(items@.take(i + 1) =~= items@.take(i as int).push(items@[i as int]));
    }
    assert(items@.take(items@.len() as int) =~= items@);
    r
}

/// What came of a batch.
#[derive(Debug)]
pub struct ConstraintBatchResult {
    /// The additions, by their places in the batch, with the handles that they got.
    pub added: Vec<(usize, ConstraintId)>,
    /// The additions that were passed over, by their places in the batch.
    pub skipped_adds: Vec<(usize, AddConstraintError)>,
}

/// What came of a batch, as a mathematical object.
#[verifier::ext_equal]
pub struct BatchModel {
    pub added: Seq<(usize, ConstraintId)>,
    pub skipped_adds: Seq<(usize, AddConstraintError)>,
}

impl View for ConstraintBatchResult {
    type V = BatchModel;

    open spec fn view(&self) -> BatchModel {
        BatchModel { added: self.added@, skipped_adds: self.skipped_adds@ }
    }
}

impl BatchModel {
    /// Nothing was done.
    pub open spec fn empty() -> BatchModel {
        BatchModel { added: Seq::empty(), skipped_adds: Seq::empty() }
    }
}

impl Clone for ConstraintBatchResult {
    fn clone(&self) -> (r: ConstraintBatchResult)
        ensures
            r@ == self@,
    {
        ConstraintBatchResult {
            added: copied(&self.added),
            skipped_adds: copied(&self.skipped_adds),
        }
    }
}

impl Default for ConstraintBatchResult {
    fn default() -> (r: ConstraintBatchResult)
        ensures
            r@ == BatchModel::empty(),
    {
        ConstraintBatchResult { added: Vec::new(), skipped_adds: Vec::new() }
    }
}

/// Where a batch stopped, and why.
#[allow(inconsistent_fields)]
#[derive(Clone, Copy, Debug, PartialEq, Eq, Structural)]
pub enum ConstraintBatchApplyError {
    /// A removal failed.
    Remove { index: usize, source: RemoveConstraintError },
    /// An addition failed.
    Add { index: usize, source: AddConstraintError },
    /// An update failed to remove the constraint that was there.
    UpdateRemove { index: usize, source: RemoveConstraintError },
    /// An update failed to add the constraint that takes its place.
    UpdateAdd { index: usize, source: AddConstraintError },
}

/// When a change is made: removals come first, then updates, and additions come last.
pub enum StageModel {
    Remove(ConstraintId),
    Update(ConstraintId),
    Add(FingerprintModel),
}

/// When a change is made.
pub enum Stage {
    Remove(ConstraintId),
    Update(ConstraintId),
    Add(ConstraintFingerprint),
}

impl View for Stage {
    type V = StageModel;

    open spec fn view(&self) -> StageModel {
        match self {
            Stage::Remove(id) => StageModel::Remove(*id),
            Stage::Update(id) => StageModel::Update(*id),
            Stage::Add(fp) => StageModel::Add(fp@),
        }
    }
}

/// Whether a stage comes before another, or is the other. Removals and updates go by their
/// handles, additions by what they say.
pub open spec fn stage_leq(a: StageModel, b: StageModel) -> bool {
    match (a, b) {
        (StageModel::Remove(x), StageModel::Remove(y)) => x.number() <= y.number(),
        (StageModel::Remove(_), _) => true,
        (StageModel::Update(_), StageModel::Remove(_)) => false,
        (StageModel::Update(x), StageModel::Update(y)) => x.number() <= y.number(),
        (StageModel::Update(_), StageModel::Add(_)) => true,
        (StageModel::Add(x), StageModel::Add(y)) => ConstraintFingerprint::leq(x, y),
        (StageModel::Add(_), _) => false,
    }
}

impl Ranked for Stage {
    open spec fn leq(a: StageModel, b: StageModel) -> bool {
        stage_leq(a, b)
    }

    proof fn reflexive(a: StageModel) {
        if let StageModel::Add(x) = a {
            ConstraintFingerprint::reflexive(x);
        }
    }

    proof fn antisymmetric(a: StageModel, b: StageModel) {
        if let (StageModel::Add(x), StageModel::Add(y)) = (a, b) {
            ConstraintFingerprint::antisymmetric(x, y);
        }
    }

    proof fn transitive(a: StageModel, b: StageModel, c: StageModel) {
        if let (StageModel::Add(x), StageModel::Add(y), StageModel::Add(z)) = (a, b, c) {
            ConstraintFingerprint::transitive(x, y, z);
        }
    }

    proof fn total(a: StageModel, b: StageModel) {
        if let (StageModel::Add(x), StageModel::Add(y)) = (a, b) {
            ConstraintFingerprint::total(x, y);
        }
    }

    fn not_after(&self, other: &Stage) -> (r: bool) {
        match (self, other) {
            (Stage::Remove(x), Stage::Remove(y)) => x.raw <= y.raw,
            (Stage::Remove(_), _) => true,
            (Stage::Update(_), Stage::Remove(_)) => false,
            (Stage::Update(x), Stage::Update(y)) => x.raw <= y.raw,
            (Stage::Update(_), Stage::Add(_)) => true,
            (Stage::Add(x), Stage::Add(y)) => x.not_after(y),
            (Stage::Add(_), _) => false,
        }
    }
}

/// The place of a change in a batch, with its turn.
pub struct TicketModel {
    pub stage: StageModel,
    pub index: usize,
}

/// The place of a change in a batch, with its turn.
pub struct Ticket {
    pub stage: Stage,
    pub index: usize,
}

impl View for Ticket {
    type V = TicketModel;

    open spec fn view(&self) -> TicketModel {
        TicketModel { stage: self.stage@, index: self.index }
    }
}

/// Whether a change has its turn before another, or is the other. Of two changes at the same
/// stage, the one that comes first in the batch has its turn first.
pub open spec fn ticket_leq(a: TicketModel, b: TicketModel) -> bool {
    if a.stage == b.stage {
        a.index <= b.index
    } else {
        stage_leq(a.stage, b.stage)
    }
}

impl Ranked for Ticket {
    open spec fn leq(a: TicketModel, b: TicketModel) -> bool {
        ticket_leq(a, b)
    }

    proof fn reflexive(a: TicketModel) {
    }

    proof fn antisymmetric(a: TicketModel, b: TicketModel) {
        if a.stage != b.stage {
            Stage::antisymmetric(a.stage, b.stage);
        }
    }

    proof fn transitive(a: TicketModel, b: TicketModel, c: TicketModel) {
        if a.stage != b.stage && b.stage != c.stage {
            Stage::transitive(a.stage, b.stage, c.stage);
            if a.stage == c.stage {
                Stage::antisymmetric(a.stage, b.stage);
            }
        }
    }

    proof fn total(a: TicketModel, b: TicketModel) {
        Stage::total(a.stage, b.stage);
    }

    fn not_after(&self, other: &Ticket) -> (r: bool) {
        if self.stage.not_after(&other.stage) {
            let equal = other.stage.not_after(&self.stage);
            proof {
                if equal {
                    Stage::antisymmetric(self.stage@, other.stage@);
                } else if self.stage@ == other.stage@ {
                    Stage::reflexive(self.stage@);
                }
            }
            !equal || self.index <= other.index
        } else {
            proof {
                Stage::reflexive(self.stage@);
            }
            false
        }
    }
}

/// When a change is made.
pub open spec fn stage(op: OpModel) -> StageModel {
    match op {
        OpModel::Add(c) => StageModel::Add(fingerprint(c)),
        OpModel::Remove(id) => StageModel::Remove(id),
        OpModel::Update { id, .. } => StageModel::Update(id),
    }
}

/// The tickets of some changes.
pub open spec fn tickets(ops: Seq<OpModel>) -> Seq<TicketModel> {
    Seq::new(ops.len(), |i: int| TicketModel { stage: stage(ops[i]), index: i as usize })
}

/// The tickets of some changes, in turn.
pub open spec fn schedule(ops: Seq<OpModel>) -> Seq<TicketModel> {
    in_order::<Ticket>(tickets(ops))
}

/// How much of the machine's limits a change may use up.
pub open spec fn op_weight(op: OpModel) -> nat {
    match op {
        OpModel::Add(c) => weight(c),
        OpModel::Remove(_) => 0,
        OpModel::Update { constraint, .. } => weight(constraint),
    }
}

/// How much of the machine's limits a batch may use up.
pub open spec fn batch_weight(ops: Seq<OpModel>) -> nat
    decreases ops.len(),
{
    if ops.len() == 0 {
        0
    } else {
        batch_weight(ops.drop_last()) + op_weight(ops.last())
    }
}

/// How much of the machine's limits the changes with some tickets may use up.
pub open spec fn burden(ops: Seq<OpModel>, ts: Seq<TicketModel>) -> nat
    decreases ts.len(),
{
    if ts.len() == 0 {
        0
    } else {
        burden(ops, ts.drop_last()) + op_weight(ops[ts.last().index as int])
    }
}

proof fn lemma_burden_without(ops: Seq<OpModel>, ts: Seq<TicketModel>, i: int)
    requires
        0 <= i < ts.len(),
    ensures
        burden(ops, ts) == burden(ops, ts.remove(i)) + op_weight(ops[ts[i].index as int]),
    decreases ts.len(),
{
    if i == ts.len() - 1 {
        assert(ts.remove(i) =~= ts.drop_last());
    } else {
        lemma_burden_without(ops, ts.drop_last(), i);
        assert(ts.remove(i).drop_last() =~= ts.drop_last().remove(i));
        assert(ts.remove(i).last() == ts.last());
    }
}

/// The order of the tickets does not change what they use up.
pub(crate) proof fn lemma_burden_reordered(ops: Seq<OpModel>, a: Seq<TicketModel>, b: Seq<TicketModel>)
    requires
        a.to_multiset() == b.to_multiset(),
    ensures
        burden(ops, a) == burden(ops, b),
    decreases a.len(),
{
    broadcast use group_to_multiset_ensures;
    broadcast use vstd::multiset::group_multiset_axioms;

    assert(a.to_multiset().len() == a.len());
    assert(b.to_multiset().len() == b.len());
    if a.len() > 0 {
        let t = a.last();
        assert(a.contains(a[a.len() - 1]));
        assert(a.to_multiset().count(t) > 0);
        assert(b.contains(t));
        let i = choose|i: int| 0 <= i < b.len() && b[i] == t;
        assert(a.drop_last() =~= a.remove(a.len() - 1));
        to_multiset_remove(a, a.len() - 1);
        to_multiset_remove(b, i);
        lemma_burden_reordered(ops, a.drop_last(), b.remove(i));
        lemma_burden_without(ops, b, i);
    }
}

pub(crate) proof fn lemma_burden_whole(ops: Seq<OpModel>, n: int)
    requires
        0 <= n <= ops.len() <= usize::MAX,
    ensures
        burden(ops, tickets(ops).take(n)) == batch_weight(ops.take(n)),
    decreases n,
{
    let ts = tickets(ops);
    if n > 0 {
        lemma_burden_whole(ops, n - 1);
        assert(ts.take(n).drop_last() =~= ts.take(n - 1));
        assert(ops.take(n).drop_last() =~= ops.take(n - 1));
        assert(ts.take(n).last() == ts[n - 1]);
    }
}

/// The schedule holds the ticket of each change once.
pub(crate) proof fn lemma_schedule(ops: Seq<OpModel>)
    requires
        ops.len() <= usize::MAX,
    ensures
        schedule(ops).len() == ops.len(),
        sorted_by(schedule(ops), ranking::<Ticket>()),
        schedule(ops).to_multiset() == tickets(ops).to_multiset(),
        forall|i: int|
            0 <= i < schedule(ops).len() ==> (#[trigger] schedule(ops)[i]).index < ops.len()
                && schedule(ops)[i].stage == stage(ops[schedule(ops)[i].index as int]),
{
    broadcast use group_to_multiset_ensures;

    let ts = tickets(ops);
    let s = schedule(ops);
    crate::order::lemma_ranking::<Ticket>();
    ts.lemma_sort_by_ensures(ranking::<Ticket>());
    assert(s.to_multiset().len() == s.len());
    assert(ts.to_multiset().len() == ts.len());
    assert forall|i: int| 0 <= i < s.len() implies (#[trigger] s[i]).index < ops.len() && s[i].stage
        == stage(ops[s[i].index as int]) by {
        assert(s.contains(s[i]));
        assert(ts.contains(s[i]));
        let j = choose|j: int| 0 <= j < ts.len() && ts[j] == s[i];
        assert(ts[j].index == j);
    }
}

impl SolverModel {
    /// A change is made.
    pub open spec fn stepped(self, op: OpModel, index: usize, done: BatchModel) -> (
        SolverModel,
        Result<BatchModel, ConstraintBatchApplyError>,
    ) {
        match op {
            OpModel::Remove(id) => match self.removed(id) {
                (m, Ok(_)) => (m, Ok(done)),
                (m, Err(source)) => (m, Err(ConstraintBatchApplyError::Remove { index, source })),
            },
            OpModel::Update { id, constraint } => match self.removed(id) {
                (m, Ok(_)) => match m.added_as(id, constraint) {
                    (m, Ok(_)) => (m, Ok(done)),
                    (m, Err(source)) => (
                        m,
                        Err(ConstraintBatchApplyError::UpdateAdd { index, source }),
                    ),
                },
                (m, Err(source)) => (
                    m,
                    Err(ConstraintBatchApplyError::UpdateRemove { index, source }),
                ),
            },
            OpModel::Add(c) => match self.added(c) {
                (m, Ok(id)) => (m, Ok(BatchModel { added: done.added.push((index, id)), ..done })),
                (m, Err(AddConstraintError::InternalSolverError(e))) => (
                    m,
                    Err(
                        ConstraintBatchApplyError::Add {
                            index,
                            source: AddConstraintError::InternalSolverError(e),
                        },
                    ),
                ),
                (m, Err(e)) => (
                    m,
                    Ok(BatchModel { skipped_adds: done.skipped_adds.push((index, e)), ..done }),
                ),
            },
        }
    }

    /// The changes with some tickets are made, one after the other, up to the first that fails.
    pub open spec fn applied(self, ops: Seq<OpModel>, ts: Seq<TicketModel>) -> (
        SolverModel,
        Result<BatchModel, ConstraintBatchApplyError>,
    )
        decreases ts.len(),
    {
        if ts.len() == 0 {
            (self, Ok(BatchModel::empty()))
        } else {
            match self.applied(ops, ts.drop_last()) {
                (m, Err(e)) => (m, Err(e)),
                (m, Ok(done)) => {
                    let index = ts.last().index;
                    m.stepped(ops[index as int], index, done)
                },
            }
        }
    }

    /// A batch is applied.
    pub open spec fn batched(self, ops: Seq<OpModel>) -> (
        SolverModel,
        Result<BatchModel, ConstraintBatchApplyError>,
    ) {
        self.applied(ops, schedule(ops))
    }
}

/// What came of a batch.
pub open spec fn outcome(r: Result<ConstraintBatchResult, ConstraintBatchApplyError>) -> Result<
    BatchModel,
    ConstraintBatchApplyError,
> {
    match r {
        Ok(b) => Ok(b@),
        Err(e) => Err(e),
    }
}

/// Once a change has failed the batch has failed.
proof fn lemma_applied_stops(m: SolverModel, ops: Seq<OpModel>, ts: Seq<TicketModel>, n: int)
    requires
        0 <= n <= ts.len(),
        m.applied(ops, ts.take(n)).1 is Err,
    ensures
        m.applied(ops, ts) == m.applied(ops, ts.take(n)),
    decreases ts.len() - n,
{
    if n == ts.len() {
        assert(ts.take(n) =~= ts);
    } else {
        assert(ts.take(n + 1).drop_last() =~= ts.take(n));
        lemma_applied_stops(m, ops, ts, n + 1);
    }
}

impl Solver {
    /// Makes a change.
    fn step(&mut self, op: &ConstraintBatchOp, index: usize, done: &mut ConstraintBatchResult) -> (r:
        Result<(), ConstraintBatchApplyError>)
        requires
            old(self).wf(),
            old(self)@.has_room(op_weight(op@)),
        ensures
            final(self).wf(),
            final(self)@ == old(self)@.stepped(op@, index, old(done)@).0,
            match r {
                Ok(_) => old(self)@.stepped(op@, index, old(done)@).1 == Ok::<
                    BatchModel,
                    ConstraintBatchApplyError,
                >(final(done)@),
                Err(e) => old(self)@.stepped(op@, index, old(done)@).1 == Err::<
                    BatchModel,
                    ConstraintBatchApplyError,
                >(e),
            },
            forall|n: nat|
                old(self)@.has_room(n + op_weight(op@)) ==> #[trigger] final(self)@.has_room(n),
    {
        let ghost m = self@;
        match op {
            ConstraintBatchOp::Remove(id) => match self.remove_constraint(*id) {
                Ok(_) => Ok(()),
                Err(source) => Err(ConstraintBatchApplyError::Remove { index, source }),
            },
            ConstraintBatchOp::Update { id, constraint } => {
                match self.remove_constraint(*id) {
                    Ok(_) => {},
                    Err(source) => {
                        proof {
                            assert forall|n: nat|
                                m.has_room(n + op_weight(op@)) implies #[trigger] self@.has_room(
                                n,
                            ) by {
                                lemma_room_less(m, n + op_weight(op@), n);
                            }
                        }
                        return Err(ConstraintBatchApplyError::UpdateRemove { index, source });
                    },
                }
                let ghost u = self@;
                proof {
                    assert(m.constraints.contains_key(*id));
                    assert(u.has_room(weight(constraint@)));
                    lemma_room_less(u, weight(constraint@), constraint@.terms.len() + 3);
                }
                let r = self.add_constraint_with_id(*id, constraint.clone());
                proof {
                    assert forall|n: nat|
                        m.has_room(n + op_weight(op@)) implies #[trigger] self@.has_room(n) by {
                        assert(u.has_room(n + op_weight(op@)));
                        lemma_room_less(
                            u,
                            n + op_weight(op@),
                            n + constraint@.terms.len() + 3,
                        );
                        lemma_room_added_as(u, *id, constraint@, n);
                    }
                }
                match r {
                    Ok(_) => Ok(()),
                    Err(source) => Err(ConstraintBatchApplyError::UpdateAdd { index, source }),
                }
            },
            ConstraintBatchOp::Add(constraint) => match self.add_constraint(constraint.clone()) {
                Ok(id) => {
                    done.added.push((index, id));
                    Ok(())
                },
                Err(AddConstraintError::InternalSolverError(e)) => Err(
                    ConstraintBatchApplyError::Add {
                        index,
                        source: AddConstraintError::InternalSolverError(e),
                    },
                ),
                Err(e) => {
                    done.skipped_adds.push((index, e));
                    Ok(())
                },
            },
        }
    }

    /// Puts the changes of a batch in order.
    fn arrange(ops: &[ConstraintBatchOp]) -> (r: Vec<Ticket>)
        ensures
            views(r@) == schedule(views(ops@)),
    {
        let mut sorted: Vec<Ticket> = Vec::new();
        let ghost ts = tickets(views(ops@));
        assert(views(sorted@) =~= ts.take(0));
        for i in 0..ops.len()
            invariant
                ts == tickets(views(ops@)),
                sorted_by(views(sorted@), ranking::<Ticket>()),
                views(sorted@).to_multiset() == ts.take(i as int).to_multiset(),
        {
            let stage = match &ops[i] {
                ConstraintBatchOp::Add(c) => Stage::Add(ConstraintFingerprint::new(c)),
                ConstraintBatchOp::Remove(id) => Stage::Remove(*id),
                ConstraintBatchOp::Update { id, .. } => Stage::Update(*id),
            };
            let ticket = Ticket { stage, index: i };
            proof {
                assert(views(ops@)[i as int] == ops@[i as int]@);
                assert(ticket@ == ts[i as int]);
                assert(ts.take(i + 1) =~= ts.take(i as int).push(ticket@));
                to_multiset_build(ts.take(i as int), ticket@);
            }
            put(&mut sorted, ticket);
        }
        proof {
            assert(ts.take(ts.len() as int) =~= ts);
            lemma_in_order::<Ticket>(views(sorted@), ts);
        }
        sorted
    }

    /// Applies a batch of changes. The solver puts them in order: removals by their handles, then
    /// updates by their handles, then additions by what they say.
    ///
    /// An addition that is a duplicate or cannot be satisfied is noted and passed over. Any other
    /// failure stops the batch, and the changes that were made until then remain.
    pub fn apply_constraint_batch(&mut self, ops: &[ConstraintBatchOp]) -> (r: Result<
        ConstraintBatchResult,
        ConstraintBatchApplyError,
    >)
        requires
            old(self).wf(),
            old(self)@.has_room(batch_weight(views(ops@))),
        ensures
            final(self).wf(),
            (final(self)@, outcome(r)) == old(self)@.batched(views(ops@)),
            forall|n: nat|
                old(self)@.has_room(n + batch_weight(views(ops@)))
                    ==> #[trigger] final(self)@.has_room(n),
            ops@.len() <= usize::MAX,
    {
        let count: usize = ops.len();
        let sorted = Solver::arrange(ops);
        let mut done = ConstraintBatchResult::default();
        let ghost os = views(ops@);
        let ghost ts = schedule(os);
        let ghost m = self@;
        assert(os.len() == count);
        proof {
            lemma_schedule(os);
            lemma_burden_reordered(os, ts, tickets(os));
            lemma_burden_whole(os, os.len() as int);
            assert(tickets(os).take(os.len() as int) =~= tickets(os));
            assert(os.take(os.len() as int) =~= os);
            assert(ts.take(0) =~= Seq::<TicketModel>::empty());
            assert(ts.skip(0) =~= ts);
            assert(sorted@.len() == ts.len());
            assert(done@ =~= BatchModel::empty());
        }
        for i in 0..sorted.len()
            invariant
                self.wf(),
                m == old(self)@,
                os == views(ops@),
                ts == schedule(os),
                ts == views(sorted@),
                os.len() == ops@.len() == count,
                (self@, Ok::<BatchModel, ConstraintBatchApplyError>(done@)) == m.applied(
                    os,
                    ts.take(i as int),
                ),
                burden(os, ts.take(i as int)) <= burden(os, ts),
                self@.has_room((burden(os, ts) - burden(os, ts.take(i as int))) as nat),
                forall|n: nat| #[trigger]
                    m.has_room(n + burden(os, ts)) ==> self@.has_room(
                        (n + burden(os, ts) - burden(os, ts.take(i as int))) as nat,
                    ),
                burden(os, ts) == batch_weight(os),
        {
            let index = sorted[i].index;
            proof {
                lemma_schedule(os);
                assert(ts[i as int] == sorted@[i as int]@);
                assert(ts[i as int].index < os.len());
                assert(ts.take(i + 1).drop_last() =~= ts.take(i as int));
                assert(ts.take(i + 1).last() == ts[i as int]);
                lemma_burden_prefix(os, ts, i + 1);
                lemma_room_less(
                    self@,
                    (burden(os, ts) - burden(os, ts.take(i as int))) as nat,
                    op_weight(os[index as int]),
                );
                assert(os[index as int] == ops@[index as int]@);
            }
            let ghost before = self@;
            let ghost rest = (burden(os, ts) - burden(os, ts.take(i + 1))) as nat;
            assert(before.has_room(rest + op_weight(os[index as int])));
            let stepped = self.step(&ops[index], index, &mut done);
            proof {
                assert forall|n: nat| #[trigger] m.has_room(n + burden(os, ts)) implies self@.has_room(
                    (n + rest) as nat,
                ) by {
                    assert(before.has_room((n + rest) as nat + op_weight(os[index as int])));
                }
            }
            match stepped {
                Ok(_) => {},
                Err(e) => {
                    proof {
                        assert forall|n: nat|
                            m.has_room(n + batch_weight(os)) implies #[trigger] self@.has_room(
                            n,
                        ) by {
                            assert(m.has_room(n + burden(os, ts)));
                            lemma_room_less(self@, (n + rest) as nat, n);
                        }
                        lemma_applied_stops(m, os, ts, i + 1);
                    }
                    return Err(e);
                },
            }
            assert(self@.has_room(rest));
        }
        proof {
            assert(ts.take(ts.len() as int) =~= ts);
            assert forall|n: nat| m.has_room(n + batch_weight(os)) implies #[trigger] self@.has_room(
                n,
            ) by {
                assert(m.has_room(n + burden(os, ts)));
            }
        }
        Ok(done)
    }
}

/// A part of the tickets uses up no more than all.
proof fn lemma_burden_prefix(ops: Seq<OpModel>, ts: Seq<TicketModel>, n: int)
    requires
        0 <= n <= ts.len(),
    ensures
        burden(ops, ts.take(n)) <= burden(ops, ts),
    decreases ts.len() - n,
{
    if n == ts.len() {
        assert(ts.take(n) =~= ts);
    } else {
        lemma_burden_prefix(ops, ts, n + 1);
        assert(ts.take(n + 1).drop_last() =~= ts.take(n));
    }
}

} // verus!
