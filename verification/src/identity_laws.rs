//! Laws of identities: which object says a thing decides only whether it is a duplicate, and never
//! a value.
use crate::batch::{lemma_schedule, schedule, tickets, BatchModel, OpModel, TicketModel};
use crate::constraint::{ConstraintModel, Strength};
use crate::expression::{Term, Variable};
use crate::fingerprint::{ConstraintFingerprint, FingerprintModel};
use crate::fingerprint_laws::law_fingerprint_ignores_identity;
use crate::history::Call;
use crate::number::Number;
use crate::order::{lemma_listed, listing};
use crate::reconcile::{absent, additions, lemma_removals, outdated, Observation, Wishes};
use crate::reconcile_laws::lemma_lacking;
use crate::row::RowModel;
use crate::simplex::Tag;
use crate::system::{
    lemma_absorbed_frame, lemma_added_as_frame, ConstraintId, EntryModel, SolverModel,
};
use vstd::prelude::*;

verus! {

/// A constraint without its identity.
pub open spec fn unnamed(c: ConstraintModel) -> ConstraintModel {
    ConstraintModel { identity: None, ..c }
}

/// Whether one constraint is the other, built anew or not.
pub open spec fn rebuilt(c: ConstraintModel, d: ConstraintModel) -> bool {
    unnamed(c) == unnamed(d)
}

/// A system without the identities of its constraints.
pub open spec fn nameless(m: SolverModel) -> SolverModel {
    SolverModel {
        constraints: m.constraints.map_values(
            |e: EntryModel| EntryModel { constraint: unnamed(e.constraint), tag: e.tag },
        ),
        constraint_ids: Map::empty(),
        ..m
    }
}

/// Whether two systems are the same but for the identities of their constraints.
pub open spec fn twins(a: SolverModel, b: SolverModel) -> bool {
    nameless(a) == nameless(b)
}

/// Twins know the same handles, with the same entries but for the identities.
proof fn lemma_twins(a: SolverModel, b: SolverModel)
    requires
        twins(a, b),
    ensures
        a.var_data == b.var_data,
        a.edits == b.edits,
        a.tableau == b.tableau,
        a.id_tick == b.id_tick,
        a.next_constraint_id == b.next_constraint_id,
        forall|id: ConstraintId| #[trigger]
            a.constraints.contains_key(id) <==> b.constraints.contains_key(id),
        forall|id: ConstraintId| #[trigger]
            a.constraints.contains_key(id) ==> a.constraints[id].tag == b.constraints[id].tag
                && rebuilt(a.constraints[id].constraint, b.constraints[id].constraint),
{
    assert forall|id: ConstraintId| #[trigger]
        a.constraints.contains_key(id) <==> b.constraints.contains_key(id) by {
        assert(nameless(a).constraints.contains_key(id) <==> nameless(b).constraints.contains_key(
            id,
        ));
    }
    assert forall|id: ConstraintId| #[trigger] a.constraints.contains_key(id) implies
        a.constraints[id].tag == b.constraints[id].tag && rebuilt(
        a.constraints[id].constraint,
        b.constraints[id].constraint,
    ) by {
        assert(nameless(a).constraints[id] == nameless(b).constraints[id]);
    }
}

/// What makes twins.
proof fn lemma_are_twins(a: SolverModel, b: SolverModel)
    requires
        a.var_data == b.var_data,
        a.edits == b.edits,
        a.tableau == b.tableau,
        a.id_tick == b.id_tick,
        a.next_constraint_id == b.next_constraint_id,
        forall|id: ConstraintId| #[trigger]
            a.constraints.contains_key(id) <==> b.constraints.contains_key(id),
        forall|id: ConstraintId| #[trigger]
            a.constraints.contains_key(id) ==> a.constraints[id].tag == b.constraints[id].tag
                && rebuilt(a.constraints[id].constraint, b.constraints[id].constraint),
    ensures
        twins(a, b),
{
    let (x, y) = (nameless(a), nameless(b));
    assert(x.constraints =~= y.constraints) by {
        assert forall|id: ConstraintId| x.constraints.contains_key(id)
            == y.constraints.contains_key(id) && (x.constraints.contains_key(id)
            ==> x.constraints[id] == y.constraints[id]) by {
            assert(a.constraints.contains_key(id) <==> b.constraints.contains_key(id));
        }
    }
}

proof fn lemma_twins_absorb(a: SolverModel, b: SolverModel, row: RowModel, terms: Seq<Term>)
    requires
        twins(a, b),
    ensures
        twins(a.absorbed(row, terms).0, b.absorbed(row, terms).0),
        a.absorbed(row, terms).1 == b.absorbed(row, terms).1,
    decreases terms.len(),
{
    if terms.len() > 0 {
        let rest = terms.drop_last();
        lemma_twins_absorb(a, b, row, rest);
        lemma_absorbed_frame(a, row, rest);
        lemma_absorbed_frame(b, row, rest);
        let (p, q) = (a.absorbed(row, rest).0, b.absorbed(row, rest).0);
        lemma_twins(p, q);
        let v = terms.last().variable;
        lemma_are_twins(p.referred(v), q.referred(v));
    }
}

proof fn lemma_twins_place(a: SolverModel, b: SolverModel, row: RowModel, tag: Tag)
    requires
        twins(a, b),
    ensures
        twins(a.placed(row, tag).0, b.placed(row, tag).0),
        a.placed(row, tag).1 == b.placed(row, tag).1,
        a.placed(row, tag).0.constraint_ids == a.constraint_ids,
        b.placed(row, tag).0.constraint_ids == b.constraint_ids,
{
    lemma_twins(a, b);
    lemma_are_twins(a.placed(row, tag).0, b.placed(row, tag).0);
}

proof fn lemma_twins_add_as(
    a: SolverModel,
    b: SolverModel,
    id: ConstraintId,
    c: ConstraintModel,
    d: ConstraintModel,
)
    requires
        twins(a, b),
        rebuilt(c, d),
        a.knows(id, c) == b.knows(id, d),
    ensures
        twins(a.added_as(id, c).0, b.added_as(id, d).0),
        a.added_as(id, c).1 == b.added_as(id, d).1,
{
    reveal(SolverModel::added_as);
    assert(unnamed(c).terms == unnamed(d).terms && unnamed(c).constant == unnamed(d).constant
        && unnamed(c).operator == unnamed(d).operator && unnamed(c).strength
        == unnamed(d).strength);
    if !a.knows(id, c) {
        let start = RowModel::only(c.constant);
        lemma_twins_absorb(a, b, start, c.terms);
        let (p, r) = a.absorbed(start, c.terms);
        let (q, _) = b.absorbed(start, c.terms);
        lemma_twins(p, q);
        let (p1, row1, tag) = p.marked(r, c);
        let (q1, row2, tag2) = q.marked(r, d);
        assert(tag == tag2 && row1 == row2);
        lemma_are_twins(p1, q1);
        let row = a.created(c).1;
        assert(row == b.created(d).1);
        lemma_twins_place(p1, q1, row, tag);
        let (p2, q2) = (p1.placed(row, tag).0, q1.placed(row, tag).0);
        lemma_twins(p2, q2);
        let (p3, q3) = (p2.registered(id, c, tag), q2.registered(id, d, tag));
        lemma_are_twins(p3, q3);
        lemma_are_twins(p3.optimized().0, q3.optimized().0);
    }
}

proof fn lemma_twins_add(a: SolverModel, b: SolverModel, c: ConstraintModel, d: ConstraintModel)
    requires
        twins(a, b),
        rebuilt(c, d),
        a.knows(a.next_id(), c) == b.knows(b.next_id(), d),
    ensures
        twins(a.added(c).0, b.added(d).0),
        a.added(c).1 == b.added(d).1,
{
    lemma_twins(a, b);
    let p = SolverModel { next_constraint_id: a.next_constraint_id + 1, ..a };
    let q = SolverModel { next_constraint_id: b.next_constraint_id + 1, ..b };
    lemma_are_twins(p, q);
    lemma_twins_add_as(p, q, a.next_id(), c, d);
}

proof fn lemma_twins_release(a: SolverModel, b: SolverModel, terms: Seq<Term>)
    requires
        twins(a, b),
    ensures
        twins(a.released(terms), b.released(terms)),
    decreases terms.len(),
{
    if terms.len() > 0 {
        let rest = terms.drop_last();
        lemma_twins_release(a, b, rest);
        let (p, q) = (a.released(rest), b.released(rest));
        lemma_twins(p, q);
        let v = terms.last().variable;
        lemma_are_twins(p.unreferred(v), q.unreferred(v));
    }
}

proof fn lemma_twins_remove(a: SolverModel, b: SolverModel, id: ConstraintId)
    requires
        twins(a, b),
    ensures
        twins(a.removed(id).0, b.removed(id).0),
        a.removed(id).1 == b.removed(id).1,
{
    reveal(SolverModel::withdrawn);
    lemma_twins(a, b);
    if a.constraints.contains_key(id) {
        let tag = a.constraints[id].tag;
        let c = a.constraints[id].constraint;
        let d = b.constraints[id].constraint;
        assert(rebuilt(c, d));
        assert(unnamed(c).terms == unnamed(d).terms && unnamed(c).strength == unnamed(d).strength);
        let (p, q) = (a.unregistered(id), b.unregistered(id));
        lemma_are_twins(p, q);
        let t = p.tableau.without_costs(tag, c.strength.value);
        lemma_are_twins(SolverModel { tableau: t, ..p }, SolverModel { tableau: t, ..q });
        if let Some(u) = t.without_marker(tag.marker) {
            let (p1, q1) = (SolverModel { tableau: u, ..p }, SolverModel { tableau: u, ..q });
            lemma_are_twins(p1, q1);
            lemma_are_twins(p1.optimized().0, q1.optimized().0);
            lemma_twins_release(p1.optimized().0, q1.optimized().0, c.terms);
        }
    }
}

/// Whether one change is the other, with its constraint built anew or not.
pub open spec fn rebuilt_op(x: OpModel, y: OpModel) -> bool {
    match (x, y) {
        (OpModel::Add(c), OpModel::Add(d)) => rebuilt(c, d),
        (OpModel::Remove(i), OpModel::Remove(j)) => i == j,
        (OpModel::Update { id: i, constraint: c }, OpModel::Update { id: j, constraint: d }) => i
            == j && rebuilt(c, d),
        _ => false,
    }
}

/// Whether some changes are others, with their constraints built anew or not.
pub open spec fn rebuilt_ops(xs: Seq<OpModel>, ys: Seq<OpModel>) -> bool {
    &&& xs.len() == ys.len()
    &&& forall|i: int| 0 <= i < xs.len() ==> rebuilt_op(#[trigger] xs[i], ys[i])
}

/// Whether two systems tell alike of a change whether it adds a duplicate.
pub open spec fn told_alike(a: SolverModel, b: SolverModel, x: OpModel, y: OpModel) -> bool {
    match (x, y) {
        (OpModel::Add(c), OpModel::Add(d)) => a.knows(a.next_id(), c) == b.knows(b.next_id(), d),
        (
            OpModel::Update { id: i, constraint: c },
            OpModel::Update { id: j, constraint: d },
        ) => a.removed(i).0.knows(i, c) == b.removed(j).0.knows(j, d),
        _ => true,
    }
}

/// Whether two systems tell alike of each of some changes, when it has its turn.
pub open spec fn told_alike_in_turn(
    a: SolverModel,
    b: SolverModel,
    xs: Seq<OpModel>,
    ys: Seq<OpModel>,
    ts: Seq<TicketModel>,
) -> bool
    decreases ts.len(),
{
    ts.len() == 0 || {
        let rest = ts.drop_last();
        let i = ts.last().index as int;
        told_alike_in_turn(a, b, xs, ys, rest) && (a.applied(xs, rest).1 is Ok ==> told_alike(
            a.applied(xs, rest).0,
            b.applied(ys, rest).0,
            xs[i],
            ys[i],
        ))
    }
}

proof fn lemma_twins_step(
    a: SolverModel,
    b: SolverModel,
    x: OpModel,
    y: OpModel,
    index: usize,
    done: BatchModel,
)
    requires
        twins(a, b),
        rebuilt_op(x, y),
        told_alike(a, b, x, y),
    ensures
        twins(a.stepped(x, index, done).0, b.stepped(y, index, done).0),
        a.stepped(x, index, done).1 == b.stepped(y, index, done).1,
{
    match (x, y) {
        (OpModel::Add(c), OpModel::Add(d)) => {
            lemma_twins_add(a, b, c, d);
        },
        (OpModel::Remove(i), OpModel::Remove(j)) => {
            lemma_twins_remove(a, b, i);
        },
        (OpModel::Update { id: i, constraint: c }, OpModel::Update { id: j, constraint: d }) => {
            lemma_twins_remove(a, b, i);
            lemma_twins_add_as(a.removed(i).0, b.removed(i).0, i, c, d);
        },
        _ => {},
    }
}

proof fn lemma_twins_apply(
    a: SolverModel,
    b: SolverModel,
    xs: Seq<OpModel>,
    ys: Seq<OpModel>,
    ts: Seq<TicketModel>,
)
    requires
        twins(a, b),
        rebuilt_ops(xs, ys),
        forall|p: int| 0 <= p < ts.len() ==> (#[trigger] ts[p]).index < xs.len(),
        told_alike_in_turn(a, b, xs, ys, ts),
    ensures
        twins(a.applied(xs, ts).0, b.applied(ys, ts).0),
        a.applied(xs, ts).1 == b.applied(ys, ts).1,
    decreases ts.len(),
{
    if ts.len() > 0 {
        let rest = ts.drop_last();
        assert forall|p: int| 0 <= p < rest.len() implies (#[trigger] rest[p]).index < xs.len() by {
            assert(rest[p] == ts[p]);
        }
        lemma_twins_apply(a, b, xs, ys, rest);
        let index = ts[ts.len() - 1].index;
        assert(rebuilt_op(xs[index as int], ys[index as int]));
        if let Ok(done) = a.applied(xs, rest).1 {
            lemma_twins_step(
                a.applied(xs, rest).0,
                b.applied(ys, rest).0,
                xs[index as int],
                ys[index as int],
                index,
                done,
            );
        }
    }
}

/// Changes with rebuilt constraints have the same schedule.
proof fn lemma_same_turns(xs: Seq<OpModel>, ys: Seq<OpModel>)
    requires
        rebuilt_ops(xs, ys),
    ensures
        schedule(xs) == schedule(ys),
{
    assert forall|i: int| 0 <= i < xs.len() implies tickets(xs)[i] == tickets(ys)[i] by {
        assert(rebuilt_op(xs[i], ys[i]));
        if let (OpModel::Add(c), OpModel::Add(d)) = (xs[i], ys[i]) {
            law_fingerprint_ignores_identity(c, None);
            law_fingerprint_ignores_identity(d, None);
        }
    }
    assert(tickets(xs) =~= tickets(ys));
}

/// Whether some constraints are others, built anew or not.
pub open spec fn rebuilt_all(cs: Seq<ConstraintModel>, ds: Seq<ConstraintModel>) -> bool {
    &&& cs.len() == ds.len()
    &&& forall|i: int| 0 <= i < cs.len() ==> rebuilt(#[trigger] cs[i], ds[i])
}

/// Whether some wishes are others, with their constraints built anew or not.
pub open spec fn rebuilt_wishes(p: Wishes, q: Wishes) -> bool {
    &&& p.dom() == q.dom()
    &&& forall|k: FingerprintModel| #[trigger] p.contains_key(k) ==> rebuilt(p[k]@, q[k]@)
}

/// Whether one call is the other, with its constraints built anew or not.
pub open spec fn rebuilt_call(x: Call, y: Call) -> bool {
    match (x, y) {
        (Call::Add(c), Call::Add(d)) => rebuilt(c, d),
        (Call::AddAll(cs), Call::AddAll(ds)) => rebuilt_all(cs, ds),
        (Call::Batch(xs), Call::Batch(ys)) => rebuilt_ops(xs, ys),
        (Call::Reconcile(l, p), Call::Reconcile(k, q)) => l == k && rebuilt_wishes(p, q),
        _ => x == y,
    }
}

/// Whether two systems tell alike of each of some constraints, when it has its turn, whether it is
/// a duplicate.
pub open spec fn told_alike_of_all(
    a: SolverModel,
    b: SolverModel,
    cs: Seq<ConstraintModel>,
    ds: Seq<ConstraintModel>,
) -> bool
    decreases cs.len(),
{
    cs.len() == 0 || {
        let (p, q) = (cs.drop_last(), ds.drop_last());
        let (m, n) = (a.added_all(p).0, b.added_all(q).0);
        told_alike_of_all(a, b, p, q) && (a.added_all(p).1 is Ok ==> m.knows(m.next_id(), cs.last())
            == n.knows(n.next_id(), ds.last()))
    }
}

/// Whether two systems tell alike of the constraints of a call whether they are duplicates.
pub open spec fn told_alike_of_call(a: SolverModel, b: SolverModel, x: Call, y: Call) -> bool {
    match (x, y) {
        (Call::Add(c), Call::Add(d)) => a.knows(a.next_id(), c) == b.knows(b.next_id(), d),
        (Call::AddAll(cs), Call::AddAll(ds)) => told_alike_of_all(a, b, cs, ds),
        (Call::Batch(xs), Call::Batch(ys)) => told_alike_in_turn(a, b, xs, ys, schedule(xs)),
        (Call::Reconcile(l, p), Call::Reconcile(_, q)) => told_alike_in_turn(
            a,
            b,
            a.plan(l, p),
            b.plan(l, q),
            schedule(a.plan(l, p)),
        ),
        _ => true,
    }
}

/// Whether the machine can count the changes that a call makes of a system.
pub open spec fn countable(m: SolverModel, call: Call) -> bool {
    match call {
        Call::Batch(ops) => ops.len() <= usize::MAX,
        Call::Reconcile(last, newest) => newest.dom().finite() && m.plan(last, newest).len()
            <= usize::MAX,
        _ => true,
    }
}

proof fn lemma_twins_add_all(
    a: SolverModel,
    b: SolverModel,
    cs: Seq<ConstraintModel>,
    ds: Seq<ConstraintModel>,
)
    requires
        twins(a, b),
        rebuilt_all(cs, ds),
        told_alike_of_all(a, b, cs, ds),
    ensures
        twins(a.added_all(cs).0, b.added_all(ds).0),
        a.added_all(cs).1 == b.added_all(ds).1,
    decreases cs.len(),
{
    if cs.len() > 0 {
        let (p, q) = (cs.drop_last(), ds.drop_last());
        assert forall|i: int| 0 <= i < p.len() implies rebuilt(#[trigger] p[i], q[i]) by {
            assert(rebuilt(cs[i], ds[i]));
        }
        lemma_twins_add_all(a, b, p, q);
        assert(rebuilt(cs[cs.len() - 1], ds[ds.len() - 1]));
        if a.added_all(p).1 is Ok {
            lemma_twins_add(a.added_all(p).0, b.added_all(q).0, cs.last(), ds.last());
        }
    }
}

proof fn lemma_same_plan(a: SolverModel, b: SolverModel, last: Observation, p: Wishes, q: Wishes)
    requires
        twins(a, b),
        rebuilt_wishes(p, q),
        p.dom().finite(),
    ensures
        rebuilt_ops(a.plan(last, p), b.plan(last, q)),
{
    lemma_twins(a, b);
    let s = listing::<ConstraintFingerprint>(last.dom());
    let t = listing::<ConstraintFingerprint>(p.dom());
    lemma_same_absent(s, p, q);
    let gone = outdated(last, p);
    assert(gone == outdated(last, q));
    lemma_same_removals(a, b, gone, last);
    lemma_same_lacking(a, b, t, last);
    lemma_listed::<ConstraintFingerprint>(p.dom());
    lemma_lacking(a, t, last);
    let wanted = a.wanted(last, p);
    let (x, y) = (additions(wanted, p), additions(wanted, q));
    assert forall|i: int| 0 <= i < wanted.len() implies rebuilt_op(#[trigger] x[i], y[i]) by {
        assert(wanted.contains(wanted[i]));
        assert(t.contains(wanted[i]));
        assert(p.contains_key(wanted[i]));
    }
    let r = a.removals(gone, last);
    lemma_removals(a, gone, last);
    let (xs, ys) = (a.plan(last, p), b.plan(last, q));
    assert forall|i: int| 0 <= i < xs.len() implies rebuilt_op(#[trigger] xs[i], ys[i]) by {
        if i < r.len() {
            assert(xs[i] == r[i] && ys[i] == r[i]);
        } else {
            assert(xs[i] == x[i - r.len()] && ys[i] == y[i - r.len()]);
        }
    }
}

proof fn lemma_same_absent(s: Seq<FingerprintModel>, p: Wishes, q: Wishes)
    requires
        p.dom() == q.dom(),
    ensures
        absent(s, p) == absent(s, q),
    decreases s.len(),
{
    if s.len() > 0 {
        lemma_same_absent(s.drop_last(), p, q);
        assert(p.dom().contains(s.last()) == q.dom().contains(s.last()));
    }
}

proof fn lemma_same_removals(
    a: SolverModel,
    b: SolverModel,
    s: Seq<FingerprintModel>,
    last: Observation,
)
    requires
        twins(a, b),
    ensures
        a.removals(s, last) == b.removals(s, last),
    decreases s.len(),
{
    lemma_twins(a, b);
    if s.len() > 0 {
        lemma_same_removals(a, b, s.drop_last(), last);
        assert(a.constraints.contains_key(last[s.last()]) <==> b.constraints.contains_key(
            last[s.last()],
        ));
    }
}

proof fn lemma_same_lacking(
    a: SolverModel,
    b: SolverModel,
    s: Seq<FingerprintModel>,
    last: Observation,
)
    requires
        twins(a, b),
    ensures
        a.lacking(s, last) == b.lacking(s, last),
    decreases s.len(),
{
    lemma_twins(a, b);
    if s.len() > 0 {
        lemma_same_lacking(a, b, s.drop_last(), last);
        assert(a.constraints.contains_key(last[s.last()]) <==> b.constraints.contains_key(
            last[s.last()],
        ));
    }
}

proof fn lemma_twins_shift(a: SolverModel, b: SolverModel, values: Seq<(Variable, Number)>)
    requires
        twins(a, b),
    ensures
        twins(a.shifted_all(values), b.shifted_all(values)),
    decreases values.len(),
{
    if values.len() > 0 {
        lemma_twins_shift(a, b, values.drop_last());
        let (p, q) = (a.shifted_all(values.drop_last()), b.shifted_all(values.drop_last()));
        lemma_twins(p, q);
        lemma_are_twins(a.shifted_all(values), b.shifted_all(values));
    }
}

proof fn lemma_edit_twins(
    a: SolverModel,
    b: SolverModel,
    v: Variable,
    strength: Strength,
)
    requires
        a.edits == b.edits,
        a.next_constraint_id == b.next_constraint_id,
        twins(a, b),
        twins(
            a.added(SolverModel::edit_constraint(v, strength)).0,
            b.added(SolverModel::edit_constraint(v, strength)).0,
        ),
        a.added(SolverModel::edit_constraint(v, strength)).1 == b.added(
            SolverModel::edit_constraint(v, strength),
        ).1,
    ensures
        twins(a.edit_added(v, strength).0, b.edit_added(v, strength).0),
{
    let c = SolverModel::edit_constraint(v, strength);
    let (p, q) = (a.added(c).0, b.added(c).0);
    lemma_twins(p, q);
    if a.edit_added(v, strength).1 is Ok {
        let id = a.added(c).1->Ok_0;
        let n = SolverModel { next_constraint_id: a.next_constraint_id + 1, ..a };
        lemma_added_as_frame(n, a.next_id(), c);
        assert(p.constraints.contains_key(id));
        lemma_are_twins(a.edit_added(v, strength).0, b.edit_added(v, strength).0);
    }
}

/// No value depends on the identities of the constraints. Two systems that are the same but for
/// identities stay so over the same call, with constraints built anew or not, as long as both
/// refuse the same constraints as duplicates; and all values are the same in both.
pub proof fn law_identities_do_not_matter(a: SolverModel, b: SolverModel, x: Call, y: Call)
    requires
        twins(a, b),
        rebuilt_call(x, y),
        told_alike_of_call(a, b, x, y),
        countable(a, x),
    ensures
        twins(a.after(x), b.after(y)),
        forall|v: Variable| #[trigger] a.after(x).value_of(v) == b.after(y).value_of(v),
{
    lemma_twins(a, b);
    match (x, y) {
        (Call::Add(c), Call::Add(d)) => lemma_twins_add(a, b, c, d),
        (Call::AddAll(cs), Call::AddAll(ds)) => lemma_twins_add_all(a, b, cs, ds),
        (Call::Remove(id), _) => lemma_twins_remove(a, b, id),
        (Call::AddEdit(v, strength), _) => {
            let c = SolverModel::edit_constraint(v, strength);
            assert(a.constraints.contains_key(a.next_id()) <==> b.constraints.contains_key(
                a.next_id(),
            ));
            lemma_twins_add(a, b, c, c);
            lemma_twins(a.added(c).0, b.added(c).0);
            lemma_edit_twins(a, b, v, strength);
        },
        (Call::RemoveEdit(v), _) => {
            let (p, q) = (
                SolverModel { edits: a.edits.remove(v), ..a },
                SolverModel { edits: b.edits.remove(v), ..b },
            );
            lemma_are_twins(p, q);
            lemma_twins_remove(p, q, a.edits[v].constraint_id);
        },
        (Call::Suggest(v, value), _) => {
            let (p, q) = (a.shifted(v, value), b.shifted(v, value));
            lemma_are_twins(p, q);
            lemma_are_twins(p.rebalanced().0, q.rebalanced().0);
        },
        (Call::SuggestAll(values), _) => {
            lemma_twins_shift(a, b, values);
            let (p, q) = (a.shifted_all(values), b.shifted_all(values));
            lemma_twins(p, q);
            lemma_are_twins(p.rebalanced().0, q.rebalanced().0);
        },
        (Call::Batch(xs), Call::Batch(ys)) => {
            lemma_same_turns(xs, ys);
            lemma_schedule(xs);
            lemma_twins_apply(a, b, xs, ys, schedule(xs));
        },
        (Call::Reconcile(l, p), Call::Reconcile(_, q)) => {
            lemma_same_plan(a, b, l, p, q);
            let (xs, ys) = (a.plan(l, p), b.plan(l, q));
            lemma_same_turns(xs, ys);
            lemma_schedule(xs);
            lemma_twins_apply(a, b, xs, ys, schedule(xs));
        },
        (Call::Fetch, _) => {
            assert(a.fetched().var_data =~= b.fetched().var_data) by {
                assert forall|v: Variable| a.is_update(v) == b.is_update(v) && a.value_of(v)
                    == b.value_of(v) by {}
            }
            lemma_are_twins(a.fetched(), b.fetched());
        },
        _ => {},
    }
    lemma_twins(a.after(x), b.after(y));
}

/// Whether some calls are others, with their constraints built anew or not, and two systems refuse
/// the same constraints as duplicates at each of them.
pub open spec fn rebuilt_calls(a: SolverModel, b: SolverModel, xs: Seq<Call>, ys: Seq<Call>) -> bool
    decreases xs.len(),
{
    &&& xs.len() == ys.len()
    &&& xs.len() > 0 ==> {
        &&& rebuilt_calls(a, b, xs.drop_last(), ys.drop_last())
        &&& rebuilt_call(xs.last(), ys.last())
        &&& told_alike_of_call(
            a.after_all(xs.drop_last()),
            b.after_all(ys.drop_last()),
            xs.last(),
            ys.last(),
        )
        &&& countable(a.after_all(xs.drop_last()), xs.last())
    }
}

proof fn lemma_twins_after_all(a: SolverModel, b: SolverModel, xs: Seq<Call>, ys: Seq<Call>)
    requires
        twins(a, b),
        rebuilt_calls(a, b, xs, ys),
    ensures
        twins(a.after_all(xs), b.after_all(ys)),
    decreases xs.len(),
{
    if xs.len() > 0 {
        lemma_twins_after_all(a, b, xs.drop_last(), ys.drop_last());
        law_identities_do_not_matter(
            a.after_all(xs.drop_last()),
            b.after_all(ys.drop_last()),
            xs.last(),
            ys.last(),
        );
    }
}

/// Rebuilt objects give the same values: two solvers that got the same calls, each with objects of
/// its own, have the same values throughout.
pub proof fn law_rebuilt_objects_give_the_same_values(
    xs: Seq<Call>,
    ys: Seq<Call>,
    v: Variable,
)
    requires
        rebuilt_calls(SolverModel::initial(), SolverModel::initial(), xs, ys),
    ensures
        SolverModel::initial().after_all(xs).value_of(v) == SolverModel::initial().after_all(
            ys,
        ).value_of(v),
{
    let m = SolverModel::initial();
    lemma_twins_after_all(m, m, xs, ys);
    lemma_twins(m.after_all(xs), m.after_all(ys));
}

} // verus!
