//! Sets of constraints in which no two say the same.
use crate::catalog::FingerprintMap;
use crate::constraint::Constraint;
use crate::fingerprint::{fingerprint, ConstraintFingerprint, FingerprintModel};
use crate::order::Ranked;
use vstd::prelude::*;

verus! {

/// What to do with constraints that say the same.
#[derive(Debug, Copy, Clone, PartialEq, Eq, Structural)]
pub enum DuplicateFingerprintMode {
    /// Keep the first one and go on.
    Ignore,
    /// Report an error.
    Error,
}

/// Some constraints say the same.
#[derive(Debug, PartialEq, Eq)]
pub struct DuplicateFingerprintError {
    /// What they say.
    pub fingerprint: ConstraintFingerprint,
    /// How many they are.
    pub count: usize,
}

impl Clone for DuplicateFingerprintError {
    fn clone(&self) -> (r: DuplicateFingerprintError)
        ensures
            r.fingerprint@ == self.fingerprint@,
            r.count == self.count,
    {
        DuplicateFingerprintError { fingerprint: self.fingerprint.clone(), count: self.count }
    }
}

/// Constraints by what they say.
pub type SemanticConstraints = FingerprintMap<Constraint>;

/// What one of some constraints says.
pub open spec fn saying(cs: Seq<&Constraint>, i: int) -> FingerprintModel {
    fingerprint(cs[i]@)
}

/// Whether a constraint is the first of some to say a thing.
pub open spec fn says_first(cs: Seq<&Constraint>, k: FingerprintModel, i: int) -> bool {
    &&& 0 <= i < cs.len()
    &&& saying(cs, i) == k
    &&& forall|j: int| 0 <= j < i ==> #[trigger] saying(cs, j) != k
}

/// Whether a map holds, for each thing that is said, the first constraint to say it.
pub open spec fn keeps_first(cs: Seq<&Constraint>, m: Map<FingerprintModel, Constraint>) -> bool {
    &&& forall|i: int| 0 <= i < cs.len() ==> m.contains_key(#[trigger] saying(cs, i))
    &&& forall|k: FingerprintModel| #[trigger]
        m.contains_key(k) ==> exists|i: int| #[trigger] says_first(cs, k, i) && m[k] == *cs[i]
}

/// How many of some constraints say a thing.
pub open spec fn said(cs: Seq<&Constraint>, k: FingerprintModel) -> nat
    decreases cs.len(),
{
    if cs.len() == 0 {
        0
    } else {
        said(cs.drop_last(), k) + (if fingerprint(cs.last()@) == k {
            1nat
        } else {
            0
        })
    }
}

/// Whether this is the smallest thing that is said more than once.
pub open spec fn least_repeated(cs: Seq<&Constraint>, k: FingerprintModel) -> bool {
    &&& said(cs, k) > 1
    &&& forall|j: FingerprintModel| #[trigger]
        said(cs, j) > 1 ==> ConstraintFingerprint::leq(k, j)
}

/// One more constraint.
proof fn lemma_kept(
    cs: Seq<&Constraint>,
    m: Map<FingerprintModel, Constraint>,
    c: &Constraint,
    n: Map<FingerprintModel, Constraint>,
)
    requires
        keeps_first(cs, m),
        n == (if m.contains_key(fingerprint(c@)) {
            m
        } else {
            m.insert(fingerprint(c@), *c)
        }),
    ensures
        keeps_first(cs.push(c), n),
{
    let ds = cs.push(c);
    let f = fingerprint(c@);
    assert forall|i: int| 0 <= i < ds.len() implies n.contains_key(#[trigger] saying(ds, i)) by {
        if i < cs.len() {
            assert(saying(ds, i) == saying(cs, i));
        }
    }
    assert forall|k: FingerprintModel| #[trigger] n.contains_key(k) implies exists|i: int| #[trigger]
        says_first(ds, k, i) && n[k] == *ds[i] by {
        if m.contains_key(k) {
            let i = choose|i: int| #[trigger] says_first(cs, k, i) && m[k] == *cs[i];
            assert forall|j: int| 0 <= j < i implies #[trigger] saying(ds, j) != k by {
                assert(saying(ds, j) == saying(cs, j));
            }
            assert(saying(ds, i) == saying(cs, i));
            assert(says_first(ds, k, i));
        } else {
            let i = cs.len() as int;
            assert forall|j: int| 0 <= j < i implies #[trigger] saying(ds, j) != k by {
                assert(saying(ds, j) == saying(cs, j));
            }
            assert(says_first(ds, k, i));
        }
    }
}

/// Keeps the first of the constraints that say the same.
#[must_use]
pub fn semantic_constraints(constraints: &[&Constraint]) -> (r: SemanticConstraints)
    ensures
        r.wf(),
        keeps_first(constraints@, r@),
{
    let mut out: SemanticConstraints = FingerprintMap::new();
    assert(constraints@.take(0) =~= Seq::<&Constraint>::empty());
    for i in 0..constraints.len()
        invariant
            out.wf(),
            keeps_first(constraints@.take(i as int), out@),
    {
        let c = constraints[i];
        let fp = ConstraintFingerprint::new(c);
        let ghost m = out@;
        if !out.contains_key(&fp) {
            let _ = out.insert(fp, c.clone());
        }
        proof {
            lemma_kept(constraints@.take(i as int), m, c, out@);
            assert(constraints@.take(i + 1) =~= constraints@.take(i as int).push(c));
        }
    }
    assert(constraints@.take(constraints@.len() as int) =~= constraints@);
    out
}

/// Counts how often each thing is said.
fn tally(constraints: &[&Constraint]) -> (r: FingerprintMap<usize>)
    ensures
        r.wf(),
        forall|k: FingerprintModel|
            said(constraints@, k) == (if #[trigger] r@.contains_key(k) {
                r@[k] as nat
            } else {
                0
            }),
{
    let mut counts: FingerprintMap<usize> = FingerprintMap::new();
    assert(constraints@.take(0) =~= Seq::<&Constraint>::empty());
    for i in 0..constraints.len()
        invariant
            counts.wf(),
            forall|k: FingerprintModel|
                said(constraints@.take(i as int), k) == (if #[trigger] counts@.contains_key(k) {
                    counts@[k] as nat
                } else {
                    0
                }),
            forall|k: FingerprintModel| #[trigger] counts@.contains_key(k) ==> counts@[k] <= i,
    {
        let c = constraints[i];
        let fp = ConstraintFingerprint::new(c);
        let ghost m = counts@;
        let n: usize = match counts.get(&fp) {
            Some(n) => *n,
            None => 0,
        };
        proof {
            assert(constraints@.take(i + 1).drop_last() =~= constraints@.take(i as int));
            assert(constraints@.take(i + 1).last() == c);
            assert(m.contains_key(fp@) ==> m[fp@] == n);
        }
        let ghost k = fp@;
        let _ = counts.insert(fp, n + 1);
        assert forall|x: FingerprintModel|
            said(constraints@.take(i + 1), x) == (if #[trigger] counts@.contains_key(x) {
                counts@[x] as nat
            } else {
                0
            }) by {
            assert(said(constraints@.take(i as int), x) == (if m.contains_key(x) {
                m[x] as nat
            } else {
                0
            }));
        }
        assert forall|x: FingerprintModel| #[trigger] counts@.contains_key(x) implies counts@[x]
            <= i + 1 by {
            if x != k {
                assert(m.contains_key(x));
            }
        }
    }
    assert(constraints@.take(constraints@.len() as int) =~= constraints@);
    counts
}

/// Keeps the first of the constraints that say the same, or reports that there are such, as the
/// mode asks.
pub fn semantic_constraints_with_mode(
    constraints: &[&Constraint],
    mode: DuplicateFingerprintMode,
) -> (r: Result<SemanticConstraints, DuplicateFingerprintError>)
    ensures
        r is Err <==> mode == DuplicateFingerprintMode::Error && exists|k: FingerprintModel|
            #[trigger] said(constraints@, k) > 1,
        match r {
            Ok(m) => m.wf() && keeps_first(constraints@, m@),
            Err(e) => least_repeated(constraints@, e.fingerprint@) && e.count == said(
                constraints@,
                e.fingerprint@,
            ),
        },
{
    match mode {
        DuplicateFingerprintMode::Ignore => {},
        DuplicateFingerprintMode::Error => {
            let counts = tally(constraints);
            proof {
                counts.lemma_order();
            }
            let most = counts.len();
            for i in 0..most
                invariant
                    counts.wf(),
                    most == counts.order().len(),
                    mode == DuplicateFingerprintMode::Error,
                    forall|k: FingerprintModel|
                        said(constraints@, k) == (if #[trigger] counts@.contains_key(k) {
                            counts@[k] as nat
                        } else {
                            0
                        }),
                    forall|j: int|
                        0 <= j < i ==> counts@[#[trigger] counts.order()[j]] <= 1,
            {
                proof {
                    counts.lemma_order();
                }
                let n = *counts.value_at(i);
                if n > 1 {
                    let fp = counts.key_at(i).clone();
                    proof {
                        let s = counts.order();
                        assert(counts@.contains_key(s[i as int]));
                        assert(said(constraints@, fp@) == n);
                        assert forall|k: FingerprintModel| #[trigger]
                            said(constraints@, k) > 1 implies ConstraintFingerprint::leq(
                            fp@,
                            k,
                        ) by {
                            assert(counts@.contains_key(k));
                            assert(s.contains(k));
                            let j = choose|j: int| 0 <= j < s.len() && s[j] == k;
                            assert(j >= i);
                            if j == i {
                                ConstraintFingerprint::reflexive(k);
                            } else {
                                assert(crate::order::ranking::<ConstraintFingerprint>()(
                                    s[i as int],
                                    s[j],
                                ));
                            }
                        }
                    }
                    return Err(DuplicateFingerprintError { fingerprint: fp, count: n });
                }
            }
            assert forall|k: FingerprintModel| #[trigger] said(constraints@, k) <= 1 by {
                if counts@.contains_key(k) {
                    let s = counts.order();
                    counts.lemma_order();
                    assert(s.contains(k));
                    let j = choose|j: int| 0 <= j < s.len() && s[j] == k;
                    assert(counts@[s[j]] <= 1);
                }
            }
        },
    }
    Ok(semantic_constraints(constraints))
}

/// Some constraints by what they say; where another map has a constraint that says the same, that
/// one takes its place.
pub open spec fn merged<V>(
    previous: Map<FingerprintModel, V>,
    newest: Map<FingerprintModel, V>,
) -> Map<FingerprintModel, V> {
    Map::new(
        |k: FingerprintModel| newest.contains_key(k),
        |k: FingerprintModel|
            if previous.contains_key(k) {
                previous[k]
            } else {
                newest[k]
            },
    )
}

/// The newest constraints, with the previous object wherever it says the same.
#[must_use]
pub fn merge_semantic_constraints(
    previous: &SemanticConstraints,
    newest: &SemanticConstraints,
) -> (r: SemanticConstraints)
    requires
        previous.wf(),
        newest.wf(),
    ensures
        r.wf(),
        r@ == merged(previous@, newest@),
{
    let mut out: SemanticConstraints = FingerprintMap::new();
    let ghost s = newest.order();
    let most = newest.len();
    for i in 0..most
        invariant
            most == s.len(),
            previous.wf(),
            newest.wf(),
            out.wf(),
            s == newest.order(),
            forall|j: int|
                0 <= j < i ==> out@.contains_key(#[trigger] s[j]) && out@[s[j]] == merged(
                    previous@,
                    newest@,
                )[s[j]],
            forall|k: FingerprintModel| #[trigger] out@.contains_key(k) ==> newest@.contains_key(k),
    {
        proof {
            newest.lemma_order();
        }
        let fp = newest.key_at(i);
        let c = match previous.get(fp) {
            Some(old_c) => old_c.clone(),
            None => newest.value_at(i).clone(),
        };
        assert(newest@.contains_key(s[i as int]));
        let _ = out.insert(fp.clone(), c);
    }
    proof {
        newest.lemma_order();
        assert forall|k: FingerprintModel| #[trigger]
            newest@.contains_key(k) implies out@.contains_key(k) && out@[k] == merged(
            previous@,
            newest@,
        )[k] by {
            assert(s.contains(k));
            let j = choose|j: int| 0 <= j < s.len() && s[j] == k;
            assert(out@.contains_key(s[j]));
        }
        assert(out@ =~= merged(previous@, newest@));
    }
    out
}

} // verus!
