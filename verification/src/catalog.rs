//! Maps by fingerprint, which are walked in the order of the fingerprints.
use crate::fingerprint::{ConstraintFingerprint, FingerprintModel};
use crate::order::{lemma_listing, listing, lists, place_of, ranking, views, Ranked};
use vstd::prelude::*;
use vstd::relations::*;
use vstd::std_specs::cmp::PartialEqSpec;

verus! {

/// A map from fingerprints to values.
#[derive(Debug)]
pub struct FingerprintMap<V> {
    /// The fingerprints, the smallest first.
    pub(crate) keys: Vec<ConstraintFingerprint>,
    /// The values, in the order of their fingerprints.
    pub(crate) values: Vec<V>,
}

impl<V> View for FingerprintMap<V> {
    type V = Map<FingerprintModel, V>;

    open(crate) spec fn view(&self) -> Map<FingerprintModel, V> {
        Map::new(
            |k: FingerprintModel| self.order().contains(k),
            |k: FingerprintModel| self.values@[self.order().index_of(k)],
        )
    }
}

impl<V> FingerprintMap<V> {
    /// The fingerprints, the smallest first.
    pub open(crate) spec fn order(self) -> Seq<FingerprintModel> {
        views(self.keys@)
    }

    pub open(crate) spec fn wf(self) -> bool {
        &&& self.keys@.len() == self.values@.len()
        &&& sorted_by(self.order(), ranking::<ConstraintFingerprint>())
        &&& self.order().no_duplicates()
    }

    /// The map holds the fingerprints that the order lists.
    pub(crate) proof fn lemma_order(self)
        requires
            self.wf(),
        ensures
            self.order() == listing::<ConstraintFingerprint>(self@.dom()),
            self@.dom().finite(),
            self@.dom().len() == self.order().len(),
            forall|i: int|
                0 <= i < self.order().len() ==> self@.contains_key(#[trigger] self.order()[i])
                    && self@[self.order()[i]] == self.values@[i],
            forall|k: FingerprintModel| #[trigger]
                self@.contains_key(k) ==> self.order().contains(k),
    {
        let s = self.order();
        assert(lists::<ConstraintFingerprint>(s, self@.dom()));
        lemma_listing::<ConstraintFingerprint>(s, self@.dom());
        assert(s.to_set() =~= self@.dom());
        s.unique_seq_to_set();
        vstd::seq_lib::seq_to_set_is_finite(s);
        assert forall|i: int| 0 <= i < s.len() implies self@.contains_key(#[trigger] s[i])
            && self@[s[i]] == self.values@[i] by {
            assert(s.contains(s[i]));
            let j = s.index_of(s[i]);
            assert(s[j] == s[i]);
        }
    }

    /// A map that holds nothing.
    pub fn new() -> (r: FingerprintMap<V>)
        ensures
            r.wf(),
            r@ == Map::<FingerprintModel, V>::empty(),
    {
        let r = FingerprintMap { keys: Vec::new(), values: Vec::new() };
        assert(r@ =~= Map::<FingerprintModel, V>::empty());
        r
    }

    /// Gives the number of fingerprints in the map.
    pub fn len(&self) -> (r: usize)
        requires
            self.wf(),
        ensures
            self@.dom().finite(),
            r == self@.dom().len(),
            r == self.order().len(),
    {
        proof {
            self.lemma_order();
        }
        self.keys.len()
    }

    /// Tells whether the map holds nothing.
    pub fn is_empty(&self) -> (r: bool)
        requires
            self.wf(),
        ensures
            r == (self@ == Map::<FingerprintModel, V>::empty()),
    {
        proof {
            self.lemma_order();
            if self.order().len() == 0 {
                assert(self@ =~= Map::<FingerprintModel, V>::empty());
            } else {
                assert(self@.contains_key(self.order()[0]));
            }
        }
        self.keys.len() == 0
    }

    /// Gives a fingerprint by its place in the order.
    pub fn key_at(&self, i: usize) -> (r: &ConstraintFingerprint)
        requires
            self.wf(),
            i < self.order().len(),
        ensures
            r@ == self.order()[i as int],
    {
        &self.keys[i]
    }

    /// Gives a value by the place of its fingerprint in the order.
    pub fn value_at(&self, i: usize) -> (r: &V)
        requires
            self.wf(),
            i < self.order().len(),
        ensures
            *r == self@[self.order()[i as int]],
    {
        proof {
            self.lemma_order();
        }
        &self.values[i]
    }

    /// The place of a fingerprint, if the map holds it; else the place where it belongs.
    fn search(&self, k: &ConstraintFingerprint) -> (r: Result<usize, usize>)
        requires
            self.wf(),
        ensures
            match r {
                Ok(i) => i < self.keys@.len() && self.keys@[i as int]@ == k@ && self@.contains_key(
                    k@,
                ) && self@[k@] == self.values@[i as int],
                Err(i) => !self@.contains_key(k@) && i <= self.keys@.len() && (forall|j: int|
                    0 <= j < i ==> !ConstraintFingerprint::leq(k@, (#[trigger] self.keys@[j])@)) && (
                forall|j: int|
                    i <= j < self.keys@.len() ==> ConstraintFingerprint::leq(
                        k@,
                        (#[trigger] self.keys@[j])@,
                    )),
            },
    {
        let i = place_of(&self.keys, k);
        proof {
            self.lemma_order();
        }
        let ghost s = self.order();
        if i < self.keys.len() && self.keys[i] == *k {
            assert(s[i as int] == k@);
            Ok(i)
        } else {
            proof {
                if s.contains(k@) {
                    let j = choose|j: int| 0 <= j < s.len() && s[j] == k@;
                    ConstraintFingerprint::reflexive(k@);
                    assert(self.keys@[j]@ == k@);
                    if i < j {
                        assert(ranking::<ConstraintFingerprint>()(s[i as int], s[j]));
                        assert(ConstraintFingerprint::leq(k@, self.keys@[i as int]@));
                        ConstraintFingerprint::antisymmetric(s[i as int], k@);
                    }
                }
            }
            Err(i)
        }
    }

    /// Tells whether the map holds a fingerprint.
    pub fn contains_key(&self, k: &ConstraintFingerprint) -> (r: bool)
        requires
            self.wf(),
        ensures
            r == self@.contains_key(k@),
    {
        match self.search(k) {
            Ok(_) => true,
            Err(_) => false,
        }
    }

    /// Gives the value of a fingerprint.
    pub fn get(&self, k: &ConstraintFingerprint) -> (r: Option<&V>)
        requires
            self.wf(),
        ensures
            r == (if self@.contains_key(k@) {
                Some(&self@[k@])
            } else {
                None
            }),
    {
        match self.search(k) {
            Ok(i) => Some(&self.values[i]),
            Err(_) => None,
        }
    }

    /// Puts a value under a fingerprint. Gives the value that was there before.
    pub fn insert(&mut self, k: ConstraintFingerprint, v: V) -> (r: Option<V>)
        requires
            old(self).wf(),
        ensures
            final(self).wf(),
            final(self)@ == old(self)@.insert(k@, v),
            r == (if old(self)@.contains_key(k@) {
                Some(old(self)@[k@])
            } else {
                None
            }),
    {
        let ghost before = *self;
        let ghost s = self.order();
        let ghost key = k@;
        proof {
            self.lemma_order();
        }
        match self.search(&k) {
            Ok(i) => {
                let mut held = v;
                assert(held == v);
                std::mem::swap(&mut held, &mut self.values[i]);
                proof {
                    assert(self.order() == s);
                    assert(self.values@ == before.values@.update(i as int, v));
                    self.lemma_order();
                    assert(s[i as int] == key);
                    assert forall|x: FingerprintModel| #[trigger] self@.contains_key(x) implies self@[x]
                        == before@.insert(key, v)[x] by {
                        let j = s.index_of(x);
                        assert(s.contains(x));
                        assert(s[j] == x);
                        assert(before@[s[j]] == before.values@[j]);
                        assert(self@[s[j]] == self.values@[j]);
                    }
                    assert(self@ =~= before@.insert(key, v));
                }
                Some(held)
            },
            Err(i) => {
                self.keys.insert(i, k);
                self.values.insert(i, v);
                proof {
                    assert(self.order() =~= s.insert(i as int, key));
                    before.lemma_placed(*self, i as int, key, v);
                }
                None
            },
        }
    }

    /// A new fingerprint in its place.
    proof fn lemma_placed(self, after: FingerprintMap<V>, i: int, k: FingerprintModel, v: V)
        requires
            self.wf(),
            0 <= i <= self.keys@.len(),
            after.order() == self.order().insert(i, k),
            after.values@ == self.values@.insert(i, v),
            !self@.contains_key(k),
            forall|j: int|
                0 <= j < i ==> !ConstraintFingerprint::leq(k, (#[trigger] self.keys@[j])@),
            forall|j: int|
                i <= j < self.keys@.len() ==> ConstraintFingerprint::leq(
                    k,
                    (#[trigger] self.keys@[j])@,
                ),
        ensures
            after.wf(),
            after@ == self@.insert(k, v),
    {
        let s = self.order();
        let t = after.order();
        self.lemma_order();
        assert(after.keys@.len() == t.len());
        assert forall|a: int, b: int| 0 <= a < b < t.len() implies #[trigger] ranking::<
            ConstraintFingerprint,
        >()(t[a], t[b]) by {
            let a0 = if a < i {
                a
            } else {
                a - 1
            };
            let b0 = if b < i {
                b
            } else {
                b - 1
            };
            if a == i {
                assert(ConstraintFingerprint::leq(k, self.keys@[b0]@));
            } else if b == i {
                assert(!ConstraintFingerprint::leq(k, self.keys@[a0]@));
                ConstraintFingerprint::total(k, self.keys@[a0]@);
            } else {
                assert(ranking::<ConstraintFingerprint>()(s[a0], s[b0]));
            }
        }
        assert forall|a: int, b: int| 0 <= a < t.len() && 0 <= b < t.len() && a != b implies t[a]
            != t[b] by {
            let a0 = if a < i {
                a
            } else {
                a - 1
            };
            let b0 = if b < i {
                b
            } else {
                b - 1
            };
            if a != i {
                assert(self@.contains_key(s[a0]));
            }
            if b != i {
                assert(self@.contains_key(s[b0]));
            }
        }
        assert(after.wf());
        after.lemma_order();
        assert(t[i] == k);
        assert(after@[t[i]] == v);
        assert forall|x: FingerprintModel| self@.contains_key(x) || x == k <==> #[trigger]
            after@.contains_key(x) by {
            if self@.contains_key(x) {
                let j = s.index_of(x);
                assert(s.contains(x) && s[j] == x);
                assert(t[if j < i {
                    j
                } else {
                    j + 1
                }] == x);
            }
            if after@.contains_key(x) && x != k {
                let j = t.index_of(x);
                assert(t.contains(x) && t[j] == x);
                assert(s[if j < i {
                    j
                } else {
                    j - 1
                }] == x);
            }
        }
        assert forall|x: FingerprintModel| #[trigger] after@.contains_key(x) implies after@[x]
            == self@.insert(k, v)[x] by {
            let j = t.index_of(x);
            assert(t.contains(x) && t[j] == x);
            assert(after@[t[j]] == after.values@[j]);
            if x != k {
                let j0 = if j < i {
                    j
                } else {
                    j - 1
                };
                assert(s[j0] == x);
                assert(self@[s[j0]] == self.values@[j0]);
            }
        }
        assert(after@ =~= self@.insert(k, v));
    }

    /// Takes a fingerprint out. Gives the value that was there.
    pub fn remove(&mut self, k: &ConstraintFingerprint) -> (r: Option<V>)
        requires
            old(self).wf(),
        ensures
            final(self).wf(),
            final(self)@ == old(self)@.remove(k@),
            r == (if old(self)@.contains_key(k@) {
                Some(old(self)@[k@])
            } else {
                None
            }),
    {
        let ghost before = *self;
        proof {
            self.lemma_order();
        }
        match self.search(k) {
            Ok(i) => {
                let _ = self.keys.remove(i);
                let held = self.values.remove(i);
                proof {
                    assert(self.order() =~= before.order().remove(i as int));
                    before.lemma_displaced(*self, i as int);
                }
                Some(held)
            },
            Err(_) => {
                assert(before@.remove(k@) =~= before@);
                None
            },
        }
    }

    /// A fingerprint is gone.
    proof fn lemma_displaced(self, after: FingerprintMap<V>, i: int)
        requires
            self.wf(),
            0 <= i < self.keys@.len(),
            after.order() == self.order().remove(i),
            after.values@ == self.values@.remove(i),
        ensures
            after.wf(),
            after@ == self@.remove(self.order()[i]),
    {
        let s = self.order();
        let t = after.order();
        let k = s[i];
        self.lemma_order();
        assert(after.keys@.len() == t.len());
        assert forall|a: int, b: int| 0 <= a < b < t.len() implies #[trigger] ranking::<
            ConstraintFingerprint,
        >()(t[a], t[b]) by {
            let a0 = if a < i {
                a
            } else {
                a + 1
            };
            let b0 = if b < i {
                b
            } else {
                b + 1
            };
            assert(ranking::<ConstraintFingerprint>()(s[a0], s[b0]));
        }
        assert(after.wf());
        after.lemma_order();
        assert forall|x: FingerprintModel| self@.contains_key(x) && x != k <==> #[trigger]
            after@.contains_key(x) by {
            if self@.contains_key(x) && x != k {
                let j = s.index_of(x);
                assert(s.contains(x) && s[j] == x);
                assert(t[if j < i {
                    j
                } else {
                    j - 1
                }] == x);
            }
            if after@.contains_key(x) {
                let j = t.index_of(x);
                assert(t.contains(x) && t[j] == x);
                assert(s[if j < i {
                    j
                } else {
                    j + 1
                }] == x);
            }
        }
        assert forall|x: FingerprintModel| #[trigger] after@.contains_key(x) implies after@[x]
            == self@[x] by {
            let j = t.index_of(x);
            assert(t.contains(x) && t[j] == x);
            assert(after@[t[j]] == after.values@[j]);
            let j0 = if j < i {
                j
            } else {
                j + 1
            };
            assert(s[j0] == x);
            assert(self@[s[j0]] == self.values@[j0]);
        }
        assert(after@ =~= self@.remove(k));
    }
}

/// Copies some fingerprints.
pub(crate) fn copied_fingerprints(items: &Vec<ConstraintFingerprint>) -> (r: Vec<
    ConstraintFingerprint,
>)
    ensures
        views(r@) == views(items@),
{
    let mut r: Vec<ConstraintFingerprint> = Vec::new();
    for i in 0..items.len()
        invariant
            views(r@) == views(items@).take(i as int),
    {
        let ghost before = views(r@);
        r.push(items[i].clone());
        assert(views(r@) =~= before.push(views(items@)[i as int]));
        assert(views(items@).take(i + 1) =~= views(items@).take(i as int).push(
            views(items@)[i as int],
        ));
    }
    assert(views(items@).take(items@.len() as int) =~= views(items@));
    r
}

impl<V> Default for FingerprintMap<V> {
    fn default() -> (r: FingerprintMap<V>)
        ensures
            r.wf(),
            r@ == Map::<FingerprintModel, V>::empty(),
    {
        FingerprintMap::new()
    }
}

impl<V: Clone> Clone for FingerprintMap<V> {
    /// Copies the map: the same fingerprints, each with a clone of its value.
    fn clone(&self) -> (r: FingerprintMap<V>)
        ensures
            self.wf() ==> r.wf(),
            self.wf() ==> r@.dom() == self@.dom(),
            self.wf() ==> forall|k: FingerprintModel| #[trigger]
                self@.contains_key(k) ==> cloned(self@[k], r@[k]),
    {
        let mut values: Vec<V> = Vec::new();
        for i in 0..self.values.len()
            invariant
                values@.len() == i,
                forall|j: int| 0 <= j < i ==> cloned(self.values@[j], #[trigger] values@[j]),
        {
            values.push(self.values[i].clone());
        }
        let r = FingerprintMap { keys: copied_fingerprints(&self.keys), values };
        proof {
            assert(r.order() == self.order());
            if self.wf() {
                self.lemma_order();
                r.lemma_order();
                assert(r@.dom() =~= self@.dom());
                assert forall|k: FingerprintModel| #[trigger] self@.contains_key(k) implies cloned(
                    self@[k],
                    r@[k],
                ) by {
                    let i = self.order().index_of(k);
                    assert(self@[self.order()[i]] == self.values@[i]);
                    assert(r@[r.order()[i]] == r.values@[i]);
                }
            }
        }
        r
    }
}

impl<V: PartialEq> PartialEq for FingerprintMap<V> {
    fn eq(&self, other: &FingerprintMap<V>) -> (r: bool) {
        if self.keys.len() != other.keys.len() || self.values.len() != other.values.len() {
            assert(self.order().len() == self.keys@.len());
            assert(other.order().len() == other.keys@.len());
            return false;
        }
        for i in 0..self.keys.len()
            invariant
                self.keys@.len() == other.keys@.len(),
                forall|j: int| 0 <= j < i ==> self.order()[j] == #[trigger] other.order()[j],
        {
            if !(self.keys[i] == other.keys[i]) {
                assert(self.order()[i as int] != other.order()[i as int]);
                return false;
            }
        }
        assert(self.order() =~= other.order());
        for i in 0..self.values.len()
            invariant
                self.values@.len() == other.values@.len(),
                V::obeys_eq_spec() ==> forall|j: int|
                    0 <= j < i ==> self.values@[j].eq_spec(&(#[trigger] other.values@[j])),
        {
            if !(self.values[i] == other.values[i]) {
                return false;
            }
        }
        true
    }
}

impl<V: PartialEq> vstd::std_specs::cmp::PartialEqSpecImpl for FingerprintMap<V> {
    open spec fn obeys_eq_spec() -> bool {
        V::obeys_eq_spec()
    }

    open(crate) spec fn eq_spec(&self, other: &FingerprintMap<V>) -> bool {
        &&& self.order() == other.order()
        &&& self.values@.len() == other.values@.len()
        &&& forall|i: int|
            0 <= i < self.values@.len() ==> self.values@[i].eq_spec(&(#[trigger] other.values@[i]))
    }
}

impl<V: Eq> Eq for FingerprintMap<V> {

}

/// Two maps are equal exactly if they hold the same fingerprints with equal values.
pub proof fn law_equal_maps<V: PartialEq>(a: FingerprintMap<V>, b: FingerprintMap<V>)
    requires
        a.wf(),
        b.wf(),
    ensures
        a.eq_spec(&b) <==> a@.dom() == b@.dom() && forall|k: FingerprintModel| #[trigger]
            a@.contains_key(k) ==> a@[k].eq_spec(&b@[k]),
{
    a.lemma_order();
    b.lemma_order();
    if a.eq_spec(&b) {
        assert(a@.dom() =~= b@.dom());
        assert forall|k: FingerprintModel| #[trigger] a@.contains_key(k) implies a@[k].eq_spec(
            &b@[k],
        ) by {
            let i = a.order().index_of(k);
            assert(a@[a.order()[i]] == a.values@[i]);
            assert(b@[b.order()[i]] == b.values@[i]);
        }
    }
    if a@.dom() == b@.dom() && forall|k: FingerprintModel| #[trigger]
        a@.contains_key(k) ==> a@[k].eq_spec(&b@[k]) {
        assert forall|i: int| 0 <= i < a.values@.len() implies a.values@[i].eq_spec(
            &(#[trigger] b.values@[i]),
        ) by {
            assert(a@.contains_key(a.order()[i]));
            assert(b@[b.order()[i]] == b.values@[i]);
        }
    }
}

} // verus!
