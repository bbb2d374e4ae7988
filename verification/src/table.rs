//! Tables from small keys to values: the values stand in a vector, a hash index finds them.
use crate::index::{displace, find, new_index, place, positions, wipe, Index};
use vstd::prelude::*;

verus! {

/// A key that is told apart by one word.
pub trait Key: Copy {
    /// The word.
    spec fn word(self) -> u64;

    /// Two keys with one word are one key.
    proof fn distinct(a: Self, b: Self)
        requires
            a.word() == b.word(),
        ensures
            a == b,
    ;

    /// Gives the word.
    fn to_word(self) -> (w: u64)
        ensures
            w == self.word(),
    ;
}

/// A finite map from keys to values.
pub struct Table<K, V> {
    pub(crate) entries: Vec<(K, V)>,
    pub(crate) index: Index,
}

impl<K: Key, V> View for Table<K, V> {
    type V = Map<K, V>;

    open(crate) spec fn view(&self) -> Map<K, V> {
        Map::new(
            |k: K| positions(self.index).contains_key(k.word()),
            |k: K| self.entries@[self.spot(k)].1,
        )
    }
}

impl<K: Key, V> Table<K, V> {
    /// Where the entry of a key stands.
    pub(crate) open(crate) spec fn spot(self, k: K) -> int {
        positions(self.index)[k.word()] as int
    }

    /// The index gives the position of every entry and nothing else.
    pub open(crate) spec fn wf(self) -> bool {
        &&& forall|i: int|
            #![trigger self.entries@[i]]
            0 <= i < self.entries@.len() ==> positions(self.index).contains_key(
                self.entries@[i].0.word(),
            ) && positions(self.index)[self.entries@[i].0.word()] == i
        &&& forall|w: u64| #[trigger]
            positions(self.index).contains_key(w) ==> positions(self.index)[w]
                < self.entries@.len() && self.entries@[positions(self.index)[w] as int].0.word()
                == w
    }

    /// The entries are the map: each is found under its key, and each key has one.
    pub(crate) proof fn lemma_entries(self)
        requires
            self.wf(),
        ensures
            forall|i: int|
                #![trigger self.entries@[i]]
                0 <= i < self.entries@.len() ==> self@.contains_key(self.entries@[i].0)
                    && self@[self.entries@[i].0] == self.entries@[i].1 && self.spot(
                    self.entries@[i].0,
                ) == i,
            forall|k: K| #[trigger]
                self@.contains_key(k) ==> 0 <= self.spot(k) < self.entries@.len()
                    && self.entries@[self.spot(k)].0 == k && self.entries@[self.spot(k)].1
                    == self@[k],
            self@.dom().finite(),
    {
        assert forall|k: K| #[trigger] self@.contains_key(k) implies 0 <= self.spot(k)
            < self.entries@.len() && self.entries@[self.spot(k)].0 == k && self.entries@[self.spot(
            k,
        )].1 == self@[k] by {
            assert(positions(self.index).contains_key(k.word()));
            K::distinct(self.entries@[self.spot(k)].0, k);
        }
        let keys = self.entries@.map_values(|e: (K, V)| e.0);
        vstd::seq_lib::seq_to_set_is_finite(keys);
        assert(self@.dom() =~= keys.to_set()) by {
            assert forall|k: K| self@.dom().contains(k) <==> keys.to_set().contains(k) by {
                if self@.contains_key(k) {
                    assert(keys[self.spot(k)] == k);
                }
                if keys.contains(k) {
                    let i = choose|i: int| 0 <= i < keys.len() && keys[i] == k;
                    assert(self.entries@[i].0 == k);
                }
            }
        }
    }

    /// A table that holds nothing.
    pub(crate) fn new() -> (r: Self)
        ensures
            r.wf(),
            r@ == Map::<K, V>::empty(),
    {
        let r = Table { entries: Vec::new(), index: new_index() };
        assert(r@ =~= Map::<K, V>::empty());
        r
    }

    /// How many entries there are.
    pub(crate) fn len(&self) -> (r: usize)
        ensures
            r == self.entries@.len(),
    {
        self.entries.len()
    }

    /// The key of the entry at a position.
    pub(crate) fn key_at(&self, i: usize) -> (r: K)
        requires
            i < self.entries@.len(),
        ensures
            r == self.entries@[i as int].0,
    {
        self.entries[i].0
    }

    /// The value of the entry at a position.
    pub(crate) fn value_at(&self, i: usize) -> (r: &V)
        requires
            i < self.entries@.len(),
        ensures
            *r == self.entries@[i as int].1,
    {
        &self.entries[i].1
    }

    /// The value of the entry at a position, to be changed in place.
    pub(crate) fn value_at_mut(&mut self, i: usize) -> (r: &mut V)
        requires
            old(self).wf(),
            i < old(self).entries@.len(),
        ensures
            *r == old(self).entries@[i as int].1,
            final(self).wf(),
            final(self).entries@ == old(self).entries@.update(
                i as int,
                (old(self).entries@[i as int].0, *final(r)),
            ),
            final(self)@ == old(self)@.insert(old(self).entries@[i as int].0, *final(r)),
    {
        proof {
            let k = self.entries@[i as int].0;
            self.lemma_entries();
            assert forall|t: Self, v: V|
                #![trigger t.view(), self.entries@.update(i as int, (k, v))]
                t.index == self.index && t.entries@ == self.entries@.update(
                    i as int,
                    (k, v),
                ) implies t@ == self@.insert(k, v) by {
                assert forall|k2: K| #[trigger] self@.contains_key(k2) && k2 != k implies t@[k2]
                    == self@[k2] by {
                    assert(self.entries@[self.spot(k2)].0 == k2);
                }
                assert(t@ =~= self@.insert(k, v));
            }
        }
        &mut self.entries[i].1
    }

    /// The position of a key.
    pub(crate) fn position(&self, k: K) -> (r: Option<usize>)
        requires
            self.wf(),
        ensures
            self@.contains_key(k) ==> r == Some(self.spot(k) as usize) && 0 <= self.spot(k)
                < self.entries@.len() && self.entries@[self.spot(k)] == (k, self@[k]),
            !self@.contains_key(k) ==> r is None,
    {
        proof {
            self.lemma_entries();
        }
        find(&self.index, k.to_word())
    }

    /// Whether there is a value for the key.
    pub(crate) fn contains(&self, k: K) -> (r: bool)
        requires
            self.wf(),
        ensures
            r == self@.contains_key(k),
    {
        self.position(k).is_some()
    }

    /// The value of a key.
    pub(crate) fn get(&self, k: K) -> (r: Option<&V>)
        requires
            self.wf(),
        ensures
            self@.contains_key(k) ==> r == Some(&self@[k]),
            !self@.contains_key(k) ==> r is None,
    {
        match self.position(k) {
            Some(i) => Some(&self.entries[i].1),
            None => None,
        }
    }

    /// Sets the value of a key.
    pub(crate) fn insert(&mut self, k: K, v: V)
        requires
            old(self).wf(),
        ensures
            final(self).wf(),
            final(self)@ == old(self)@.insert(k, v),
    {
        match self.position(k) {
            Some(i) => {
                self.entries[i] = (k, v);
                proof {
                    assert forall|k2: K| #[trigger] old(self)@.contains_key(k2) && k2
                        != k implies self@[k2] == old(self)@[k2] by {
                        if k2.word() == k.word() {
                            K::distinct(k, k2);
                        }
                        assert(positions(old(self).index).contains_key(k2.word()));
                    }
                    assert(self@ =~= old(self)@.insert(k, v));
                }
            },
            None => {
                let n = self.entries.len();
                let word = k.to_word();
                self.entries.push((k, v));
                let _ = place(&mut self.index, word, n);
                proof {
                    let before = old(self).entries@;
                    assert forall|i: int|
                        #![trigger self.entries@[i]]
                        0 <= i < self.entries@.len() implies positions(self.index).contains_key(
                        self.entries@[i].0.word(),
                    ) && positions(self.index)[self.entries@[i].0.word()] == i by {
                        if i < n {
                            assert(self.entries@[i] == before[i]);
                        }
                    }
                    assert forall|k2: K| self@.contains_key(k2) implies old(self)@.insert(
                        k,
                        v,
                    ).contains_key(k2) by {
                        if k2.word() == word {
                            K::distinct(k, k2);
                        }
                    }
                    assert(self@ =~= old(self)@.insert(k, v));
                }
            },
        }
    }

    /// Takes the entry of a key out.
    pub(crate) fn remove(&mut self, k: K) -> (r: Option<V>)
        requires
            old(self).wf(),
        ensures
            final(self).wf(),
            final(self)@ == old(self)@.remove(k),
            old(self)@.contains_key(k) ==> r == Some(old(self)@[k]),
            !old(self)@.contains_key(k) ==> r is None,
    {
        proof {
            self.lemma_entries();
        }
        match self.position(k) {
            Some(i) => {
                let last = self.entries.len() - 1;
                let moved = self.entries[last].0;
                let word = k.to_word();
                let gone = self.entries.swap_remove(i);
                let _ = displace(&mut self.index, word);
                if i != last {
                    let _ = place(&mut self.index, moved.to_word(), i);
                }
                proof {
                    let before = old(self).entries@;
                    let old_positions = positions(old(self).index);
                    assert forall|j: int|
                        #![trigger self.entries@[j]]
                        0 <= j < self.entries@.len() implies positions(self.index).contains_key(
                        self.entries@[j].0.word(),
                    ) && positions(self.index)[self.entries@[j].0.word()] == j by {
                        assert(before[last as int].0 == moved);
                        if j == i {
                            assert(self.entries@[j] == before[last as int]);
                        } else {
                            assert(self.entries@[j] == before[j]);
                            assert(old_positions[before[j].0.word()] == j);
                        }
                    }
                    assert forall|w: u64| #[trigger] positions(self.index).contains_key(
                        w,
                    ) implies positions(self.index)[w] < self.entries@.len()
                        && self.entries@[positions(self.index)[w] as int].0.word() == w by {
                        assert(old_positions.contains_key(w));
                        assert(before[i as int].0.word() == word);
                        if i != last && w == moved.word() {
                        } else {
                            let p = old_positions[w] as int;
                            assert(before[p].0.word() == w);
                            assert(p != last || i == last);
                        }
                    }
                    assert forall|k2: K| #[trigger] self@.contains_key(k2) <==> old(
                        self,
                    )@.remove(k).contains_key(k2) by {
                        if k2.word() == word {
                            K::distinct(k, k2);
                        }
                    }
                    assert forall|k2: K| #[trigger] self@.contains_key(k2) implies self@[k2]
                        == old(self)@[k2] by {
                        assert(old(self)@.contains_key(k2));
                    }
                    assert(self@ =~= old(self)@.remove(k));
                }
                Some(gone.1)
            },
            None => {
                assert(self@ =~= old(self)@.remove(k));
                None
            },
        }
    }

    /// Takes every entry out.
    pub(crate) fn clear(&mut self)
        ensures
            final(self).wf(),
            final(self)@ == Map::<K, V>::empty(),
    {
        self.entries.clear();
        wipe(&mut self.index);
        assert(self@ =~= Map::<K, V>::empty());
    }
}

} // verus!
