//! The symbols that wait to be worked on.
use crate::choice::{is_smallest, smallest};
use crate::symbol::Symbol;
use vstd::multiset::Multiset;
use vstd::prelude::*;
use vstd::seq_lib::*;

verus! {

/// A worklist that hands out the smallest symbol first, whatever the order of the pushes.
pub struct Worklist {
    /// The symbols, the largest first.
    pub(crate) items: Vec<Symbol>,
}

impl View for Worklist {
    type V = Multiset<Symbol>;

    open(crate) spec fn view(&self) -> Multiset<Symbol> {
        self.items@.to_multiset()
    }
}

impl Worklist {
    pub open(crate) spec fn wf(self) -> bool {
        forall|i: int, j: int|
            0 <= i <= j < self.items@.len() ==> (#[trigger] self.items@[i]).raw >= (
            #[trigger] self.items@[j]).raw
    }

    /// A worklist that holds nothing.
    pub(crate) fn new() -> (r: Worklist)
        ensures
            r.wf(),
            r@ == Multiset::<Symbol>::empty(),
    {
        broadcast use group_to_multiset_ensures;

        let r = Worklist { items: Vec::new() };
        assert(r@ =~= Multiset::<Symbol>::empty());
        r
    }

    /// Adds a symbol.
    pub(crate) fn push(&mut self, s: Symbol)
        requires
            old(self).wf(),
        ensures
            final(self).wf(),
            final(self)@ == old(self)@.insert(s),
    {
        broadcast use group_to_multiset_ensures;

        let mut i: usize = self.items.len();
        while i > 0 && self.items[i - 1].raw < s.raw
            invariant
                i <= self.items@.len(),
                self.wf(),
                forall|j: int| i <= j < self.items@.len() ==> (#[trigger] self.items@[j]).raw < s.raw,
            decreases i,
        {
            i = i - 1;
        }
        let ghost before = self.items@;
        self.items.insert(i, s);
        proof {
            assert(self.items@ == before.insert(i as int, s));
            assert forall|a: int, b: int|
                0 <= a <= b < self.items@.len() implies (#[trigger] self.items@[a]).raw >= (
            #[trigger] self.items@[b]).raw by {
                let a0 = if a < i {
                    a
                } else {
                    a - 1
                };
                let b0 = if b < i {
                    b
                } else {
                    b - 1
                };
                if a != i && b != i {
                    assert(before[a0].raw >= before[b0].raw);
                } else if a == i && b != i {
                    assert(before[b0].raw < s.raw);
                } else if b == i && a != i {
                    assert(before[a0].raw >= before[i - 1].raw);
                }
            }
            to_multiset_insert(before, i as int, s);
        }
    }

    /// Takes the smallest symbol out.
    pub(crate) fn pop(&mut self) -> (r: Option<Symbol>)
        requires
            old(self).wf(),
        ensures
            final(self).wf(),
            r == smallest(old(self)@.dom()),
            r is None ==> final(self)@ == old(self)@ && old(self)@ == Multiset::<Symbol>::empty(),
            r matches Some(s) ==> final(self)@ == old(self)@.remove(s) && old(self)@.count(s) > 0,
            final(self)@.len() + (if r is Some {
                1nat
            } else {
                0
            }) == old(self)@.len(),
    {
        broadcast use group_to_multiset_ensures;
        broadcast use vstd::multiset::group_multiset_axioms;

        let ghost before = self.items@;
        let r = self.items.pop();
        proof {
            match r {
                Some(s) => {
                    let n = before.len() - 1;
                    assert(before.contains(before[n]));
                    assert(before.to_multiset().count(s) > 0);
                    assert forall|t: Symbol| #[trigger] old(self)@.dom().contains(t) implies s.raw
                        <= t.raw by {
                        assert(before.to_multiset().count(t) > 0);
                        assert(before.contains(t));
                        let i = choose|i: int| 0 <= i < before.len() && before[i] == t;
                        assert(before[i].raw >= before[n].raw);
                    }
                    assert(is_smallest(old(self)@.dom(), s));
                    crate::choice::lemma_found_smallest(Some(s), old(self)@.dom());
                    assert(self.items@ =~= before.remove(n));
                    to_multiset_remove(before, n);
                },
                None => {
                    assert forall|t: Symbol| !old(self)@.dom().contains(t) by {
                        if before.to_multiset().count(t) > 0 {
                            assert(before.contains(t));
                        }
                    }
                    crate::choice::lemma_found_smallest(None, old(self)@.dom());
                    assert(before =~= Seq::<Symbol>::empty());
                    assert(old(self)@ =~= Multiset::<Symbol>::empty());
                },
            }
        }
        r
    }

    /// Takes every symbol out.
    pub(crate) fn clear(&mut self)
        ensures
            final(self).wf(),
            final(self)@ == Multiset::<Symbol>::empty(),
    {
        broadcast use group_to_multiset_ensures;

        self.items.clear();
        assert(self@ =~= Multiset::<Symbol>::empty());
    }
}

} // verus!
