//! A count that no machine word bounds.
use vstd::prelude::*;

verus! {

/// How many numbers a digit can stand for.
spec fn base() -> nat {
    0x1_0000_0000_0000_0000
}

/// A count of steps. It has as many digits as it needs, so only the machine's memory bounds it.
pub struct Count {
    /// The digits, the lowest first.
    digits: Vec<u64>,
}

/// The number that the digits from a place on make.
spec fn number(digits: Seq<u64>, place: int) -> nat
    decreases digits.len() - place,
{
    if 0 <= place < digits.len() {
        digits[place] as nat + base() * number(digits, place + 1)
    } else {
        0
    }
}

/// How many numbers so many digits can make.
spec fn reach(digits: nat) -> nat
    decreases digits,
{
    if digits == 0 {
        1
    } else {
        base() * reach((digits - 1) as nat)
    }
}

/// Digits that are the same from a place on make the same number.
proof fn lemma_same_number(a: Seq<u64>, b: Seq<u64>, place: int)
    requires
        0 <= place,
        a.len() == b.len(),
        forall|i: int| place <= i < a.len() ==> a[i] == b[i],
    ensures
        number(a, place) == number(b, place),
    decreases a.len() - place,
{
    if place < a.len() {
        lemma_same_number(a, b, place + 1);
    }
}

/// Digits make less than they can reach.
proof fn lemma_within_reach(digits: Seq<u64>, place: int)
    requires
        0 <= place <= digits.len(),
    ensures
        number(digits, place) < reach((digits.len() - place) as nat),
    decreases digits.len() - place,
{
    if place < digits.len() {
        lemma_within_reach(digits, place + 1);
    }
}

/// More digits reach further.
proof fn lemma_reach(few: nat, many: nat)
    requires
        few <= many,
    ensures
        0 < reach(few) <= reach(many),
    decreases many,
{
    if few < many {
        lemma_reach(few, (many - 1) as nat);
    } else if few > 0 {
        lemma_reach((few - 1) as nat, (few - 1) as nat);
    }
}

/// One is added to the number that the digits from a place on make.
fn add_one(digits: &mut Vec<u64>, place: usize)
    requires
        place <= old(digits)@.len(),
    ensures
        number(final(digits)@, place as int) == number(old(digits)@, place as int) + 1,
        final(digits)@.len() >= old(digits)@.len(),
        forall|i: int| 0 <= i < place ==> final(digits)@[i] == old(digits)@[i],
    decreases old(digits)@.len() - place,
{
    if place == digits.len() {
        digits.push(1);
        assert(number(digits@, place + 1) == 0);
    } else if digits[place] < u64::MAX {
        let digit: u64 = digits[place] + 1;
        digits.set(place, digit);
        proof {
            lemma_same_number(digits@, old(digits)@, place + 1);
        }
    } else {
        digits.set(place, 0);
        proof {
            lemma_same_number(digits@, old(digits)@, place + 1);
        }
        add_one(digits, place + 1);
    }
}

impl Count {
    /// The number of steps.
    pub closed spec fn value(self) -> nat {
        number(self.digits@, 0)
    }

    /// What no count reaches.
    pub closed spec fn ceiling() -> nat {
        reach(usize::MAX as nat)
    }

    /// The count of no steps.
    pub(crate) fn new() -> (r: Count)
        ensures
            r.value() == 0,
            0 < Count::ceiling(),
    {
        proof {
            lemma_reach(0, usize::MAX as nat);
        }
        Count { digits: Vec::new() }
    }

    /// Counts a step.
    pub(crate) fn tick(&mut self)
        ensures
            final(self).value() == old(self).value() + 1,
            final(self).value() < Count::ceiling(),
    {
        add_one(&mut self.digits, 0);
        let digits: usize = self.digits.len();
        proof {
            lemma_within_reach(self.digits@, 0);
            lemma_reach(digits as nat, usize::MAX as nat);
        }
    }
}

} // verus!
