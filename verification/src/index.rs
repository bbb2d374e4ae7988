//! The hash index behind every table of the solver.
use vstd::prelude::*;

verus! {

/// A `hashbrown::HashMap` from a word to a position.
///
/// The map is only ever asked for a single word and never walked, so the order in which
/// `hashbrown` keeps its items can be seen nowhere.
#[verifier::external_body]
pub struct Index {
    inner: hashbrown::HashMap<u64, usize>,
}

/// What an index holds.
pub uninterp spec fn positions(index: Index) -> Map<u64, usize>;

/// Calls `hashbrown::HashMap::new`, which gives a map that holds nothing.
#[verifier::external_body]
pub(crate) fn new_index() -> (r: Index)
    ensures
        positions(r).dom() == Set::<u64>::empty(),
{
    Index { inner: hashbrown::HashMap::new() }
}

/// Calls `hashbrown::HashMap::get`, which gives the value held for the word, if there is one.
#[verifier::external_body]
pub(crate) fn find(index: &Index, word: u64) -> (r: Option<usize>)
    ensures
        positions(*index).contains_key(word) ==> r == Some(positions(*index)[word]),
        !positions(*index).contains_key(word) ==> r is None,
{
    index.inner.get(&word).copied()
}

/// Calls `hashbrown::HashMap::insert`, which sets the value of one word and gives back the value
/// that it had before.
#[verifier::external_body]
pub(crate) fn place(index: &mut Index, word: u64, position: usize) -> (r: Option<usize>)
    ensures
        positions(*final(index)) == positions(*old(index)).insert(word, position),
        positions(*old(index)).contains_key(word) ==> r == Some(positions(*old(index))[word]),
        !positions(*old(index)).contains_key(word) ==> r is None,
{
    index.inner.insert(word, position)
}

/// Calls `hashbrown::HashMap::remove`, which takes one word out and gives back its value, if it
/// had one.
#[verifier::external_body]
pub(crate) fn displace(index: &mut Index, word: u64) -> (r: Option<usize>)
    ensures
        positions(*final(index)) == positions(*old(index)).remove(word),
        positions(*old(index)).contains_key(word) ==> r == Some(positions(*old(index))[word]),
        !positions(*old(index)).contains_key(word) ==> r is None,
{
    index.inner.remove(&word)
}

/// Calls `hashbrown::HashMap::clear`, after which the map holds nothing.
#[verifier::external_body]
pub(crate) fn wipe(index: &mut Index)
    ensures
        positions(*final(index)).dom() == Set::<u64>::empty(),
{
    index.inner.clear()
}

} // verus!
