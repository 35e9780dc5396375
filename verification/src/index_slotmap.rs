//! The entry of an index table: where an element is right now, and what is
//! kept for it. The index stays valid while the element moves between
//! containers; whoever moves it writes the new place into `index`.

use vstd::prelude::*;

verus! {

/// One entry of an index table.
#[derive(Debug)]
pub struct IndexEntry<T> {
    /// The place of the element in the container that holds it.
    pub index: usize,
    /// What the table keeps for the element.
    pub value: T,
}

impl<T: Clone> Clone for IndexEntry<T> {
    /// An entry for the same place, with a clone of the value.
    fn clone(&self) -> (entry: Self)
        ensures
            entry.index == self.index,
            cloned::<T>(self.value, entry.value),
    {
        IndexEntry { index: self.index, value: self.value.clone() }
    }
}

} // verus!
