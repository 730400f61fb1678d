//! Lists of lists, seen as sequences of sequences.

use vstd::prelude::*;

verus! {

/// The sequence of the contents of each list.
pub open spec fn contents<T>(lists: Seq<Vec<T>>) -> Seq<Seq<T>> {
    Seq::new(lists.len(), |i: int| lists[i]@)
}

} // verus!
