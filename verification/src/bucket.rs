//! The empty id list a new bucket starts with.

use vstd::prelude::*;

verus! {

/// A new, empty bucket of row ids.
pub(crate) fn new_bucket() -> (v: Vec<u32>)
    ensures
        v@ == Seq::<u32>::empty(),
{
    Vec::with_capacity(1)
}

} // verus!
