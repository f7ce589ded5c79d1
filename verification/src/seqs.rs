//! A helper for sequences that the other modules share.

use vstd::prelude::*;

verus! {

/// The views of the items of `s`, in order.
pub open spec fn views_of<T: View>(s: Seq<T>) -> Seq<T::V> {
    Seq::new(s.len(), |i: int| s[i]@)
}

} // verus!
