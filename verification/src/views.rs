//! From values to their views.

use vstd::prelude::*;

verus! {

/// The view of each value of a sequence.
pub open spec fn views<T: View>(s: Seq<T>) -> Seq<T::V> {
    s.map_values(|t: T| t@)
}

} // verus!
