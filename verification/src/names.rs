//! Names as the contracts see them: a `String` by its characters, a vector
//! of them by the sequence of those.

use vstd::prelude::*;

verus! {

/// The characters of each name, in order.
pub open spec fn names(v: Seq<String>) -> Seq<Seq<char>> {
    v.map_values(|name: String| name@)
}

} // verus!
