//! What std says of conversions.

use vstd::prelude::*;

verus! {

/// std's conversion of a type to itself, `<T as From<T>>::from`: the value that is handed in comes
/// out unchanged.
pub assume_specification<Same>[ <Same as core::convert::From<Same>>::from ](t: Same) -> (r: Same)
    ensures
        r == t,
;

} // verus!
