//! The values that absent fields default to.

use vstd::prelude::*;

verus! {

/// The boolean `V`.
pub fn bool<const V: bool>() -> (b: bool)
    ensures
        b == V,
{
    V
}

} // verus!
