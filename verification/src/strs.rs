//! Specifications for the few string operations of std that vstd leaves
//! unspecified.

use vstd::prelude::*;

verus! {

/// Relies on str's `PartialEq`: two string slices compare equal exactly when
/// their character sequences are equal.
pub assume_specification[ <str as PartialEq>::eq ](a: &str, b: &str) -> (r: bool)
    ensures
        r == (a@ == b@),
;

} // verus!
