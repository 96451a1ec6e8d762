//! Specifications for the few `std` string operations the library
//! uses that `vstd` does not already specify.

use vstd::prelude::*;

verus! {

/// Relies on `String::push`: appends the given character to the end
/// of the string.
pub assume_specification[ String::push ](s: &mut String, ch: char)
    ensures
        final(s)@ == old(s)@.push(ch),
;

} // verus!
