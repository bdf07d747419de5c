//! The landing page's theme switch.
use crate::text::str_eq;
use vstd::prelude::*;

verus! {

/// The theme the switch turns to from `current`: dark turns light, and
/// anything else turns dark.
pub fn next_theme(current: &str) -> (next: String)
    ensures
        next@ == if current@ == "dark"@ { "light"@ } else { "dark"@ },
{
    if str_eq(current, "dark") {
        String::from_str("light")
    } else {
        String::from_str("dark")
    }
}

} // verus!
