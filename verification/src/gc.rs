//! How much was cleared.
use vstd::prelude::*;

use crate::text::{cat4, decimal, number, Text};

verus! {

/// A number of bytes in megabytes, with one digit behind the point that is not rounded.
pub open spec fn in_megabytes(bytes: u64) -> Text {
    decimal((bytes / 1_000_000) as nat) + "."@ + decimal((bytes / 100_000 % 10) as nat) + " MB"@
}

/// A number of bytes in megabytes.
pub fn megabytes(bytes: u64) -> (result: String)
    ensures
        result@ == in_megabytes(bytes),
{
    cat4(number(bytes / 1_000_000).as_str(), ".", number(bytes / 100_000 % 10).as_str(), " MB")
}

/// A size is told to a tenth of a megabyte, and never more than there is.
pub proof fn tenths_are_told(bytes: u64) -> (told: (nat, nat))
    ensures
        in_megabytes(bytes) == decimal(told.0) + "."@ + decimal(told.1) + " MB"@,
        told.1 < 10,
        1_000_000 * told.0 + 100_000 * told.1 <= bytes < 1_000_000 * told.0 + 100_000 * (told.1 + 1),
{
    ((bytes / 1_000_000) as nat, (bytes / 100_000 % 10) as nat)
}

} // verus!
