//! The one error the library raises.

use vstd::prelude::*;

verus! {

/// Raised by the checked position offset when the target coordinates fall
/// outside the 8x8 grid. It is only ever propagated; callers treat it as
/// "no further destination in this direction".
#[derive(Copy, Clone, Debug, PartialEq, Eq, Structural)]
pub enum ErrorKind {
    CoordinatesOutsideBoard,
}

impl ErrorKind {
    /// A human-readable message for this error.
    pub fn to_str(&self) -> (s: &'static str)
        ensures
            s@ == "coordinates are outside legal board boundaries"@,
    {
        match *self {
            ErrorKind::CoordinatesOutsideBoard => "coordinates are outside legal board boundaries",
        }
    }
}

} // verus!
