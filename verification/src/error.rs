//! The codec's error taxonomy.

use vstd::prelude::*;

verus! {

/// What can go wrong while hiding or recovering a message.
///
/// `Overflow`: a message bit length or body offset does not fit the header's
/// 16-bit fields. `Range`: the pixel payload is shorter than the region an
/// operation must touch. `Utf8`: recovered bytes are not valid UTF-8.
/// `Parse`: a digit string is not made of whole 8-digit binary groups.
#[derive(Clone, Copy, Debug, PartialEq, Eq, Structural)]
pub enum StegoError {
    Overflow,
    Range,
    Utf8,
    Parse,
}

impl StegoError {
    /// A short diagnostic for the error, for callers that report it.
    pub fn describe(&self) -> (r: &'static str)
        ensures
            match self {
                StegoError::Overflow => r@ == "message bit length or body offset exceeds 16 bits"@,
                StegoError::Range => r@ == "pixel payload is shorter than the region to touch"@,
                StegoError::Utf8 => r@ == "recovered bytes are not valid UTF-8"@,
                StegoError::Parse => r@ == "binary digit string is not whole 8-digit groups"@,
            },
    {
        match self {
            StegoError::Overflow => "message bit length or body offset exceeds 16 bits",
            StegoError::Range => "pixel payload is shorter than the region to touch",
            StegoError::Utf8 => "recovered bytes are not valid UTF-8",
            StegoError::Parse => "binary digit string is not whole 8-digit groups",
        }
    }
}

} // verus!
