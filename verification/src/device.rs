//! Identifiers for optional device extensions that the surrounding
//! runtime requests but that might not be available.

use vstd::prelude::*;

verus! {

/// Device extensions that are requested but might not be available; the
/// runtime records which of them it managed to enable.
#[derive(Debug, Clone, Copy, PartialEq, Eq, Structural)]
pub enum ExtensionID {
    /// The extended-dynamic-state extension, providing more dynamic
    /// pipeline states.
    ExtendedDynamicState3,
}

impl ExtensionID {
    /// The display name of the extension identifier.
    pub fn name(&self) -> (r: String)
        ensures
            r@ == "ExtendedDynamicState3"@,
    {
        "ExtendedDynamicState3".to_owned()
    }
}

} // verus!
