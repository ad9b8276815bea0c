//! The reason for which no generator can be built.

use vstd::prelude::*;

verus! {

/// The key has no bytes.
#[derive(Clone, Copy, Debug, PartialEq, Eq, Structural)]
pub struct InvalidKey;

} // verus!
