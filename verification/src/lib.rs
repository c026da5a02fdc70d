use vstd::prelude::*;

pub mod handles;
pub mod laws;
pub mod ledger;
pub mod mux;

verus! {

/// Error returned by registration when the key is already present.
#[derive(Clone, Copy, Debug, PartialEq, Eq, Structural)]
pub struct DuplicateKeyError;

} // verus!
