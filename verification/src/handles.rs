//! Opaque handle types with trivial constructors. Foreign callers create
//! and destroy them through the raw-pointer shims that live outside the
//! verified crate; in here they are plain values.

use vstd::prelude::*;

verus! {

/// An empty handle type.
pub struct RustBoth {}

impl RustBoth {
    pub fn new() -> (r: RustBoth)
        ensures
            r == (RustBoth {  }),
    {
        RustBoth {  }
    }
}

/// A handle holding a `RustBoth` of its own.
pub struct RustStatic {
    rustboth: RustBoth,
}

impl RustStatic {
    /// The wrapped handle.
    pub closed spec fn inner(&self) -> RustBoth {
        self.rustboth
    }

    pub fn new() -> (r: RustStatic)
        ensures
            r.inner() == (RustBoth {  }),
    {
        RustStatic { rustboth: RustBoth::new() }
    }
}

} // verus!
