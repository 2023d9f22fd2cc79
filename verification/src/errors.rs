use vstd::prelude::*;

verus! {

/// Why a call could not be served.
#[derive(Debug, Clone, Copy, PartialEq, Eq, Structural)]
pub enum Errors {
    /// The stacks were used before `setup`.
    StacksNotInit,
    /// The recent files were used before `setup`.
    RecentFilesNotInit,
}

} // verus!
