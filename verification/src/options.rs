//! Options of the standalone graph-export program.

use vstd::prelude::*;

verus! {

/// The process options: the monorepo path, optional.
pub struct ProcessOptions {
    pub path: Option<String>,
}

} // verus!
