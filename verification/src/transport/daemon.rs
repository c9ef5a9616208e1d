//! Transfers to a daemon.

use vstd::prelude::*;

verus! {

/// The port that a daemon listens on.
pub const DEFAULT_PORT: u16 = 873;

} // verus!
