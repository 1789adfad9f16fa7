//! The command-line surface the runner exposes.

use vstd::prelude::*;

verus! {

/// What the operator asked for: the project's root directory and whether
/// per-host packet capture is switched on.
#[derive(Debug, Clone, PartialEq)]
pub struct Args {
    pub project_path: String,
    pub pcap: bool,
}

} // verus!
