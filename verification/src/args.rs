//! The one run-time choice the pipeline takes from its caller.
use vstd::prelude::*;

verus! {

/// Arguments of a pipeline run.
#[derive(Debug, Clone, Copy, PartialEq, Eq, Structural)]
pub struct Args {
    /// Build the previous month's invoices instead of the current
    /// month's.
    pub last_month: bool,
}

} // verus!
