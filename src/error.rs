use vstd::prelude::*;
use crate::profile::ModId;

verus! {

/// An installer failure, attributed to the mod version it was asked for.
#[derive(Debug)]
pub struct InstallFailure {
    pub mod_ref: ModId,
    pub message: String,
}

/// The errors of the commands.
#[derive(Debug)]
pub enum CmdError {
    /// The state directory or the state file could not be written.
    Persistence { message: String },
    /// Resolving or installing one mod version failed.
    Install { mod_ref: ModId, message: String },
    /// Some candidates of a batch failed; each is listed, in batch order.
    Batch { failures: Vec<InstallFailure> },
    /// A referenced profile, package or file does not exist.
    NotFound { message: String },
}

} // verus!
