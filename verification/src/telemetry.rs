//! Telemetry vocabulary.

use vstd::prelude::*;

verus! {

/// How a recovery after a crash ended.
#[derive(Clone, Copy, Debug, PartialEq, Eq, Structural)]
pub enum RecoveryOutcome {
    Recovered,
    Failed,
    Pending,
}

/// What went wrong, in broad classes.
#[derive(Clone, Copy, Debug, PartialEq, Eq, Structural)]
pub enum ErrorCode {
    EngineTrap,
    DocumentParse,
    FontLoad,
    Rpc,
    Unknown,
}

} // verus!
