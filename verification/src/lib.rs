//! A local, directory-scoped snapshotting and restoration engine.
//!
//! A tracked root directory is captured as an ordered sequence of immutable
//! snapshots.  Every file is stored as a compressed binary delta against a
//! per-file baseline (a compressed whole-file copy), so that any snapshot of
//! a file can be reached from its baseline in one step.  The engine works on
//! an in-memory model of the tracked tree and of the sidecar state (patch
//! store, snapshot manifests, patch artifacts); reading and writing the real
//! filesystem is left to the surrounding program.

use vstd::prelude::*;

pub mod clock;
pub mod compression;
pub mod diffs;
pub mod engine;
pub mod hashing;
pub mod restore;
pub mod stores;
pub mod text;

verus! {

/// The ways an engine operation can fail.
#[derive(Clone, Copy, Debug, PartialEq, Eq, Structural)]
pub enum EngineError {
    /// A file or artifact could not be opened, read, written or stat-ed.
    IoFailure,
    /// Decompression or patch application failed, or a persisted store is malformed.
    CorruptArtifact,
    /// A file's baseline patch record cannot be located although it is required.
    MissingBaseline,
    /// The selected restore target does not name a stored snapshot.
    InvalidSelection,
    /// A snapshot mode other than the supported one was requested.
    UnsupportedMode,
    /// No entry changed, so there is no snapshot to take.
    NothingToDo,
}

/// The diagnostic text that belongs to each error.
pub open spec fn message_of(e: EngineError) -> Seq<char> {
    match e {
        EngineError::IoFailure => "an engine file could not be read or written"@,
        EngineError::CorruptArtifact => "a stored artifact or store file is corrupt"@,
        EngineError::MissingBaseline => "no baseline patch exists for a tracked file"@,
        EngineError::InvalidSelection => "the selected snapshot does not exist"@,
        EngineError::UnsupportedMode => "only the fastest snapshot mode is implemented"@,
        EngineError::NothingToDo => "no files changed, nothing to do"@,
    }
}

impl EngineError {
    /// A short diagnostic text for the error, for the surrounding program to print.
    pub fn message(&self) -> (r: &'static str)
        ensures
            r@ == message_of(*self),
    {
        match self {
            EngineError::IoFailure => "an engine file could not be read or written",
            EngineError::CorruptArtifact => "a stored artifact or store file is corrupt",
            EngineError::MissingBaseline => "no baseline patch exists for a tracked file",
            EngineError::InvalidSelection => "the selected snapshot does not exist",
            EngineError::UnsupportedMode => "only the fastest snapshot mode is implemented",
            EngineError::NothingToDo => "no files changed, nothing to do",
        }
    }
}

} // verus!
