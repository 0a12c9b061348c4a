//! The error taxonomy: argument errors (which callers answer with usage
//! text) and store/query errors. Decode failures are deliberately not here:
//! a store that cannot be decoded is read as empty, never surfaced.

use vstd::prelude::*;

verus! {

/// Errors in the command-line arguments themselves.
#[derive(Debug)]
pub enum Args {
    /// No action word was given.
    NoAction,
    /// The action word is not one of the known actions.
    UnknownAction(String),
    /// The action needs an operand that was not given.
    Missing,
}

/// Errors of the entry store and its collaborators.
#[derive(Debug)]
pub enum Error {
    /// The per-user data directory cannot be resolved.
    Resolve,
    /// The store file cannot be opened.
    Open,
    /// The store or its temporary sibling cannot be written or renamed.
    Write,
    /// The advisory lock cannot be acquired.
    Lock,
    /// The data directory cannot be created.
    Init,
    /// Encoding the entry sequence failed.
    Encode,
    /// The system clock reads before the epoch.
    SystemTime,
    /// The visited path cannot be resolved to a canonical path.
    InvalidPath(Vec<u8>),
    /// The visited path resolves to something other than a directory.
    NotDir(Vec<u8>),
}

impl Args {
    /// A fixed human-readable message for this error.
    pub fn message(&self) -> (r: &'static str)
        ensures
            r@.len() > 0,
    {
        let r = match self {
            Args::NoAction => "No action provided",
            Args::UnknownAction(_) => "Unknown action provided",
            Args::Missing => "Missing expected argument",
        };
        proof {
            reveal_strlit("No action provided");
            reveal_strlit("Unknown action provided");
            reveal_strlit("Missing expected argument");
        }
        r
    }
}

impl Error {
    /// A fixed human-readable message for this error.
    pub fn message(&self) -> (r: &'static str)
        ensures
            r@.len() > 0,
    {
        let r = match self {
            Error::Resolve => "Failed to resolve data dir",
            Error::Open => "Failed to open entries",
            Error::Write => "Failed to write entries",
            Error::Lock => "Failed to acquire file lock",
            Error::Init => "Failed to initialize data dir",
            Error::Encode => "Failed to encode",
            Error::SystemTime => "Failed to get current time",
            Error::InvalidPath(_) => "Invalid path",
            Error::NotDir(_) => "Path is not a directory",
        };
        proof {
            reveal_strlit("Failed to resolve data dir");
            reveal_strlit("Failed to open entries");
            reveal_strlit("Failed to write entries");
            reveal_strlit("Failed to acquire file lock");
            reveal_strlit("Failed to initialize data dir");
            reveal_strlit("Failed to encode");
            reveal_strlit("Failed to get current time");
            reveal_strlit("Invalid path");
            reveal_strlit("Path is not a directory");
        }
        r
    }
}

} // verus!
