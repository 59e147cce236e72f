//! The reasons an operation of the engine can fail.

use vstd::prelude::*;

verus! {

/// Why an operation was refused. A refused operation leaves the store as it was.
#[derive(Clone, Copy, PartialEq, Eq, Structural, Debug)]
pub enum Error {
    /// A project of that name exists already.
    DuplicateProject,
    /// The project already has a block of that name.
    DuplicateBlock,
    /// No project of that name exists.
    ProjectNotFound,
    /// The project has no block of that name.
    BlockNotFound,
    /// Logged minutes were not positive, or a target was negative.
    InvalidDuration,
    /// A refresh period is not a number followed by `d` or `w`.
    InvalidPeriodFormat,
    /// Stored data could not be read back.
    PersistenceFailure,
}

impl Error {
    /// A short stable name for the error, for messages.
    pub fn name(&self) -> (s: &'static str)
        ensures
            s@ == error_name(*self),
    {
        match self {
            Error::DuplicateProject => "duplicate project",
            Error::DuplicateBlock => "duplicate block",
            Error::ProjectNotFound => "project not found",
            Error::BlockNotFound => "block not found",
            Error::InvalidDuration => "invalid duration",
            Error::InvalidPeriodFormat => "invalid period format",
            Error::PersistenceFailure => "persistence failure",
        }
    }
}

/// The text that [`Error::name`] gives for each error.
pub open spec fn error_name(e: Error) -> Seq<char> {
    match e {
        Error::DuplicateProject => "duplicate project"@,
        Error::DuplicateBlock => "duplicate block"@,
        Error::ProjectNotFound => "project not found"@,
        Error::BlockNotFound => "block not found"@,
        Error::InvalidDuration => "invalid duration"@,
        Error::InvalidPeriodFormat => "invalid period format"@,
        Error::PersistenceFailure => "persistence failure"@,
    }
}

} // verus!
