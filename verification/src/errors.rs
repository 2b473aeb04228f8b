use vstd::prelude::*;

verus! {

/// The failure taxonomy of the persistence core.
///
/// `StoreUnavailable`, `EncodingError` and `DecodingError` describe the
/// storage boundary (the caller that loads or persists the log reports
/// them); `PayloadMalformed` is raised by replay when an event payload is
/// not a field mapping; `NotFound` is raised when an update names an
/// entity that is not present.
#[derive(Clone, Copy, Debug, PartialEq, Eq, Structural)]
pub enum RepoError {
    StoreUnavailable,
    EncodingError,
    DecodingError,
    PayloadMalformed,
    NotFound,
}

/// Failures of the flat user-account store, which sits beside the event
/// log and does not take part in replay.
#[derive(Clone, Copy, Debug, PartialEq, Eq, Structural)]
pub enum UserError {
    AlreadyExists,
    WrongPassword,
    UnknownUser,
}

} // verus!
