use vstd::prelude::*;

verus! {

/// Errors of the credential and user-management layer.
#[derive(Debug)]
pub enum UserError {
    /// A required value (for example a registered user) is missing.
    MissingValues(String),
    /// The presented credentials do not match the stored ones.
    Authentication(String),
    /// A per-user folder could not be located.
    PathNotFound,
    /// The name is already registered; the table's primary key refuses it.
    Duplicate(String),
}

/// Errors surfaced by the synchronization core.
#[derive(Debug)]
pub enum ApplicationError {
    /// A credential-layer failure.
    UserError(UserError),
    /// The presented session key matches no registered user.
    InvalidHostKey(String),
    /// A requested name has no record, or a record's content index has no
    /// matching blob.
    NotFound(String),
    /// The store cannot take the request (the id space is exhausted).
    Storage(String),
}

} // verus!
