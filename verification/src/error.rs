//! Why a query fails.

use vstd::prelude::*;

verus! {

/// The failures of a query.
#[derive(Debug)]
pub enum QueryError {
    /// A reference, a branch, the head or a hash leads to no commit. Holds the cause.
    RootNotFound(String),
    /// No session goes by the identifier.
    SessionNotFound,
    /// The repository cannot be opened or read. Holds the cause.
    StorageUnavailable(String),
    /// A text that should spell an identifier does not.
    MalformedId,
}

impl QueryError {
    /// Whether the failure lies with the request: it named a session that is not there, or
    /// spelled an identifier badly. All other failures lie with the server.
    pub fn is_client_fault(&self) -> (fault: bool)
        ensures
            fault == (*self is SessionNotFound || *self is MalformedId),
    {
        match self {
            QueryError::SessionNotFound => true,
            QueryError::MalformedId => true,
            QueryError::RootNotFound(_) => false,
            QueryError::StorageUnavailable(_) => false,
        }
    }
}

} // verus!
