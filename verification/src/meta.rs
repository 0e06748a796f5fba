//! Who made a commit, and what its message says.

use vstd::prelude::*;
use vstd::string::*;

use crate::error::QueryError;
use crate::graph::open;
use crate::repo::{
    commit_author, commit_committer, commit_message, error_message, find_commit, parse_oid,
    signature_email, signature_name, signature_seconds, well_formed_hash,
};
use crate::settings::Settings;
use crate::snapshot::SnapshotId;

verus! {

/// One signature of a commit.
#[derive(Debug)]
pub struct EditStamp {
    pub name: Option<String>,
    pub email: Option<String>,
    /// Seconds since the epoch.
    pub date: i64,
}

impl EditStamp {
    /// What `signature` holds.
    pub fn from(signature: &git2::Signature<'_>) -> (stamp: EditStamp) {
        EditStamp::new(
            signature_name(signature),
            signature_email(signature),
            signature_seconds(signature),
        )
    }

    /// The signature of `name` at `email`, made at `date`.
    pub fn new(name: Option<String>, email: Option<String>, date: i64) -> (stamp: EditStamp)
        ensures
            stamp.name == name,
            stamp.email == email,
            stamp.date == date,
    {
        EditStamp { name, email, date }
    }
}

/// Author, committer and message of a commit.
#[derive(Debug)]
pub struct MetaResponse {
    pub author: EditStamp,
    pub committer: EditStamp,
    /// The message, or nothing where it is no text.
    pub message: String,
}

/// What is sent for a commit of the signatures `author` and `committer` and the message
/// `message`: the signatures as they are, and the message, or nothing where it is no text.
pub fn meta_of(author: EditStamp, committer: EditStamp, message: Option<String>) -> (meta:
    MetaResponse)
    ensures
        meta.author == author,
        meta.committer == committer,
        meta.message@ == (match message {
            Some(text) => text@,
            None => Seq::<char>::empty(),
        }),
{
    let message = match message {
        Some(text) => text,
        None => String::new(),
    };
    MetaResponse { author, committer, message }
}

/// The cause that is given for a message that is no text.
pub open spec fn missing_message() -> Seq<char> {
    "Missing message"@
}

/// What is sent for the message `message` of a commit: the message as it is, and
/// `RootNotFound` with the cause `Missing message` where it is no text.
pub fn message_of(message: Option<String>) -> (sent: Result<String, QueryError>)
    ensures
        message matches Some(text) ==> sent == Ok::<String, QueryError>(text),
        message is None ==> (sent matches Err(QueryError::RootNotFound(cause)) && cause@
            == missing_message()),
{
    match message {
        Some(text) => Ok(text),
        None => Err(QueryError::RootNotFound(String::from_str("Missing message"))),
    }
}

/// The commit under `id`, or `RootNotFound` where the repository has no such commit.
fn found_commit<'repo>(repo: &'repo git2::Repository, id: &SnapshotId) -> (found: Result<
    git2::Commit<'repo>,
    QueryError,
>)
    ensures
        found matches Err(error) ==> error is RootNotFound,
{
    match find_commit(repo, id) {
        Ok(found) => Ok(found),
        Err(error) => Err(QueryError::RootNotFound(error_message(&error))),
    }
}

/// The whole message of the commit whose hash `commit` spells: what `message_of` makes of the
/// message of the commit. Fails with `MalformedId` exactly where `commit` spells no hash, and
/// else with `StorageUnavailable` or `RootNotFound` where the commit cannot be had.
pub fn get_message(settings: &Settings, commit: &str) -> (message: Result<String, QueryError>)
    ensures
        !well_formed_hash(commit@) <==> message is Err && message->Err_0 is MalformedId,
        message matches Err(error) ==> error is MalformedId || error is StorageUnavailable
            || error is RootNotFound,
{
    let id = match parse_oid(commit) {
        Ok(id) => id,
        Err(_) => {
            return Err(QueryError::MalformedId);
        },
    };
    let repo = match open(settings.repo.as_str()) {
        Ok(repo) => repo,
        Err(error) => {
            return Err(error);
        },
    };
    let message = match found_commit(&repo, &id) {
        Ok(found) => message_of(commit_message(&found)),
        Err(error) => Err(error),
    };
    message
}

/// Author, committer and message of the commit whose hash `commit` spells: what `meta_of`
/// makes of them. Fails with `MalformedId` exactly where `commit` spells no hash, and else with
/// `StorageUnavailable` or `RootNotFound` where the commit cannot be had.
pub fn get_meta(settings: &Settings, commit: &str) -> (meta: Result<MetaResponse, QueryError>)
    ensures
        !well_formed_hash(commit@) <==> meta is Err && meta->Err_0 is MalformedId,
        meta matches Err(error) ==> error is MalformedId || error is StorageUnavailable
            || error is RootNotFound,
{
    let id = match parse_oid(commit) {
        Ok(id) => id,
        Err(_) => {
            return Err(QueryError::MalformedId);
        },
    };
    let repo = match open(settings.repo.as_str()) {
        Ok(repo) => repo,
        Err(error) => {
            return Err(error);
        },
    };
    let meta = match found_commit(&repo, &id) {
        Ok(found) => {
            let author = EditStamp::from(&commit_author(&found));
            let committer = EditStamp::from(&commit_committer(&found));
            Ok(meta_of(author, committer, commit_message(&found)))
        },
        Err(error) => Err(error),
    };
    meta
}

} // verus!
