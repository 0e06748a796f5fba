//! The commit graph as `git2` serves it. Nothing in this file is proved: each function hands one
//! call to the repository and its result back, and says of it what `git2` documents.

use vstd::prelude::*;

use crate::diff::PatchLine;
use crate::hex::{decode, is_hex};
use crate::snapshot::SnapshotId;

verus! {

/// `git2::Repository`: an open repository.
#[verifier::external_type_specification]
#[verifier::external_body]
pub struct ExRepository(git2::Repository);

/// `git2::Error`: why a call to the repository failed.
#[verifier::external_type_specification]
#[verifier::external_body]
pub struct ExGitError(git2::Error);

/// `git2::Commit`: a commit of a repository.
#[verifier::external_type_specification]
#[verifier::external_body]
pub struct ExCommit<'repo>(git2::Commit<'repo>);

/// `git2::Reference`: a reference of a repository.
#[verifier::external_type_specification]
#[verifier::external_body]
pub struct ExReference<'repo>(git2::Reference<'repo>);

/// `git2::Signature`: who signed a commit, and when.
#[verifier::external_type_specification]
#[verifier::external_body]
pub struct ExSignature<'a>(git2::Signature<'a>);

/// `git2::Tree`: the files of a commit.
#[verifier::external_type_specification]
#[verifier::external_body]
pub struct ExTree<'repo>(git2::Tree<'repo>);

/// `git2::Diff`: the difference between two trees.
#[verifier::external_type_specification]
#[verifier::external_body]
pub struct ExDiff<'repo>(git2::Diff<'repo>);

/// `git2::DiffStats`: the counts of a difference.
#[verifier::external_type_specification]
#[verifier::external_body]
pub struct ExDiffStats(git2::DiffStats);

/// `git2::Repository::open`: the repository at `path`, or why it cannot be had.
#[verifier::external_body]
pub(crate) fn open_repository(path: &str) -> (opened: Result<git2::Repository, git2::Error>) {
    git2::Repository::open(path)
}

/// `git2::Repository::find_commit`: the commit that `id` names, or why it cannot be had.
#[verifier::external_body]
pub(crate) fn find_commit<'repo>(repo: &'repo git2::Repository, id: &SnapshotId) -> (found: Result<
    git2::Commit<'repo>,
    git2::Error,
>) {
    repo.find_commit(git2::Oid::from_bytes(&id.0)?)
}

/// `git2::Commit::id`: the hash of the commit.
#[verifier::external_body]
pub(crate) fn commit_id(commit: &git2::Commit<'_>) -> (id: SnapshotId) {
    let mut bytes = [0u8; 20];
    bytes.copy_from_slice(commit.id().as_bytes());
    SnapshotId(bytes)
}

/// `git2::Commit::time`: the commit time, in seconds.
#[verifier::external_body]
pub(crate) fn commit_time(commit: &git2::Commit<'_>) -> (seconds: i64) {
    commit.time().seconds()
}

/// `git2::Commit::parent_ids`: the hashes of the parents, in the commit's order.
#[verifier::external_body]
pub(crate) fn commit_parent_ids(commit: &git2::Commit<'_>) -> (parents: Vec<SnapshotId>) {
    let mut parents = Vec::new();
    for parent in commit.parent_ids() {
        let mut bytes = [0u8; 20];
        bytes.copy_from_slice(parent.as_bytes());
        parents.push(SnapshotId(bytes));
    }
    parents
}

/// `git2::Commit::summary`: the first paragraph of the message, where it is there and is text.
#[verifier::external_body]
pub(crate) fn commit_summary(commit: &git2::Commit<'_>) -> (summary: Option<String>) {
    commit.summary().map(|text| text.to_owned())
}

/// `git2::Repository::head`: the reference that `HEAD` resolves to.
#[verifier::external_body]
pub(crate) fn repository_head<'repo>(repo: &'repo git2::Repository) -> (head: Result<
    git2::Reference<'repo>,
    git2::Error,
>) {
    repo.head()
}

/// `git2::Repository::resolve_reference_from_short_name`: the reference that a short name such
/// as a branch name stands for.
#[verifier::external_body]
pub(crate) fn resolve_short_name<'repo>(repo: &'repo git2::Repository, name: &str) -> (found:
    Result<git2::Reference<'repo>, git2::Error>) {
    repo.resolve_reference_from_short_name(name)
}

/// `git2::Repository::find_reference`: the reference with the full name `name`.
#[verifier::external_body]
pub(crate) fn find_reference<'repo>(repo: &'repo git2::Repository, name: &str) -> (found: Result<
    git2::Reference<'repo>,
    git2::Error,
>) {
    repo.find_reference(name)
}

/// `git2::Repository::references`: every reference of the repository, each as the iterator
/// yields it.
#[verifier::external_body]
pub(crate) fn all_references<'repo>(repo: &'repo git2::Repository) -> (listed: Result<
    Vec<Result<git2::Reference<'repo>, git2::Error>>,
    git2::Error,
>) {
    Ok(repo.references()?.collect())
}

/// `git2::Reference::peel_to_commit`: the commit that the reference leads to.
#[verifier::external_body]
pub(crate) fn peel_to_commit<'repo>(reference: &git2::Reference<'repo>) -> (peeled: Result<
    git2::Commit<'repo>,
    git2::Error,
>) {
    reference.peel_to_commit()
}

/// `git2::Reference::name`: the full name of the reference, where it is text.
#[verifier::external_body]
pub(crate) fn reference_name(reference: &git2::Reference<'_>) -> (name: Option<String>) {
    reference.name().map(|text| text.to_owned())
}

/// `git2::Commit::message`: the whole message of the commit, where it is text.
#[verifier::external_body]
pub(crate) fn commit_message(commit: &git2::Commit<'_>) -> (message: Option<String>) {
    commit.message().map(|text| text.to_owned())
}

/// `git2::Commit::author`: the signature of the author.
#[verifier::external_body]
pub(crate) fn commit_author<'a>(commit: &'a git2::Commit<'_>) -> (author: git2::Signature<'a>) {
    commit.author()
}

/// `git2::Commit::committer`: the signature of the committer.
#[verifier::external_body]
pub(crate) fn commit_committer<'a>(commit: &'a git2::Commit<'_>) -> (committer: git2::Signature<
    'a,
>) {
    commit.committer()
}

/// `git2::Signature::name`: the name on the signature, where it is text.
#[verifier::external_body]
pub(crate) fn signature_name(signature: &git2::Signature<'_>) -> (name: Option<String>) {
    signature.name().map(|text| text.to_owned())
}

/// `git2::Signature::email`: the address on the signature, where it is text.
#[verifier::external_body]
pub(crate) fn signature_email(signature: &git2::Signature<'_>) -> (email: Option<String>) {
    signature.email().map(|text| text.to_owned())
}

/// `git2::Signature::when`: the time of the signature, in seconds.
#[verifier::external_body]
pub(crate) fn signature_seconds(signature: &git2::Signature<'_>) -> (seconds: i64) {
    signature.when().seconds()
}

/// `git2::Commit::tree`: the tree of the commit.
#[verifier::external_body]
pub(crate) fn commit_tree<'repo>(commit: &git2::Commit<'repo>) -> (tree: Result<
    git2::Tree<'repo>,
    git2::Error,
>) {
    commit.tree()
}

/// `git2::Repository::diff_tree_to_tree`: the difference that leads from `old` to `new`, with
/// the default options.
#[verifier::external_body]
pub(crate) fn diff_trees<'repo>(
    repo: &'repo git2::Repository,
    old: &git2::Tree<'_>,
    new: &git2::Tree<'_>,
) -> (diff: Result<git2::Diff<'repo>, git2::Error>) {
    repo.diff_tree_to_tree(Some(old), Some(new), None)
}

/// `git2::Diff::stats`: the counts of the difference.
#[verifier::external_body]
pub(crate) fn diff_stats(diff: &git2::Diff<'_>) -> (stats: Result<git2::DiffStats, git2::Error>) {
    diff.stats()
}

/// `git2::DiffStats::insertions`: the number of lines put in.
#[verifier::external_body]
pub(crate) fn stats_insertions(stats: &git2::DiffStats) -> (count: usize) {
    stats.insertions()
}

/// `git2::DiffStats::deletions`: the number of lines taken out.
#[verifier::external_body]
pub(crate) fn stats_deletions(stats: &git2::DiffStats) -> (count: usize) {
    stats.deletions()
}

/// `git2::Diff::print` in patch format: the lines of the patch in the order in which they are
/// printed, each with what it was printed with, as far as that is text.
#[verifier::external_body]
pub(crate) fn patch_lines(diff: &git2::Diff<'_>) -> (lines: Result<Vec<PatchLine>, git2::Error>) {
    let mut lines = Vec::new();
    diff.print(git2::DiffFormat::Patch, |delta, hunk, line| {
        lines.push(PatchLine {
            path: delta.new_file().path().and_then(|p| p.to_str()).map(|p| p.to_owned()),
            hunk: hunk.map(|h| std::str::from_utf8(h.header()).ok().map(|t| t.to_owned())),
            content: std::str::from_utf8(line.content()).ok().map(|t| t.to_owned()),
            old_lineno: line.old_lineno(),
            new_lineno: line.new_lineno(),
        });
        true
    })?;
    Ok(lines)
}

/// Whether `text` spells a hash: one to forty hexadecimal digits.
pub open spec fn well_formed_hash(text: Seq<char>) -> bool {
    1 <= text.len() && text.len() <= 40 && is_hex(text)
}

/// `git2::Oid::from_str`: the hash that `text` spells. It fails on an empty text, on one of more
/// than forty characters and on any character that is no hexadecimal digit; digits that a
/// shorter text does not hold count as zero.
#[verifier::external_body]
pub(crate) fn parse_oid(text: &str) -> (parsed: Result<SnapshotId, git2::Error>)
    ensures
        parsed is Ok <==> well_formed_hash(text@),
        parsed matches Ok(id) ==> id.0@ == decode(text@, 20),
{
    let oid = git2::Oid::from_str(text)?;
    let mut bytes = [0u8; 20];
    bytes.copy_from_slice(oid.as_bytes());
    Ok(SnapshotId(bytes))
}

/// `git2::Error::message`: the text of the error.
#[verifier::external_body]
pub(crate) fn error_message(error: &git2::Error) -> (message: String) {
    error.message().to_owned()
}

} // verus!
