//! Reading snapshots out of a repository: single ones by hash, and the roots of a query.

use vstd::prelude::*;
use vstd::string::*;

use crate::error::QueryError;
use crate::hex::{decode, encode};
use crate::repo::{
    all_references, commit_id, commit_parent_ids, commit_summary, commit_time, error_message,
    find_commit, find_reference, open_repository, parse_oid, peel_to_commit, reference_name,
    repository_head, resolve_short_name, well_formed_hash,
};
use crate::snapshot::{views, Snapshot, SnapshotId, SnapshotView};

verus! {

/// What the repository answered when it was asked for each of a list of hashes, in the list's
/// order: the snapshot found, or `None`.
pub type Answers = Seq<Option<SnapshotView>>;

/// Whether `found` can be the answers to `asked`: one for each hash, and each snapshot under
/// the hash asked for.
pub open spec fn fits(asked: Seq<SnapshotId>, found: Answers) -> bool {
    &&& found.len() == asked.len()
    &&& forall|i: int|
        0 <= i < found.len() ==> (#[trigger] found[i] matches Some(snapshot) ==> snapshot.id
            == asked[i])
}

/// The snapshots that were found, in the order of the answers.
pub open spec fn present(found: Answers) -> Seq<SnapshotView>
    decreases found.len(),
{
    if found.len() == 0 {
        Seq::<SnapshotView>::empty()
    } else {
        match found.last() {
            Some(snapshot) => present(found.drop_last()).push(snapshot),
            None => present(found.drop_last()),
        }
    }
}

/// The snapshots among the answers.
pub open spec fn found_set(found: Answers) -> Set<SnapshotView> {
    Set::new(|s: SnapshotView| found.contains(Some(s)))
}

/// The snapshots that were found are those among the answers.
pub proof fn lemma_present_holds(found: Answers)
    ensures
        present(found).to_set() == found_set(found),
    decreases found.len(),
{
    if found.len() == 0 {
        assert(present(found).to_set() =~= found_set(found));
    } else {
        let rest: Answers = found.drop_last();
        lemma_present_holds(rest);
        lemma_found_set_grows(found);
        match found.last() {
            Some(snapshot) => {
                let before: Seq<SnapshotView> = present(rest);
                let after: Seq<SnapshotView> = before.push(snapshot);
                assert forall|t: SnapshotView|
                    after.to_set().contains(t) <==> before.to_set().contains(t) || t
                        == snapshot by {
                    if after.contains(t) {
                        let i: int = choose|i: int| 0 <= i < after.len() && after[i] == t;
                        if i < before.len() {
                            assert(before[i] == t);
                        }
                    }
                    if before.contains(t) {
                        let i: int = choose|i: int| 0 <= i < before.len() && before[i] == t;
                        assert(after[i] == t);
                    }
                    if t == snapshot {
                        assert(after[after.len() - 1] == t);
                    }
                }
                assert(present(found).to_set() =~= found_set(found));
            },
            None => {
                assert(present(found).to_set() =~= found_set(found));
            },
        }
    }
}

/// The snapshots among the answers are those among all but the last, and the last if it is one.
pub proof fn lemma_found_set_grows(found: Answers)
    requires
        found.len() > 0,
    ensures
        found_set(found) == match found.last() {
            Some(snapshot) => found_set(found.drop_last()).insert(snapshot),
            None => found_set(found.drop_last()),
        },
{
    let rest: Answers = found.drop_last();
    let grown: Set<SnapshotView> = match found.last() {
        Some(snapshot) => found_set(rest).insert(snapshot),
        None => found_set(rest),
    };
    assert forall|t: SnapshotView| found_set(found).contains(t) <==> grown.contains(t) by {
        if found.contains(Some(t)) {
            let i: int = choose|i: int| 0 <= i < found.len() && found[i] == Some(t);
            if i < rest.len() {
                assert(rest[i] == Some(t));
            }
        }
        if rest.contains(Some(t)) {
            let i: int = choose|i: int| 0 <= i < rest.len() && rest[i] == Some(t);
            assert(found[i] == Some(t));
        }
        if found.last() == Some(t) {
            assert(found[found.len() - 1] == Some(t));
        }
    }
    assert(found_set(found) =~= grown);
}

/// What the walker reads of `commit`.
pub fn snapshot_of(commit: &git2::Commit<'_>) -> (snapshot: Snapshot) {
    Snapshot::new(
        commit_id(commit),
        commit_time(commit),
        commit_parent_ids(commit),
        commit_summary(commit),
    )
}

/// The snapshot that `id` names, or `RootNotFound` where the repository cannot give it. What
/// comes back under another hash than the one asked for counts as not found: see
/// `taken_under`.
pub fn fetch(repo: &git2::Repository, id: &SnapshotId) -> (found: Result<Snapshot, QueryError>)
    ensures
        found matches Ok(snapshot) ==> snapshot.id == *id,
        found matches Err(error) ==> error is RootNotFound,
{
    match find_commit(repo, id) {
        Ok(commit) => {
            let snapshot = snapshot_of(&commit);
            taken_under(id, snapshot)
        },
        Err(error) => {
            let cause = error_message(&error);
            Err(QueryError::RootNotFound(cause))
        },
    }
}

/// The snapshot that `id` names, or `None` where the repository cannot give it.
pub fn lookup(repo: &git2::Repository, id: &SnapshotId) -> (found: Option<Snapshot>)
    ensures
        found matches Some(snapshot) ==> snapshot.id == *id,
{
    match fetch(repo, id) {
        Ok(snapshot) => Some(snapshot),
        Err(_) => None,
    }
}

/// The snapshot of the commit that `reference` leads to, or `RootNotFound`.
pub fn peeled(reference: &git2::Reference<'_>) -> (found: Result<Snapshot, QueryError>)
    ensures
        found matches Err(error) ==> error is RootNotFound,
{
    let attempt = peel_to_commit(reference);
    read_commit(attempt)
}

/// The repository at `path`, or `StorageUnavailable`. The path goes to the repository as it
/// is, and what comes of the attempt is what `opened_repository` makes of it, whatever the
/// attempt gave.
pub fn open(path: &str) -> (opened: Result<git2::Repository, QueryError>)
    ensures
        opened matches Err(error) ==> error is StorageUnavailable,
{
    let attempt = open_repository(path);
    opened_repository(attempt)
}

/// A reference and the hash of the commit that it leads to, as the listing of the references
/// of a repository gives them: the name in full, the hash as text in lowercase hexadecimal
/// digits.
#[derive(Debug)]
pub struct NamedCommit {
    /// The full name of the reference.
    pub name: String,
    /// The forty hexadecimal digits of the hash.
    pub hash: String,
}

/// The references of the repository that have a name that is text and lead to a commit, each
/// with the hash of its commit, in the order in which the repository lists them: the listing
/// of what it showed of them. Fails with `StorageUnavailable` where they cannot be listed.
pub fn named_commits(repo: &git2::Repository) -> (refs: Result<Vec<NamedCommit>, QueryError>)
    ensures
        refs matches Ok(found) ==> exists|seen: Seq<SightingView>|
            named_views(found@) == #[trigger] listed(seen),
        refs matches Ok(found) ==> forall|i: int|
            0 <= i < found@.len() ==> is_hash_text((#[trigger] found@[i]).hash@),
        refs matches Err(error) ==> error is StorageUnavailable,
{
    let references = match all_references(repo) {
        Ok(references) => references,
        Err(error) => {
            return Err(QueryError::StorageUnavailable(error_message(&error)));
        },
    };
    let mut seen: Vec<Sighting> = Vec::new();
    let mut i: usize = 0;
    while i < references.len()
        invariant
            i <= references.len(),
            seen@.len() == i,
        decreases references.len() - i,
    {
        let sighting = match &references[i] {
            Ok(reference) => {
                let name = reference_name(reference);
                let commit = match &name {
                    Some(_) => match peeled(reference) {
                        Ok(snapshot) => Some(snapshot.id),
                        Err(_) => None,
                    },
                    None => None,
                };
                Sighting { name, commit }
            },
            Err(_) => Sighting { name: None, commit: None },
        };
        seen.push(sighting);
        i += 1;
    }
    let refs = list_named(&seen);
    proof {
        lemma_listed_hashes(sighting_views(seen@));
        assert(named_views(refs@).len() == refs@.len());
        assert forall|j: int| 0 <= j < refs@.len() implies is_hash_text(
            (#[trigger] refs@[j]).hash@,
        ) by {
            assert(named_views(refs@)[j].hash == refs@[j].hash@);
        }
    }
    Ok(refs)
}

/// A reference and the hash of its commit as a mathematical value.
pub struct NamedView {
    pub name: Seq<char>,
    pub hash: Seq<char>,
}

impl View for NamedCommit {
    type V = NamedView;

    open spec fn view(&self) -> NamedView {
        NamedView { name: self.name@, hash: self.hash@ }
    }
}

/// The views of a sequence of references with their commits.
pub open spec fn named_views(refs: Seq<NamedCommit>) -> Seq<NamedView> {
    refs.map_values(|named: NamedCommit| named@)
}

/// What a repository shows of one reference when its references are listed.
#[derive(Debug)]
pub struct Sighting {
    /// The full name of the reference, where it could be read and is text.
    pub name: Option<String>,
    /// The hash of the commit that the reference leads to, where it leads to one.
    pub commit: Option<SnapshotId>,
}

/// What a repository shows of one reference, as a mathematical value.
pub struct SightingView {
    pub name: Option<Seq<char>>,
    pub commit: Option<SnapshotId>,
}

impl View for Sighting {
    type V = SightingView;

    open spec fn view(&self) -> SightingView {
        SightingView {
            name: match self.name {
                Some(name) => Some(name@),
                None => None,
            },
            commit: self.commit,
        }
    }
}

/// The views of a sequence of sightings.
pub open spec fn sighting_views(seen: Seq<Sighting>) -> Seq<SightingView> {
    seen.map_values(|sighting: Sighting| sighting@)
}

/// The references among `seen` that have a name and a commit, in the order of `seen`, each
/// with the forty digits of the hash of its commit.
pub open spec fn listed(seen: Seq<SightingView>) -> Seq<NamedView>
    decreases seen.len(),
{
    if seen.len() == 0 {
        Seq::<NamedView>::empty()
    } else {
        match (seen.last().name, seen.last().commit) {
            (Some(name), Some(id)) => listed(seen.drop_last()).push(
                NamedView { name, hash: encode(id.0@) },
            ),
            _ => listed(seen.drop_last()),
        }
    }
}

/// Every hash of a listing is the text of a hash.
pub proof fn lemma_listed_hashes(seen: Seq<SightingView>)
    ensures
        forall|i: int|
            0 <= i < listed(seen).len() ==> is_hash_text((#[trigger] listed(seen)[i]).hash),
    decreases seen.len(),
{
    if seen.len() > 0 {
        let rest: Seq<NamedView> = listed(seen.drop_last());
        lemma_listed_hashes(seen.drop_last());
        match (seen.last().name, seen.last().commit) {
            (Some(name), Some(id)) => {
                assert(is_hash_text(encode(id.0@)));
                assert forall|i: int| 0 <= i < listed(seen).len() implies is_hash_text(
                    (#[trigger] listed(seen)[i]).hash,
                ) by {
                    if i < rest.len() {
                        assert(listed(seen)[i] == rest[i]);
                    }
                }
            },
            _ => {},
        }
    }
}

/// Lists the references among `seen` that have a name and a commit, each with the text of the
/// hash of its commit.
pub fn list_named(seen: &Vec<Sighting>) -> (refs: Vec<NamedCommit>)
    ensures
        named_views(refs@) == listed(sighting_views(seen@)),
{
    let mut refs: Vec<NamedCommit> = Vec::new();
    let mut i: usize = 0;
    assert(named_views(refs@) =~= listed(sighting_views(seen@).take(0)));
    while i < seen.len()
        invariant
            i <= seen.len(),
            named_views(refs@) == listed(sighting_views(seen@).take(i as int)),
        decreases seen.len() - i,
    {
        let ghost before: Seq<NamedCommit> = refs@;
        let ghost longer: Seq<SightingView> = sighting_views(seen@).take(i as int + 1);
        proof {
            assert(longer.drop_last() =~= sighting_views(seen@).take(i as int));
            assert(longer.last() == seen@[i as int]@);
        }
        match (&seen[i].name, &seen[i].commit) {
            (Some(name), Some(id)) => {
                let named = NamedCommit { name: name.clone(), hash: id.to_string() };
                refs.push(named);
                assert(named_views(refs@) =~= named_views(before).push(named@));
            },
            _ => {},
        }
        i += 1;
    }
    assert(sighting_views(seen@).take(i as int) =~= sighting_views(seen@));
    refs
}

/// `snapshot`, where it stands under the hash `id` that was asked for, and `RootNotFound`
/// where it stands under another.
pub fn taken_under(id: &SnapshotId, snapshot: Snapshot) -> (found: Result<Snapshot, QueryError>)
    ensures
        snapshot.id == *id ==> found == Ok::<Snapshot, QueryError>(snapshot),
        snapshot.id != *id ==> found is Err && found->Err_0 is RootNotFound,
{
    if snapshot.id == *id {
        Ok(snapshot)
    } else {
        Err(QueryError::RootNotFound(String::from_str("commit under another hash")))
    }
}

/// What comes of an attempt to get a commit: a snapshot where the attempt gave a commit, and
/// `RootNotFound` where it failed.
pub fn read_commit(attempt: Result<git2::Commit<'_>, git2::Error>) -> (found: Result<
    Snapshot,
    QueryError,
>)
    ensures
        attempt is Ok <==> found is Ok,
        found matches Err(error) ==> error is RootNotFound,
{
    match attempt {
        Ok(commit) => Ok(snapshot_of(&commit)),
        Err(error) => Err(QueryError::RootNotFound(error_message(&error))),
    }
}

/// What comes of an attempt to open a repository: the repository where the attempt gave one,
/// and `StorageUnavailable` where it failed.
pub fn opened_repository(attempt: Result<git2::Repository, git2::Error>) -> (opened: Result<
    git2::Repository,
    QueryError,
>)
    ensures
        attempt matches Ok(repo) ==> opened == Ok::<git2::Repository, QueryError>(repo),
        attempt is Err ==> opened is Err && opened->Err_0 is StorageUnavailable,
{
    match attempt {
        Ok(repo) => Ok(repo),
        Err(error) => Err(QueryError::StorageUnavailable(error_message(&error))),
    }
}

/// Whether `text` is the text of a hash.
pub open spec fn is_hash_text(text: Seq<char>) -> bool {
    exists|id: SnapshotId| text == #[trigger] encode(id.0@)
}

/// Whether one of `names` spells no hash.
pub open spec fn some_malformed(names: Seq<String>) -> bool {
    exists|i: int| 0 <= i < names.len() && !well_formed_hash(#[trigger] names[i]@)
}

/// Whether `k` is the place of the first failure among `attempts`.
pub open spec fn first_failure(attempts: Seq<Result<Snapshot, QueryError>>, k: int) -> bool {
    &&& 0 <= k < attempts.len()
    &&& attempts[k] is Err
    &&& forall|j: int| 0 <= j < k ==> (#[trigger] attempts[j]) is Ok
}

/// Whether `roots` is what the attempts to get each root come to: the snapshots in the order
/// of the attempts, where every attempt gave one, and else the first failure.
pub open spec fn gathered(
    attempts: Seq<Result<Snapshot, QueryError>>,
    roots: Result<Vec<Snapshot>, QueryError>,
) -> bool {
    &&& (forall|i: int| 0 <= i < attempts.len() ==> (#[trigger] attempts[i]) is Ok) ==> roots is Ok
        && roots->Ok_0@.len() == attempts.len() && forall|i: int|
        0 <= i < attempts.len() ==> (#[trigger] roots->Ok_0@[i]) == attempts[i]->Ok_0
    &&& forall|k: int| #[trigger]
        first_failure(attempts, k) ==> roots is Err && roots->Err_0 == attempts[k]->Err_0
}

/// Gathers the roots of a query from the attempts to get each: all of them in order, or the
/// first failure.
pub fn gather(attempts: Vec<Result<Snapshot, QueryError>>) -> (roots: Result<
    Vec<Snapshot>,
    QueryError,
>)
    ensures
        gathered(attempts@, roots),
{
    let ghost all: Seq<Result<Snapshot, QueryError>> = attempts@;
    let mut attempts = attempts;
    let mut failure: Option<QueryError> = None;
    let mut behind: Vec<Snapshot> = Vec::new();
    let ghost mut at: int = all.len() as int;
    while attempts.len() > 0
        invariant
            attempts@ == all.take(attempts@.len() as int),
            attempts@.len() <= all.len(),
            attempts@.len() <= at <= all.len(),
            forall|j: int| attempts@.len() <= j < at ==> (#[trigger] all[j]) is Ok,
            failure is Some <==> at < all.len(),
            failure matches Some(error) ==> all[at] == Err::<Snapshot, QueryError>(error),
            failure is None ==> behind@.len() == all.len() - attempts@.len(),
            failure is None ==> forall|m: int|
                0 <= m < behind@.len() ==> (#[trigger] behind@[m]) == all[all.len() - 1 - m]->Ok_0,
        decreases attempts.len(),
    {
        let ghost before: Seq<Result<Snapshot, QueryError>> = attempts@;
        let attempt = attempts.pop().unwrap();
        assert(attempt == all[before.len() - 1]);
        assert(attempts@ =~= all.take(attempts@.len() as int));
        match attempt {
            Ok(snapshot) => {
                if failure.is_none() {
                    behind.push(snapshot);
                }
            },
            Err(error) => {
                failure = Some(error);
                proof {
                    at = attempts@.len() as int;
                }
            },
        }
    }
    match failure {
        Some(error) => {
            assert(first_failure(all, at));
            assert forall|k: int| #[trigger] first_failure(all, k) implies k == at by {
                if k < at {
                    assert(all[k] is Ok);
                } else if at < k {
                    assert(all[at] is Ok);
                }
            }
            Err(error)
        },
        None => {
            let mut roots: Vec<Snapshot> = Vec::new();
            let ghost turned: Seq<Snapshot> = behind@;
            while behind.len() > 0
                invariant
                    behind@ == turned.take(behind@.len() as int),
                    behind@.len() <= turned.len(),
                    roots@.len() == turned.len() - behind@.len(),
                    forall|i: int|
                        0 <= i < roots@.len() ==> (#[trigger] roots@[i]) == turned[turned.len()
                            - 1 - i],
                decreases behind.len(),
            {
                let ghost before: Seq<Snapshot> = behind@;
                let snapshot = behind.pop().unwrap();
                assert(snapshot == turned[before.len() - 1]);
                assert(behind@ =~= turned.take(behind@.len() as int));
                roots.push(snapshot);
            }
            assert forall|k: int| #[trigger] first_failure(all, k) implies false by {
                assert(all[k] is Ok);
            }
            Ok(roots)
        },
    }
}

/// The snapshot of the commit that a reference leads to which an attempt to find it gave, or
/// `RootNotFound` where the attempt failed or the reference leads to no commit.
fn peeled_attempt(attempt: &Result<git2::Reference<'_>, git2::Error>) -> (found: Result<
    Snapshot,
    QueryError,
>)
    ensures
        attempt is Err ==> found is Err,
        found matches Err(error) ==> error is RootNotFound,
{
    match attempt {
        Ok(reference) => peeled(reference),
        Err(error) => Err(QueryError::RootNotFound(error_message(error))),
    }
}

/// The roots of a query that names none. Where `all` is set, they are the commits of all
/// references, and the branch is not looked at; else the commit of `branch`; else, where there
/// is no branch, the commit of the current head. What the attempts come to is `gather`ed: the
/// roots in order, or the first failure.
pub fn default_roots(repo: &git2::Repository, branch: &Option<String>, all: bool) -> (roots: Result<
    Vec<Snapshot>,
    QueryError,
>)
    ensures
        roots matches Ok(found) ==> all || found@.len() == 1,
        roots matches Err(error) ==> error is RootNotFound || (all && error is StorageUnavailable),
{
    let mut attempts: Vec<Result<Snapshot, QueryError>> = Vec::new();
    if all {
        let references = match all_references(repo) {
            Ok(references) => references,
            Err(error) => {
                return Err(QueryError::StorageUnavailable(error_message(&error)));
            },
        };
        let mut i: usize = 0;
        while i < references.len()
            invariant
                i <= references.len(),
                forall|j: int|
                    0 <= j < attempts@.len() ==> ((#[trigger] attempts@[j]) matches Err(error)
                        ==> error is RootNotFound),
            decreases references.len() - i,
        {
            attempts.push(peeled_attempt(&references[i]));
            i += 1;
        }
    } else {
        let resolved = match branch {
            Some(name) => resolve_short_name(repo, name.as_str()),
            None => repository_head(repo),
        };
        attempts.push(peeled_attempt(&resolved));
    }
    let ghost tried: Seq<Result<Snapshot, QueryError>> = attempts@;
    let roots = gather(attempts);
    proof {
        if roots is Err {
            if forall|i: int| 0 <= i < tried.len() ==> (#[trigger] tried[i]) is Ok {
            } else {
                lemma_has_first_failure(tried, tried.len() as int);
                let k: int = choose|k: int| first_failure(tried, k);
                assert(tried[k] is Err);
            }
        } else if !all {
            if !(forall|i: int| 0 <= i < tried.len() ==> (#[trigger] tried[i]) is Ok) {
                lemma_has_first_failure(tried, tried.len() as int);
            }
        }
    }
    roots
}

/// Where an attempt before place `upto` failed, one of the attempts is the first to fail.
pub proof fn lemma_has_first_failure(attempts: Seq<Result<Snapshot, QueryError>>, upto: int)
    requires
        0 <= upto <= attempts.len(),
        exists|i: int| 0 <= i < upto && (#[trigger] attempts[i]) is Err,
    ensures
        exists|k: int| first_failure(attempts, k) && k < upto,
    decreases upto,
{
    let i: int = choose|i: int| 0 <= i < upto && (#[trigger] attempts[i]) is Err;
    if exists|j: int| 0 <= j < i && (#[trigger] attempts[j]) is Err {
        lemma_has_first_failure(attempts, i);
    } else {
        assert(first_failure(attempts, i));
    }
}

/// The snapshot of the commit whose hash `name` spells. Fails with `MalformedId` exactly where
/// `name` spells no hash, and with `RootNotFound` where the repository has no such commit.
pub fn by_hash(repo: &git2::Repository, name: &str) -> (found: Result<Snapshot, QueryError>)
    ensures
        !well_formed_hash(name@) <==> found is Err && found->Err_0 is MalformedId,
        found matches Ok(snapshot) ==> snapshot.id.0@ == decode(name@, 20),
        found matches Err(error) ==> error is MalformedId || error is RootNotFound,
{
    match parse_oid(name) {
        Ok(id) => fetch(repo, &id),
        Err(_) => Err(QueryError::MalformedId),
    }
}

/// Whether `roots` is what a name comes to that was tried as a reference and as a hash: the
/// reference wins where there is one, whatever the hash would give, and the hash is taken
/// where there is no such reference.
pub open spec fn reference_wins(
    by_reference: Option<Result<Snapshot, QueryError>>,
    by_hash: Result<Snapshot, QueryError>,
    roots: Result<Vec<Snapshot>, QueryError>,
) -> bool {
    let chosen: Result<Snapshot, QueryError> = match by_reference {
        Some(outcome) => outcome,
        None => by_hash,
    };
    match chosen {
        Ok(snapshot) => roots is Ok && roots->Ok_0@ == seq![snapshot],
        Err(error) => roots is Err && roots->Err_0 == error,
    }
}

/// The one root that a name stands for, of what it gave as a reference, if there is such a
/// reference, and what it gave as a hash.
pub fn reference_first(
    by_reference: Option<Result<Snapshot, QueryError>>,
    by_hash: Result<Snapshot, QueryError>,
) -> (roots: Result<Vec<Snapshot>, QueryError>)
    ensures
        reference_wins(by_reference, by_hash, roots),
{
    let chosen = match by_reference {
        Some(outcome) => outcome,
        None => by_hash,
    };
    match chosen {
        Ok(snapshot) => {
            let mut roots: Vec<Snapshot> = Vec::new();
            roots.push(snapshot);
            assert(roots@ =~= seq![snapshot]);
            Ok(roots)
        },
        Err(error) => Err(error),
    }
}

/// The root that `name` stands for: the commit of the reference of that full name, or, where
/// there is no such reference, the commit whose hash `name` spells. See `reference_first`.
pub fn named_root(repo: &git2::Repository, name: &str) -> (roots: Result<Vec<Snapshot>, QueryError>)
    ensures
        roots matches Ok(found) ==> found@.len() == 1,
        roots matches Err(error) ==> error is RootNotFound || (error is MalformedId
            && !well_formed_hash(name@)),
{
    let by_reference = match find_reference(repo, name) {
        Ok(reference) => Some(peeled(&reference)),
        Err(_) => None,
    };
    let by_hash = by_hash(repo, name);
    reference_first(by_reference, by_hash)
}

/// Whether `ids` are the hashes that `names` spell, one for each name.
pub open spec fn spelled_by(names: Seq<String>, ids: Seq<SnapshotId>) -> bool {
    &&& ids.len() == names.len()
    &&& forall|i: int| 0 <= i < ids.len() ==> (#[trigger] ids[i]).0@ == decode(names[i]@, 20)
}

/// The hashes that `names` spell, in their order. Fails with `MalformedId` exactly where one
/// of the names spells no hash.
pub fn hashes_of(names: &Vec<String>) -> (hashes: Result<Vec<SnapshotId>, QueryError>)
    ensures
        some_malformed(names@) <==> hashes is Err,
        hashes matches Ok(ids) ==> spelled_by(names@, ids@),
        hashes matches Err(error) ==> error is MalformedId,
{
    let mut ids: Vec<SnapshotId> = Vec::new();
    let mut i: usize = 0;
    while i < names.len()
        invariant
            i <= names.len(),
            ids@.len() == i,
            forall|j: int| 0 <= j < i ==> well_formed_hash(#[trigger] names@[j]@),
            forall|j: int| 0 <= j < i ==> (#[trigger] ids@[j]).0@ == decode(names@[j]@, 20),
        decreases names.len() - i,
    {
        match parse_oid(names[i].as_str()) {
            Ok(id) => {
                ids.push(id);
            },
            Err(_) => {
                assert(!well_formed_hash(names@[i as int]@));
                return Err(QueryError::MalformedId);
            },
        }
        i += 1;
    }
    Ok(ids)
}

/// The snapshots under the hashes `ids`, in their order: what `fetch` gives for each,
/// `gather`ed. No hashes give no roots; a hash without a commit gives `RootNotFound`.
pub fn fetched_roots(repo: &git2::Repository, ids: &Vec<SnapshotId>) -> (roots: Result<
    Vec<Snapshot>,
    QueryError,
>)
    ensures
        roots matches Ok(found) ==> found@.len() == ids@.len() && forall|i: int|
            0 <= i < found@.len() ==> (#[trigger] found@[i]).id == ids@[i],
        ids@.len() == 0 ==> roots is Ok,
        roots matches Err(error) ==> error is RootNotFound,
{
    let mut attempts: Vec<Result<Snapshot, QueryError>> = Vec::new();
    let mut i: usize = 0;
    while i < ids.len()
        invariant
            i <= ids.len(),
            attempts@.len() == i,
            forall|j: int|
                0 <= j < i ==> ((#[trigger] attempts@[j]) matches Ok(snapshot) ==> snapshot.id
                    == ids@[j]),
            forall|j: int|
                0 <= j < i ==> ((#[trigger] attempts@[j]) matches Err(error) ==> error
                    is RootNotFound),
        decreases ids.len() - i,
    {
        attempts.push(fetch(repo, &ids[i]));
        i += 1;
    }
    let ghost tried: Seq<Result<Snapshot, QueryError>> = attempts@;
    let roots = gather(attempts);
    proof {
        if !(forall|i: int| 0 <= i < tried.len() ==> (#[trigger] tried[i]) is Ok) {
            lemma_has_first_failure(tried, tried.len() as int);
            let k: int = choose|k: int| first_failure(tried, k);
            assert(tried[k] is Err);
        }
    }
    roots
}

/// The snapshots that the hashes of `continuation` name, in their order, without those that the
/// repository cannot give.
pub fn continuation_roots(repo: &git2::Repository, continuation: &Vec<SnapshotId>) -> (roots: Vec<
    Snapshot,
>)
    ensures
        exists|found: Answers| #[trigger]
            fits(continuation@, found) && views(roots@) == present(found),
{
    let mut roots: Vec<Snapshot> = Vec::new();
    let ghost mut found: Answers = Seq::empty();
    let mut i: usize = 0;
    assert(views(roots@) =~= present(found));
    while i < continuation.len()
        invariant
            i <= continuation.len(),
            fits(continuation@.take(i as int), found),
            views(roots@) == present(found),
        decreases continuation.len() - i,
    {
        let ghost so_far: Answers = found;
        let ghost before: Seq<Snapshot> = roots@;
        match lookup(repo, &continuation[i]) {
            Some(root) => {
                proof {
                    found = so_far.push(Some(root@));
                }
                roots.push(root);
                assert(views(roots@) =~= views(before).push(root@));
            },
            None => {
                proof {
                    found = so_far.push(None);
                }
            },
        }
        assert(found.drop_last() =~= so_far);
        i += 1;
    }
    assert(continuation@.take(i as int) =~= continuation@);
    roots
}

} // verus!
