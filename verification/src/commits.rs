//! The queries: a first page from the default roots, from one named root or from a list of
//! hashes, and further pages by session.
//!
//! Each query comes whole, for a caller that owns the sessions, and in parts, for a caller that
//! shares them: the parts that read the repository take no sessions, so that a lock on the
//! sessions need not be held while the graph is walked.

use vstd::prelude::*;

use crate::error::QueryError;
use crate::frontier::id_seq;
use crate::hex::decode;
use crate::repo::well_formed_hash;
use crate::graph::{
    continuation_roots, default_roots, fetched_roots, fits, hashes_of, is_hash_text, listed,
    named_commits,
    named_root, named_views, open, present, some_malformed, Answers, NamedCommit, SightingView,
};
use crate::process_commits::{
    hands_back, process_commits, run, start_of, walk_ends, walks_to, ProcessCommitsResult,
    WalkState,
};
use crate::sessions::{
    counted, random_session_id, spelled, spells_session, Session, SessionId, SessionStore,
    SessionView,
};
use crate::settings::Settings;
use crate::snapshot::{record_views, views, CommitData, Snapshot, SnapshotId, SnapshotView};

verus! {

/// The answer to a query for a first page.
pub struct CommitResponse {
    /// The page.
    pub commits: Vec<CommitData>,
    /// The session by which further pages can be had, where there are any.
    pub session: Option<SessionId>,
}

/// The session that a traversal leaves behind which was cut in `fin` after `sent_pages` further
/// pages.
pub open spec fn session_after(fin: WalkState, sent_pages: nat) -> SessionView {
    SessionView { visited: fin.visited, continuation: id_seq(fin.frontier), sent_pages }
}

/// The session that `result` leaves behind after `sent_pages` further pages.
pub open spec fn session_of(result: ProcessCommitsResult, sent_pages: nat) -> SessionView {
    SessionView { visited: result.checked@, continuation: result.continue_@, sent_pages }
}

/// Whether `response` and the change of the sessions from `before` to `after` answer a walk
/// that ended in `fin`: the page is that of the walk; where the walk left nothing on its
/// frontier, there is no session and no change; where it left something, a session holds it.
pub open spec fn serves(
    response: CommitResponse,
    before: Map<SessionId, SessionView>,
    after: Map<SessionId, SessionView>,
    fin: WalkState,
) -> bool {
    &&& record_views(response.commits@) == fin.emitted
    &&& fin.frontier.len() == 0 ==> response.session is None && after == before
    &&& fin.frontier.len() > 0 ==> response.session is Some && after == before.insert(
        response.session->0,
        session_after(fin, 0),
    )
}

/// Whether `result` is what a first walk from `roots` can hand back: a walk from them, with
/// nothing examined before, that ends where `result` says.
pub open spec fn first_walk(
    roots: Seq<SnapshotView>,
    page_size: nat,
    result: ProcessCommitsResult,
) -> bool {
    exists|fin: WalkState| #[trigger]
        walk_ends(start_of(roots, Set::<SnapshotId>::empty()), page_size, fin) && hands_back(
            result,
            fin,
        )
}

/// Whether `response` and the change of the sessions from `before` to `after` answer a first
/// walk from `roots`.
pub open spec fn first_page(
    roots: Seq<SnapshotView>,
    page_size: nat,
    response: CommitResponse,
    before: Map<SessionId, SessionView>,
    after: Map<SessionId, SessionView>,
) -> bool {
    exists|fin: WalkState| #[trigger]
        walk_ends(start_of(roots, Set::<SnapshotId>::empty()), page_size, fin) && serves(
            response,
            before,
            after,
            fin,
        )
}

/// Whether `response` and `after` are what the page of `result` is answered with, given the
/// sessions `before`: the page is handed on, and a session is opened exactly where `result`
/// left hashes to continue from.
pub open spec fn answered(
    result: ProcessCommitsResult,
    response: CommitResponse,
    before: Map<SessionId, SessionView>,
    after: Map<SessionId, SessionView>,
) -> bool {
    &&& response.commits == result.commits
    &&& result.continue_@.len() == 0 ==> response.session is None && after == before
    &&& result.continue_@.len() > 0 ==> response.session is Some && after == before.insert(
        response.session->0,
        session_of(result, 0),
    )
}

/// The answer to what a first walk handed back is an answer to the walk.
pub proof fn lemma_first_page(
    roots: Seq<SnapshotView>,
    page_size: nat,
    result: ProcessCommitsResult,
    response: CommitResponse,
    before: Map<SessionId, SessionView>,
    after: Map<SessionId, SessionView>,
)
    requires
        first_walk(roots, page_size, result),
        answered(result, response, before, after),
    ensures
        first_page(roots, page_size, response, before, after),
{
    let fin: WalkState = choose|fin: WalkState| #[trigger]
        walk_ends(start_of(roots, Set::<SnapshotId>::empty()), page_size, fin) && hands_back(
            result,
            fin,
        );
    assert(serves(response, before, after, fin));
}

/// Answers with the page of `result`, and opens a session under `id` where `result` left
/// hashes to continue from.
pub fn register_session(
    store: &mut SessionStore,
    id: SessionId,
    result: ProcessCommitsResult,
) -> (response: CommitResponse)
    requires
        old(store).wf(),
        result.checked.wf(),
    ensures
        final(store).wf(),
        answered(result, response, old(store)@, final(store)@),
        result.continue_@.len() > 0 ==> response.session == Some(id),
{
    let ProcessCommitsResult { commits, checked, continue_ } = result;
    let session = if continue_.len() > 0 {
        store.create(id, checked, continue_);
        Some(id)
    } else {
        None
    };
    CommitResponse { commits, session }
}

/// Answers with the page of `result`, and opens a session under a fresh random identifier
/// where `result` left hashes to continue from.
pub fn new_session(store: &mut SessionStore, result: ProcessCommitsResult) -> (response:
    CommitResponse)
    requires
        old(store).wf(),
        result.checked.wf(),
    ensures
        final(store).wf(),
        answered(result, response, old(store)@, final(store)@),
{
    if result.continue_.len() > 0 {
        register_session(store, random_session_id(), result)
    } else {
        CommitResponse { commits: result.commits, session: None }
    }
}

/// Walks a first page from `roots`.
fn walk_first(repo: &git2::Repository, settings: &Settings, roots: Vec<Snapshot>) -> (result:
    ProcessCommitsResult)
    ensures
        result.checked.wf(),
        first_walk(views(roots@), settings.page_size as nat, result),
        result.commits@.len() <= settings.page_size || result.commits@.len() <= 1,
{
    let result = process_commits(repo, settings, roots, None);
    proof {
        let start: WalkState = start_of(views(roots@), Set::<SnapshotId>::empty());
        let steps: Seq<Answers> = choose|steps: Seq<Answers>|
            walks_to(start, steps, settings.page_size as nat, result);
        assert(walk_ends(start, settings.page_size as nat, run(start, steps)));
    }
    result
}

/// Walks the first page of the default query: the history of the configured branch, of the
/// current head, or of every reference.
pub fn walk_default(settings: &Settings) -> (walked: Result<ProcessCommitsResult, QueryError>)
    ensures
        walked matches Ok(result) ==> result.checked.wf() && (result.commits@.len()
            <= settings.page_size || result.commits@.len() <= 1) && exists|
            roots: Seq<SnapshotView>,
        |
            (settings.all || roots.len() == 1) && #[trigger] first_walk(
                roots,
                settings.page_size as nat,
                result,
            ),
        walked matches Err(error) ==> error is RootNotFound || error is StorageUnavailable,
{
    let repo = match open(settings.repo.as_str()) {
        Ok(repo) => repo,
        Err(error) => {
            return Err(error);
        },
    };
    match default_roots(&repo, &settings.branch, settings.all) {
        Ok(roots) => {
            let ghost from: Seq<SnapshotView> = views(roots@);
            assert(from.len() == roots@.len());
            let result = walk_first(&repo, settings, roots);
            assert(first_walk(from, settings.page_size as nat, result));
            Ok(result)
        },
        Err(error) => Err(error),
    }
}

/// Walks the first page of the query for one root: the history of the commit that `id` names,
/// as the full name of a reference or else as a hash.
pub fn walk_named(settings: &Settings, id: &str) -> (walked: Result<
    ProcessCommitsResult,
    QueryError,
>)
    ensures
        walked matches Ok(result) ==> result.checked.wf() && (result.commits@.len()
            <= settings.page_size || result.commits@.len() <= 1) && exists|
            roots: Seq<SnapshotView>,
        |
            roots.len() == 1 && #[trigger] first_walk(roots, settings.page_size as nat, result),
        walked matches Err(error) ==> error is RootNotFound || error is StorageUnavailable || (
        error is MalformedId && !well_formed_hash(id@)),
{
    let repo = match open(settings.repo.as_str()) {
        Ok(repo) => repo,
        Err(error) => {
            return Err(error);
        },
    };
    match named_root(&repo, id) {
        Ok(roots) => {
            let ghost from: Seq<SnapshotView> = views(roots@);
            assert(from.len() == roots@.len());
            let result = walk_first(&repo, settings, roots);
            assert(first_walk(from, settings.page_size as nat, result));
            Ok(result)
        },
        Err(error) => Err(error),
    }
}

/// Whether `roots` are the snapshots that `names` name: one for each name, each under the hash
/// that its name spells.
pub open spec fn named_by(names: Seq<String>, roots: Seq<SnapshotView>) -> bool {
    &&& roots.len() == names.len()
    &&& forall|i: int|
        0 <= i < roots.len() ==> well_formed_hash(names[i]@) && (#[trigger] roots[i]).id.0@
            == decode(names[i]@, 20)
}

/// Walks the first page of the query for several roots: the joint history of the commits whose
/// hashes `ids` spell. Fails with `MalformedId` exactly where one of `ids` spells no hash.
pub fn walk_listed(settings: &Settings, ids: &Vec<String>) -> (walked: Result<
    ProcessCommitsResult,
    QueryError,
>)
    ensures
        some_malformed(ids@) <==> walked is Err && walked->Err_0 is MalformedId,
        walked matches Ok(result) ==> result.checked.wf() && (result.commits@.len()
            <= settings.page_size || result.commits@.len() <= 1) && exists|
            roots: Seq<SnapshotView>,
        |
            named_by(ids@, roots) && #[trigger] first_walk(
                roots,
                settings.page_size as nat,
                result,
            ),
        walked matches Err(error) ==> error is MalformedId || error is StorageUnavailable
            || error is RootNotFound,
{
    let hashes = match hashes_of(ids) {
        Ok(hashes) => hashes,
        Err(error) => {
            return Err(error);
        },
    };
    let repo = match open(settings.repo.as_str()) {
        Ok(repo) => repo,
        Err(error) => {
            return Err(error);
        },
    };
    match fetched_roots(&repo, &hashes) {
        Ok(roots) => {
            let ghost from: Seq<SnapshotView> = views(roots@);
            assert(from.len() == roots@.len());
            assert forall|i: int| 0 <= i < from.len() implies well_formed_hash(ids@[i]@) && (
            #[trigger] from[i]).id.0@ == decode(ids@[i]@, 20) by {
                assert(from[i].id == roots@[i].id);
                assert(roots@[i].id == hashes@[i]);
            }
            assert(named_by(ids@, from));
            let result = walk_first(&repo, settings, roots);
            assert(first_walk(from, settings.page_size as nat, result));
            Ok(result)
        },
        Err(error) => Err(error),
    }
}

/// The default query: a first page of the history of the configured branch, of the current
/// head, or of every reference, and a session where the history goes on.
pub fn get_commits(settings: &Settings, store: &mut SessionStore) -> (answer: Result<
    CommitResponse,
    QueryError,
>)
    requires
        old(store).wf(),
    ensures
        final(store).wf(),
        answer matches Ok(response) ==> (response.commits@.len() <= settings.page_size
            || response.commits@.len() <= 1) && exists|roots: Seq<SnapshotView>|
            (settings.all || roots.len() == 1) && #[trigger] first_page(
                roots,
                settings.page_size as nat,
                response,
                old(store)@,
                final(store)@,
            ),
        answer matches Err(error) ==> final(store)@ == old(store)@ && (error is RootNotFound
            || error is StorageUnavailable),
{
    match walk_default(settings) {
        Ok(result) => {
            let response = new_session(store, result);
            proof {
                let roots: Seq<SnapshotView> = choose|roots: Seq<SnapshotView>|
                    (settings.all || roots.len() == 1) && #[trigger] first_walk(
                        roots,
                        settings.page_size as nat,
                        result,
                    );
                lemma_first_page(
                    roots,
                    settings.page_size as nat,
                    result,
                    response,
                    old(store)@,
                    store@,
                );
            }
            Ok(response)
        },
        Err(error) => Err(error),
    }
}

/// The query for one root: a first page of the history of the commit that `id` names, as the
/// full name of a reference or else as a hash, and a session where the history goes on.
pub fn get_commits_hash(settings: &Settings, store: &mut SessionStore, id: &str) -> (answer: Result<
    CommitResponse,
    QueryError,
>)
    requires
        old(store).wf(),
    ensures
        final(store).wf(),
        answer matches Ok(response) ==> (response.commits@.len() <= settings.page_size
            || response.commits@.len() <= 1) && exists|roots: Seq<SnapshotView>|
            roots.len() == 1 && #[trigger] first_page(
                roots,
                settings.page_size as nat,
                response,
                old(store)@,
                final(store)@,
            ),
        answer matches Err(error) ==> final(store)@ == old(store)@ && (error is RootNotFound
            || error is StorageUnavailable || (error is MalformedId && !well_formed_hash(id@))),
{
    match walk_named(settings, id) {
        Ok(result) => {
            let response = new_session(store, result);
            proof {
                let roots: Seq<SnapshotView> = choose|roots: Seq<SnapshotView>|
                    roots.len() == 1 && #[trigger] first_walk(
                        roots,
                        settings.page_size as nat,
                        result,
                    );
                lemma_first_page(
                    roots,
                    settings.page_size as nat,
                    result,
                    response,
                    old(store)@,
                    store@,
                );
            }
            Ok(response)
        },
        Err(error) => Err(error),
    }
}

/// The query for several roots: a first page of the joint history of the commits whose hashes
/// `ids` spell, and a session where the history goes on.
pub fn get_commits_multi(
    settings: &Settings,
    store: &mut SessionStore,
    ids: &Vec<String>,
) -> (answer: Result<CommitResponse, QueryError>)
    requires
        old(store).wf(),
    ensures
        final(store).wf(),
        answer matches Ok(response) ==> (response.commits@.len() <= settings.page_size
            || response.commits@.len() <= 1) && exists|roots: Seq<SnapshotView>|
            named_by(ids@, roots) && #[trigger] first_page(
                roots,
                settings.page_size as nat,
                response,
                old(store)@,
                final(store)@,
            ),
        some_malformed(ids@) <==> answer is Err && answer->Err_0 is MalformedId,
        answer matches Err(error) ==> final(store)@ == old(store)@ && (error is RootNotFound
            || error is StorageUnavailable || error is MalformedId),
{
    match walk_listed(settings, ids) {
        Ok(result) => {
            let response = new_session(store, result);
            proof {
                let roots: Seq<SnapshotView> = choose|roots: Seq<SnapshotView>|
                    named_by(ids@, roots) && #[trigger] first_walk(
                        roots,
                        settings.page_size as nat,
                        result,
                    );
                lemma_first_page(
                    roots,
                    settings.page_size as nat,
                    result,
                    response,
                    old(store)@,
                    store@,
                );
            }
            Ok(response)
        },
        Err(error) => Err(error),
    }
}

/// The references of the repository that have a name that is text and lead to a commit, each
/// with the hash of its commit.
pub fn get_refs(settings: &Settings) -> (refs: Result<Vec<NamedCommit>, QueryError>)
    ensures
        refs matches Ok(found) ==> exists|seen: Seq<SightingView>|
            named_views(found@) == #[trigger] listed(seen),
        refs matches Ok(found) ==> forall|i: int|
            0 <= i < found@.len() ==> is_hash_text((#[trigger] found@[i]).hash@),
        refs matches Err(error) ==> error is StorageUnavailable,
{
    match open(settings.repo.as_str()) {
        Ok(repo) => named_commits(&repo),
        Err(error) => Err(error),
    }
}

/// Whether a further page of `session` can end in `fin`: there are answers of the repository
/// to the hashes that the session continues from with which it does.
pub open spec fn continues(session: SessionView, page_size: nat, fin: WalkState) -> bool {
    exists|found: Answers|
        fits(session.continuation, found) && #[trigger] walk_ends(
            start_of(present(found), session.visited),
            page_size,
            fin,
        )
}

/// Whether `result` is what a further walk of `session` can hand back: it comes of a walk that
/// continues the session, keeps to the page size, and forgets nothing that was examined.
pub open spec fn further_walk(
    session: SessionView,
    page_size: nat,
    result: ProcessCommitsResult,
) -> bool {
    &&& exists|fin: WalkState| #[trigger]
        continues(session, page_size, fin) && hands_back(result, fin)
    &&& session.visited.subset_of(result.checked@)
    &&& result.checked@.len() >= session.visited.len() + result.commits@.len()
    &&& result.commits@.len() <= page_size || result.commits@.len() <= 1
}

/// Walks the next page of `session`: from the snapshots that its hashes still name, skipping
/// what its earlier pages examined.
pub fn continue_walk(repo: &git2::Repository, settings: &Settings, session: Session) -> (result:
    ProcessCommitsResult)
    requires
        session.checked_commits.wf(),
    ensures
        result.checked.wf(),
        further_walk(session@, settings.page_size as nat, result),
{
    let Session { checked_commits, continue_commits, sent_pages } = session;
    let roots = continuation_roots(repo, &continue_commits);
    let ghost found: Answers = choose|found: Answers| #[trigger]
        fits(continue_commits@, found) && views(roots@) == present(found);
    let ghost start: WalkState = start_of(views(roots@), checked_commits@);
    let result = process_commits(repo, settings, roots, Some(checked_commits));
    proof {
        let steps: Seq<Answers> = choose|steps: Seq<Answers>|
            walks_to(start, steps, settings.page_size as nat, result);
        let fin: WalkState = run(start, steps);
        assert(walk_ends(
            start_of(present(found), session@.visited),
            settings.page_size as nat,
            fin,
        ));
        assert(continues(session@, settings.page_size as nat, fin));
    }
    result
}

/// What the query for a further page finds when it looks for its session.
pub enum Checkout {
    /// The session had nothing to continue from, and is removed.
    Drained,
    /// The session, taken out of the store for the walk of its next page.
    Walk(SessionId, Session),
}

/// Whether `found` and `after` are what looking for the session that `text` names gives, among
/// the sessions `before`. It fails with `MalformedId` where `text` spells no identifier and with
/// `SessionNotFound` where no session goes by it, and changes nothing then. Otherwise the
/// session is taken out: for good where it has nothing to continue from, else for the walk.
pub open spec fn checked_out(
    before: Map<SessionId, SessionView>,
    text: Seq<char>,
    found: Result<Checkout, QueryError>,
    after: Map<SessionId, SessionView>,
) -> bool {
    if !spells_session(text) {
        after == before && found is Err && found->Err_0 is MalformedId
    } else if !before.contains_key(spelled(text)) {
        after == before && found is Err && found->Err_0 is SessionNotFound
    } else {
        &&& after == before.remove(spelled(text))
        &&& found is Ok
        &&& before[spelled(text)].continuation.len() == 0 <==> found->Ok_0 is Drained
        &&& found->Ok_0 matches Checkout::Walk(id, session) ==> id == spelled(text) && session@
            == before[id] && session.checked_commits.wf()
    }
}

/// Looks for the session that `session_id` names, and takes it out of the store.
pub fn checkout(store: &mut SessionStore, session_id: &str) -> (found: Result<Checkout, QueryError>)
    requires
        old(store).wf(),
    ensures
        final(store).wf(),
        checked_out(old(store)@, session_id@, found, final(store)@),
{
    let id = match SessionId::parse(session_id) {
        Some(id) => id,
        None => {
            return Err(QueryError::MalformedId);
        },
    };
    let session = match store.resume(&id) {
        Ok(session) => session,
        Err(error) => {
            assert(store@ =~= old(store)@);
            return Err(error);
        },
    };
    if session.continue_commits.len() == 0 {
        Ok(Checkout::Drained)
    } else {
        Ok(Checkout::Walk(id, session))
    }
}

/// How the walk of a further page went.
pub enum Resumed {
    /// The walk was made. Holds what it handed back, and how many further pages the session
    /// had sent before.
    Page(ProcessCommitsResult, usize),
    /// The repository could not be opened. Holds the failure, and the session as it was.
    Failed(QueryError, Session),
}

/// Whether `resumed` is what walking the next page of `session` can give.
pub open spec fn resumed_from(session: Session, page_size: nat, resumed: Resumed) -> bool {
    match resumed {
        Resumed::Page(result, sent_pages) => sent_pages == session.sent_pages
            && result.checked.wf() && further_walk(session@, page_size, result),
        Resumed::Failed(error, kept) => error is StorageUnavailable && kept@ == session@
            && kept.checked_commits.wf(),
    }
}

/// Walks the next page of `session` in the repository of `settings`.
pub fn resume_walk(settings: &Settings, session: Session) -> (resumed: Resumed)
    requires
        session.checked_commits.wf(),
    ensures
        resumed_from(session, settings.page_size as nat, resumed),
{
    match open(settings.repo.as_str()) {
        Ok(repo) => {
            let sent_pages: usize = session.sent_pages;
            Resumed::Page(continue_walk(&repo, settings, session), sent_pages)
        },
        Err(error) => Resumed::Failed(error, session),
    }
}

/// Puts back under `id` what the walk of a further page left, and answers with the page: the
/// session with its traversal advanced and one more page counted, or, where the walk failed,
/// the session as it was, and the failure.
pub fn finish_resume(store: &mut SessionStore, id: SessionId, resumed: Resumed) -> (answer: Result<
    Vec<CommitData>,
    QueryError,
>)
    requires
        old(store).wf(),
        resumed matches Resumed::Page(result, _) ==> result.checked.wf(),
        resumed matches Resumed::Failed(_, session) ==> session.checked_commits.wf(),
    ensures
        final(store).wf(),
        resumed matches Resumed::Page(result, sent_pages) ==> answer == Ok::<
            Vec<CommitData>,
            QueryError,
        >(result.commits) && final(store)@ == old(store)@.insert(
            id,
            session_of(result, counted(sent_pages as nat)),
        ),
        resumed matches Resumed::Failed(error, session) ==> answer == Err::<
            Vec<CommitData>,
            QueryError,
        >(error) && final(store)@ == old(store)@.insert(id, session@),
{
    match resumed {
        Resumed::Page(result, sent_pages) => {
            let ProcessCommitsResult { commits, checked, continue_ } = result;
            store.advance(id, sent_pages, checked, continue_);
            Ok(commits)
        },
        Resumed::Failed(error, session) => {
            store.insert(id, session);
            Err(error)
        },
    }
}

/// The query for a further page. It fails with `MalformedId` where `session_id` spells no
/// identifier and with `SessionNotFound` where no session goes by it, and changes nothing then.
/// A session that has nothing to continue from is removed and answered with an empty page.
/// Otherwise the next page is walked and the session keeps what it left, under the same
/// identifier; where the repository cannot be opened, the query fails and the session stays
/// as it was.
pub fn get_commits_session(
    settings: &Settings,
    store: &mut SessionStore,
    session_id: &str,
) -> (answer: Result<Vec<CommitData>, QueryError>)
    requires
        old(store).wf(),
    ensures
        final(store).wf(),
        session_query(old(store)@, session_id@, settings.page_size as nat, answer, final(store)@),
{
    let (id, session) = match checkout(store, session_id) {
        Ok(Checkout::Walk(id, session)) => (id, session),
        Ok(Checkout::Drained) => {
            return Ok(Vec::new());
        },
        Err(error) => {
            return Err(error);
        },
    };
    let ghost before: SessionView = session@;
    let resumed = resume_walk(settings, session);
    let ghost walked: Resumed = resumed;
    let answer = finish_resume(store, id, resumed);
    proof {
        match walked {
            Resumed::Page(result, sent_pages) => {
                let fin: WalkState = choose|fin: WalkState| #[trigger]
                    continues(before, settings.page_size as nat, fin) && hands_back(result, fin);
                assert(store@ =~= old(store)@.insert(
                    id,
                    session_after(fin, counted(before.sent_pages)),
                ));
                assert(fin.emitted.len() == result.commits@.len());
                assert(turns_page(
                    old(store)@,
                    id,
                    settings.page_size as nat,
                    result.commits,
                    store@,
                    fin,
                ));
                assert(next_page(
                    old(store)@,
                    id,
                    settings.page_size as nat,
                    result.commits,
                    store@,
                ));
            },
            Resumed::Failed(error, kept) => {
                assert(store@ =~= old(store)@);
            },
        }
    }
    answer
}

/// Whether `answer` and `after` are what a query for a further page gives that names its
/// session by `text`, asked of the sessions `before`.
pub open spec fn session_query(
    before: Map<SessionId, SessionView>,
    text: Seq<char>,
    page_size: nat,
    answer: Result<Vec<CommitData>, QueryError>,
    after: Map<SessionId, SessionView>,
) -> bool {
    if !spells_session(text) {
        after == before && answer is Err && answer->Err_0 is MalformedId
    } else if !before.contains_key(spelled(text)) {
        after == before && answer is Err && answer->Err_0 is SessionNotFound
    } else {
        resumes(before, spelled(text), page_size, answer, after)
    }
}

/// A drained session answers once more, and is gone. Where the session that `text` names has
/// nothing to continue from, a query for its next page is answered with an empty page and
/// removes the session, and the same query asked again fails with `SessionNotFound` and changes
/// nothing.
pub proof fn lemma_resume_after_drain(
    before: Map<SessionId, SessionView>,
    text: Seq<char>,
    page_size: nat,
    first: Result<Vec<CommitData>, QueryError>,
    between: Map<SessionId, SessionView>,
    second: Result<Vec<CommitData>, QueryError>,
    after: Map<SessionId, SessionView>,
)
    requires
        spells_session(text),
        before.contains_key(spelled(text)),
        before[spelled(text)].continuation.len() == 0,
        session_query(before, text, page_size, first, between),
        session_query(between, text, page_size, second, after),
    ensures
        first is Ok,
        first->Ok_0@.len() == 0,
        between == before.remove(spelled(text)),
        second is Err,
        second->Err_0 is SessionNotFound,
        after == between,
{
}

/// Whether `answer` and `after` are what a query for a further page of the session `id` of
/// `before` gives: an empty page and the session removed, where the session has nothing to
/// continue from; else the next page, or `StorageUnavailable` with the sessions unchanged.
pub open spec fn resumes(
    before: Map<SessionId, SessionView>,
    id: SessionId,
    page_size: nat,
    answer: Result<Vec<CommitData>, QueryError>,
    after: Map<SessionId, SessionView>,
) -> bool {
    if before[id].continuation.len() == 0 {
        &&& after == before.remove(id)
        &&& answer is Ok
        &&& answer->Ok_0@.len() == 0
    } else {
        &&& answer is Ok ==> next_page(before, id, page_size, answer->Ok_0, after)
        &&& answer is Err ==> answer->Err_0 is StorageUnavailable && after == before
    }
}

/// Whether `page` and `after` come of a further page of the session `id` of `before`: the
/// page keeps to the page size, and there is a walk that it comes of.
pub open spec fn next_page(
    before: Map<SessionId, SessionView>,
    id: SessionId,
    page_size: nat,
    page: Vec<CommitData>,
    after: Map<SessionId, SessionView>,
) -> bool {
    &&& page@.len() <= page_size || page@.len() <= 1
    &&& exists|fin: WalkState| #[trigger] turns_page(before, id, page_size, page, after, fin)
}

/// Whether `page` and `after` come of a further page of the session `id` of `before` whose
/// walk ended in `fin`: the page is that of the walk, nothing that was examined is forgotten,
/// and the session holds what the walk left, with one more page counted.
pub open spec fn turns_page(
    before: Map<SessionId, SessionView>,
    id: SessionId,
    page_size: nat,
    page: Vec<CommitData>,
    after: Map<SessionId, SessionView>,
    fin: WalkState,
) -> bool {
    &&& continues(before[id], page_size, fin)
    &&& record_views(page@) == fin.emitted
    &&& before[id].visited.subset_of(fin.visited)
    &&& fin.visited.len() >= before[id].visited.len() + fin.emitted.len()
    &&& after == before.insert(id, session_after(fin, counted(before[id].sent_pages)))
}

} // verus!
