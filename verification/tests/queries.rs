use commit_pager::commits::{
    get_commits, get_commits_hash, get_commits_multi, get_commits_session, new_session,
    register_session,
};
use commit_pager::error::QueryError;
use commit_pager::id_set::IdSet;
use commit_pager::process_commits::ProcessCommitsResult;
use commit_pager::sessions::{SessionId, SessionStore};
use commit_pager::settings::Settings;
use commit_pager::snapshot::SnapshotId;

fn scratch_repo() -> (git2::Repository, String) {
    let path = format!("/tmp/commit_pager_test_{:032x}", rand::random::<u128>());
    let repo = git2::Repository::init_bare(&path).unwrap();
    (repo, path)
}

fn commit(
    repo: &git2::Repository,
    reference: Option<&str>,
    message: &str,
    time: i64,
    parents: &[git2::Oid],
) -> git2::Oid {
    let tree_id = repo.treebuilder(None).unwrap().write().unwrap();
    let tree = repo.find_tree(tree_id).unwrap();
    let who = git2::Signature::new("someone", "someone@example.com", &git2::Time::new(time, 0))
        .unwrap();
    let found: Vec<git2::Commit> = parents.iter().map(|p| repo.find_commit(*p).unwrap()).collect();
    let borrowed: Vec<&git2::Commit> = found.iter().collect();
    repo.commit(reference, &who, &who, message, &tree, &borrowed).unwrap()
}

fn settings(path: &str, page_size: usize) -> Settings {
    Settings {
        repo: path.to_string(),
        branch: None,
        all: false,
        depth: None,
        page_size,
        verbose: false,
        listen_address: "0.0.0.0".to_string(),
        listen_port: 8084,
        ignore_dirs: Vec::new(),
    }
}

/// main: c1 <- c2 <- c3 <- c4; side: c2 <- s1
fn history() -> (String, Vec<git2::Oid>) {
    let (repo, path) = scratch_repo();
    let c1 = commit(&repo, Some("refs/heads/main"), "one", 1, &[]);
    let c2 = commit(&repo, Some("refs/heads/main"), "two", 2, &[c1]);
    let c3 = commit(&repo, Some("refs/heads/main"), "three", 3, &[c2]);
    let c4 = commit(&repo, Some("refs/heads/main"), "four", 5, &[c3]);
    let s1 = commit(&repo, None, "side", 4, &[c2]);
    repo.reference("refs/heads/side", s1, true, "side").unwrap();
    repo.set_head("refs/heads/main").unwrap();
    (path, vec![c1, c2, c3, c4, s1])
}

fn messages(commits: &[commit_pager::snapshot::CommitData]) -> Vec<String> {
    commits.iter().map(|r| r.message.clone()).collect()
}

#[test]
fn default_query_pages_through_the_head() {
    let (path, ids) = history();
    let mut store = SessionStore::new();
    let first = get_commits(&settings(&path, 3), &mut store).unwrap();
    assert_eq!(messages(&first.commits), vec!["four", "three", "two"]);
    assert_eq!(first.commits[0].hash, ids[3].to_string());
    assert_eq!(first.commits[0].parents, vec![ids[2].to_string()]);
    let session = first.session.unwrap();
    assert!(store.contains(&session));
    let text = session.to_string();
    assert_eq!(text.len(), 40);

    let second = get_commits_session(&settings(&path, 3), &mut store, &text).unwrap();
    assert_eq!(messages(&second), vec!["one"]);
    assert!(store.contains(&session));

    let third = get_commits_session(&settings(&path, 3), &mut store, &text).unwrap();
    assert!(third.is_empty());
    assert!(!store.contains(&session));

    let fourth = get_commits_session(&settings(&path, 3), &mut store, &text);
    assert!(matches!(fourth, Err(QueryError::SessionNotFound)));
}

#[test]
fn default_query_without_more_pages_opens_no_session() {
    let (path, _) = history();
    let mut store = SessionStore::new();
    let first = get_commits(&settings(&path, 50), &mut store).unwrap();
    assert_eq!(messages(&first.commits), vec!["four", "three", "two", "one"]);
    assert!(first.session.is_none());
}

#[test]
fn default_query_follows_the_branch() {
    let (path, _) = history();
    let mut store = SessionStore::new();
    let mut chosen = settings(&path, 50);
    chosen.branch = Some("side".to_string());
    let first = get_commits(&chosen, &mut store).unwrap();
    assert_eq!(messages(&first.commits), vec!["side", "two", "one"]);
    chosen.branch = Some("nowhere".to_string());
    assert!(matches!(get_commits(&chosen, &mut store), Err(QueryError::RootNotFound(_))));
}

#[test]
fn default_query_of_all_references_merges_by_time() {
    let (path, _) = history();
    let mut store = SessionStore::new();
    let mut chosen = settings(&path, 50);
    chosen.all = true;
    let first = get_commits(&chosen, &mut store).unwrap();
    assert_eq!(messages(&first.commits), vec!["four", "side", "three", "two", "one"]);
}

#[test]
fn default_query_of_all_references_does_not_look_at_the_branch() {
    let (path, _) = history();
    let mut store = SessionStore::new();
    let mut chosen = settings(&path, 50);
    chosen.all = true;
    chosen.branch = Some("nowhere".to_string());
    let first = get_commits(&chosen, &mut store).unwrap();
    assert_eq!(messages(&first.commits), vec!["four", "side", "three", "two", "one"]);
}

#[test]
fn default_query_of_all_references_fails_at_one_without_commit() {
    let (path, _) = history();
    let repo = git2::Repository::open(&path).unwrap();
    let blob = repo.blob(b"no commit").unwrap();
    repo.reference("refs/tags/blob", blob, true, "blob").unwrap();
    let mut store = SessionStore::new();
    let mut chosen = settings(&path, 50);
    chosen.all = true;
    assert!(matches!(get_commits(&chosen, &mut store), Err(QueryError::RootNotFound(_))));
    chosen.all = false;
    assert!(get_commits(&chosen, &mut store).is_ok());
}

#[test]
fn single_query_takes_the_reference_where_both_could_be_meant() {
    let (path, ids) = history();
    let repo = git2::Repository::open(&path).unwrap();
    repo.reference("DEADBEEF", ids[4], true, "named like a hash").unwrap();
    let mut store = SessionStore::new();
    let found = get_commits_hash(&settings(&path, 50), &mut store, "DEADBEEF").unwrap();
    assert_eq!(messages(&found.commits), vec!["side", "two", "one"]);
    let absent = get_commits_hash(&settings(&path, 50), &mut store, "deadbeef");
    assert!(matches!(absent, Err(QueryError::RootNotFound(_))));
}

#[test]
fn multi_query_of_no_hashes_gives_an_empty_page() {
    let (path, _) = history();
    let mut store = SessionStore::new();
    let first = get_commits_multi(&settings(&path, 2), &mut store, &Vec::new()).unwrap();
    assert!(first.commits.is_empty());
    assert!(first.session.is_none());
}

#[test]
fn single_query_takes_a_reference_or_a_hash() {
    let (path, ids) = history();
    let mut store = SessionStore::new();
    let by_name = get_commits_hash(&settings(&path, 50), &mut store, "refs/heads/side").unwrap();
    assert_eq!(messages(&by_name.commits), vec!["side", "two", "one"]);
    let by_hash =
        get_commits_hash(&settings(&path, 50), &mut store, &ids[2].to_string()).unwrap();
    assert_eq!(messages(&by_hash.commits), vec!["three", "two", "one"]);
    let upper = ids[2].to_string().to_uppercase();
    let by_upper = get_commits_hash(&settings(&path, 50), &mut store, &upper).unwrap();
    assert_eq!(by_upper.commits[0].hash, ids[2].to_string());
}

#[test]
fn single_query_fails_by_kind() {
    let (path, _) = history();
    let mut store = SessionStore::new();
    let malformed = get_commits_hash(&settings(&path, 50), &mut store, "not a hash");
    assert!(matches!(malformed, Err(QueryError::MalformedId)));
    let absent = get_commits_hash(
        &settings(&path, 50),
        &mut store,
        "0123456789abcdef0123456789abcdef01234567",
    );
    assert!(matches!(absent, Err(QueryError::RootNotFound(_))));
    let nowhere = get_commits_hash(&settings("/nonexistent/commit_pager", 50), &mut store, "x");
    assert!(matches!(nowhere, Err(QueryError::StorageUnavailable(_))));
}

#[test]
fn multi_query_walks_from_every_hash() {
    let (path, ids) = history();
    let mut store = SessionStore::new();
    let names = vec![ids[4].to_string(), ids[2].to_string()];
    let first = get_commits_multi(&settings(&path, 2), &mut store, &names).unwrap();
    assert_eq!(messages(&first.commits), vec!["side", "three"]);
    let session = first.session.unwrap().to_string();
    let rest = get_commits_session(&settings(&path, 2), &mut store, &session).unwrap();
    assert_eq!(messages(&rest), vec!["two", "one"]);

    let bad = vec![ids[4].to_string(), "zz".to_string()];
    assert!(matches!(
        get_commits_multi(&settings(&path, 2), &mut store, &bad),
        Err(QueryError::MalformedId)
    ));
    let absent = vec!["ab".to_string()];
    assert!(matches!(
        get_commits_multi(&settings(&path, 2), &mut store, &absent),
        Err(QueryError::RootNotFound(_))
    ));
    let both = vec!["ab".to_string(), "zz".to_string()];
    assert!(matches!(
        get_commits_multi(&settings(&path, 2), &mut store, &both),
        Err(QueryError::MalformedId)
    ));
    assert!(matches!(
        get_commits_multi(&settings("/nonexistent/commit_pager", 2), &mut store, &both),
        Err(QueryError::MalformedId)
    ));
    assert!(matches!(
        get_commits_multi(&settings("/nonexistent/commit_pager", 2), &mut store, &absent),
        Err(QueryError::StorageUnavailable(_))
    ));
}

#[test]
fn resume_rejects_what_spells_no_identifier() {
    let (path, _) = history();
    let mut store = SessionStore::new();
    for text in ["xyz", "ABCDEF", "00112233445566778899aabbccddeeff0011223344"] {
        let answer = get_commits_session(&settings(&path, 2), &mut store, text);
        assert!(matches!(answer, Err(QueryError::MalformedId)));
    }
    let unknown = get_commits_session(&settings(&path, 2), &mut store, "00ff");
    assert!(matches!(unknown, Err(QueryError::SessionNotFound)));
}

#[test]
fn resume_keeps_the_session_when_the_repository_is_gone() {
    let (path, _) = history();
    let mut store = SessionStore::new();
    let first = get_commits(&settings(&path, 1), &mut store).unwrap();
    let session = first.session.unwrap();
    let text = session.to_string();
    let gone = get_commits_session(&settings("/nonexistent/commit_pager", 1), &mut store, &text);
    assert!(matches!(gone, Err(QueryError::StorageUnavailable(_))));
    assert!(store.contains(&session));
    let next = get_commits_session(&settings(&path, 1), &mut store, &text).unwrap();
    assert_eq!(messages(&next), vec!["three"]);
}

#[test]
fn register_session_opens_one_only_for_a_cut_page() {
    let mut store = SessionStore::new();
    let id = SessionId([3u8; 20]);
    let done = ProcessCommitsResult {
        commits: Vec::new(),
        checked: IdSet::new(),
        continue_: Vec::new(),
    };
    let response = register_session(&mut store, id, done);
    assert!(response.session.is_none());
    assert!(!store.contains(&id));
    let cut = ProcessCommitsResult {
        commits: Vec::new(),
        checked: IdSet::new(),
        continue_: vec![SnapshotId([1u8; 20])],
    };
    let response = register_session(&mut store, id, cut);
    assert_eq!(response.session, Some(id));
    assert!(store.contains(&id));
}

#[test]
fn new_session_draws_distinct_identifiers() {
    let mut store = SessionStore::new();
    let mut seen: Vec<SessionId> = Vec::new();
    for _ in 0..8 {
        let cut = ProcessCommitsResult {
            commits: Vec::new(),
            checked: IdSet::new(),
            continue_: vec![SnapshotId([1u8; 20])],
        };
        let id = new_session(&mut store, cut).session.unwrap();
        assert!(store.contains(&id));
        assert!(!seen.contains(&id));
        seen.push(id);
    }
}
