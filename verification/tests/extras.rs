use commit_pager::commits::get_refs;
use commit_pager::diff::{
    get_diff, get_diff_summary, group_hunks, join_files, join_hunks, show, show_lines,
    summary_of, to_decimal, two_hashes, PatchLine,
};
use commit_pager::error::QueryError;
use commit_pager::graph::{
    by_hash, fetched_roots, gather, hashes_of, list_named, opened_repository, read_commit,
    reference_first, taken_under, Sighting,
};
use commit_pager::meta::{message_of, meta_of, EditStamp};
use commit_pager::snapshot::Snapshot;
use commit_pager::snapshot::SnapshotId;
use commit_pager::meta::{get_message, get_meta};
use commit_pager::page::index_page;
use commit_pager::settings::{default_ignore_dirs, Options, Settings};

fn scratch_repo() -> (git2::Repository, String) {
    let path = format!("/tmp/commit_pager_test_{:032x}", rand::random::<u128>());
    let repo = git2::Repository::init_bare(&path).unwrap();
    (repo, path)
}

fn commit_files(
    repo: &git2::Repository,
    reference: Option<&str>,
    message: &str,
    time: i64,
    files: &[(&str, &str)],
    parents: &[git2::Oid],
) -> git2::Oid {
    let mut builder = repo.treebuilder(None).unwrap();
    for (name, content) in files {
        let blob = repo.blob(content.as_bytes()).unwrap();
        builder.insert(name, blob, 0o100644).unwrap();
    }
    let tree = repo.find_tree(builder.write().unwrap()).unwrap();
    let author =
        git2::Signature::new("Ada", "ada@example.com", &git2::Time::new(time, 0)).unwrap();
    let committer =
        git2::Signature::new("Bob", "bob@example.com", &git2::Time::new(time + 7, 60)).unwrap();
    let found: Vec<git2::Commit> = parents.iter().map(|p| repo.find_commit(*p).unwrap()).collect();
    let borrowed: Vec<&git2::Commit> = found.iter().collect();
    repo.commit(reference, &author, &committer, message, &tree, &borrowed).unwrap()
}

fn settings(path: &str) -> Settings {
    Settings::try_from(
        path.to_string(),
        Options {
            branch: None,
            all: false,
            depth: None,
            page_size: 50,
            verbose: false,
            listen_address: "0.0.0.0".to_string(),
            listen_port: 8084,
            ignore_dirs: Vec::new(),
        },
    )
}

fn line(
    path: Option<&str>,
    hunk: Option<Option<&str>>,
    content: Option<&str>,
    old_lineno: Option<u32>,
    new_lineno: Option<u32>,
) -> PatchLine {
    PatchLine {
        path: path.map(|p| p.to_string()),
        hunk: hunk.map(|h| h.map(|t| t.to_string())),
        content: content.map(|c| c.to_string()),
        old_lineno,
        new_lineno,
    }
}

#[test]
fn decimal_digits() {
    assert_eq!(to_decimal(0), "0");
    assert_eq!(to_decimal(7), "7");
    assert_eq!(to_decimal(10), "10");
    assert_eq!(to_decimal(4096), "4096");
    assert_eq!(to_decimal(u64::MAX), "18446744073709551615");
    assert_eq!(summary_of(12, 0), "[12,0]");
}

#[test]
fn settings_pass_over_the_usual_directories_first() {
    let names: Vec<String> = default_ignore_dirs();
    assert_eq!(names, vec![".hg", ".svn", ".git", ".bzr", "node_modules", "target"]);
    let made = Settings::try_from(
        "/repo".to_string(),
        Options {
            branch: Some("main".to_string()),
            all: true,
            depth: Some(3),
            page_size: 9,
            verbose: true,
            listen_address: "127.0.0.1".to_string(),
            listen_port: 80,
            ignore_dirs: vec!["dist".to_string(), ".git".to_string()],
        },
    );
    assert_eq!(made.repo, "/repo");
    assert_eq!(made.branch, Some("main".to_string()));
    assert!(made.all && made.verbose);
    assert_eq!(made.depth, Some(3));
    assert_eq!(made.page_size, 9);
    assert_eq!(made.listen_address, "127.0.0.1");
    assert_eq!(made.listen_port, 80);
    assert_eq!(
        made.ignore_dirs,
        vec![".hg", ".svn", ".git", ".bzr", "node_modules", "target", "dist", ".git"]
    );
}

#[test]
fn files_and_hunks_come_in_the_order_of_the_patch() {
    let lines = vec![
        line(Some("a.txt"), None, Some("diff --git a/a.txt b/a.txt\n"), None, None),
        line(Some("a.txt"), Some(Some("@@ -1 +1 @@\n")), Some("@@ -1 +1 @@\n"), None, None),
        line(Some("a.txt"), Some(Some("@@ -1 +1 @@\n")), Some("old\n"), Some(1), None),
        line(Some("a.txt"), Some(Some("@@ -1 +1 @@\n")), Some("new\n"), None, Some(1)),
        line(Some("a.txt"), Some(Some("@@ -9 +9 @@\n")), Some("@@ -9 +9 @@\n"), None, None),
        line(Some("a.txt"), Some(Some("@@ -9 +9 @@\n")), Some("x\n"), Some(1234), Some(12345)),
        line(Some("b.txt"), None, Some("diff --git a/b.txt b/b.txt\n"), None, None),
        line(Some("b.txt"), Some(Some("@@ -1 +1 @@\n")), Some("@@ -1 +1 @@\n"), None, None),
        line(Some("b.txt"), Some(Some("@@ -1 +1 @@\n")), Some("y\n"), Some(10), Some(100)),
    ];
    let files = group_hunks(&lines);
    assert_eq!(files.len(), 2);
    assert_eq!(files[0].file, "a.txt");
    assert_eq!(
        files[0].hunks,
        vec![
            "           @@ -1 +1 @@\n    1      old\n         1 new\n".to_string(),
            "           @@ -9 +9 @@\n 1234 12345 x\n".to_string(),
        ]
    );
    assert_eq!(files[1].file, "b.txt");
    assert_eq!(
        files[1].hunks,
        vec!["           @@ -1 +1 @@\n   10  100 y\n".to_string()]
    );
}

#[test]
fn lines_without_text_or_hunk_are_passed_over() {
    let lines = vec![
        line(None, Some(Some("@@ h @@")), Some("lost"), Some(1), Some(1)),
        line(Some("a"), Some(None), Some("lost"), Some(1), Some(1)),
        line(Some("a"), Some(Some("@@ h @@")), None, Some(1), Some(1)),
        line(Some("a"), Some(Some("@@ h @@")), Some("kept"), Some(2), Some(3)),
        line(Some("b"), Some(Some("@@ h @@")), Some("other"), None, None),
    ];
    let files = group_hunks(&lines);
    assert_eq!(files.len(), 2);
    assert_eq!(files[0].file, "a");
    assert_eq!(files[0].hunks, vec!["    2    3 kept".to_string()]);
    assert_eq!(files[1].file, "b");
    assert_eq!(files[1].hunks, vec!["           other".to_string()]);
    assert!(group_hunks(&Vec::new()).is_empty());
    let single = vec![line(Some("a"), Some(Some("@@ h @@")), Some("kept"), Some(2), Some(3))];
    let files = group_hunks(&single);
    assert_eq!(files.len(), 1);
    assert_eq!(files[0].file, "a");
    assert_eq!(files[0].hunks, vec!["    2    3 kept".to_string()]);
    let no_hunk = vec![line(Some("bin"), None, Some("Binary files differ\n"), None, None)];
    assert!(group_hunks(&no_hunk).is_empty());
}

#[test]
fn grouping_goes_in_three_steps() {
    let lines = vec![
        line(Some("a"), Some(Some("h1")), Some("1"), Some(1), Some(1)),
        line(Some("a"), None, Some("between"), None, None),
        line(Some("a"), Some(Some("h1")), Some("2"), Some(2), Some(2)),
        line(Some("a"), Some(Some("h2")), Some("3"), Some(3), Some(3)),
        line(Some("b"), Some(Some("h2")), Some("4"), Some(4), Some(4)),
        line(Some("a"), Some(Some("h2")), Some("5"), Some(5), Some(5)),
    ];
    let pieces = show_lines(&lines);
    assert_eq!(pieces.len(), 5);
    assert_eq!(pieces[0].path, "a");
    assert_eq!(pieces[0].header, "h1");
    assert_eq!(pieces[0].text, "    1    1 1");
    assert!(show(&lines[1]).is_none());
    let hunks = join_hunks(&pieces);
    let seen: Vec<(String, String, String)> = hunks
        .iter()
        .map(|h| (h.path.clone(), h.header.clone(), h.text.clone()))
        .collect();
    assert_eq!(
        seen,
        vec![
            ("a".to_string(), "h1".to_string(), "    1    1 1    2    2 2".to_string()),
            ("a".to_string(), "h2".to_string(), "    3    3 3".to_string()),
            ("b".to_string(), "h2".to_string(), "    4    4 4".to_string()),
            ("a".to_string(), "h2".to_string(), "    5    5 5".to_string()),
        ]
    );
    let files = join_files(&hunks);
    let seen: Vec<(String, usize)> = files.iter().map(|f| (f.file.clone(), f.hunks.len())).collect();
    assert_eq!(
        seen,
        vec![("a".to_string(), 2), ("b".to_string(), 1), ("a".to_string(), 1)]
    );
}

#[test]
fn diff_of_two_commits() {
    let (repo, path) = scratch_repo();
    let a = commit_files(&repo, None, "a", 1, &[("a.txt", "one\ntwo\n"), ("b.txt", "x\n")], &[]);
    let b = commit_files(&repo, None, "b", 2, &[("a.txt", "one\nTWO\n"), ("b.txt", "y\n")], &[a]);
    let summary = get_diff_summary(&settings(&path), &a.to_string(), &b.to_string()).unwrap();
    assert_eq!(summary, "[2,2]");
    let files = get_diff(&settings(&path), &a.to_string(), &b.to_string()).unwrap();
    assert_eq!(files.len(), 2);
    assert_eq!(files[0].file, "a.txt");
    assert_eq!(
        files[0].hunks,
        vec!["           @@ -1,2 +1,2 @@\n    1    1 one\n    2      two\n         2 TWO\n".to_string()]
    );
    assert_eq!(files[1].file, "b.txt");
    assert_eq!(
        files[1].hunks,
        vec!["           @@ -1 +1 @@\n    1      x\n         1 y\n".to_string()]
    );
    let same = get_diff_summary(&settings(&path), &a.to_string(), &a.to_string()).unwrap();
    assert_eq!(same, "[0,0]");
    assert!(get_diff(&settings(&path), &a.to_string(), &a.to_string()).unwrap().is_empty());
}

#[test]
fn diff_of_one_file_gives_that_file() {
    let (repo, path) = scratch_repo();
    let a = commit_files(&repo, None, "a", 1, &[("f.txt", "x\n")], &[]);
    let b = commit_files(&repo, None, "b", 2, &[("f.txt", "y\n")], &[a]);
    let files = get_diff(&settings(&path), &a.to_string(), &b.to_string()).unwrap();
    assert_eq!(files.len(), 1);
    assert_eq!(files[0].file, "f.txt");
    assert_eq!(
        files[0].hunks,
        vec!["           @@ -1 +1 @@\n    1      x\n         1 y\n".to_string()]
    );
    assert_eq!(
        get_diff_summary(&settings(&path), &a.to_string(), &b.to_string()).unwrap(),
        "[1,1]"
    );
}

#[test]
fn diff_fails_by_kind() {
    let (repo, path) = scratch_repo();
    let a = commit_files(&repo, None, "a", 1, &[("a.txt", "one\n")], &[]);
    let absent = "0123456789abcdef0123456789abcdef01234567";
    assert!(matches!(
        get_diff(&settings(&path), &a.to_string(), "nothing"),
        Err(QueryError::MalformedId)
    ));
    assert!(matches!(
        get_diff_summary(&settings(&path), "", &a.to_string()),
        Err(QueryError::MalformedId)
    ));
    assert!(matches!(
        get_diff(&settings(&path), absent, &a.to_string()),
        Err(QueryError::RootNotFound(_))
    ));
    assert!(matches!(
        get_diff_summary(&settings("/nonexistent/commit_pager"), absent, absent),
        Err(QueryError::StorageUnavailable(_))
    ));
}

#[test]
fn meta_of_a_commit() {
    let (repo, path) = scratch_repo();
    let a = commit_files(&repo, None, "subject\n\nbody text\n", 1000, &[("a.txt", "one\n")], &[]);
    let meta = get_meta(&settings(&path), &a.to_string()).unwrap();
    assert_eq!(meta.author.name, Some("Ada".to_string()));
    assert_eq!(meta.author.email, Some("ada@example.com".to_string()));
    assert_eq!(meta.author.date, 1000);
    assert_eq!(meta.committer.name, Some("Bob".to_string()));
    assert_eq!(meta.committer.email, Some("bob@example.com".to_string()));
    assert_eq!(meta.committer.date, 1007);
    assert_eq!(meta.message, "subject\n\nbody text\n");
    let message = get_message(&settings(&path), &a.to_string()).unwrap();
    assert_eq!(message, "subject\n\nbody text\n");
    assert!(matches!(get_message(&settings(&path), "xyz"), Err(QueryError::MalformedId)));
    assert!(matches!(
        get_meta(&settings(&path), "0123456789abcdef0123456789abcdef01234567"),
        Err(QueryError::RootNotFound(_))
    ));
    assert!(matches!(
        get_meta(&settings("/nonexistent/commit_pager"), &a.to_string()),
        Err(QueryError::StorageUnavailable(_))
    ));
}

#[test]
fn references_with_their_commits() {
    let (repo, path) = scratch_repo();
    let a = commit_files(&repo, Some("refs/heads/main"), "a", 1, &[("a.txt", "one\n")], &[]);
    let b = commit_files(&repo, Some("refs/heads/main"), "b", 2, &[("a.txt", "two\n")], &[a]);
    repo.reference("refs/heads/old", a, true, "old").unwrap();
    let blob = repo.blob(b"no commit").unwrap();
    repo.reference("refs/tags/blob", blob, true, "blob").unwrap();
    let mut refs: Vec<(String, String)> = get_refs(&settings(&path))
        .unwrap()
        .into_iter()
        .map(|r| (r.name, r.hash))
        .collect();
    refs.sort();
    assert_eq!(
        refs,
        vec![
            ("refs/heads/main".to_string(), b.to_string()),
            ("refs/heads/old".to_string(), a.to_string()),
        ]
    );
    assert!(matches!(
        get_refs(&settings("/nonexistent/commit_pager")),
        Err(QueryError::StorageUnavailable(_))
    ));
}

#[test]
fn page_gets_the_address_of_the_script() {
    assert_eq!(
        index_page("<script src=\"{{source}}\"></script>", "./js/bundle.js"),
        "<script src=\"./js/bundle.js\"></script>"
    );
    assert_eq!(index_page("{{source}}{{source}}{", "a"), "aa{");
    assert_eq!(index_page("{{{source}}}", "{{source}}"), "{{{source}}}");
    assert_eq!(index_page("{{source}", "a"), "{{source}");
    assert_eq!(index_page("", "a"), "");
}

#[test]
fn listing_keeps_references_with_name_and_commit() {
    let seen = vec![
        Sighting {
            name: Some("refs/heads/main".to_string()),
            commit: Some(SnapshotId([0xab; 20])),
        },
        Sighting {
            name: None,
            commit: Some(SnapshotId([1; 20])),
        },
        Sighting {
            name: Some("refs/tags/blob".to_string()),
            commit: None,
        },
        Sighting {
            name: None,
            commit: None,
        },
        Sighting {
            name: Some("refs/heads/main".to_string()),
            commit: Some(SnapshotId([2; 20])),
        },
    ];
    let refs: Vec<(String, String)> = list_named(&seen)
        .into_iter()
        .map(|r| (r.name, r.hash))
        .collect();
    assert_eq!(
        refs,
        vec![
            ("refs/heads/main".to_string(), "ab".repeat(20)),
            ("refs/heads/main".to_string(), "02".repeat(20)),
        ]
    );
    assert!(list_named(&Vec::new()).is_empty());
}

#[test]
fn snapshot_is_taken_only_under_the_hash_asked_for() {
    let made = Snapshot::new(
        SnapshotId([4; 20]),
        77,
        vec![SnapshotId([5; 20]), SnapshotId([6; 20])],
        Some("subject".to_string()),
    );
    assert_eq!(made.id, SnapshotId([4; 20]));
    assert_eq!(made.time, 77);
    assert_eq!(made.parents, vec![SnapshotId([5; 20]), SnapshotId([6; 20])]);
    assert_eq!(made.summary, Some("subject".to_string()));
    let taken = taken_under(&SnapshotId([4; 20]), made).unwrap();
    assert_eq!(taken.time, 77);
    assert_eq!(taken.parents.len(), 2);
    assert!(matches!(
        taken_under(&SnapshotId([5; 20]), taken),
        Err(QueryError::RootNotFound(_))
    ));
}

#[test]
fn stamp_holds_what_it_was_made_of() {
    let stamp = EditStamp::new(Some("Ada".to_string()), None, -5);
    assert_eq!(stamp.name, Some("Ada".to_string()));
    assert_eq!(stamp.email, None);
    assert_eq!(stamp.date, -5);
}

#[test]
fn attempts_become_answers() {
    let (repo, path) = scratch_repo();
    let a = commit_files(&repo, None, "a", 1, &[("a.txt", "one\n")], &[]);
    let read = read_commit(repo.find_commit(a)).unwrap();
    assert_eq!(read.id.to_string(), a.to_string());
    assert_eq!(read.time, 8);
    assert_eq!(read.summary, Some("a".to_string()));
    assert!(matches!(
        read_commit(Err(git2::Error::from_str("gone"))),
        Err(QueryError::RootNotFound(cause)) if cause == "gone"
    ));
    assert!(opened_repository(git2::Repository::open(&path)).is_ok());
    assert!(matches!(
        opened_repository(Err(git2::Error::from_str("locked"))),
        Err(QueryError::StorageUnavailable(cause)) if cause == "locked"
    ));
}

fn plain(id: u8) -> Snapshot {
    Snapshot::new(SnapshotId([id; 20]), id as i64, Vec::new(), None)
}

#[test]
fn gathering_gives_all_roots_or_the_first_failure() {
    let roots = gather(vec![Ok(plain(3)), Ok(plain(1)), Ok(plain(2))]).unwrap();
    let ids: Vec<u8> = roots.iter().map(|s| s.id.0[0]).collect();
    assert_eq!(ids, vec![3, 1, 2]);
    assert!(gather(Vec::new()).unwrap().is_empty());
    let failed = gather(vec![
        Ok(plain(3)),
        Err(QueryError::RootNotFound("first".to_string())),
        Ok(plain(2)),
        Err(QueryError::MalformedId),
    ]);
    assert!(matches!(failed, Err(QueryError::RootNotFound(cause)) if cause == "first"));
    let failed = gather(vec![Err(QueryError::MalformedId), Ok(plain(2))]);
    assert!(matches!(failed, Err(QueryError::MalformedId)));
}

#[test]
fn reference_wins_over_hash() {
    let both = reference_first(Some(Ok(plain(1))), Ok(plain(2))).unwrap();
    assert_eq!(both.len(), 1);
    assert_eq!(both[0].id, SnapshotId([1; 20]));
    let broken = reference_first(
        Some(Err(QueryError::RootNotFound("no commit".to_string()))),
        Ok(plain(2)),
    );
    assert!(matches!(broken, Err(QueryError::RootNotFound(cause)) if cause == "no commit"));
    let hash = reference_first(None, Ok(plain(2))).unwrap();
    assert_eq!(hash[0].id, SnapshotId([2; 20]));
    assert!(matches!(
        reference_first(None, Err(QueryError::MalformedId)),
        Err(QueryError::MalformedId)
    ));
    let kept = reference_first(Some(Ok(plain(1))), Err(QueryError::MalformedId)).unwrap();
    assert_eq!(kept[0].id, SnapshotId([1; 20]));
}

#[test]
fn hash_names_a_commit() {
    let (repo, _) = scratch_repo();
    let a = commit_files(&repo, None, "a", 1, &[("a.txt", "one\n")], &[]);
    let found = by_hash(&repo, &a.to_string().to_uppercase()).unwrap();
    assert_eq!(found.id.to_string(), a.to_string());
    assert!(matches!(by_hash(&repo, ""), Err(QueryError::MalformedId)));
    assert!(matches!(by_hash(&repo, "refs/heads/main"), Err(QueryError::MalformedId)));
    assert!(matches!(by_hash(&repo, "abcd"), Err(QueryError::RootNotFound(_))));
    let (old, new) = two_hashes("ab", "CD").unwrap();
    assert_eq!(old.0[0], 0xab);
    assert_eq!(new.0[0], 0xcd);
    assert_eq!(old.0[1], 0);
    assert!(matches!(two_hashes("ab", "x"), Err(QueryError::MalformedId)));
    assert!(matches!(two_hashes("", "ab"), Err(QueryError::MalformedId)));
}

#[test]
fn meta_and_message_are_made_of_what_was_read() {
    let author = EditStamp::new(Some("Ada".to_string()), None, 1);
    let committer = EditStamp::new(None, Some("bob@example.com".to_string()), 2);
    let meta = meta_of(author, committer, Some("text".to_string()));
    assert_eq!(meta.author.name, Some("Ada".to_string()));
    assert_eq!(meta.author.date, 1);
    assert_eq!(meta.committer.email, Some("bob@example.com".to_string()));
    assert_eq!(meta.committer.date, 2);
    assert_eq!(meta.message, "text");
    let bare = meta_of(EditStamp::new(None, None, 0), EditStamp::new(None, None, 0), None);
    assert_eq!(bare.message, "");
    assert_eq!(message_of(Some("text".to_string())).unwrap(), "text");
    assert_eq!(message_of(Some(String::new())).unwrap(), "");
    assert!(matches!(
        message_of(None),
        Err(QueryError::RootNotFound(cause)) if cause == "Missing message"
    ));
}

#[test]
fn faults_of_the_client_are_told_apart() {
    assert!(QueryError::SessionNotFound.is_client_fault());
    assert!(QueryError::MalformedId.is_client_fault());
    assert!(!QueryError::RootNotFound(String::new()).is_client_fault());
    assert!(!QueryError::StorageUnavailable(String::new()).is_client_fault());
}

#[test]
fn malformed_hash_is_told_before_the_repository_is_opened() {
    let nowhere = settings("/nonexistent/commit_pager");
    assert!(matches!(get_message(&nowhere, "xyz"), Err(QueryError::MalformedId)));
    assert!(matches!(get_meta(&nowhere, ""), Err(QueryError::MalformedId)));
    assert!(matches!(get_diff(&nowhere, "ab", "xyz"), Err(QueryError::MalformedId)));
    assert!(matches!(get_diff_summary(&nowhere, "xyz", "ab"), Err(QueryError::MalformedId)));
    assert!(matches!(get_meta(&nowhere, "ab"), Err(QueryError::StorageUnavailable(_))));
}

#[test]
fn hashes_are_read_before_roots_are_fetched() {
    let (repo, _) = scratch_repo();
    let a = commit_files(&repo, None, "a", 1, &[("a.txt", "one\n")], &[]);
    let b = commit_files(&repo, None, "b", 2, &[("a.txt", "two\n")], &[a]);
    let names = vec![b.to_string(), a.to_string().to_uppercase()];
    let ids = hashes_of(&names).unwrap();
    assert_eq!(ids.len(), 2);
    assert_eq!(ids[0].to_string(), b.to_string());
    assert_eq!(ids[1].to_string(), a.to_string());
    assert!(hashes_of(&Vec::new()).unwrap().is_empty());
    assert!(matches!(
        hashes_of(&vec![a.to_string(), "".to_string()]),
        Err(QueryError::MalformedId)
    ));
    let roots = fetched_roots(&repo, &ids).unwrap();
    let found: Vec<String> = roots.iter().map(|s| s.id.to_string()).collect();
    assert_eq!(found, vec![b.to_string(), a.to_string()]);
    assert_eq!(roots[0].parents.len(), 1);
    assert!(fetched_roots(&repo, &Vec::new()).unwrap().is_empty());
    let with_absent = vec![ids[0], SnapshotId([9; 20]), ids[1]];
    assert!(matches!(
        fetched_roots(&repo, &with_absent),
        Err(QueryError::RootNotFound(_))
    ));
}
