use commit_pager::graph::{continuation_roots, lookup};
use commit_pager::id_set::IdSet;
use commit_pager::process_commits::{process_commits, Walk};
use commit_pager::settings::Settings;
use commit_pager::snapshot::{Snapshot, SnapshotId};

fn memory_repo() -> git2::Repository {
    let odb = git2::Odb::new().unwrap();
    odb.add_new_mempack_backend(1000).unwrap();
    git2::Repository::from_odb(odb).unwrap()
}

fn commit(repo: &git2::Repository, message: &str, time: i64, parents: &[SnapshotId]) -> SnapshotId {
    let tree_id = repo.treebuilder(None).unwrap().write().unwrap();
    let tree = repo.find_tree(tree_id).unwrap();
    let who = git2::Signature::new("someone", "someone@example.com", &git2::Time::new(time, 0))
        .unwrap();
    let found: Vec<git2::Commit> = parents
        .iter()
        .map(|p| repo.find_commit(git2::Oid::from_bytes(&p.0).unwrap()).unwrap())
        .collect();
    let borrowed: Vec<&git2::Commit> = found.iter().collect();
    let oid = repo.commit(None, &who, &who, message, &tree, &borrowed).unwrap();
    let mut bytes = [0u8; 20];
    bytes.copy_from_slice(oid.as_bytes());
    SnapshotId(bytes)
}

fn settings(page_size: usize) -> Settings {
    Settings {
        repo: String::new(),
        branch: None,
        all: false,
        depth: None,
        page_size,
        verbose: false,
        listen_address: String::new(),
        listen_port: 0,
        ignore_dirs: Vec::new(),
    }
}

fn roots(repo: &git2::Repository, ids: &[SnapshotId]) -> Vec<Snapshot> {
    ids.iter().map(|id| lookup(repo, id).unwrap()).collect()
}

#[test]
fn lookup_reads_what_the_commit_holds() {
    let repo = memory_repo();
    let c = commit(&repo, "first\n\nbody", 10, &[]);
    let a = commit(&repo, "second", 20, &[c]);
    let found = lookup(&repo, &a).unwrap();
    assert_eq!(found.id, a);
    assert_eq!(found.time, 20);
    assert_eq!(found.parents, vec![c]);
    assert_eq!(found.summary, Some("second".to_string()));
    let root = lookup(&repo, &c).unwrap();
    assert_eq!(root.parents, Vec::<SnapshotId>::new());
    assert_eq!(root.summary, Some("first".to_string()));
    assert!(lookup(&repo, &SnapshotId([7u8; 20])).is_none());
}

#[test]
fn diamond_is_emitted_once() {
    let repo = memory_repo();
    let c = commit(&repo, "c", 1, &[]);
    let b = commit(&repo, "b", 2, &[c]);
    let a = commit(&repo, "a", 3, &[c]);
    let first = process_commits(&repo, &settings(2), roots(&repo, &[a, b]), None);
    let hashes: Vec<String> = first.commits.iter().map(|r| r.hash.clone()).collect();
    assert_eq!(hashes, vec![a.to_string(), b.to_string()]);
    assert_eq!(first.commits[0].message, "a");
    assert_eq!(first.commits[0].parents, vec![c.to_string()]);
    assert_eq!(first.continue_, vec![c, c]);
    assert!(first.checked.contains(&a) && first.checked.contains(&b));
    assert!(!first.checked.contains(&c));

    let again = continuation_roots(&repo, &first.continue_);
    assert_eq!(again.len(), 2);
    let second = process_commits(&repo, &settings(2), again, Some(first.checked));
    let hashes: Vec<String> = second.commits.iter().map(|r| r.hash.clone()).collect();
    assert_eq!(hashes, vec![c.to_string()]);
    assert!(second.continue_.is_empty());
    assert!(second.checked.contains(&c));
}

#[test]
fn diamond_fits_one_page() {
    let repo = memory_repo();
    let c = commit(&repo, "c", 1, &[]);
    let b = commit(&repo, "b", 2, &[c]);
    let a = commit(&repo, "a", 3, &[c]);
    let page = process_commits(&repo, &settings(10), roots(&repo, &[b, a]), None);
    let hashes: Vec<String> = page.commits.iter().map(|r| r.hash.clone()).collect();
    assert_eq!(hashes, vec![a.to_string(), b.to_string(), c.to_string()]);
    assert!(page.continue_.is_empty());
}

#[test]
fn empty_summary_is_walked_but_not_shown() {
    let repo = memory_repo();
    let c = commit(&repo, "c", 1, &[]);
    let quiet = commit(&repo, "", 2, &[c]);
    let a = commit(&repo, "a", 3, &[quiet]);
    let page = process_commits(&repo, &settings(10), roots(&repo, &[a]), None);
    let hashes: Vec<String> = page.commits.iter().map(|r| r.hash.clone()).collect();
    assert_eq!(hashes, vec![a.to_string(), c.to_string()]);
    assert!(page.checked.contains(&quiet));
    assert!(page.continue_.is_empty());
}

#[test]
fn later_commit_leaves_first_across_branches() {
    let repo = memory_repo();
    let base = commit(&repo, "base", 1, &[]);
    let left_old = commit(&repo, "left old", 2, &[base]);
    let right_old = commit(&repo, "right old", 3, &[base]);
    let left = commit(&repo, "left", 5, &[left_old]);
    let right = commit(&repo, "right", 4, &[right_old]);
    let page = process_commits(&repo, &settings(10), roots(&repo, &[right, left]), None);
    let messages: Vec<String> = page.commits.iter().map(|r| r.message.clone()).collect();
    assert_eq!(messages, vec!["left", "right", "right old", "left old", "base"]);
}

#[test]
fn equal_times_leave_by_hash() {
    let repo = memory_repo();
    let x = commit(&repo, "x", 5, &[]);
    let y = commit(&repo, "y", 5, &[]);
    let z = commit(&repo, "z", 5, &[]);
    let mut sorted = vec![x, y, z];
    sorted.sort_by(|a, b| a.0.cmp(&b.0));
    let expected: Vec<String> = sorted.iter().map(|id| id.to_string()).collect();
    for order in [[x, y, z], [z, y, x], [y, z, x]] {
        let page = process_commits(&repo, &settings(10), roots(&repo, &order), None);
        let hashes: Vec<String> = page.commits.iter().map(|r| r.hash.clone()).collect();
        assert_eq!(hashes, expected);
    }
}

#[test]
fn page_size_bounds_the_page() {
    let repo = memory_repo();
    let mut tip = commit(&repo, "0", 0, &[]);
    for i in 1..10 {
        tip = commit(&repo, &format!("{}", i), i, &[tip]);
    }
    for size in 1..12usize {
        let page = process_commits(&repo, &settings(size), roots(&repo, &[tip]), None);
        assert_eq!(page.commits.len(), size.min(10));
        assert_eq!(page.continue_.is_empty(), size >= 10);
    }
    let page = process_commits(&repo, &settings(0), roots(&repo, &[tip]), None);
    assert_eq!(page.commits.len(), 1);
}

#[test]
fn visited_grows_and_nothing_comes_twice() {
    let repo = memory_repo();
    let c = commit(&repo, "c", 1, &[]);
    let b = commit(&repo, "b", 2, &[c]);
    let a = commit(&repo, "a", 3, &[c]);
    let m = commit(&repo, "m", 4, &[a, b]);
    let all = [m, a, b, c];
    let mut seen: Vec<String> = Vec::new();
    let mut known = 0;
    let mut result = process_commits(&repo, &settings(1), roots(&repo, &[m]), None);
    loop {
        let now = all.iter().filter(|id| result.checked.contains(id)).count();
        assert!(now >= known + result.commits.len());
        known = now;
        for record in result.commits.iter() {
            assert!(!seen.contains(&record.hash));
            seen.push(record.hash.clone());
        }
        if result.continue_.is_empty() {
            break;
        }
        let next = continuation_roots(&repo, &result.continue_);
        result = process_commits(&repo, &settings(1), next, Some(result.checked));
    }
    let expected: Vec<String> = all.iter().map(|id| id.to_string()).collect();
    assert_eq!(seen, expected);
}

#[test]
fn two_walks_agree() {
    let repo = memory_repo();
    let c = commit(&repo, "c", 1, &[]);
    let b = commit(&repo, "b", 2, &[c]);
    let a = commit(&repo, "a", 2, &[c]);
    let m = commit(&repo, "m", 4, &[a, b]);
    let one = process_commits(&repo, &settings(3), roots(&repo, &[m]), None);
    let two = process_commits(&repo, &settings(3), roots(&repo, &[m]), None);
    let first: Vec<String> = one.commits.iter().map(|r| r.hash.clone()).collect();
    let second: Vec<String> = two.commits.iter().map(|r| r.hash.clone()).collect();
    assert_eq!(first, second);
    assert_eq!(one.continue_, two.continue_);
}

#[test]
fn missing_parent_is_skipped() {
    let repo = memory_repo();
    let c = commit(&repo, "c", 1, &[]);
    let a = commit(&repo, "a", 3, &[c]);
    let mut root = lookup(&repo, &a).unwrap();
    root.parents.insert(0, SnapshotId([9u8; 20]));
    let page = process_commits(&repo, &settings(10), vec![root], None);
    let hashes: Vec<String> = page.commits.iter().map(|r| r.hash.clone()).collect();
    assert_eq!(hashes, vec![a.to_string(), c.to_string()]);
    assert_eq!(
        page.commits[0].parents,
        vec![SnapshotId([9u8; 20]).to_string(), c.to_string()]
    );
}

#[test]
fn visited_roots_are_dropped() {
    let repo = memory_repo();
    let c = commit(&repo, "c", 1, &[]);
    let a = commit(&repo, "a", 3, &[c]);
    let mut checked = IdSet::new();
    assert!(checked.insert(a));
    assert!(!checked.insert(a));
    let page = process_commits(&repo, &settings(10), roots(&repo, &[a]), Some(checked));
    assert!(page.commits.is_empty());
    assert!(page.continue_.is_empty());
    assert!(page.checked.contains(&a) && !page.checked.contains(&c));
}

fn plain(id: u8, time: i64, parents: &[u8], summary: Option<&str>) -> Snapshot {
    Snapshot {
        id: SnapshotId([id; 20]),
        time,
        parents: parents.iter().map(|p| SnapshotId([*p; 20])).collect(),
        summary: summary.map(|s| s.to_string()),
    }
}

#[test]
fn walk_steps_by_hand() {
    let mut walk = Walk::start(vec![plain(1, 10, &[2, 3], Some("one"))], 2, None);
    assert!(!walk.is_finished());
    assert_eq!(walk.asks(), vec![SnapshotId([2; 20]), SnapshotId([3; 20])]);
    walk.advance(vec![Some(plain(2, 5, &[4], None)), None]);
    assert!(!walk.is_finished());
    assert_eq!(walk.asks(), vec![SnapshotId([4; 20])]);
    walk.advance(vec![Some(plain(4, 7, &[1], Some("four")))]);
    assert!(!walk.is_finished());
    assert_eq!(walk.asks(), vec![SnapshotId([1; 20])]);
    walk.advance(vec![Some(plain(1, 10, &[2, 3], Some("one")))]);
    assert!(walk.is_finished());
    let result = walk.finish();
    let messages: Vec<String> = result.commits.iter().map(|r| r.message.clone()).collect();
    assert_eq!(messages, vec!["one", "four"]);
    assert_eq!(result.commits[1].hash, "04".repeat(20));
    assert_eq!(result.commits[1].parents, vec!["01".repeat(20)]);
    assert_eq!(result.continue_, vec![SnapshotId([1; 20])]);
    for id in [1u8, 2, 4] {
        assert!(result.checked.contains(&SnapshotId([id; 20])));
    }
    assert!(!result.checked.contains(&SnapshotId([3; 20])));
}

#[test]
fn walk_drops_what_was_examined() {
    let mut walk = Walk::start(
        vec![plain(1, 10, &[2], Some("one")), plain(1, 10, &[2], Some("one"))],
        5,
        None,
    );
    walk.advance(vec![None]);
    assert!(!walk.is_finished());
    assert!(walk.asks().is_empty());
    walk.advance(Vec::new());
    assert!(walk.is_finished());
    walk.advance(vec![Some(plain(9, 1, &[], Some("late")))]);
    let result = walk.finish();
    assert_eq!(result.commits.len(), 1);
    assert!(result.continue_.is_empty());
}

#[test]
fn walk_of_nothing_is_finished() {
    let walk = Walk::start(Vec::new(), 3, None);
    assert!(walk.is_finished());
    assert!(walk.asks().is_empty());
    let result = walk.finish();
    assert!(result.commits.is_empty() && result.continue_.is_empty());
}

#[test]
fn continuation_passes_over_what_is_gone() {
    let repo = memory_repo();
    let c = commit(&repo, "c", 1, &[]);
    let gone = SnapshotId([9u8; 20]);
    let found = continuation_roots(&repo, &vec![gone, c, gone, c]);
    let ids: Vec<SnapshotId> = found.iter().map(|s| s.id).collect();
    assert_eq!(ids, vec![c, c]);
    assert!(continuation_roots(&repo, &Vec::new()).is_empty());
}
