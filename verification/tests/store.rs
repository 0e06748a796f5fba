use commit_pager::error::QueryError;
use commit_pager::frontier::Frontier;
use commit_pager::id_set::IdSet;
use commit_pager::sessions::{Session, SessionId, SessionStore};
use commit_pager::snapshot::{emitted_record, leaves_before, Snapshot, SnapshotId};

fn plain(id: u8, time: i64, summary: Option<&str>) -> Snapshot {
    Snapshot {
        id: SnapshotId([id; 20]),
        time,
        parents: vec![SnapshotId([id + 1; 20])],
        summary: summary.map(|s| s.to_string()),
    }
}

#[test]
fn id_set_holds_what_was_put_in() {
    let mut set = IdSet::new();
    let mut ids = Vec::new();
    for i in 0..200u8 {
        let mut bytes = [7u8; 20];
        bytes[19] = i;
        bytes[(i % 8) as usize] = i;
        ids.push(SnapshotId(bytes));
    }
    for id in ids.iter() {
        assert!(!set.contains(id));
        assert!(set.insert(*id));
        assert!(set.contains(id));
        assert!(!set.insert(*id));
    }
    for id in ids.iter() {
        assert!(set.contains(id));
    }
    assert!(!set.contains(&SnapshotId([201u8; 20])));
}

#[test]
fn id_set_tells_hashes_with_one_beginning_apart() {
    let mut set = IdSet::new();
    let mut a = [0u8; 20];
    let mut b = [0u8; 20];
    a[8] = 1;
    b[19] = 1;
    assert!(set.insert(SnapshotId(a)));
    assert!(!set.contains(&SnapshotId(b)));
    assert!(set.insert(SnapshotId(b)));
    assert!(set.contains(&SnapshotId(a)) && set.contains(&SnapshotId(b)));
    assert!(!set.contains(&SnapshotId([0u8; 20])));
}

#[test]
fn later_leaves_before_earlier_and_smaller_hash_before_larger() {
    assert!(leaves_before(&plain(1, 9, None), &plain(2, 8, None)));
    assert!(!leaves_before(&plain(2, 8, None), &plain(1, 9, None)));
    assert!(leaves_before(&plain(1, 5, None), &plain(2, 5, None)));
    assert!(!leaves_before(&plain(2, 5, None), &plain(1, 5, None)));
    assert!(!leaves_before(&plain(3, 5, None), &plain(3, 5, None)));
    assert!(leaves_before(&plain(9, -1, None), &plain(1, -2, None)));
    let mut low = plain(0, 5, None);
    let mut high = plain(0, 5, None);
    low.id.0[19] = 1;
    high.id.0[0] = 1;
    assert!(leaves_before(&low, &high));
}

#[test]
fn frontier_hands_out_latest_first() {
    let mut frontier = Frontier::new();
    assert!(frontier.is_empty());
    assert!(frontier.pop().is_none());
    for (id, time) in [(1u8, 5i64), (2, 9), (3, 1), (4, 9), (5, 5), (2, 9)] {
        frontier.push(plain(id, time, None));
    }
    assert_eq!(frontier.len(), 6);
    assert_eq!(frontier.peek().unwrap().id, SnapshotId([2; 20]));
    let mut out = Vec::new();
    while let Some(next) = frontier.pop() {
        out.push((next.id.0[0], next.time));
    }
    assert_eq!(out, vec![(2, 9), (2, 9), (4, 9), (1, 5), (5, 5), (3, 1)]);
}

#[test]
fn frontier_keeps_the_order_of_leaving() {
    let roots = vec![plain(3, 1, None), plain(1, 5, None), plain(2, 9, None)];
    let frontier = Frontier::from_roots(roots);
    let ids: Vec<u8> = frontier.into_ids().iter().map(|id| id.0[0]).collect();
    assert_eq!(ids, vec![3, 1, 2]);
}

#[test]
fn record_needs_a_summary() {
    assert!(emitted_record(&plain(1, 5, None)).is_none());
    assert!(emitted_record(&plain(1, 5, Some(""))).is_none());
    let record = emitted_record(&plain(0xab, 5, Some("fix"))).unwrap();
    assert_eq!(record.hash, "ab".repeat(20));
    assert_eq!(record.message, "fix");
    assert_eq!(record.parents, vec!["ac".repeat(20)]);
}

#[test]
fn store_creates_resumes_and_advances() {
    let mut store = SessionStore::new();
    let one = SessionId([1; 20]);
    let two = SessionId([2; 20]);
    let mut seen = IdSet::new();
    seen.insert(SnapshotId([5; 20]));
    store.create(one, seen, vec![SnapshotId([6; 20])]);
    store.create(two, IdSet::new(), Vec::new());
    assert!(store.contains(&one) && store.contains(&two));

    let session = store.resume(&one).unwrap();
    assert!(!store.contains(&one) && store.contains(&two));
    assert_eq!(session.sent_pages, 0);
    assert_eq!(session.continue_commits, vec![SnapshotId([6; 20])]);
    assert!(session.checked_commits.contains(&SnapshotId([5; 20])));
    assert!(matches!(store.resume(&one), Err(QueryError::SessionNotFound)));

    let Session {
        checked_commits,
        sent_pages,
        ..
    } = session;
    store.advance(one, sent_pages, checked_commits, vec![SnapshotId([7; 20])]);
    let session = store.resume(&one).unwrap();
    assert_eq!(session.sent_pages, 1);
    assert_eq!(session.continue_commits, vec![SnapshotId([7; 20])]);

    store.advance(one, usize::MAX, session.checked_commits, Vec::new());
    assert_eq!(store.resume(&one).unwrap().sent_pages, usize::MAX);
}

#[test]
fn store_replaces_and_removes() {
    let mut store = SessionStore::new();
    let one = SessionId([1; 20]);
    store.create(one, IdSet::new(), vec![SnapshotId([6; 20])]);
    store.create(one, IdSet::new(), vec![SnapshotId([8; 20])]);
    let found = store.remove(&one).unwrap();
    assert_eq!(found.continue_commits, vec![SnapshotId([8; 20])]);
    assert!(store.remove(&one).is_none());
    assert!(!store.contains(&one));
}
