//! Snapshots of the commit graph as plain values, and the records that a page is made of.

use vstd::prelude::*;

use crate::digest::{
    bytes_equal, bytes_less, lemma_lex_asymmetric, lemma_lex_total, lemma_lex_transitive, lex_less,
};
use crate::hex::{encode, to_hex};

verus! {

/// The content hash that names a snapshot.
#[derive(Eq, Hash, Clone, Copy, Debug)]
pub struct SnapshotId(pub [u8; 20]);

impl PartialEq for SnapshotId {
    fn eq(&self, other: &Self) -> (same: bool) {
        bytes_equal(&self.0, &other.0)
    }
}

impl vstd::std_specs::cmp::PartialEqSpecImpl for SnapshotId {
    open spec fn obeys_eq_spec() -> bool {
        true
    }

    open spec fn eq_spec(&self, other: &Self) -> bool {
        *self == *other
    }
}

impl SnapshotId {
    /// The forty lowercase hexadecimal digits of the hash.
    pub fn to_string(&self) -> (text: String)
        ensures
            text@ == encode(self.0@),
    {
        to_hex(&self.0)
    }
}

/// Two identifiers with the same bytes are the same identifier.
pub proof fn lemma_id_by_bytes(a: SnapshotId, b: SnapshotId)
    requires
        a.0@ == b.0@,
    ensures
        a == b,
{
    assert(a.0 =~= b.0);
}

/// What the walker reads of one commit.
#[derive(Debug)]
pub struct Snapshot {
    pub id: SnapshotId,
    /// Commit time in seconds.
    pub time: i64,
    pub parents: Vec<SnapshotId>,
    /// The first paragraph of the message, where the commit has one that can be read.
    pub summary: Option<String>,
}

impl Snapshot {
    /// The snapshot under `id` of a commit made at `time` with the parents `parents` and the
    /// summary `summary`.
    pub fn new(
        id: SnapshotId,
        time: i64,
        parents: Vec<SnapshotId>,
        summary: Option<String>,
    ) -> (snapshot: Snapshot)
        ensures
            snapshot.id == id,
            snapshot.time == time,
            snapshot.parents == parents,
            snapshot.summary == summary,
    {
        Snapshot { id, time, parents, summary }
    }
}

/// A snapshot as a mathematical value.
pub struct SnapshotView {
    pub id: SnapshotId,
    pub time: i64,
    pub parents: Seq<SnapshotId>,
    pub summary: Option<Seq<char>>,
}

impl View for Snapshot {
    type V = SnapshotView;

    open spec fn view(&self) -> SnapshotView {
        SnapshotView {
            id: self.id,
            time: self.time,
            parents: self.parents@,
            summary: match self.summary {
                Some(text) => Some(text@),
                None => None,
            },
        }
    }
}

/// The views of a sequence of snapshots.
pub open spec fn views(snapshots: Seq<Snapshot>) -> Seq<SnapshotView> {
    snapshots.map_values(|s: Snapshot| s@)
}

/// Whether `a` leaves the frontier before `b`: the later commit first, and of two commits of one
/// time the one whose hash comes first byte by byte.
pub open spec fn comes_before(a: SnapshotView, b: SnapshotView) -> bool {
    a.time > b.time || (a.time == b.time && lex_less(a.id.0@, b.id.0@))
}

/// Of two snapshots, at most one leaves before the other.
pub proof fn lemma_before_asymmetric(a: SnapshotView, b: SnapshotView)
    requires
        comes_before(a, b),
    ensures
        !comes_before(b, a),
{
    if a.time == b.time {
        lemma_lex_asymmetric(a.id.0@, b.id.0@);
    }
}

/// Leaving before is transitive.
pub proof fn lemma_before_transitive(a: SnapshotView, b: SnapshotView, c: SnapshotView)
    requires
        comes_before(a, b),
        comes_before(b, c),
    ensures
        comes_before(a, c),
{
    if a.time == b.time && b.time == c.time {
        lemma_lex_transitive(a.id.0@, b.id.0@, c.id.0@);
    }
}

/// Two snapshots neither of which leaves before the other have the same time and hash.
pub proof fn lemma_before_total(a: SnapshotView, b: SnapshotView)
    ensures
        comes_before(a, b) || comes_before(b, a) || (a.time == b.time && a.id == b.id),
{
    if a.time == b.time {
        lemma_lex_total(a.id.0@, b.id.0@);
        if a.id.0@ == b.id.0@ {
            lemma_id_by_bytes(a.id, b.id);
        }
    }
}

/// Where `a` does not leave before `b`, nor `b` before `c`, `a` does not leave before `c`.
pub proof fn lemma_not_before_transitive(a: SnapshotView, b: SnapshotView, c: SnapshotView)
    requires
        !comes_before(a, b),
        !comes_before(b, c),
    ensures
        !comes_before(a, c),
{
    lemma_before_total(a, b);
    lemma_before_total(b, c);
    if comes_before(a, c) {
        if comes_before(b, a) {
            lemma_before_transitive(b, a, c);
        } else if comes_before(c, b) {
            lemma_before_transitive(a, c, b);
        }
    }
}

/// Whether `a` leaves the frontier before `b`.
pub fn leaves_before(a: &Snapshot, b: &Snapshot) -> (before: bool)
    ensures
        before == comes_before(a@, b@),
{
    if a.time > b.time {
        true
    } else if a.time < b.time {
        false
    } else {
        bytes_less(&a.id.0, &b.id.0)
    }
}

/// One entry of a page.
#[derive(Debug)]
pub struct CommitData {
    pub hash: String,
    pub message: String,
    pub parents: Vec<String>,
}

/// An entry of a page as a mathematical value.
pub struct RecordView {
    pub hash: Seq<char>,
    pub message: Seq<char>,
    pub parents: Seq<Seq<char>>,
}

impl View for CommitData {
    type V = RecordView;

    open spec fn view(&self) -> RecordView {
        RecordView {
            hash: self.hash@,
            message: self.message@,
            parents: self.parents@.map_values(|text: String| text@),
        }
    }
}

/// The views of a sequence of records.
pub open spec fn record_views(records: Seq<CommitData>) -> Seq<RecordView> {
    records.map_values(|r: CommitData| r@)
}

/// Whether a snapshot appears on a page: it does where its summary is there and not empty.
pub open spec fn emits(s: SnapshotView) -> bool {
    s.summary matches Some(text) && text.len() > 0
}

/// The record that stands for a snapshot on a page.
pub open spec fn record_of(s: SnapshotView) -> RecordView {
    RecordView {
        hash: encode(s.id.0@),
        message: s.summary->0,
        parents: s.parents.map_values(|p: SnapshotId| encode(p.0@)),
    }
}

/// The record of `snapshot`, or `None` where it has no summary to show.
pub fn emitted_record(snapshot: &Snapshot) -> (record: Option<CommitData>)
    ensures
        record is Some <==> emits(snapshot@),
        record matches Some(r) ==> r@ == record_of(snapshot@),
{
    match &snapshot.summary {
        None => None,
        Some(text) => {
            if text.as_str().is_empty() {
                return None;
            }
            let mut parents: Vec<String> = Vec::new();
            let mut i: usize = 0;
            while i < snapshot.parents.len()
                invariant
                    i <= snapshot.parents.len(),
                    parents@.len() == i,
                    forall|j: int|
                        0 <= j < i ==> (#[trigger] parents@[j])@ == encode(
                            snapshot.parents@[j].0@,
                        ),
                decreases snapshot.parents.len() - i,
            {
                parents.push(snapshot.parents[i].to_string());
                i += 1;
            }
            let record = CommitData {
                hash: snapshot.id.to_string(),
                message: text.clone(),
                parents,
            };
            assert(record@.parents =~= record_of(snapshot@).parents);
            Some(record)
        },
    }
}

} // verus!
