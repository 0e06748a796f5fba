//! The frontier of a walk: the snapshots that wait to be examined, in the order in which they
//! leave.

use vstd::prelude::*;

use crate::snapshot::{
    comes_before, leaves_before, lemma_before_asymmetric, lemma_not_before_transitive, views,
    Snapshot, SnapshotId, SnapshotView,
};

verus! {

/// Whether `q` is in leaving order: the last element leaves first, and no element leaves before
/// one that stands behind it.
pub open spec fn ordered(q: Seq<SnapshotView>) -> bool {
    forall|i: int, j: int| 0 <= i < j < q.len() ==> !comes_before(#[trigger] q[i], #[trigger] q[j])
}

/// The first place at or after `from` whose element `s` does not leave before, or the length of
/// `q` where there is none.
pub open spec fn slot_from(q: Seq<SnapshotView>, s: SnapshotView, from: int) -> int
    decreases q.len() - from,
{
    if from < 0 || from >= q.len() {
        q.len() as int
    } else if !comes_before(s, q[from]) {
        from
    } else {
        slot_from(q, s, from + 1)
    }
}

/// Where `s` goes into `q`: behind every element of the leading run that it leaves before. Of
/// snapshots with one time and one hash, the one that came in first leaves first.
pub open spec fn slot(q: Seq<SnapshotView>, s: SnapshotView) -> int {
    slot_from(q, s, 0)
}

/// `q` with `s` put in its place.
pub open spec fn insert_sorted(q: Seq<SnapshotView>, s: SnapshotView) -> Seq<SnapshotView> {
    q.insert(slot(q, s), s)
}

/// `q` after each element of `items` was put in, the last one first.
pub open spec fn enqueue_all(q: Seq<SnapshotView>, items: Seq<SnapshotView>) -> Seq<SnapshotView>
    decreases items.len(),
{
    if items.len() == 0 {
        q
    } else {
        enqueue_all(insert_sorted(q, items.last()), items.drop_last())
    }
}

/// The slot lies in range, `s` leaves before everything between `from` and it, and not before
/// the element at it.
pub proof fn lemma_slot_from(q: Seq<SnapshotView>, s: SnapshotView, from: int)
    requires
        0 <= from <= q.len(),
    ensures
        from <= slot_from(q, s, from) <= q.len(),
        forall|i: int| from <= i < slot_from(q, s, from) ==> comes_before(s, #[trigger] q[i]),
        slot_from(q, s, from) < q.len() ==> !comes_before(s, q[slot_from(q, s, from)]),
    decreases q.len() - from,
{
    if from < q.len() && comes_before(s, q[from]) {
        lemma_slot_from(q, s, from + 1);
    }
}

/// Putting a snapshot into a queue in leaving order keeps the order.
pub proof fn lemma_insert_sorted_ordered(q: Seq<SnapshotView>, s: SnapshotView)
    requires
        ordered(q),
    ensures
        ordered(insert_sorted(q, s)),
        insert_sorted(q, s).len() == q.len() + 1,
{
    let p: int = slot(q, s);
    lemma_slot_from(q, s, 0);
    let r: Seq<SnapshotView> = insert_sorted(q, s);
    assert forall|i: int, j: int| 0 <= i < j < r.len() implies !comes_before(
        #[trigger] r[i],
        #[trigger] r[j],
    ) by {
        if j == p {
            assert(r[i] == q[i]);
            lemma_before_asymmetric(s, q[i]);
        } else if i == p {
            assert(r[j] == q[j - 1]);
            if j - 1 > p {
                lemma_not_before_transitive(s, q[p], q[j - 1]);
            }
        } else {
            let a: int = if i < p { i } else { i - 1 };
            let b: int = if j < p { j } else { j - 1 };
            assert(r[i] == q[a] && r[j] == q[b]);
        }
    }
}

/// Putting snapshots into a queue in leaving order keeps the order.
pub proof fn lemma_enqueue_all_ordered(q: Seq<SnapshotView>, items: Seq<SnapshotView>)
    requires
        ordered(q),
    ensures
        ordered(enqueue_all(q, items)),
        enqueue_all(q, items).len() == q.len() + items.len(),
    decreases items.len(),
{
    if items.len() > 0 {
        lemma_insert_sorted_ordered(q, items.last());
        lemma_enqueue_all_ordered(insert_sorted(q, items.last()), items.drop_last());
    }
}

/// A queue holds after an insertion what it held before, and what was put in.
pub proof fn lemma_insert_sorted_holds(q: Seq<SnapshotView>, s: SnapshotView)
    ensures
        insert_sorted(q, s).to_set() == q.to_set().insert(s),
{
    let p: int = slot(q, s);
    lemma_slot_from(q, s, 0);
    let r: Seq<SnapshotView> = insert_sorted(q, s);
    assert forall|t: SnapshotView| r.to_set().contains(t) <==> q.to_set().insert(s).contains(
        t,
    ) by {
        if r.contains(t) {
            let i: int = choose|i: int| 0 <= i < r.len() && r[i] == t;
            if i < p {
                assert(q[i] == t);
            } else if i > p {
                assert(q[i - 1] == t);
            }
        }
        if q.contains(t) {
            let j: int = choose|j: int| 0 <= j < q.len() && q[j] == t;
            if j < p {
                assert(r[j] == t);
            } else {
                assert(r[j + 1] == t);
            }
        }
        if t == s {
            assert(r[p] == s);
        }
    }
    assert(r.to_set() =~= q.to_set().insert(s));
}

/// A queue holds after several insertions what it held before, and what was put in.
pub proof fn lemma_enqueue_all_holds(q: Seq<SnapshotView>, items: Seq<SnapshotView>)
    ensures
        enqueue_all(q, items).to_set() == q.to_set().union(items.to_set()),
    decreases items.len(),
{
    if items.len() == 0 {
        assert(items.to_set() =~= Set::<SnapshotView>::empty());
        assert(q.to_set().union(items.to_set()) =~= q.to_set());
    } else {
        let last: SnapshotView = items.last();
        let rest: Seq<SnapshotView> = items.drop_last();
        lemma_insert_sorted_holds(q, last);
        lemma_enqueue_all_holds(insert_sorted(q, last), rest);
        assert forall|t: SnapshotView| items.to_set().contains(t) <==> rest.to_set().contains(t)
            || t == last by {
            if items.contains(t) {
                let i: int = choose|i: int| 0 <= i < items.len() && items[i] == t;
                if i < rest.len() {
                    assert(rest[i] == t);
                }
            }
            if rest.contains(t) {
                let i: int = choose|i: int| 0 <= i < rest.len() && rest[i] == t;
                assert(items[i] == t);
            }
            if t == last {
                assert(items[items.len() - 1] == t);
            }
        }
        assert(enqueue_all(q, items).to_set() =~= q.to_set().union(items.to_set()));
    }
}

/// In a queue in leaving order nothing leaves before the last element.
pub proof fn lemma_last_leaves_first(q: Seq<SnapshotView>, i: int)
    requires
        ordered(q),
        0 <= i < q.len(),
    ensures
        !comes_before(q[i], q.last()),
{
    if i == q.len() - 1 {
        if comes_before(q[i], q[i]) {
            lemma_before_asymmetric(q[i], q[i]);
        }
    }
}

/// The snapshots that wait to be examined. The same snapshot may wait more than once.
pub struct Frontier {
    items: Vec<Snapshot>,
}

impl View for Frontier {
    type V = Seq<SnapshotView>;

    /// The waiting snapshots; the last one leaves first.
    closed spec fn view(&self) -> Seq<SnapshotView> {
        views(self.items@)
    }
}

impl Frontier {
    /// A frontier in which nothing waits.
    pub fn new() -> (frontier: Frontier)
        ensures
            frontier@ == Seq::<SnapshotView>::empty(),
    {
        let frontier = Frontier { items: Vec::new() };
        assert(frontier@ =~= Seq::<SnapshotView>::empty());
        frontier
    }

    /// A frontier in which the snapshots of `roots` wait.
    pub fn from_roots(roots: Vec<Snapshot>) -> (frontier: Frontier)
        ensures
            frontier@ == enqueue_all(Seq::<SnapshotView>::empty(), views(roots@)),
    {
        let mut roots = roots;
        let mut frontier = Frontier::new();
        let ghost all: Seq<SnapshotView> = views(roots@);
        while roots.len() > 0
            invariant
                enqueue_all(frontier@, views(roots@)) == enqueue_all(
                    Seq::<SnapshotView>::empty(),
                    all,
                ),
            decreases roots.len(),
        {
            let ghost before: Seq<Snapshot> = roots@;
            let root = roots.pop().unwrap();
            assert(views(roots@) =~= views(before).drop_last());
            assert(views(before).last() == root@);
            frontier.push(root);
        }
        assert(views(roots@).len() == 0);
        frontier
    }

    /// How many snapshots wait.
    pub fn len(&self) -> (n: usize)
        ensures
            n == self@.len(),
    {
        self.items.len()
    }

    /// Whether nothing waits.
    pub fn is_empty(&self) -> (empty: bool)
        ensures
            empty == (self@.len() == 0),
    {
        self.items.len() == 0
    }

    /// The snapshot that leaves first, if any waits.
    pub fn peek(&self) -> (next: Option<&Snapshot>)
        ensures
            self@.len() == 0 ==> next is None,
            self@.len() > 0 ==> next is Some && next->0@ == self@.last(),
    {
        if self.items.len() == 0 {
            None
        } else {
            Some(&self.items[self.items.len() - 1])
        }
    }

    /// Puts `snapshot` in its place among the waiting ones.
    pub fn push(&mut self, snapshot: Snapshot)
        ensures
            final(self)@ == insert_sorted(old(self)@, snapshot@),
    {
        let ghost q: Seq<SnapshotView> = self@;
        let mut at: usize = 0;
        while at < self.items.len() && leaves_before(&snapshot, &self.items[at])
            invariant
                at <= self.items.len(),
                self@ == q,
                slot_from(q, snapshot@, at as int) == slot(q, snapshot@),
            decreases self.items.len() - at,
        {
            assert(q[at as int] == self.items@[at as int]@);
            at += 1;
        }
        proof {
            if at < self.items.len() {
                assert(q[at as int] == self.items@[at as int]@);
            }
            assert(slot(q, snapshot@) == at);
        }
        self.items.insert(at, snapshot);
        assert(self@ =~= q.insert(at as int, snapshot@));
    }

    /// Takes out the snapshot that leaves first, if any waits.
    pub fn pop(&mut self) -> (next: Option<Snapshot>)
        ensures
            old(self)@.len() == 0 ==> next is None && final(self)@ == old(self)@,
            old(self)@.len() > 0 ==> next is Some && next->0@ == old(self)@.last() && final(self)@
                == old(self)@.drop_last(),
    {
        let next = self.items.pop();
        proof {
            if old(self)@.len() > 0 {
                assert(self@ =~= old(self)@.drop_last());
            } else {
                assert(self@ =~= old(self)@);
            }
        }
        next
    }

    /// The hashes of the waiting snapshots, in leaving order.
    pub fn into_ids(self) -> (ids: Vec<SnapshotId>)
        ensures
            ids@ == id_seq(self@),
    {
        let mut ids: Vec<SnapshotId> = Vec::new();
        let mut i: usize = 0;
        while i < self.items.len()
            invariant
                i <= self.items.len(),
                ids@ == id_seq(self@.take(i as int)),
            decreases self.items.len() - i,
        {
            ids.push(self.items[i].id);
            assert(ids@ =~= id_seq(self@.take(i as int + 1)));
            i += 1;
        }
        assert(self@.take(i as int) =~= self@);
        ids
    }
}

/// The hashes of a sequence of snapshots.
pub open spec fn id_seq(q: Seq<SnapshotView>) -> Seq<SnapshotId> {
    q.map_values(|s: SnapshotView| s.id)
}

} // verus!
