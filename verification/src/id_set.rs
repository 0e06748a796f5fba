//! The set of snapshots that a traversal has examined.

use std::collections::HashMap;
use vstd::prelude::*;
use vstd::relations::injective_on;
use vstd::set_lib::*;
use vstd::std_specs::hash::*;

use crate::digest::{lemma_rank_bound, lemma_rank_injective, rank, space};
use crate::snapshot::{lemma_id_by_bytes, SnapshotId};

verus! {

broadcast use group_hash_axioms;

/// The number that the first eight bytes of a hash spell. Hashes are spread evenly, so this
/// number serves to file them.
pub open spec fn bucket_of(id: SnapshotId) -> u64 {
    let b: Seq<u8> = id.0@;
    (((((((b[0] as int * 256 + b[1] as int) * 256 + b[2] as int) * 256 + b[3] as int) * 256
        + b[4] as int) * 256 + b[5] as int) * 256 + b[6] as int) * 256 + b[7] as int) as u64
}

/// The number under which `id` is filed.
fn bucket_index(id: &SnapshotId) -> (index: u64)
    ensures
        index == bucket_of(*id),
{
    let mut index: u64 = id.0[0] as u64;
    index = index * 256 + id.0[1] as u64;
    index = index * 256 + id.0[2] as u64;
    index = index * 256 + id.0[3] as u64;
    index = index * 256 + id.0[4] as u64;
    index = index * 256 + id.0[5] as u64;
    index = index * 256 + id.0[6] as u64;
    index = index * 256 + id.0[7] as u64;
    index
}

/// Whether `id` stands in `bucket`.
fn bucket_holds(bucket: &Vec<SnapshotId>, id: &SnapshotId) -> (found: bool)
    ensures
        found == bucket@.contains(*id),
{
    let mut i: usize = 0;
    while i < bucket.len()
        invariant
            i <= bucket.len(),
            forall|j: int| 0 <= j < i ==> bucket@[j] != *id,
        decreases bucket.len() - i,
    {
        if bucket[i] == *id {
            return true;
        }
        i += 1;
    }
    false
}

/// Whether `id` stands where it is filed.
spec fn filed(buckets: Map<u64, Vec<SnapshotId>>, id: SnapshotId) -> bool {
    buckets.contains_key(bucket_of(id)) && buckets[bucket_of(id)]@.contains(id)
}

/// A set of snapshot hashes.
pub struct IdSet {
    buckets: HashMap<u64, Vec<SnapshotId>>,
    members: Ghost<Set<SnapshotId>>,
}

impl View for IdSet {
    type V = Set<SnapshotId>;

    closed spec fn view(&self) -> Set<SnapshotId> {
        self.members@
    }
}

impl IdSet {
    /// Whether the stored hashes are exactly the members.
    pub closed spec fn wf(&self) -> bool {
        &&& self.members@.finite()
        &&& forall|id: SnapshotId|
            #![trigger self.members@.contains(id)]
            #![trigger filed(self.buckets@, id)]
            self.members@.contains(id) <==> filed(self.buckets@, id)
    }

    /// A well-formed set is finite.
    pub proof fn lemma_finite(&self)
        requires
            self.wf(),
        ensures
            self@.finite(),
    {
    }

    /// The empty set.
    pub fn new() -> (set: IdSet)
        ensures
            set.wf(),
            set@ == Set::<SnapshotId>::empty(),
    {
        IdSet { buckets: HashMap::new(), members: Ghost(Set::empty()) }
    }

    /// Whether `id` is in the set.
    pub fn contains(&self, id: &SnapshotId) -> (found: bool)
        requires
            self.wf(),
        ensures
            found == self@.contains(*id),
    {
        let index = bucket_index(id);
        let found = match self.buckets.get(&index) {
            None => false,
            Some(bucket) => bucket_holds(bucket, id),
        };
        assert(found == filed(self.buckets@, *id));
        found
    }

    /// Adds `id` to the set, and says whether it was new.
    pub fn insert(&mut self, id: SnapshotId) -> (fresh: bool)
        requires
            old(self).wf(),
        ensures
            final(self).wf(),
            final(self)@ == old(self)@.insert(id),
            fresh == !old(self)@.contains(id),
    {
        if self.contains(&id) {
            assert(self@ =~= old(self)@.insert(id));
            return false;
        }
        let index = bucket_index(&id);
        let mut bucket: Vec<SnapshotId> = match self.buckets.remove(&index) {
            Some(bucket) => bucket,
            None => Vec::new(),
        };
        let ghost before: Seq<SnapshotId> = bucket@;
        bucket.push(id);
        self.buckets.insert(index, bucket);
        self.members = Ghost(self.members@.insert(id));
        proof {
            assert forall|other: SnapshotId|
                self.members@.contains(other) <==> #[trigger] filed(self.buckets@, other) by {
                assert(old(self).members@.contains(other) <==> filed(old(self).buckets@, other));
                if bucket_of(other) == index {
                    let after: Seq<SnapshotId> = self.buckets@[index]@;
                    assert(after == before.push(id));
                    if other == id {
                        assert(after[after.len() - 1] == id);
                    } else if before.contains(other) {
                        let j: int = choose|j: int| 0 <= j < before.len() && before[j] == other;
                        assert(after[j] == other);
                    } else if after.contains(other) {
                        let j: int = choose|j: int| 0 <= j < after.len() && after[j] == other;
                        assert(before[j] == other);
                    }
                    if old(self).buckets@.contains_key(index) {
                        assert(before == old(self).buckets@[index]@);
                    } else {
                        assert(before.len() == 0);
                    }
                } else {
                    if old(self).buckets@.contains_key(bucket_of(other)) {
                        assert(self.buckets@[bucket_of(other)] == old(self).buckets@[bucket_of(
                            other,
                        )]);
                    }
                }
            }
        }
        true
    }
}

/// The hash as a number.
pub open spec fn id_rank(id: SnapshotId) -> int {
    rank(id.0@) as int
}

/// A finite set of hashes holds no more of them than there are.
pub proof fn lemma_id_set_bounded(s: Set<SnapshotId>)
    requires
        s.finite(),
    ensures
        s.len() <= space(20),
{
    let ranks: Set<int> = s.map(|id: SnapshotId| id_rank(id));
    assert(injective_on(|id: SnapshotId| id_rank(id), s)) by {
        assert forall|a: SnapshotId, b: SnapshotId|
            s.contains(a) && s.contains(b) && id_rank(a) == id_rank(b) implies a == b by {
            lemma_rank_injective(a.0@, b.0@);
            lemma_id_by_bytes(a, b);
        }
    }
    lemma_map_size(s, ranks, |id: SnapshotId| id_rank(id));
    lemma_int_range(0, space(20) as int);
    assert(ranks.subset_of(set_int_range(0, space(20) as int))) by {
        assert forall|r: int| ranks.contains(r) implies set_int_range(0, space(20) as int).contains(
            r,
        ) by {
            let id: SnapshotId = choose|id: SnapshotId| s.contains(id) && r == id_rank(id);
            lemma_rank_bound(id.0@);
        }
    }
    lemma_len_subset(ranks, set_int_range(0, space(20) as int));
}

} // verus!
