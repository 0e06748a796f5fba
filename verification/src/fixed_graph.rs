//! What holds of walks while the graph stays as it is: every question for a hash gets the same
//! answer, so a walk is decided by where it starts.

use vstd::prelude::*;

use crate::frontier::{enqueue_all, id_seq, lemma_enqueue_all_holds};
use crate::graph::{fits, found_set, lemma_present_holds, present, Answers};
use crate::hex::lemma_encode_injective;
use crate::process_commits::{
    finished, is_walk, lemma_schedule_holds, questions, run, start_of, step, walk_ends,
    WalkState,
};
use crate::snapshot::{
    emits, lemma_id_by_bytes, record_of, RecordView, SnapshotId, SnapshotView,
};

verus! {

/// A graph: the snapshots that can be found, each under its hash.
pub type Graph = Map<SnapshotId, SnapshotView>;

/// Whether every snapshot of `g` stands under its own hash.
pub open spec fn graph_wf(g: Graph) -> bool {
    forall|id: SnapshotId| g.contains_key(id) ==> (#[trigger] g[id]).id == id
}

/// What `g` answers when asked for `id`.
pub open spec fn answer(g: Graph, id: SnapshotId) -> Option<SnapshotView> {
    if g.contains_key(id) {
        Some(g[id])
    } else {
        None
    }
}

/// What `g` answers when asked for each hash of `ids`.
pub open spec fn asked(g: Graph, ids: Seq<SnapshotId>) -> Answers {
    ids.map_values(|id: SnapshotId| answer(g, id))
}

/// The answers of `g` in the step from `st`.
pub open spec fn graph_answers(g: Graph, st: WalkState) -> Answers {
    asked(g, questions(st))
}

/// Whether `steps` are the answers of a walk from `st` in which `g` gives every answer.
pub open spec fn is_walk_in(g: Graph, st: WalkState, steps: Seq<Answers>, page_size: nat) -> bool {
    &&& is_walk(st, steps, page_size)
    &&& forall|k: int|
        0 <= k < steps.len() ==> #[trigger] steps[k] == graph_answers(g, run(st, steps.take(k)))
}

/// Whether the walk from `st` in `g` ends in `fin`.
pub open spec fn walk_ends_in(g: Graph, st: WalkState, page_size: nat, fin: WalkState) -> bool {
    exists|steps: Seq<Answers>|
        is_walk_in(g, st, steps, page_size) && finished(#[trigger] run(st, steps), page_size)
            && run(st, steps) == fin
}

/// Two walks from one state in one graph agree as far as both go.
proof fn lemma_common_prefix(
    g: Graph,
    st: WalkState,
    one: Seq<Answers>,
    two: Seq<Answers>,
    page_size: nat,
    k: int,
)
    requires
        is_walk_in(g, st, one, page_size),
        is_walk_in(g, st, two, page_size),
        0 <= k <= one.len(),
        k <= two.len(),
    ensures
        one.take(k) == two.take(k),
    decreases k,
{
    if k == 0 {
        assert(one.take(0) =~= two.take(0));
    } else {
        lemma_common_prefix(g, st, one, two, page_size, k - 1);
        assert(one[k - 1] == graph_answers(g, run(st, one.take(k - 1))));
        assert(two[k - 1] == graph_answers(g, run(st, two.take(k - 1))));
        assert(one.take(k) =~= one.take(k - 1).push(one[k - 1]));
        assert(two.take(k) =~= two.take(k - 1).push(two[k - 1]));
    }
}

/// In a graph that stays as it is, a walk is decided by where it starts: two walks from one
/// state with one page size take the same steps and end in the same state, with the same page
/// in the same order.
pub proof fn lemma_walk_deterministic(
    g: Graph,
    st: WalkState,
    one: Seq<Answers>,
    two: Seq<Answers>,
    page_size: nat,
)
    requires
        is_walk_in(g, st, one, page_size),
        finished(run(st, one), page_size),
        is_walk_in(g, st, two, page_size),
        finished(run(st, two), page_size),
    ensures
        one == two,
        run(st, one) == run(st, two),
{
    let k: int = if one.len() <= two.len() {
        one.len() as int
    } else {
        two.len() as int
    };
    lemma_common_prefix(g, st, one, two, page_size, k);
    assert(one.take(one.len() as int) =~= one);
    assert(two.take(two.len() as int) =~= two);
    if one.len() < two.len() {
        assert(!finished(run(st, two.take(k)), page_size));
    } else if two.len() < one.len() {
        assert(!finished(run(st, one.take(k)), page_size));
    }
}

/// In a graph that stays as it is, the walk from a state ends in one state only.
pub proof fn lemma_one_end(g: Graph, st: WalkState, page_size: nat, one: WalkState, two: WalkState)
    requires
        walk_ends_in(g, st, page_size, one),
        walk_ends_in(g, st, page_size, two),
    ensures
        one == two,
{
    let a: Seq<Answers> = choose|steps: Seq<Answers>|
        is_walk_in(g, st, steps, page_size) && finished(#[trigger] run(st, steps), page_size)
            && run(st, steps) == one;
    let b: Seq<Answers> = choose|steps: Seq<Answers>|
        is_walk_in(g, st, steps, page_size) && finished(#[trigger] run(st, steps), page_size)
            && run(st, steps) == two;
    lemma_walk_deterministic(g, st, a, b, page_size);
}

/// Whether `to` is a parent of `from`, and both are in `g`.
pub open spec fn link(g: Graph, from: SnapshotId, to: SnapshotId) -> bool {
    g.contains_key(from) && g.contains_key(to) && g[from].parents.contains(to)
}

/// Whether `path` leads through `g` from parent to parent.
pub open spec fn is_path(g: Graph, path: Seq<SnapshotId>) -> bool {
    &&& path.len() > 0
    &&& g.contains_key(path[0])
    &&& forall|i: int| 0 <= i < path.len() - 1 ==> link(g, #[trigger] path[i], path[i + 1])
}

/// Whether a path leads through `g` from one of `roots` to `x`.
pub open spec fn reachable(g: Graph, roots: Set<SnapshotId>, x: SnapshotId) -> bool {
    exists|path: Seq<SnapshotId>|
        #[trigger] is_path(g, path) && roots.contains(path[0]) && path.last() == x
}

/// What can be reached is in the graph.
pub proof fn lemma_reachable_in_graph(g: Graph, roots: Set<SnapshotId>, x: SnapshotId)
    requires
        reachable(g, roots, x),
    ensures
        g.contains_key(x),
{
    let path: Seq<SnapshotId> = choose|path: Seq<SnapshotId>|
        #[trigger] is_path(g, path) && roots.contains(path[0]) && path.last() == x;
    if path.len() > 1 {
        assert(link(g, path[path.len() - 2], path[path.len() - 2 + 1]));
    }
}

/// A root that is in the graph can be reached.
pub proof fn lemma_root_reachable(g: Graph, roots: Set<SnapshotId>, r: SnapshotId)
    requires
        roots.contains(r),
        g.contains_key(r),
    ensures
        reachable(g, roots, r),
{
    let path: Seq<SnapshotId> = seq![r];
    assert(is_path(g, path));
    assert(path[0] == r && path.last() == r);
}

/// A parent of what can be reached can be reached.
pub proof fn lemma_reach_extends(g: Graph, roots: Set<SnapshotId>, x: SnapshotId, p: SnapshotId)
    requires
        reachable(g, roots, x),
        link(g, x, p),
    ensures
        reachable(g, roots, p),
{
    let path: Seq<SnapshotId> = choose|path: Seq<SnapshotId>|
        #[trigger] is_path(g, path) && roots.contains(path[0]) && path.last() == x;
    let longer: Seq<SnapshotId> = path.push(p);
    assert forall|i: int| 0 <= i < longer.len() - 1 implies link(
        g,
        #[trigger] longer[i],
        longer[i + 1],
    ) by {
        if i < path.len() - 1 {
            assert(link(g, path[i], path[i + 1]));
        }
    }
    assert(is_path(g, longer));
    assert(longer[0] == path[0] && longer.last() == p);
}

/// Snapshots of a well-formed graph with one record are one snapshot.
pub proof fn lemma_record_names_snapshot(g: Graph, x: SnapshotId, y: SnapshotId)
    requires
        graph_wf(g),
        g.contains_key(x),
        g.contains_key(y),
        record_of(g[x]) == record_of(g[y]),
    ensures
        x == y,
{
    assert(g[x].id == x && g[y].id == y);
    lemma_encode_injective(x.0@, y.0@);
    lemma_id_by_bytes(x, y);
}

/// Whether `record` is that of an examined snapshot that has one.
pub open spec fn shows(g: Graph, visited: Set<SnapshotId>, record: RecordView) -> bool {
    exists|x: SnapshotId| #[trigger]
        visited.contains(x) && g.contains_key(x) && emits(g[x]) && record == record_of(g[x])
}

/// What holds of the snapshots of a traversal of `g` from `roots` at every moment, where
/// `visited` are the snapshots examined so far and `waiting` those on the frontier:
/// the waiting snapshots are those of the graph under their hashes, and can be reached;
/// what was examined can be reached;
/// every root was examined or waits;
/// every parent of what was examined was examined or waits.
pub open spec fn explores(
    g: Graph,
    roots: Set<SnapshotId>,
    visited: Set<SnapshotId>,
    waiting: Set<SnapshotView>,
) -> bool {
    &&& forall|s: SnapshotView| #[trigger]
        waiting.contains(s) ==> g.contains_key(s.id) && g[s.id] == s && reachable(g, roots, s.id)
    &&& forall|v: SnapshotId| #[trigger] visited.contains(v) ==> reachable(g, roots, v)
    &&& forall|r: SnapshotId| #[trigger]
        roots.contains(r) && g.contains_key(r) ==> visited.contains(r) || waiting.contains(g[r])
    &&& forall|v: SnapshotId, p: SnapshotId|
        visited.contains(v) && #[trigger] link(g, v, p) ==> visited.contains(p)
            || waiting.contains(g[p])
}

/// What holds of the records of a traversal of `g` at every moment, where `visited` are the
/// snapshots examined so far and `shown` the records of all pages so far: no record was shown
/// twice, each is that of an examined snapshot, and each examined snapshot that has one was
/// shown.
pub open spec fn accounts(g: Graph, visited: Set<SnapshotId>, shown: Seq<RecordView>) -> bool {
    &&& shown.no_duplicates()
    &&& forall|i: int| 0 <= i < shown.len() ==> shows(g, visited, #[trigger] shown[i])
    &&& forall|x: SnapshotId| #[trigger]
        visited.contains(x) && g.contains_key(x) && emits(g[x]) ==> shown.contains(
            record_of(g[x]),
        )
}

/// What holds of a traversal at every moment.
pub open spec fn covers(
    g: Graph,
    roots: Set<SnapshotId>,
    visited: Set<SnapshotId>,
    waiting: Set<SnapshotView>,
    shown: Seq<RecordView>,
) -> bool {
    explores(g, roots, visited, waiting) && accounts(g, visited, shown)
}

/// A queue without its last element holds what it held, but perhaps for the last element.
proof fn lemma_drop_last_holds(q: Seq<SnapshotView>)
    requires
        q.len() > 0,
    ensures
        q.to_set().contains(q.last()),
        q.drop_last().to_set().subset_of(q.to_set()),
        forall|t: SnapshotView| #[trigger]
            q.to_set().contains(t) ==> q.drop_last().to_set().contains(t) || t == q.last(),
{
    let rest: Seq<SnapshotView> = q.drop_last();
    assert(q[q.len() - 1] == q.last());
    assert forall|t: SnapshotView| rest.to_set().contains(t) implies q.to_set().contains(t) by {
        let i: int = choose|i: int| 0 <= i < rest.len() && rest[i] == t;
        assert(q[i] == t);
    }
    assert forall|t: SnapshotView| #[trigger] q.to_set().contains(t) implies rest.to_set().contains(
        t,
    ) || t == q.last() by {
        let i: int = choose|i: int| 0 <= i < q.len() && q[i] == t;
        if i < rest.len() {
            assert(rest[i] == t);
        }
    }
}

/// Taking an examined snapshot off the frontier keeps what holds of the snapshots.
proof fn lemma_drop_explores(
    g: Graph,
    roots: Set<SnapshotId>,
    visited: Set<SnapshotId>,
    was: Set<SnapshotView>,
    now: Set<SnapshotView>,
    s: SnapshotView,
)
    requires
        graph_wf(g),
        explores(g, roots, visited, was),
        was.contains(s),
        visited.contains(s.id),
        now.subset_of(was),
        forall|t: SnapshotView| #[trigger] was.contains(t) ==> now.contains(t) || t == s,
    ensures
        explores(g, roots, visited, now),
{
    assert forall|r: SnapshotId| #[trigger]
        roots.contains(r) && g.contains_key(r) implies visited.contains(r) || now.contains(
        g[r],
    ) by {
        if !visited.contains(r) {
            assert(was.contains(g[r]));
            assert(g[r].id == r);
        }
    }
    assert forall|v: SnapshotId, p: SnapshotId|
        visited.contains(v) && #[trigger] link(g, v, p) implies visited.contains(p)
        || now.contains(g[p]) by {
        if !visited.contains(p) {
            assert(was.contains(g[p]));
            assert(g[p].id == p);
        }
    }
}

/// Examining a snapshot keeps what holds of the snapshots: it counts as examined, and the
/// parents that the graph has join the frontier.
proof fn lemma_examine_explores(
    g: Graph,
    roots: Set<SnapshotId>,
    visited: Set<SnapshotId>,
    was: Set<SnapshotView>,
    rest: Set<SnapshotView>,
    s: SnapshotView,
)
    requires
        graph_wf(g),
        explores(g, roots, visited, was),
        was.contains(s),
        rest.subset_of(was),
        forall|t: SnapshotView| #[trigger] was.contains(t) ==> rest.contains(t) || t == s,
    ensures
        explores(
            g,
            roots,
            visited.insert(s.id),
            rest.union(found_set(asked(g, s.parents))),
        ),
{
    let found: Answers = asked(g, s.parents);
    let seen: Set<SnapshotId> = visited.insert(s.id);
    let now: Set<SnapshotView> = rest.union(found_set(found));
    assert(g.contains_key(s.id) && g[s.id] == s);
    assert forall|t: SnapshotView| #[trigger] now.contains(t) implies g.contains_key(t.id)
        && g[t.id] == t && reachable(g, roots, t.id) by {
        if !rest.contains(t) {
            assert(found.contains(Some(t)));
            let i: int = choose|i: int| 0 <= i < found.len() && found[i] == Some(t);
            let p: SnapshotId = s.parents[i];
            assert(found[i] == answer(g, p));
            assert(g[p].id == p);
            assert(s.parents.contains(p));
            assert(link(g, s.id, p));
            lemma_reach_extends(g, roots, s.id, p);
        } else {
            assert(was.contains(t));
        }
    }
    assert forall|v: SnapshotId| #[trigger] seen.contains(v) implies reachable(g, roots, v) by {}
    assert forall|r: SnapshotId| #[trigger]
        roots.contains(r) && g.contains_key(r) implies seen.contains(r) || now.contains(g[r]) by {
        if !visited.contains(r) {
            assert(was.contains(g[r]));
            assert(g[r].id == r);
        }
    }
    assert forall|v: SnapshotId, p: SnapshotId|
        seen.contains(v) && #[trigger] link(g, v, p) implies seen.contains(p) || now.contains(
        g[p],
    ) by {
        if v == s.id {
            let i: int = choose|i: int| 0 <= i < s.parents.len() && s.parents[i] == p;
            assert(found[i] == Some(g[p]));
            assert(found.contains(Some(g[p])));
            assert(found_set(found).contains(g[p]));
        } else if !visited.contains(p) {
            assert(was.contains(g[p]));
            assert(g[p].id == p);
        }
    }
}

/// Examining a snapshot without a record keeps what holds of the records.
proof fn lemma_silent_accounts(
    g: Graph,
    visited: Set<SnapshotId>,
    shown: Seq<RecordView>,
    x: SnapshotId,
)
    requires
        accounts(g, visited, shown),
        g.contains_key(x) ==> !emits(g[x]),
    ensures
        accounts(g, visited.insert(x), shown),
{
    let seen: Set<SnapshotId> = visited.insert(x);
    assert forall|i: int| 0 <= i < shown.len() implies shows(g, seen, #[trigger] shown[i]) by {
        assert(shows(g, visited, shown[i]));
        let y: SnapshotId = choose|y: SnapshotId| #[trigger]
            visited.contains(y) && g.contains_key(y) && emits(g[y]) && shown[i] == record_of(
                g[y],
            );
        assert(seen.contains(y));
    }
}

/// Examining a new snapshot with a record, and showing the record, keeps what holds of the
/// records.
proof fn lemma_emit_accounts(
    g: Graph,
    visited: Set<SnapshotId>,
    shown: Seq<RecordView>,
    x: SnapshotId,
)
    requires
        graph_wf(g),
        accounts(g, visited, shown),
        !visited.contains(x),
        g.contains_key(x),
        emits(g[x]),
    ensures
        accounts(g, visited.insert(x), shown.push(record_of(g[x]))),
{
    let seen: Set<SnapshotId> = visited.insert(x);
    let record: RecordView = record_of(g[x]);
    let after: Seq<RecordView> = shown.push(record);
    assert forall|i: int| 0 <= i < shown.len() implies shown[i] != record && shows(
        g,
        seen,
        #[trigger] shown[i],
    ) by {
        assert(shows(g, visited, shown[i]));
        let y: SnapshotId = choose|y: SnapshotId| #[trigger]
            visited.contains(y) && g.contains_key(y) && emits(g[y]) && shown[i] == record_of(
                g[y],
            );
        assert(seen.contains(y));
        if shown[i] == record {
            lemma_record_names_snapshot(g, y, x);
        }
    }
    assert(after.no_duplicates());
    assert(seen.contains(x));
    assert(shows(g, seen, record));
    assert forall|i: int| 0 <= i < after.len() implies shows(g, seen, #[trigger] after[i]) by {
        if i < shown.len() {
            assert(after[i] == shown[i]);
        }
    }
    assert forall|y: SnapshotId| #[trigger]
        seen.contains(y) && g.contains_key(y) && emits(g[y]) implies after.contains(
        record_of(g[y]),
    ) by {
        if y == x {
            assert(after[after.len() - 1] == record);
        } else {
            assert(shown.contains(record_of(g[y])));
            let i: int = choose|i: int| 0 <= i < shown.len() && shown[i] == record_of(g[y]);
            assert(after[i] == record_of(g[y]));
        }
    }
}

/// A step in the graph keeps what holds of a traversal.
pub proof fn lemma_step_covers(
    g: Graph,
    roots: Set<SnapshotId>,
    st: WalkState,
    earlier: Seq<RecordView>,
)
    requires
        graph_wf(g),
        st.frontier.len() > 0,
        covers(g, roots, st.visited, st.frontier.to_set(), earlier + st.emitted),
    ensures
        covers(
            g,
            roots,
            step(st, graph_answers(g, st)).visited,
            step(st, graph_answers(g, st)).frontier.to_set(),
            earlier + step(st, graph_answers(g, st)).emitted,
        ),
{
    let s: SnapshotView = st.frontier.last();
    let rest: Seq<SnapshotView> = st.frontier.drop_last();
    let found: Answers = graph_answers(g, st);
    let next: WalkState = step(st, found);
    let shown: Seq<RecordView> = earlier + st.emitted;
    lemma_drop_last_holds(st.frontier);
    if st.visited.contains(s.id) {
        lemma_drop_explores(g, roots, st.visited, st.frontier.to_set(), rest.to_set(), s);
    } else {
        lemma_schedule_holds(rest, found);
        lemma_examine_explores(g, roots, st.visited, st.frontier.to_set(), rest.to_set(), s);
        assert(g.contains_key(s.id) && g[s.id] == s);
        if emits(s) {
            lemma_emit_accounts(g, st.visited, shown, s.id);
            assert(earlier + next.emitted =~= shown.push(record_of(s)));
        } else {
            lemma_silent_accounts(g, st.visited, shown, s.id);
        }
    }
}

/// The steps of a walk in the graph keep what holds of a traversal.
pub proof fn lemma_walk_covers(
    g: Graph,
    roots: Set<SnapshotId>,
    st: WalkState,
    steps: Seq<Answers>,
    page_size: nat,
    earlier: Seq<RecordView>,
)
    requires
        graph_wf(g),
        is_walk_in(g, st, steps, page_size),
        covers(g, roots, st.visited, st.frontier.to_set(), earlier + st.emitted),
    ensures
        covers(
            g,
            roots,
            run(st, steps).visited,
            run(st, steps).frontier.to_set(),
            earlier + run(st, steps).emitted,
        ),
    decreases steps.len(),
{
    if steps.len() > 0 {
        let before: Seq<Answers> = steps.drop_last();
        let k: int = steps.len() - 1;
        assert(steps.take(k) =~= before);
        assert forall|j: int| 0 <= j < before.len() implies !finished(
            #[trigger] run(st, before.take(j)),
            page_size,
        ) && crate::process_commits::answers_fit(run(st, before.take(j)), before[j]) by {
            assert(before.take(j) =~= steps.take(j));
        }
        assert forall|j: int| 0 <= j < before.len() implies #[trigger] before[j] == graph_answers(
            g,
            run(st, before.take(j)),
        ) by {
            assert(before.take(j) =~= steps.take(j));
            assert(steps[j] == graph_answers(g, run(st, steps.take(j))));
        }
        lemma_walk_covers(g, roots, st, before, page_size, earlier);
        let at: WalkState = run(st, before);
        assert(!finished(run(st, steps.take(k)), page_size));
        assert(steps[k] == graph_answers(g, run(st, steps.take(k))));
        lemma_step_covers(g, roots, at, earlier);
    }
}

/// The hashes of `snapshots`.
pub open spec fn ids_of(snapshots: Seq<SnapshotView>) -> Set<SnapshotId> {
    Set::new(
        |id: SnapshotId|
            exists|i: int| 0 <= i < snapshots.len() && #[trigger] snapshots[i].id == id,
    )
}

/// Whether each of `snapshots` is the snapshot of `g` under its hash.
pub open spec fn taken_from(g: Graph, snapshots: Seq<SnapshotView>) -> bool {
    forall|i: int|
        0 <= i < snapshots.len() ==> g.contains_key((#[trigger] snapshots[i]).id)
            && g[snapshots[i].id] == snapshots[i]
}

/// What holds of a traversal holds where its first page starts.
pub proof fn lemma_start_covers(g: Graph, roots: Seq<SnapshotView>)
    requires
        graph_wf(g),
        taken_from(g, roots),
    ensures
        covers(
            g,
            ids_of(roots),
            Set::<SnapshotId>::empty(),
            start_of(roots, Set::<SnapshotId>::empty()).frontier.to_set(),
            Seq::<RecordView>::empty(),
        ),
{
    let start: WalkState = start_of(roots, Set::<SnapshotId>::empty());
    let waiting: Set<SnapshotView> = start.frontier.to_set();
    lemma_enqueue_all_holds(Seq::<SnapshotView>::empty(), roots);
    assert(Seq::<SnapshotView>::empty().to_set() =~= Set::<SnapshotView>::empty());
    assert(waiting =~= roots.to_set());
    assert forall|s: SnapshotView| #[trigger] waiting.contains(s) implies g.contains_key(s.id)
        && g[s.id] == s && reachable(g, ids_of(roots), s.id) by {
        let i: int = choose|i: int| 0 <= i < roots.len() && roots[i] == s;
        assert(roots[i].id == s.id);
        assert(ids_of(roots).contains(s.id));
        lemma_root_reachable(g, ids_of(roots), s.id);
    }
    assert forall|r: SnapshotId| #[trigger]
        ids_of(roots).contains(r) && g.contains_key(r) implies waiting.contains(g[r]) by {
        let i: int = choose|i: int| 0 <= i < roots.len() && #[trigger] roots[i].id == r;
        assert(roots[i] == g[r]);
        assert(roots.contains(g[r]));
    }
}

/// The roots of the page that follows a page which ended in `fin`: what the graph still has
/// under the hashes that the page left.
pub open spec fn resumed_roots(g: Graph, fin: WalkState) -> Seq<SnapshotView> {
    present(asked(g, id_seq(fin.frontier)))
}

/// The page that follows starts with the snapshots waiting that the page before left.
pub proof fn lemma_resume_holds(g: Graph, fin: WalkState)
    requires
        forall|s: SnapshotView| #[trigger]
            fin.frontier.to_set().contains(s) ==> g.contains_key(s.id) && g[s.id] == s,
    ensures
        start_of(resumed_roots(g, fin), fin.visited).frontier.to_set() == fin.frontier.to_set(),
{
    let ids: Seq<SnapshotId> = id_seq(fin.frontier);
    let found: Answers = asked(g, ids);
    let roots: Seq<SnapshotView> = present(found);
    lemma_present_holds(found);
    lemma_enqueue_all_holds(Seq::<SnapshotView>::empty(), roots);
    assert(Seq::<SnapshotView>::empty().to_set() =~= Set::<SnapshotView>::empty());
    let waiting: Set<SnapshotView> = start_of(roots, fin.visited).frontier.to_set();
    assert(waiting =~= found_set(found));
    assert forall|t: SnapshotView| found_set(found).contains(t) <==> fin.frontier.to_set().contains(
        t,
    ) by {
        if found.contains(Some(t)) {
            let i: int = choose|i: int| 0 <= i < found.len() && found[i] == Some(t);
            assert(ids[i] == fin.frontier[i].id);
            assert(fin.frontier.to_set().contains(fin.frontier[i]));
            assert(found[i] == answer(g, ids[i]));
            assert(fin.frontier[i] == t);
        }
        if fin.frontier.contains(t) {
            let i: int = choose|i: int| 0 <= i < fin.frontier.len() && fin.frontier[i] == t;
            assert(fin.frontier.to_set().contains(t));
            assert(ids[i] == t.id);
            assert(found[i] == Some(t));
        }
    }
    assert(waiting =~= fin.frontier.to_set());
}

/// Where page `k` of a traversal starts: the first page at the roots with nothing examined,
/// each later page with what the page before left.
pub open spec fn page_start(
    g: Graph,
    roots: Seq<SnapshotView>,
    pages: Seq<WalkState>,
    k: int,
) -> WalkState {
    if k <= 0 {
        start_of(roots, Set::<SnapshotId>::empty())
    } else {
        start_of(resumed_roots(g, pages[k - 1]), pages[k - 1].visited)
    }
}

/// Whether `pages` are the ends of the successive pages of a traversal of `g` from `roots`.
pub open spec fn is_traversal(
    g: Graph,
    roots: Seq<SnapshotView>,
    pages: Seq<WalkState>,
    page_size: nat,
) -> bool {
    forall|k: int|
        0 <= k < pages.len() ==> walk_ends_in(
            g,
            page_start(g, roots, pages, k),
            page_size,
            #[trigger] pages[k],
        )
}

/// The records of all pages, one page after the other.
pub open spec fn all_shown(pages: Seq<WalkState>) -> Seq<RecordView>
    decreases pages.len(),
{
    if pages.len() == 0 {
        Seq::<RecordView>::empty()
    } else {
        all_shown(pages.drop_last()) + pages.last().emitted
    }
}

/// What holds of a traversal holds after each of its pages.
pub proof fn lemma_traversal_covers(
    g: Graph,
    roots: Seq<SnapshotView>,
    pages: Seq<WalkState>,
    page_size: nat,
)
    requires
        graph_wf(g),
        taken_from(g, roots),
        is_traversal(g, roots, pages, page_size),
        pages.len() > 0,
    ensures
        covers(
            g,
            ids_of(roots),
            pages.last().visited,
            pages.last().frontier.to_set(),
            all_shown(pages),
        ),
    decreases pages.len(),
{
    let k: int = pages.len() - 1;
    let earlier: Seq<WalkState> = pages.drop_last();
    let start: WalkState = page_start(g, roots, pages, k);
    assert(walk_ends_in(g, start, page_size, pages[k]));
    let steps: Seq<Answers> = choose|steps: Seq<Answers>|
        is_walk_in(g, start, steps, page_size) && finished(#[trigger] run(start, steps), page_size)
            && run(start, steps) == pages[k];
    if k == 0 {
        lemma_start_covers(g, roots);
        assert(all_shown(earlier) =~= Seq::<RecordView>::empty());
        assert(all_shown(earlier) + start.emitted =~= Seq::<RecordView>::empty());
    } else {
        assert forall|j: int| 0 <= j < earlier.len() implies walk_ends_in(
            g,
            page_start(g, roots, earlier, j),
            page_size,
            #[trigger] earlier[j],
        ) by {
            assert(pages[j] == earlier[j]);
            if j > 0 {
                assert(pages[j - 1] == earlier[j - 1]);
            }
            assert(page_start(g, roots, earlier, j) == page_start(g, roots, pages, j));
        }
        lemma_traversal_covers(g, roots, earlier, page_size);
        assert(earlier.last() == pages[k - 1]);
        lemma_resume_holds(g, pages[k - 1]);
        assert(all_shown(earlier) + start.emitted =~= all_shown(earlier));
    }
    lemma_walk_covers(g, ids_of(roots), start, steps, page_size, all_shown(earlier));
}

/// Once nothing waits, everything that can be reached was examined.
pub proof fn lemma_closed_holds_path(
    g: Graph,
    roots: Set<SnapshotId>,
    visited: Set<SnapshotId>,
    path: Seq<SnapshotId>,
    upto: int,
)
    requires
        explores(g, roots, visited, Set::<SnapshotView>::empty()),
        is_path(g, path),
        roots.contains(path[0]),
        0 <= upto < path.len(),
    ensures
        visited.contains(path[upto]),
    decreases upto,
{
    if upto > 0 {
        lemma_closed_holds_path(g, roots, visited, path, upto - 1);
        assert(link(g, path[upto - 1], path[upto - 1 + 1]));
    }
}

/// Whether `record` is that of a snapshot that can be reached from `roots` and has a summary.
pub open spec fn owed(g: Graph, roots: Set<SnapshotId>, record: RecordView) -> bool {
    exists|x: SnapshotId| #[trigger]
        reachable(g, roots, x) && emits(g[x]) && record == record_of(g[x])
}

/// Each snapshot is shown exactly once. Where the pages of a traversal of a graph that stays as
/// it is end with nothing left to continue from, the records of all its pages are those of the
/// snapshots that can be reached from the roots and have a summary: none comes twice, each is
/// the record of such a snapshot, and the record of each such snapshot is among them. What was
/// examined is what can be reached.
pub proof fn lemma_exactly_once(
    g: Graph,
    roots: Seq<SnapshotView>,
    pages: Seq<WalkState>,
    page_size: nat,
)
    requires
        graph_wf(g),
        taken_from(g, roots),
        is_traversal(g, roots, pages, page_size),
        pages.len() > 0,
        pages.last().frontier.len() == 0,
    ensures
        all_shown(pages).no_duplicates(),
        forall|x: SnapshotId| #[trigger]
            reachable(g, ids_of(roots), x) <==> pages.last().visited.contains(x),
        forall|x: SnapshotId| #[trigger]
            reachable(g, ids_of(roots), x) && emits(g[x]) ==> all_shown(pages).contains(
                record_of(g[x]),
            ),
        forall|i: int|
            0 <= i < all_shown(pages).len() ==> owed(
                g,
                ids_of(roots),
                #[trigger] all_shown(pages)[i],
            ),
{
    let fin: WalkState = pages.last();
    let shown: Seq<RecordView> = all_shown(pages);
    let from: Set<SnapshotId> = ids_of(roots);
    lemma_traversal_covers(g, roots, pages, page_size);
    assert(fin.frontier.to_set() =~= Set::<SnapshotView>::empty());
    assert forall|x: SnapshotId| #[trigger] reachable(g, from, x) implies fin.visited.contains(
        x,
    ) by {
        let path: Seq<SnapshotId> = choose|path: Seq<SnapshotId>|
            #[trigger] is_path(g, path) && from.contains(path[0]) && path.last() == x;
        lemma_closed_holds_path(g, from, fin.visited, path, path.len() - 1);
    }
    assert forall|x: SnapshotId| #[trigger]
        reachable(g, from, x) && emits(g[x]) implies shown.contains(record_of(g[x])) by {
        lemma_reachable_in_graph(g, from, x);
        assert(fin.visited.contains(x));
    }
    assert forall|i: int| 0 <= i < shown.len() implies owed(g, from, #[trigger] shown[i]) by {
        assert(shows(g, fin.visited, shown[i]));
        let x: SnapshotId = choose|x: SnapshotId| #[trigger]
            fin.visited.contains(x) && g.contains_key(x) && emits(g[x]) && shown[i] == record_of(
                g[x],
            );
        assert(reachable(g, from, x));
    }
}

/// In a graph that stays as it is, a traversal is decided by its roots: two traversals from the
/// same roots with the same page size show the same pages in the same order, as far as both go.
pub proof fn lemma_traversal_deterministic(
    g: Graph,
    roots: Seq<SnapshotView>,
    one: Seq<WalkState>,
    two: Seq<WalkState>,
    page_size: nat,
    k: int,
)
    requires
        is_traversal(g, roots, one, page_size),
        is_traversal(g, roots, two, page_size),
        0 <= k < one.len(),
        k < two.len(),
    ensures
        one[k] == two[k],
    decreases k,
{
    if k > 0 {
        lemma_traversal_deterministic(g, roots, one, two, page_size, k - 1);
    }
    assert(page_start(g, roots, one, k) == page_start(g, roots, two, k));
    lemma_one_end(g, page_start(g, roots, one, k), page_size, one[k], two[k]);
}

/// A walk in a graph is one of the walks that a repository can give: where the walk from `st`
/// in `g` ends in `fin`, there are answers with which the walk from `st` ends in `fin`.
pub proof fn lemma_walk_in_graph_is_walk(g: Graph, st: WalkState, page_size: nat, fin: WalkState)
    requires
        walk_ends_in(g, st, page_size, fin),
    ensures
        walk_ends(st, page_size, fin),
{
    let steps: Seq<Answers> = choose|steps: Seq<Answers>|
        is_walk_in(g, st, steps, page_size) && finished(#[trigger] run(st, steps), page_size)
            && run(st, steps) == fin;
    assert(is_walk(st, steps, page_size) && finished(run(st, steps), page_size) && run(
        st,
        steps,
    ) == fin);
}

/// The pages of a traversal are pages that the queries can give. The first page of a
/// traversal of `g` is a first walk from the roots, and each later page continues the session
/// that the page before it left: the hashes that it left are asked of `g`, and the walk goes on
/// from what `g` still has under them.
pub proof fn lemma_traversal_is_served(
    g: Graph,
    roots: Seq<SnapshotView>,
    pages: Seq<WalkState>,
    page_size: nat,
    k: int,
)
    requires
        graph_wf(g),
        is_traversal(g, roots, pages, page_size),
        0 <= k < pages.len(),
    ensures
        k == 0 ==> walk_ends(start_of(roots, Set::<SnapshotId>::empty()), page_size, pages[k]),
        k > 0 ==> fits(id_seq(pages[k - 1].frontier), asked(g, id_seq(pages[k - 1].frontier)))
            && walk_ends(
            start_of(present(asked(g, id_seq(pages[k - 1].frontier))), pages[k - 1].visited),
            page_size,
            pages[k],
        ),
{
    lemma_walk_in_graph_is_walk(g, page_start(g, roots, pages, k), page_size, pages[k]);
}

} // verus!
