//! The walk that fills one page: snapshots leave the frontier latest first, each is examined
//! once, and its parents are put on the frontier in turn.

use vstd::prelude::*;

use crate::digest::space;
use crate::frontier::{
    enqueue_all, id_seq, insert_sorted, lemma_enqueue_all_ordered, lemma_insert_sorted_holds,
    lemma_insert_sorted_ordered, lemma_last_leaves_first, ordered, Frontier,
};
use crate::graph::{fits, found_set, lemma_found_set_grows, lookup, Answers};
use crate::id_set::{lemma_id_set_bounded, IdSet};
use crate::settings::Settings;
use crate::snapshot::{
    comes_before, emits, emitted_record, record_of, record_views, views, CommitData, RecordView,
    Snapshot, SnapshotId, SnapshotView,
};

verus! {

/// What one walk hands back.
pub struct ProcessCommitsResult {
    /// The page.
    pub commits: Vec<CommitData>,
    /// Every snapshot examined so far, on this page or an earlier one.
    pub checked: IdSet,
    /// The hashes of the snapshots left on the frontier, in leaving order.
    pub continue_: Vec<SnapshotId>,
}

/// A walk at one moment.
pub struct WalkState {
    /// The snapshots that wait; the last one leaves first.
    pub frontier: Seq<SnapshotView>,
    /// The snapshots examined so far.
    pub visited: Set<SnapshotId>,
    /// The page so far.
    pub emitted: Seq<RecordView>,
}

/// The state in which a walk from `roots` starts, given what earlier pages examined.
pub open spec fn start_of(roots: Seq<SnapshotView>, visited: Set<SnapshotId>) -> WalkState {
    WalkState {
        frontier: enqueue_all(Seq::<SnapshotView>::empty(), roots),
        visited,
        emitted: Seq::<RecordView>::empty(),
    }
}

/// `q` after one answer: with the snapshot put in, where one was found.
pub open spec fn put(q: Seq<SnapshotView>, found: Option<SnapshotView>) -> Seq<SnapshotView> {
    match found {
        Some(snapshot) => insert_sorted(q, snapshot),
        None => q,
    }
}

/// `q` after every snapshot that was found was put in, the last one first.
pub open spec fn schedule(q: Seq<SnapshotView>, found: Answers) -> Seq<SnapshotView>
    decreases found.len(),
{
    if found.len() == 0 {
        q
    } else {
        schedule(put(q, found.last()), found.drop_last())
    }
}

/// A queue holds after the parents were put in what it held before, and the parents found.
pub proof fn lemma_schedule_holds(q: Seq<SnapshotView>, found: Answers)
    ensures
        schedule(q, found).to_set() == q.to_set().union(found_set(found)),
    decreases found.len(),
{
    if found.len() == 0 {
        assert(found_set(found) =~= Set::<SnapshotView>::empty());
        assert(q.to_set().union(found_set(found)) =~= q.to_set());
    } else {
        lemma_schedule_holds(put(q, found.last()), found.drop_last());
        lemma_found_set_grows(found);
        match found.last() {
            Some(parent) => {
                lemma_insert_sorted_holds(q, parent);
            },
            None => {},
        }
        assert(schedule(q, found).to_set() =~= q.to_set().union(found_set(found)));
    }
}

/// The hashes that the step from `st` asks the repository for: the parents of the snapshot
/// that leaves first, unless it was examined before.
pub open spec fn questions(st: WalkState) -> Seq<SnapshotId> {
    if st.frontier.len() == 0 || st.visited.contains(st.frontier.last().id) {
        Seq::<SnapshotId>::empty()
    } else {
        st.frontier.last().parents
    }
}

/// One step of the walk. The snapshot that leaves first is taken off the frontier. If it was
/// examined before, nothing else changes. Otherwise it counts as examined from now on, the
/// parents that were found join the frontier, and its record joins the page if it has one.
pub open spec fn step(st: WalkState, found: Answers) -> WalkState {
    let s: SnapshotView = st.frontier.last();
    let rest: Seq<SnapshotView> = st.frontier.drop_last();
    if st.visited.contains(s.id) {
        WalkState { frontier: rest, visited: st.visited, emitted: st.emitted }
    } else {
        WalkState {
            frontier: schedule(rest, found),
            visited: st.visited.insert(s.id),
            emitted: if emits(s) {
                st.emitted.push(record_of(s))
            } else {
                st.emitted
            },
        }
    }
}

/// Whether the page holds a record and as many of them as the page size asks for.
pub open spec fn page_full(st: WalkState, page_size: nat) -> bool {
    st.emitted.len() >= 1 && st.emitted.len() >= page_size
}

/// Whether the walk stops here: nothing waits, or the page is full.
pub open spec fn finished(st: WalkState, page_size: nat) -> bool {
    st.frontier.len() == 0 || page_full(st, page_size)
}

/// Whether `found` can be what the repository answers in the step from `st`: one answer for
/// each parent of a snapshot that is examined, each under the hash asked for, and none for a
/// snapshot that is dropped.
pub open spec fn answers_fit(st: WalkState, found: Answers) -> bool {
    fits(questions(st), found)
}

/// The state after the steps that `steps` gives the answers of, from `st` on.
pub open spec fn run(st: WalkState, steps: Seq<Answers>) -> WalkState
    decreases steps.len(),
{
    if steps.len() == 0 {
        st
    } else {
        step(run(st, steps.drop_last()), steps.last())
    }
}

/// Whether `steps` are the answers of a walk from `st`: no step is taken where the walk stops,
/// and the answers of each step fit the state it is taken from.
pub open spec fn is_walk(st: WalkState, steps: Seq<Answers>, page_size: nat) -> bool {
    forall|k: int|
        0 <= k < steps.len() ==> !finished(#[trigger] run(st, steps.take(k)), page_size)
            && answers_fit(run(st, steps.take(k)), steps[k])
}

/// Whether `result` is what a walk hands back that ends in `st`.
pub open spec fn hands_back(result: ProcessCommitsResult, st: WalkState) -> bool {
    &&& record_views(result.commits@) == st.emitted
    &&& result.checked@ == st.visited
    &&& result.continue_@ == id_seq(st.frontier)
}

/// Whether `steps` are the answers of a walk from `st` that stops after them and hands back
/// `result`.
pub open spec fn walks_to(
    st: WalkState,
    steps: Seq<Answers>,
    page_size: nat,
    result: ProcessCommitsResult,
) -> bool {
    &&& is_walk(st, steps, page_size)
    &&& finished(run(st, steps), page_size)
    &&& hands_back(result, run(st, steps))
}

/// Whether a walk from `st` can end in `fin`: there are answers of the repository with which it
/// does.
pub open spec fn walk_ends(st: WalkState, page_size: nat, fin: WalkState) -> bool {
    exists|steps: Seq<Answers>|
        is_walk(st, steps, page_size) && finished(#[trigger] run(st, steps), page_size) && run(
            st,
            steps,
        ) == fin
}

/// A walk with one more step is a walk, and ends one step further.
pub proof fn lemma_walk_extends(st: WalkState, steps: Seq<Answers>, found: Answers, page_size: nat)
    requires
        is_walk(st, steps, page_size),
        !finished(run(st, steps), page_size),
        answers_fit(run(st, steps), found),
    ensures
        is_walk(st, steps.push(found), page_size),
        run(st, steps.push(found)) == step(run(st, steps), found),
{
    let longer: Seq<Answers> = steps.push(found);
    assert(longer.drop_last() =~= steps);
    assert forall|k: int| 0 <= k < longer.len() implies !finished(
        #[trigger] run(st, longer.take(k)),
        page_size,
    ) && answers_fit(run(st, longer.take(k)), longer[k]) by {
        if k < steps.len() {
            assert(longer.take(k) =~= steps.take(k));
        } else {
            assert(longer.take(k) =~= steps);
        }
    }
}

/// The views of a sequence of answers.
pub open spec fn answer_views(found: Seq<Option<Snapshot>>) -> Answers {
    found.map_values(
        |answer: Option<Snapshot>|
            match answer {
                Some(snapshot) => Some(snapshot@),
                None => None,
            },
    )
}

/// A walk under way: the frontier, what was examined, and the page so far.
pub struct Walk {
    next_refs: Frontier,
    checked: IdSet,
    ret: Vec<CommitData>,
    page_size: usize,
}

impl View for Walk {
    type V = WalkState;

    closed spec fn view(&self) -> WalkState {
        WalkState {
            frontier: self.next_refs@,
            visited: self.checked@,
            emitted: record_views(self.ret@),
        }
    }
}

impl Walk {
    /// Whether the walk is well formed.
    pub closed spec fn wf(&self) -> bool {
        self.checked.wf()
    }

    /// The page size that the walk was started with.
    pub closed spec fn page_size(&self) -> nat {
        self.page_size as nat
    }

    /// What was examined is a finite set.
    pub proof fn lemma_finite(&self)
        requires
            self.wf(),
        ensures
            self@.visited.finite(),
    {
        self.checked.lemma_finite();
    }

    /// A walk from `roots` for a page of `page_size` records that skips what `checked` holds.
    pub fn start(roots: Vec<Snapshot>, page_size: usize, checked: Option<IdSet>) -> (walk: Walk)
        requires
            checked matches Some(set) ==> set.wf(),
        ensures
            walk.wf(),
            walk.page_size() == page_size,
            walk@ == start_of(views(roots@), visited_before(checked)),
    {
        let checked: IdSet = match checked {
            Some(set) => set,
            None => IdSet::new(),
        };
        let walk = Walk {
            next_refs: Frontier::from_roots(roots),
            checked,
            ret: Vec::new(),
            page_size,
        };
        assert(record_views(walk.ret@) =~= Seq::<RecordView>::empty());
        walk
    }

    /// Whether the walk stops here: nothing waits, or the page is full.
    pub fn is_finished(&self) -> (done: bool)
        ensures
            done == finished(self@, self.page_size()),
    {
        self.next_refs.is_empty() || (self.ret.len() >= 1 && self.ret.len() >= self.page_size)
    }

    /// The hashes that the next step asks the repository for.
    pub fn asks(&self) -> (asked: Vec<SnapshotId>)
        requires
            self.wf(),
        ensures
            asked@ == questions(self@),
    {
        let mut asked: Vec<SnapshotId> = Vec::new();
        match self.next_refs.peek() {
            None => {},
            Some(commit) => {
                if !self.checked.contains(&commit.id) {
                    let mut i: usize = 0;
                    while i < commit.parents.len()
                        invariant
                            i <= commit.parents.len(),
                            asked@ == commit.parents@.take(i as int),
                        decreases commit.parents.len() - i,
                    {
                        asked.push(commit.parents[i]);
                        assert(asked@ =~= commit.parents@.take(i as int + 1));
                        i += 1;
                    }
                    assert(commit.parents@.take(i as int) =~= commit.parents@);
                }
            },
        }
        asked
    }

    /// Takes one step with the answers `found`; where nothing waits, nothing changes.
    pub fn advance(&mut self, found: Vec<Option<Snapshot>>)
        requires
            old(self).wf(),
        ensures
            final(self).wf(),
            final(self).page_size() == old(self).page_size(),
            old(self)@.frontier.len() == 0 ==> final(self)@ == old(self)@,
            old(self)@.frontier.len() > 0 ==> final(self)@ == step(
                old(self)@,
                answer_views(found@),
            ),
    {
        let commit: Snapshot = match self.next_refs.pop() {
            Some(commit) => commit,
            None => {
                return ;
            },
        };
        if !self.checked.insert(commit.id) {
            assert(self.checked@ =~= old(self).checked@);
            return ;
        }
        let ghost rest: Seq<SnapshotView> = self.next_refs@;
        let ghost all: Answers = answer_views(found@);
        let ghost seen: Set<SnapshotId> = self.checked@;
        let ghost page: Seq<CommitData> = self.ret@;
        let ghost size: usize = self.page_size;
        let mut found = found;
        while found.len() > 0
            invariant
                schedule(self.next_refs@, answer_views(found@)) == schedule(rest, all),
                self.checked@ == seen,
                self.checked.wf(),
                self.ret@ == page,
                self.page_size == size,
            decreases found.len(),
        {
            let ghost before: Seq<Option<Snapshot>> = found@;
            let answer = found.pop().unwrap();
            proof {
                assert(answer_views(found@) =~= answer_views(before).drop_last());
                assert(answer_views(before).last() == match answer {
                    Some(snapshot) => Some(snapshot@),
                    None => None,
                });
            }
            match answer {
                Some(parent) => {
                    self.next_refs.push(parent);
                },
                None => {},
            }
        }
        match emitted_record(&commit) {
            Some(record) => {
                self.ret.push(record);
                assert(record_views(self.ret@) =~= record_views(page).push(record@));
            },
            None => {},
        }
    }

    /// Ends the walk and hands back what it holds.
    pub fn finish(self) -> (result: ProcessCommitsResult)
        requires
            self.wf(),
        ensures
            result.checked.wf(),
            hands_back(result, self@),
    {
        let Walk { next_refs, checked, ret, page_size } = self;
        ProcessCommitsResult { commits: ret, checked, continue_: next_refs.into_ids() }
    }
}

/// Walks the graph from `head` until the page of `settings.page_size` records is full or
/// nothing is left to examine, skipping what `checked_commits` holds.
///
/// The result is that of the steps of the walk, whatever the repository answered on the way.
/// No page is longer than the page size, but that a page size of nothing still gives a page of
/// one record. What was examined before stays examined, and for each record of the page a
/// snapshot was examined that was not before. Nothing new is examined exactly where every root
/// was examined before. Hashes are left to continue from only where the page is full.
pub fn process_commits(
    repo: &git2::Repository,
    settings: &Settings,
    head: Vec<Snapshot>,
    checked_commits: Option<IdSet>,
) -> (result: ProcessCommitsResult)
    requires
        checked_commits matches Some(checked) ==> checked.wf(),
    ensures
        result.checked.wf(),
        exists|steps: Seq<Answers>|
            walks_to(
                start_of(views(head@), visited_before(checked_commits)),
                steps,
                settings.page_size as nat,
                result,
            ),
        visited_before(checked_commits).subset_of(result.checked@),
        result.checked@.len() >= visited_before(checked_commits).len() + result.commits@.len(),
        result.commits@.len() <= settings.page_size || result.commits@.len() <= 1,
        result.commits@.len() < settings.page_size ==> result.continue_@.len() == 0,
        result.checked@ == visited_before(checked_commits) <==> forall|j: int|
            0 <= j < head@.len() ==> visited_before(checked_commits).contains(
                (#[trigger] head@[j]).id,
            ),
{
    let ghost start: WalkState = start_of(views(head@), visited_before(checked_commits));
    let ghost mut steps: Seq<Answers> = Seq::empty();
    let mut walk = Walk::start(head, settings.page_size, checked_commits);
    proof {
        walk.lemma_finite();
    }
    while !walk.is_finished()
        invariant
            walk.wf(),
            walk.page_size() == settings.page_size,
            start.visited.finite(),
            is_walk(start, steps, settings.page_size as nat),
            run(start, steps) == walk@,
        decreases space(20) - walk@.visited.len(), walk@.frontier.len(),
    {
        proof {
            walk.lemma_finite();
            lemma_id_set_bounded(walk@.visited);
        }
        let asked: Vec<SnapshotId> = walk.asks();
        let mut found: Vec<Option<Snapshot>> = Vec::new();
        let mut i: usize = 0;
        assert(answer_views(found@) =~= Seq::<Option<SnapshotView>>::empty());
        while i < asked.len()
            invariant
                i <= asked.len(),
                fits(asked@.take(i as int), answer_views(found@)),
            decreases asked.len() - i,
        {
            let ghost so_far: Seq<Option<Snapshot>> = found@;
            let answer = lookup(repo, &asked[i]);
            found.push(answer);
            assert(answer_views(found@) =~= answer_views(so_far).push(
                match answer {
                    Some(snapshot) => Some(snapshot@),
                    None => None,
                },
            ));
            i += 1;
        }
        assert(asked@.take(i as int) =~= asked@);
        proof {
            lemma_walk_extends(start, steps, answer_views(found@), settings.page_size as nat);
            steps = steps.push(answer_views(found@));
        }
        walk.advance(found);
        proof {
            walk.lemma_finite();
            lemma_id_set_bounded(walk@.visited);
        }
    }
    proof {
        lemma_walk_grows(start, steps, settings.page_size as nat);
        lemma_page_bound(start, steps, settings.page_size as nat);
        lemma_walk_stands_still(start, steps, settings.page_size as nat);
        lemma_start_waits(views(head@), visited_before(checked_commits));
        let before: Set<SnapshotId> = visited_before(checked_commits);
        let roots: Seq<SnapshotView> = views(head@);
        assert(roots.len() == head@.len());
        if forall|j: int| 0 <= j < roots.len() ==> before.contains((#[trigger] roots[j]).id) {
            assert forall|j: int| 0 <= j < head@.len() implies before.contains(
                (#[trigger] head@[j]).id,
            ) by {
                assert(roots[j].id == head@[j].id);
            }
        }
        if forall|j: int| 0 <= j < head@.len() ==> before.contains((#[trigger] head@[j]).id) {
            assert forall|j: int| 0 <= j < roots.len() implies before.contains(
                (#[trigger] roots[j]).id,
            ) by {
                assert(roots[j].id == head@[j].id);
            }
        }
    }
    let result = walk.finish();
    assert(walks_to(start, steps, settings.page_size as nat, result));
    result
}

/// The snapshots that earlier pages examined: those of `checked`, or none.
pub open spec fn visited_before(checked: Option<IdSet>) -> Set<SnapshotId> {
    match checked {
        Some(checked) => checked@,
        None => Set::<SnapshotId>::empty(),
    }
}

/// A walk with its last step left out is a walk.
pub proof fn lemma_walk_shortens(st: WalkState, steps: Seq<Answers>, page_size: nat)
    requires
        is_walk(st, steps, page_size),
        steps.len() > 0,
    ensures
        is_walk(st, steps.drop_last(), page_size),
        !finished(run(st, steps.drop_last()), page_size),
        answers_fit(run(st, steps.drop_last()), steps.last()),
{
    let before: Seq<Answers> = steps.drop_last();
    assert forall|k: int| 0 <= k < before.len() implies !finished(
        #[trigger] run(st, before.take(k)),
        page_size,
    ) && answers_fit(run(st, before.take(k)), before[k]) by {
        assert(before.take(k) =~= steps.take(k));
    }
    assert(steps.take(steps.len() - 1) =~= before);
}

/// What was examined stays examined. A walk forgets no snapshot, and for each record that it
/// adds to the page it examines a snapshot that was not examined before.
pub proof fn lemma_walk_grows(st: WalkState, steps: Seq<Answers>, page_size: nat)
    requires
        is_walk(st, steps, page_size),
        st.visited.finite(),
    ensures
        st.visited.subset_of(run(st, steps).visited),
        run(st, steps).visited.finite(),
        run(st, steps).emitted.len() >= st.emitted.len(),
        run(st, steps).visited.len() - st.visited.len() >= run(st, steps).emitted.len()
            - st.emitted.len(),
    decreases steps.len(),
{
    if steps.len() > 0 {
        lemma_walk_shortens(st, steps, page_size);
        lemma_walk_grows(st, steps.drop_last(), page_size);
    }
}

/// No page is longer than the page size. A walk that starts with an empty page shows at most
/// as many records as the page size asks for; where that is none, it still shows one.
pub proof fn lemma_page_bound(st: WalkState, steps: Seq<Answers>, page_size: nat)
    requires
        is_walk(st, steps, page_size),
        st.emitted.len() == 0,
    ensures
        run(st, steps).emitted.len() <= page_size || run(st, steps).emitted.len() <= 1,
{
    if steps.len() > 0 {
        lemma_walk_shortens(st, steps, page_size);
    }
}

/// The first steps of a walk are a walk.
pub proof fn lemma_walk_prefix(st: WalkState, steps: Seq<Answers>, page_size: nat, k: int)
    requires
        is_walk(st, steps, page_size),
        0 <= k <= steps.len(),
    ensures
        is_walk(st, steps.take(k), page_size),
    decreases steps.len() - k,
{
    if k == steps.len() {
        assert(steps.take(k) =~= steps);
    } else {
        lemma_walk_prefix(st, steps, page_size, k + 1);
        lemma_walk_shortens(st, steps.take(k + 1), page_size);
        assert(steps.take(k + 1).drop_last() =~= steps.take(k));
    }
}

/// Putting the parents found into a queue in leaving order keeps the order.
pub proof fn lemma_schedule_ordered(q: Seq<SnapshotView>, found: Answers)
    requires
        ordered(q),
    ensures
        ordered(schedule(q, found)),
    decreases found.len(),
{
    if found.len() > 0 {
        match found.last() {
            Some(parent) => {
                lemma_insert_sorted_ordered(q, parent);
            },
            None => {},
        }
        lemma_schedule_ordered(put(q, found.last()), found.drop_last());
    }
}

/// A walk keeps its frontier in leaving order.
pub proof fn lemma_walk_ordered(st: WalkState, steps: Seq<Answers>, page_size: nat)
    requires
        ordered(st.frontier),
        is_walk(st, steps, page_size),
    ensures
        ordered(run(st, steps).frontier),
    decreases steps.len(),
{
    if steps.len() > 0 {
        lemma_walk_shortens(st, steps, page_size);
        lemma_walk_ordered(st, steps.drop_last(), page_size);
        let at: WalkState = run(st, steps.drop_last());
        let rest: Seq<SnapshotView> = at.frontier.drop_last();
        assert(ordered(rest)) by {
            assert forall|i: int, j: int| 0 <= i < j < rest.len() implies !comes_before(
                #[trigger] rest[i],
                #[trigger] rest[j],
            ) by {
                assert(rest[i] == at.frontier[i] && rest[j] == at.frontier[j]);
            }
        }
        lemma_schedule_ordered(rest, steps.last());
    }
}

/// The latest commit comes first. In every step of a walk, the snapshot that is taken off the
/// frontier is one that no waiting snapshot leaves before: none is later, and none of the same
/// time has a hash that comes before its hash. This holds across all roots and all pages,
/// whatever the repository answered.
pub proof fn lemma_walk_takes_latest(
    roots: Seq<SnapshotView>,
    visited: Set<SnapshotId>,
    steps: Seq<Answers>,
    page_size: nat,
    k: int,
    i: int,
)
    requires
        is_walk(start_of(roots, visited), steps, page_size),
        0 <= k < steps.len(),
        0 <= i < run(start_of(roots, visited), steps.take(k)).frontier.len(),
    ensures
        !comes_before(
            run(start_of(roots, visited), steps.take(k)).frontier[i],
            run(start_of(roots, visited), steps.take(k)).frontier.last(),
        ),
{
    let start: WalkState = start_of(roots, visited);
    lemma_enqueue_all_ordered(Seq::<SnapshotView>::empty(), roots);
    lemma_walk_prefix(start, steps, page_size, k);
    lemma_walk_ordered(start, steps.take(k), page_size);
    lemma_last_leaves_first(run(start, steps.take(k)).frontier, i);
}

/// Whether a snapshot under the hash `x` waits in `st`.
pub open spec fn waits(st: WalkState, x: SnapshotId) -> bool {
    exists|i: int| 0 <= i < st.frontier.len() && (#[trigger] st.frontier[i]).id == x
}

/// Whether a step of the walk asked the repository for `x`, as a parent of the snapshot that it
/// examined.
pub open spec fn asked_for(st: WalkState, steps: Seq<Answers>, x: SnapshotId) -> bool {
    exists|k: int|
        0 <= k < steps.len() && (#[trigger] questions(run(st, steps.take(k)))).contains(x)
}

/// What a queue holds without its last element, it held with it.
proof fn lemma_rest_waits(q: Seq<SnapshotView>, t: SnapshotView)
    requires
        q.len() > 0,
        q.drop_last().contains(t),
    ensures
        q.contains(t),
{
    let i: int = choose|i: int| 0 <= i < q.drop_last().len() && q.drop_last()[i] == t;
    assert(q[i] == t);
}

/// Whether `x` waited when the walk started, or a step asked for it as a parent.
pub open spec fn root_or_parent(st: WalkState, steps: Seq<Answers>, x: SnapshotId) -> bool {
    waits(st, x) || asked_for(st, steps, x)
}

/// What was asked for in the first steps of a walk was asked for in the walk.
proof fn lemma_asked_for_stays(st: WalkState, steps: Seq<Answers>, x: SnapshotId)
    requires
        steps.len() > 0,
        root_or_parent(st, steps.drop_last(), x),
    ensures
        root_or_parent(st, steps, x),
{
    let before: Seq<Answers> = steps.drop_last();
    if asked_for(st, before, x) {
        let j: int = choose|j: int|
            0 <= j < before.len() && (#[trigger] questions(run(st, before.take(j)))).contains(x);
        assert(before.take(j) =~= steps.take(j));
        assert(questions(run(st, steps.take(j))).contains(x));
    }
}

/// Whatever is examined or waits was a root or a parent. Every hash that a walk examines, and
/// every hash that waits when it ends, is one that waited when the walk started or one that a
/// step asked for as a parent of an examined snapshot.
pub proof fn lemma_walk_origin(st: WalkState, steps: Seq<Answers>, page_size: nat)
    requires
        is_walk(st, steps, page_size),
    ensures
        forall|x: SnapshotId| #[trigger]
            run(st, steps).visited.contains(x) && !st.visited.contains(x) ==> root_or_parent(
                st,
                steps,
                x,
            ),
        forall|x: SnapshotId| #[trigger] waits(run(st, steps), x) ==> root_or_parent(st, steps, x),
    decreases steps.len(),
{
    if steps.len() > 0 {
        let before: Seq<Answers> = steps.drop_last();
        let found: Answers = steps.last();
        let at: WalkState = run(st, before);
        let after: WalkState = run(st, steps);
        let k: int = steps.len() - 1;
        lemma_walk_shortens(st, steps, page_size);
        lemma_walk_origin(st, before, page_size);
        assert(steps.take(k) =~= before);
        let s: SnapshotView = at.frontier.last();
        let rest: Seq<SnapshotView> = at.frontier.drop_last();
        assert(at.frontier[at.frontier.len() - 1] == s);
        assert(waits(at, s.id));
        assert(root_or_parent(st, before, s.id));
        lemma_asked_for_stays(st, steps, s.id);
        assert forall|x: SnapshotId| #[trigger]
            after.visited.contains(x) && !st.visited.contains(x) implies root_or_parent(
            st,
            steps,
            x,
        ) by {
            if at.visited.contains(x) {
                assert(root_or_parent(st, before, x));
                lemma_asked_for_stays(st, steps, x);
            } else {
                assert(x == s.id);
            }
        }
        assert forall|x: SnapshotId| #[trigger] waits(after, x) implies root_or_parent(
            st,
            steps,
            x,
        ) by {
            let i: int = choose|i: int|
                0 <= i < after.frontier.len() && (#[trigger] after.frontier[i]).id == x;
            let t: SnapshotView = after.frontier[i];
            assert(after.frontier.contains(t));
            if !at.visited.contains(s.id) {
                lemma_schedule_holds(rest, found);
                assert(after.frontier.to_set().contains(t));
            }
            if at.visited.contains(s.id) || rest.to_set().contains(t) {
                lemma_rest_waits(at.frontier, t);
                let m: int = choose|m: int| 0 <= m < at.frontier.len() && at.frontier[m] == t;
                assert(at.frontier[m].id == x);
                assert(waits(at, x));
                assert(root_or_parent(st, before, x));
                lemma_asked_for_stays(st, steps, x);
            } else {
                assert(found.contains(Some(t)));
                let j: int = choose|j: int| 0 <= j < found.len() && found[j] == Some(t);
                assert(questions(at)[j] == x);
                assert(questions(run(st, steps.take(k))).contains(x));
                assert(asked_for(st, steps, x));
            }
        }
    }
}

/// Whether every snapshot that waits in `st` was examined before.
pub open spec fn all_examined(st: WalkState) -> bool {
    forall|i: int|
        0 <= i < st.frontier.len() ==> st.visited.contains((#[trigger] st.frontier[i]).id)
}

/// A walk from a state in which everything that waits was examined examines nothing.
pub proof fn lemma_walk_of_examined(st: WalkState, steps: Seq<Answers>, page_size: nat)
    requires
        is_walk(st, steps, page_size),
        all_examined(st),
    ensures
        run(st, steps).visited == st.visited,
        run(st, steps).emitted == st.emitted,
        all_examined(run(st, steps)),
    decreases steps.len(),
{
    if steps.len() > 0 {
        lemma_walk_shortens(st, steps, page_size);
        lemma_walk_of_examined(st, steps.drop_last(), page_size);
        let at: WalkState = run(st, steps.drop_last());
        assert(at.frontier[at.frontier.len() - 1] == at.frontier.last());
        assert forall|i: int| 0 <= i < at.frontier.drop_last().len() implies at.visited.contains(
            (#[trigger] at.frontier.drop_last()[i]).id,
        ) by {
            assert(at.frontier.drop_last()[i] == at.frontier[i]);
        }
    }
}

/// A walk that examines nothing leaves waiting whatever waited and was not examined before.
pub proof fn lemma_walk_that_stands(st: WalkState, steps: Seq<Answers>, page_size: nat)
    requires
        is_walk(st, steps, page_size),
        st.visited.finite(),
        run(st, steps).visited == st.visited,
    ensures
        run(st, steps).emitted == st.emitted,
        forall|i: int|
            0 <= i < st.frontier.len() && !st.visited.contains((#[trigger] st.frontier[i]).id)
                ==> run(st, steps).frontier.contains(st.frontier[i]),
    decreases steps.len(),
{
    if steps.len() == 0 {
        assert forall|i: int| 0 <= i < st.frontier.len() implies st.frontier.contains(
            #[trigger] st.frontier[i],
        ) by {}
    } else {
        let before: Seq<Answers> = steps.drop_last();
        let at: WalkState = run(st, before);
        lemma_walk_shortens(st, steps, page_size);
        lemma_walk_grows(st, before, page_size);
        assert(at.visited.subset_of(run(st, steps).visited)) by {
            let s: SnapshotView = at.frontier.last();
        }
        assert(at.visited =~= st.visited);
        lemma_walk_that_stands(st, before, page_size);
        let s: SnapshotView = at.frontier.last();
        if !at.visited.contains(s.id) {
            assert(run(st, steps).visited.contains(s.id));
        }
        assert forall|i: int|
            0 <= i < st.frontier.len() && !st.visited.contains(
                (#[trigger] st.frontier[i]).id,
            ) implies run(st, steps).frontier.contains(st.frontier[i]) by {
            let t: SnapshotView = st.frontier[i];
            assert(at.frontier.contains(t));
            let m: int = choose|m: int| 0 <= m < at.frontier.len() && at.frontier[m] == t;
            assert(m < at.frontier.len() - 1);
            assert(at.frontier.drop_last()[m] == t);
        }
    }
}

/// Nothing new is examined exactly where nothing new waits. A walk that starts with an empty
/// page and has ended has examined nothing exactly where every snapshot that waited at its
/// start was examined before.
pub proof fn lemma_walk_stands_still(st: WalkState, steps: Seq<Answers>, page_size: nat)
    requires
        is_walk(st, steps, page_size),
        finished(run(st, steps), page_size),
        st.visited.finite(),
        st.emitted.len() == 0,
    ensures
        run(st, steps).visited == st.visited <==> all_examined(st),
{
    if all_examined(st) {
        lemma_walk_of_examined(st, steps, page_size);
    }
    if run(st, steps).visited == st.visited {
        lemma_walk_that_stands(st, steps, page_size);
        assert(run(st, steps).frontier.len() == 0);
        assert forall|i: int| 0 <= i < st.frontier.len() implies st.visited.contains(
            (#[trigger] st.frontier[i]).id,
        ) by {
            if !st.visited.contains(st.frontier[i].id) {
                assert(run(st, steps).frontier.contains(st.frontier[i]));
            }
        }
    }
}

/// The snapshots that wait at the start of a walk are its roots.
pub proof fn lemma_start_waits(roots: Seq<SnapshotView>, visited: Set<SnapshotId>)
    ensures
        forall|x: SnapshotId|
            #[trigger] waits(start_of(roots, visited), x) <==> exists|j: int|
                0 <= j < roots.len() && (#[trigger] roots[j]).id == x,
        all_examined(start_of(roots, visited)) <==> forall|j: int|
            0 <= j < roots.len() ==> visited.contains((#[trigger] roots[j]).id),
{
    let start: WalkState = start_of(roots, visited);
    crate::frontier::lemma_enqueue_all_holds(Seq::<SnapshotView>::empty(), roots);
    assert(Seq::<SnapshotView>::empty().to_set() =~= Set::<SnapshotView>::empty());
    assert(start.frontier.to_set() =~= roots.to_set());
    assert forall|x: SnapshotId| #[trigger] waits(start, x) <==> exists|j: int|
        0 <= j < roots.len() && (#[trigger] roots[j]).id == x by {
        if waits(start, x) {
            let i: int = choose|i: int|
                0 <= i < start.frontier.len() && (#[trigger] start.frontier[i]).id == x;
            let t: SnapshotView = start.frontier[i];
            assert(start.frontier.to_set().contains(t));
            assert(roots.contains(t));
            let j: int = choose|j: int| 0 <= j < roots.len() && roots[j] == t;
            assert(roots[j].id == x);
        }
        if exists|j: int| 0 <= j < roots.len() && (#[trigger] roots[j]).id == x {
            let j: int = choose|j: int| 0 <= j < roots.len() && (#[trigger] roots[j]).id == x;
            assert(roots.to_set().contains(roots[j]));
            assert(start.frontier.contains(roots[j]));
            let i: int = choose|i: int|
                0 <= i < start.frontier.len() && start.frontier[i] == roots[j];
            assert(start.frontier[i].id == x);
        }
    }
    if all_examined(start) {
        assert forall|j: int| 0 <= j < roots.len() implies visited.contains(
            (#[trigger] roots[j]).id,
        ) by {
            assert(roots.to_set().contains(roots[j]));
            assert(start.frontier.contains(roots[j]));
            let i: int = choose|i: int|
                0 <= i < start.frontier.len() && start.frontier[i] == roots[j];
            assert(visited.contains(start.frontier[i].id));
        }
    }
    if forall|j: int| 0 <= j < roots.len() ==> visited.contains((#[trigger] roots[j]).id) {
        assert forall|i: int| 0 <= i < start.frontier.len() implies start.visited.contains(
            (#[trigger] start.frontier[i]).id,
        ) by {
            let t: SnapshotView = start.frontier[i];
            assert(start.frontier.to_set().contains(t));
            assert(roots.contains(t));
            let j: int = choose|j: int| 0 <= j < roots.len() && roots[j] == t;
            assert(visited.contains(roots[j].id));
        }
    }
}

} // verus!
