//! Session identifiers and the traversal state kept between pages.

use vstd::prelude::*;

use crate::digest::bytes_equal;
use crate::error::QueryError;
use crate::hex::{decode, encode, from_hex, is_lower_hex, lemma_decode_encode, to_hex};
use crate::id_set::IdSet;
use crate::snapshot::SnapshotId;

verus! {

/// Names one resumable traversal: twenty bytes, sent as forty hexadecimal digits.
#[derive(Eq, Hash, Clone, Copy, Debug)]
pub struct SessionId(pub [u8; 20]);

impl PartialEq for SessionId {
    fn eq(&self, other: &Self) -> (same: bool) {
        bytes_equal(&self.0, &other.0)
    }
}

impl vstd::std_specs::cmp::PartialEqSpecImpl for SessionId {
    open spec fn obeys_eq_spec() -> bool {
        true
    }

    open spec fn eq_spec(&self, other: &Self) -> bool {
        *self == *other
    }
}

/// Whether `text` spells a session identifier: at most forty lowercase hexadecimal digits.
pub open spec fn spells_session(text: Seq<char>) -> bool {
    text.len() <= 40 && is_lower_hex(text)
}

/// The identifier that `text` spells.
pub open spec fn spelled(text: Seq<char>) -> SessionId {
    choose|id: SessionId| id.0@ == decode(text, 20)
}

/// An identifier is the one that a text spells where its bytes are those that the text spells.
pub proof fn lemma_spelled(text: Seq<char>, id: SessionId)
    requires
        id.0@ == decode(text, 20),
    ensures
        spelled(text) == id,
{
    let other: SessionId = spelled(text);
    assert(other.0@ == id.0@);
    assert(other.0 =~= id.0);
}

/// Reading the text of an identifier gives the identifier back.
pub proof fn lemma_round_trip(id: SessionId)
    ensures
        encode(id.0@).len() == 40,
        spells_session(encode(id.0@)),
        decode(encode(id.0@), 20) == id.0@,
        spelled(encode(id.0@)) == id,
{
    lemma_decode_encode(id.0@);
    lemma_spelled(encode(id.0@), id);
}

impl SessionId {
    /// The forty lowercase hexadecimal digits of the identifier.
    pub fn to_string(&self) -> (text: String)
        ensures
            text@ == encode(self.0@),
    {
        to_hex(&self.0)
    }

    /// The identifier that `text` spells, where `text` holds at most forty lowercase hexadecimal
    /// digits; digits that it is too short to hold count as zero.
    pub fn from(text: &str) -> (id: SessionId)
        requires
            spells_session(text@),
        ensures
            id.0@ == decode(text@, 20),
            id == spelled(text@),
    {
        let id = match from_hex(text) {
            Some(bytes) => SessionId(bytes),
            None => SessionId([0u8; 20]),
        };
        proof {
            lemma_spelled(text@, id);
        }
        id
    }

    /// The identifier that `text` spells, or `None` where `text` is longer than forty characters
    /// or holds anything but lowercase hexadecimal digits.
    pub fn parse(text: &str) -> (id: Option<SessionId>)
        ensures
            id is Some <==> spells_session(text@),
            id matches Some(found) ==> found.0@ == decode(text@, 20) && found == spelled(text@),
    {
        match from_hex(text) {
            Some(bytes) => {
                let id = SessionId(bytes);
                proof {
                    lemma_spelled(text@, id);
                }
                Some(id)
            },
            None => None,
        }
    }
}

/// A fresh identifier from `rand::random`: any twenty bytes may come.
#[verifier::external_body]
pub(crate) fn random_session_id() -> (id: SessionId) {
    SessionId(rand::random())
}

/// What is kept of a traversal between two pages.
pub struct Session {
    /// Every snapshot examined so far.
    pub checked_commits: IdSet,
    /// The hashes left on the frontier when the last page was cut, in leaving order.
    pub continue_commits: Vec<SnapshotId>,
    /// How many pages followed the first one.
    pub sent_pages: usize,
}

/// A session as a mathematical value.
pub struct SessionView {
    pub visited: Set<SnapshotId>,
    pub continuation: Seq<SnapshotId>,
    pub sent_pages: nat,
}

impl View for Session {
    type V = SessionView;

    open spec fn view(&self) -> SessionView {
        SessionView {
            visited: self.checked_commits@,
            continuation: self.continue_commits@,
            sent_pages: self.sent_pages as nat,
        }
    }
}

/// The page count after one more page: one more, as far as the machine can count.
pub open spec fn counted(sent_pages: nat) -> nat {
    if sent_pages < usize::MAX {
        sent_pages + 1
    } else {
        sent_pages
    }
}

/// A session of the store under its identifier.
struct Entry {
    id: SessionId,
    session: Session,
}

/// The sessions of a server, each under its identifier.
pub struct SessionStore {
    entries: Vec<Entry>,
    sessions: Ghost<Map<SessionId, SessionView>>,
}

impl View for SessionStore {
    type V = Map<SessionId, SessionView>;

    closed spec fn view(&self) -> Map<SessionId, SessionView> {
        self.sessions@
    }
}

impl SessionStore {
    /// Whether the entries are the sessions, each once, and each is well formed.
    pub closed spec fn wf(&self) -> bool {
        &&& forall|i: int|
            0 <= i < self.entries@.len() ==> {
                let entry: Entry = #[trigger] self.entries@[i];
                &&& entry.session.checked_commits.wf()
                &&& self.sessions@.contains_key(entry.id)
                &&& self.sessions@[entry.id] == entry.session@
            }
        &&& forall|id: SessionId| #[trigger]
            self.sessions@.contains_key(id) ==> exists|i: int|
                0 <= i < self.entries@.len() && (#[trigger] self.entries@[i]).id == id
        &&& forall|i: int, j: int|
            0 <= i < j < self.entries@.len() ==> (#[trigger] self.entries@[i]).id != (
            #[trigger] self.entries@[j]).id
    }

    /// A store without sessions.
    pub fn new() -> (store: SessionStore)
        ensures
            store.wf(),
            store@ == Map::<SessionId, SessionView>::empty(),
    {
        SessionStore { entries: Vec::new(), sessions: Ghost(Map::empty()) }
    }

    /// Opens a session under `id` for a traversal that was cut after its first page, in place
    /// of any session that went by `id`.
    pub fn create(&mut self, id: SessionId, visited: IdSet, continuation: Vec<SnapshotId>)
        requires
            old(self).wf(),
            visited.wf(),
        ensures
            final(self).wf(),
            final(self)@ == old(self)@.insert(
                id,
                SessionView { visited: visited@, continuation: continuation@, sent_pages: 0 },
            ),
    {
        self.insert(
            id,
            Session { checked_commits: visited, continue_commits: continuation, sent_pages: 0 },
        );
    }

    /// Hands out the session `id` for its next page, and takes it out of the store until
    /// `advance` puts it back. Fails with `SessionNotFound` where no session goes by `id`.
    pub fn resume(&mut self, id: &SessionId) -> (session: Result<Session, QueryError>)
        requires
            old(self).wf(),
        ensures
            final(self).wf(),
            final(self)@ == old(self)@.remove(*id),
            session is Ok <==> old(self)@.contains_key(*id),
            session matches Ok(found) ==> found@ == old(self)@[*id] && found.checked_commits.wf(),
            session matches Err(error) ==> error is SessionNotFound,
    {
        match self.remove(id) {
            Some(session) => Ok(session),
            None => Err(QueryError::SessionNotFound),
        }
    }

    /// Stores under `id` what a further page left of a traversal that had sent `sent_pages`
    /// further pages before, and counts the page.
    pub fn advance(
        &mut self,
        id: SessionId,
        sent_pages: usize,
        visited: IdSet,
        continuation: Vec<SnapshotId>,
    )
        requires
            old(self).wf(),
            visited.wf(),
        ensures
            final(self).wf(),
            final(self)@ == old(self)@.insert(
                id,
                SessionView {
                    visited: visited@,
                    continuation: continuation@,
                    sent_pages: counted(sent_pages as nat),
                },
            ),
    {
        let sent_pages: usize = if sent_pages < usize::MAX {
            sent_pages + 1
        } else {
            sent_pages
        };
        self.insert(
            id,
            Session { checked_commits: visited, continue_commits: continuation, sent_pages },
        );
    }

    /// The place of the session `id` among the entries.
    fn position(&self, id: &SessionId) -> (at: Option<usize>)
        requires
            self.wf(),
        ensures
            at is Some <==> self@.contains_key(*id),
            at matches Some(i) ==> i < self.entries@.len() && self.entries@[i as int].id == *id,
    {
        let mut i: usize = 0;
        while i < self.entries.len()
            invariant
                i <= self.entries.len(),
                self.wf(),
                forall|j: int| 0 <= j < i ==> (#[trigger] self.entries@[j]).id != *id,
            decreases self.entries.len() - i,
        {
            if self.entries[i].id == *id {
                return Some(i);
            }
            i += 1;
        }
        None
    }

    /// Whether a session goes by `id`.
    pub fn contains(&self, id: &SessionId) -> (found: bool)
        requires
            self.wf(),
        ensures
            found == self@.contains_key(*id),
    {
        self.position(id).is_some()
    }

    /// Takes the session `id` out of the store, if there is one.
    pub fn remove(&mut self, id: &SessionId) -> (session: Option<Session>)
        requires
            old(self).wf(),
        ensures
            final(self).wf(),
            final(self)@ == old(self)@.remove(*id),
            session is Some <==> old(self)@.contains_key(*id),
            session matches Some(found) ==> found@ == old(self)@[*id]
                && found.checked_commits.wf(),
    {
        match self.position(id) {
            None => {
                assert(self@ =~= old(self)@.remove(*id));
                None
            },
            Some(at) => {
                let ghost before: Seq<Entry> = self.entries@;
                let entry = self.entries.remove(at);
                self.sessions = Ghost(self.sessions@.remove(*id));
                proof {
                    assert(entry == before[at as int]);
                    assert forall|i: int| 0 <= i < self.entries@.len() implies {
                        let e: Entry = #[trigger] self.entries@[i];
                        &&& e.session.checked_commits.wf()
                        &&& self.sessions@.contains_key(e.id)
                        &&& self.sessions@[e.id] == e.session@
                    } by {
                        let k: int = if i < at { i } else { i + 1 };
                        assert(self.entries@[i] == before[k]);
                    }
                    assert forall|other: SessionId| #[trigger]
                        self.sessions@.contains_key(other) implies exists|i: int|
                        0 <= i < self.entries@.len() && (#[trigger] self.entries@[i]).id
                            == other by {
                        let k: int = choose|k: int|
                            0 <= k < before.len() && (#[trigger] before[k]).id == other;
                        let i: int = if k < at { k } else { k - 1 };
                        assert(self.entries@[i] == before[k]);
                    }
                    assert forall|i: int, j: int| 0 <= i < j < self.entries@.len() implies (
                    #[trigger] self.entries@[i]).id != (#[trigger] self.entries@[j]).id by {
                        let a: int = if i < at { i } else { i + 1 };
                        let b: int = if j < at { j } else { j + 1 };
                        assert(self.entries@[i] == before[a]);
                        assert(self.entries@[j] == before[b]);
                    }
                }
                Some(entry.session)
            },
        }
    }

    /// Puts `session` into the store under `id`, in place of any session that went by `id`.
    pub fn insert(&mut self, id: SessionId, session: Session)
        requires
            old(self).wf(),
            session.checked_commits.wf(),
        ensures
            final(self).wf(),
            final(self)@ == old(self)@.insert(id, session@),
    {
        let _ = self.remove(&id);
        let ghost before: Seq<Entry> = self.entries@;
        let ghost view: SessionView = session@;
        self.entries.push(Entry { id, session });
        self.sessions = Ghost(self.sessions@.insert(id, view));
        proof {
            assert(self@ =~= old(self)@.insert(id, view));
            assert forall|i: int| 0 <= i < self.entries@.len() implies {
                let e: Entry = #[trigger] self.entries@[i];
                &&& e.session.checked_commits.wf()
                &&& self.sessions@.contains_key(e.id)
                &&& self.sessions@[e.id] == e.session@
            } by {
                if i < before.len() {
                    assert(self.entries@[i] == before[i]);
                }
            }
            assert forall|other: SessionId| #[trigger]
                self.sessions@.contains_key(other) implies exists|i: int|
                0 <= i < self.entries@.len() && (#[trigger] self.entries@[i]).id == other by {
                if other == id {
                    assert(self.entries@[before.len() as int].id == id);
                } else {
                    let k: int = choose|k: int|
                        0 <= k < before.len() && (#[trigger] before[k]).id == other;
                    assert(self.entries@[k] == before[k]);
                }
            }
            assert forall|i: int, j: int| 0 <= i < j < self.entries@.len() implies (
            #[trigger] self.entries@[i]).id != (#[trigger] self.entries@[j]).id by {
                assert(self.entries@[i] == before[i]);
                if j < before.len() {
                    assert(self.entries@[j] == before[j]);
                }
            }
        }
    }
}

} // verus!
