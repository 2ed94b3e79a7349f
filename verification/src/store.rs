//! The record store: the four logical tables the relay keeps — connections,
//! received readings, queued broadcasts and per-client delivery marks — with
//! the exact CRUD contract the session and aggregator logic is built on:
//! insert with a fresh id, select by uid, select the most recent readings,
//! select the broadcasts not yet marked for a uid, and delete by uid.
//!
//! Invariants: connection uids are unique, ids grow strictly in insertion
//! order (so creation order is id order), and a delivery mark for a given
//! (uid, broadcast) pair is recorded at most once.

use crate::codec::SensorMsg;
use crate::text::str_eq;
use vstd::prelude::*;

verus! {

/// One registered client: its row id, its 36-character uid, and the epoch
/// seconds it was last seen at.
pub struct Connection {
    pub id: i64,
    pub uid: String,
    pub last_seen: i64,
}

pub ghost struct ConnectionView {
    pub id: int,
    pub uid: Seq<char>,
    pub last_seen: int,
}

impl View for Connection {
    type V = ConnectionView;

    open spec fn view(&self) -> ConnectionView {
        ConnectionView { id: self.id as int, uid: self.uid@, last_seen: self.last_seen as int }
    }
}

impl DeepView for Connection {
    type V = ConnectionView;

    open spec fn deep_view(&self) -> ConnectionView {
        self@
    }
}

/// One ingested reading: who sent it, its value token as it stood on the
/// wire, and the timestamp the frame carried.
pub struct ReceivedMessage {
    pub id: i64,
    pub uid: String,
    pub data: String,
    pub created_at: i64,
}

pub ghost struct ReceivedMessageView {
    pub id: int,
    pub uid: Seq<char>,
    pub data: Seq<char>,
    pub created_at: int,
}

impl View for ReceivedMessage {
    type V = ReceivedMessageView;

    open spec fn view(&self) -> ReceivedMessageView {
        ReceivedMessageView {
            id: self.id as int,
            uid: self.uid@,
            data: self.data@,
            created_at: self.created_at as int,
        }
    }
}

impl DeepView for ReceivedMessage {
    type V = ReceivedMessageView;

    open spec fn deep_view(&self) -> ReceivedMessageView {
        self@
    }
}

/// One queued broadcast: its id, its payload (itself a wire frame), and the
/// epoch seconds it was created at.
pub struct QueuedMessage {
    pub id: i64,
    pub message: String,
    pub created_at: i64,
}

pub ghost struct QueuedMessageView {
    pub id: int,
    pub message: Seq<char>,
    pub created_at: int,
}

impl View for QueuedMessage {
    type V = QueuedMessageView;

    open spec fn view(&self) -> QueuedMessageView {
        QueuedMessageView {
            id: self.id as int,
            message: self.message@,
            created_at: self.created_at as int,
        }
    }
}

impl DeepView for QueuedMessage {
    type V = QueuedMessageView;

    open spec fn deep_view(&self) -> QueuedMessageView {
        self@
    }
}

/// A delivery mark: the named client has received the named broadcast.
pub struct DeliveredMessage {
    pub uid: String,
    pub queued_message_id: i64,
}

pub ghost struct DeliveredMessageView {
    pub uid: Seq<char>,
    pub queued_message_id: int,
}

impl View for DeliveredMessage {
    type V = DeliveredMessageView;

    open spec fn view(&self) -> DeliveredMessageView {
        DeliveredMessageView { uid: self.uid@, queued_message_id: self.queued_message_id as int }
    }
}

impl DeepView for DeliveredMessage {
    type V = DeliveredMessageView;

    open spec fn deep_view(&self) -> DeliveredMessageView {
        self@
    }
}

/// The counts the health endpoint reports.
pub struct Metrics {
    pub connections: usize,
    pub received_messages: usize,
    pub queued_messages: usize,
    pub delivered_messages: usize,
}

/// The store's abstract state: the four tables and the next fresh id.
pub ghost struct StoreView {
    pub connections: Seq<ConnectionView>,
    pub received: Seq<ReceivedMessageView>,
    pub queued: Seq<QueuedMessageView>,
    pub delivered: Seq<DeliveredMessageView>,
    pub next_id: int,
}

/// Whether some connection carries this uid.
pub open spec fn has_conn(conns: Seq<ConnectionView>, uid: Seq<char>) -> bool {
    exists|i: int| 0 <= i < conns.len() && conns[i].uid == uid
}

/// Whether a delivery mark for this (uid, broadcast id) pair exists.
pub open spec fn has_mark(marks: Seq<DeliveredMessageView>, uid: Seq<char>, id: int) -> bool {
    exists|i: int|
        0 <= i < marks.len() && marks[i].uid == uid && marks[i].queued_message_id == id
}

/// The broadcasts not yet marked delivered to `uid`, in creation order: the
/// anti-join the writer task drains on every tick.
pub open spec fn pending(
    queued: Seq<QueuedMessageView>,
    marks: Seq<DeliveredMessageView>,
    uid: Seq<char>,
) -> Seq<QueuedMessageView>
    decreases queued.len(),
{
    if queued.len() == 0 {
        Seq::empty()
    } else {
        let rest = pending(queued.drop_last(), marks, uid);
        if has_mark(marks, uid, queued.last().id) {
            rest
        } else {
            rest.push(queued.last())
        }
    }
}

/// What the pending set holds: exactly the queued broadcasts without a mark
/// for this uid, each one a row of the queue, and nothing else.
pub proof fn lemma_pending_membership(
    queued: Seq<QueuedMessageView>,
    marks: Seq<DeliveredMessageView>,
    uid: Seq<char>,
)
    ensures
        forall|i: int|
            0 <= i < queued.len() && !has_mark(marks, uid, (#[trigger] queued[i]).id)
                ==> pending(queued, marks, uid).contains(queued[i]),
        forall|k: int|
            0 <= k < pending(queued, marks, uid).len() ==> queued.contains(
                #[trigger] pending(queued, marks, uid)[k],
            ) && !has_mark(marks, uid, pending(queued, marks, uid)[k].id),
    decreases queued.len(),
{
    let p = pending(queued, marks, uid);
    if queued.len() == 0 {
    } else {
        let front = queued.drop_last();
        lemma_pending_membership(front, marks, uid);
        let pf = pending(front, marks, uid);
        assert forall|i: int|
            0 <= i < queued.len() && !has_mark(marks, uid, (#[trigger] queued[i]).id) implies p.contains(
            queued[i],
        ) by {
            if i == queued.len() - 1 {
                assert(p[p.len() - 1] == queued[i]);
            } else {
                assert(front[i] == queued[i]);
                assert(pf.contains(front[i]));
                let k = choose|k: int| 0 <= k < pf.len() && pf[k] == front[i];
                assert(p[k] == pf[k]);
            }
        }
        assert forall|k: int| 0 <= k < p.len() implies queued.contains(#[trigger] p[k])
            && !has_mark(marks, uid, p[k].id) by {
            if k < pf.len() {
                assert(p[k] == pf[k]);
                assert(front.contains(pf[k]));
                let i = choose|i: int| 0 <= i < front.len() && front[i] == pf[k];
                assert(queued[i] == p[k]);
            } else {
                assert(p[k] == queued.last());
                assert(queued[queued.len() - 1] == p[k]);
            }
        }
    }
}

/// A queue whose every row is marked for a uid leaves that uid nothing
/// pending.
pub proof fn lemma_pending_empty(
    queued: Seq<QueuedMessageView>,
    marks: Seq<DeliveredMessageView>,
    uid: Seq<char>,
)
    requires
        forall|i: int| 0 <= i < queued.len() ==> has_mark(marks, uid, (#[trigger] queued[i]).id),
    ensures
        pending(queued, marks, uid) =~= Seq::<QueuedMessageView>::empty(),
{
    lemma_pending_membership(queued, marks, uid);
    let p = pending(queued, marks, uid);
    if p.len() > 0 {
        assert(queued.contains(p[0]));
        let i = choose|i: int| 0 <= i < queued.len() && queued[i] == p[0];
        assert(false);
    }
}

/// Two mark tables that agree about a uid give that uid the same pending
/// set, whatever they say about anyone else.
pub proof fn lemma_pending_same_marks(
    queued: Seq<QueuedMessageView>,
    m1: Seq<DeliveredMessageView>,
    m2: Seq<DeliveredMessageView>,
    uid: Seq<char>,
)
    requires
        forall|q: int| has_mark(m1, uid, q) == has_mark(m2, uid, q),
    ensures
        pending(queued, m1, uid) == pending(queued, m2, uid),
    decreases queued.len(),
{
    if queued.len() > 0 {
        lemma_pending_same_marks(queued.drop_last(), m1, m2, uid);
    }
}

/// A broadcast marked delivered to a client never stands in that client's
/// pending set.
pub proof fn lemma_delivered_never_pending(
    queued: Seq<QueuedMessageView>,
    marks: Seq<DeliveredMessageView>,
    uid: Seq<char>,
    id: int,
)
    requires
        has_mark(marks, uid, id),
    ensures
        forall|k: int|
            0 <= k < pending(queued, marks, uid).len() ==> (#[trigger] pending(
                queued,
                marks,
                uid,
            )[k]).id != id,
{
    lemma_pending_membership(queued, marks, uid);
}

/// Marking a broadcast delivered to one client leaves every other client's
/// pending set untouched.
pub proof fn lemma_fanout_independence(
    queued: Seq<QueuedMessageView>,
    marks: Seq<DeliveredMessageView>,
    m: DeliveredMessageView,
    uid: Seq<char>,
)
    requires
        m.uid != uid,
    ensures
        pending(queued, marks.push(m), uid) == pending(queued, marks, uid),
{
    let m2 = marks.push(m);
    assert forall|q: int| has_mark(m2, uid, q) == has_mark(marks, uid, q) by {
        if has_mark(m2, uid, q) {
            let i = choose|i: int|
                0 <= i < m2.len() && m2[i].uid == uid && m2[i].queued_message_id == q;
            if i < marks.len() {
                assert(marks[i] == m2[i]);
                assert(has_mark(marks, uid, q));
            } else {
                assert(m2[i] == m);
                assert(false);
            }
        }
        if has_mark(marks, uid, q) {
            let i = choose|i: int|
                0 <= i < marks.len() && marks[i].uid == uid && marks[i].queued_message_id == q;
            assert(m2[i] == marks[i]);
            assert(has_mark(m2, uid, q));
        }
    }
    lemma_pending_same_marks(queued, m2, marks, uid);
}

/// Reading `i` outranks reading `j` in recency: it is strictly newer, or as
/// new and earlier in the log.
pub open spec fn more_recent(log: Seq<ReceivedMessageView>, i: int, j: int) -> bool {
    log[i].created_at > log[j].created_at || (log[i].created_at == log[j].created_at && i < j)
}

/// `idxs` picks the `n` most recent readings of `log` (all of them if fewer
/// exist), newest first, and `out` is the readings at those indices: every
/// pick outranks every reading left behind.
pub open spec fn is_recent_selection(
    log: Seq<ReceivedMessageView>,
    n: int,
    idxs: Seq<int>,
    out: Seq<ReceivedMessageView>,
) -> bool {
    &&& idxs.len() == out.len()
    &&& out.len() == if log.len() < n {
        log.len() as int
    } else {
        n
    }
    &&& forall|k: int|
        0 <= k < idxs.len() ==> 0 <= #[trigger] idxs[k] < log.len() && out[k] == log[idxs[k]]
    &&& forall|a: int, b: int| 0 <= a < b < idxs.len() ==> more_recent(log, idxs[a], idxs[b])
    &&& forall|k: int, j: int|
        #![trigger idxs[k], log[j]]
        0 <= k < idxs.len() && 0 <= j < log.len() && !idxs.contains(j) ==> more_recent(
            log,
            idxs[k],
            j,
        )
}

/// Whether `j` occurs in a sequence of candidate indices.
pub open spec fn index_among(cands: Seq<usize>, j: int) -> bool {
    exists|t: int| 0 <= t < cands.len() && cands[t] == j
}

/// The store's invariant: unique connection uids, strictly increasing ids
/// below the allocator in every table, and no duplicate delivery mark.
pub open spec fn store_inv(s: StoreView) -> bool {
    &&& forall|i: int, j: int|
        0 <= i < j < s.connections.len() ==> s.connections[i].uid != s.connections[j].uid
    &&& forall|i: int|
        0 <= i < s.connections.len() ==> 0 < #[trigger] s.connections[i].id < s.next_id
    &&& forall|i: int, j: int|
        0 <= i < j < s.received.len() ==> s.received[i].id < s.received[j].id
    &&& forall|i: int| 0 <= i < s.received.len() ==> 0 < #[trigger] s.received[i].id < s.next_id
    &&& forall|i: int, j: int| 0 <= i < j < s.queued.len() ==> s.queued[i].id < s.queued[j].id
    &&& forall|i: int| 0 <= i < s.queued.len() ==> 0 < #[trigger] s.queued[i].id < s.next_id
    &&& forall|i: int, j: int|
        0 <= i < j < s.delivered.len() ==> !(s.delivered[i].uid == s.delivered[j].uid
            && s.delivered[i].queued_message_id == s.delivered[j].queued_message_id)
    &&& 1 <= s.next_id <= i64::MAX
}

/// The in-memory store holding the four tables.
pub struct Store {
    connections: Vec<Connection>,
    received_messages: Vec<ReceivedMessage>,
    queued_messages: Vec<QueuedMessage>,
    delivered_messages: Vec<DeliveredMessage>,
    next_id: i64,
}

impl View for Store {
    type V = StoreView;

    closed spec fn view(&self) -> StoreView {
        StoreView {
            connections: self.connections.deep_view(),
            received: self.received_messages.deep_view(),
            queued: self.queued_messages.deep_view(),
            delivered: self.delivered_messages.deep_view(),
            next_id: self.next_id as int,
        }
    }
}

impl Store {
    pub open spec fn inv(&self) -> bool {
        store_inv(self@)
    }

    /// An empty store; ids start at 1 as row ids conventionally do.
    pub fn new() -> (s: Store)
        ensures
            s.inv(),
            s@.connections =~= Seq::<ConnectionView>::empty(),
            s@.received =~= Seq::<ReceivedMessageView>::empty(),
            s@.queued =~= Seq::<QueuedMessageView>::empty(),
            s@.delivered =~= Seq::<DeliveredMessageView>::empty(),
            s@.next_id == 1,
    {
        Store {
            connections: Vec::new(),
            received_messages: Vec::new(),
            queued_messages: Vec::new(),
            delivered_messages: Vec::new(),
            next_id: 1,
        }
    }

    /// Whether a fresh id can still be handed out; every insertion needs one.
    pub fn can_assign_id(&self) -> (r: bool)
        ensures
            r == (self@.next_id < i64::MAX),
    {
        self.next_id < i64::MAX
    }

    /// The index of the connection registered under `uid`, if any.
    fn find_connection(&self, uid: &String) -> (r: Option<usize>)
        ensures
            match r {
                Some(i) => 0 <= i < self@.connections.len() && self@.connections[i as int].uid
                    == uid@,
                None => !has_conn(self@.connections, uid@),
            },
    {
        let n = self.connections.len();
        let mut i: usize = 0;
        while i < n
            invariant
                n == self@.connections.len(),
                0 <= i <= n,
                n == self.connections.len(),
                forall|k: int| 0 <= k < i ==> self@.connections[k].uid != uid@,
            decreases n - i,
        {
            if str_eq(self.connections[i].uid.as_str(), uid.as_str()) {
                return Some(i);
            }
            i = i + 1;
        }
        None
    }

    /// Registers a connection for a uid not yet present, stamping it with a
    /// fresh id and `now` as its last-seen time, and returns the new record.
    pub fn add_connection(&mut self, uid: &String, now: i64) -> (c: Connection)
        requires
            old(self).inv(),
            !has_conn(old(self)@.connections, uid@),
            old(self)@.next_id < i64::MAX,
        ensures
            final(self).inv(),
            c@ == (ConnectionView { id: old(self)@.next_id, uid: uid@, last_seen: now as int }),
            final(self)@.connections =~= old(self)@.connections.push(c@),
            final(self)@.received == old(self)@.received,
            final(self)@.queued == old(self)@.queued,
            final(self)@.delivered == old(self)@.delivered,
            final(self)@.next_id == old(self)@.next_id + 1,
    {
        let c = Connection { id: self.next_id, uid: uid.clone(), last_seen: now };
        self.connections.push(c);
        self.next_id = self.next_id + 1;
        proof {
            assert(self@.connections =~= old(self)@.connections.push(
                ConnectionView { id: old(self)@.next_id, uid: uid@, last_seen: now as int },
            ));
            let cs = self@.connections;
            let os = old(self)@.connections;
            assert forall|i: int, j: int| 0 <= i < j < cs.len() implies cs[i].uid != cs[j].uid by {
                assert(cs[i] == os[i]);
                if j == cs.len() - 1 {
                    if os[i].uid == uid@ {
                        assert(has_conn(os, uid@));
                    }
                } else {
                    assert(cs[j] == os[j]);
                }
            }
            assert forall|i: int| 0 <= i < cs.len() implies 0 < #[trigger] cs[i].id
                < self@.next_id by {
                if i < cs.len() - 1 {
                    assert(cs[i] == os[i]);
                }
            }
            assert(self@.received =~= old(self)@.received);
            assert(self@.queued =~= old(self)@.queued);
            assert(self@.delivered =~= old(self)@.delivered);
        }
        Connection { id: self.next_id - 1, uid: uid.clone(), last_seen: now }
    }

    /// Looks a connection up by uid: the registered record, or nothing.
    pub fn get_connection(&self, uid: &String) -> (r: Option<Connection>)
        ensures
            match r {
                Some(c) => has_conn(self@.connections, uid@) && c@.uid == uid@ && exists|i: int|
                    0 <= i < self@.connections.len() && self@.connections[i] == c@,
                None => !has_conn(self@.connections, uid@),
            },
    {
        match self.find_connection(uid) {
            Some(i) => {
                let c = &self.connections[i];
                Some(Connection { id: c.id, uid: c.uid.clone(), last_seen: c.last_seen })
            },
            None => None,
        }
    }

    /// Sets the last-seen time of the connection registered under `uid` to
    /// `now`; a uid with no connection changes nothing.
    pub fn update_connection(&mut self, uid: &String, now: i64)
        requires
            old(self).inv(),
        ensures
            final(self).inv(),
            !has_conn(old(self)@.connections, uid@) ==> final(self)@ == old(self)@,
            has_conn(old(self)@.connections, uid@) ==> exists|i: int|
                0 <= i < old(self)@.connections.len() && old(self)@.connections[i].uid == uid@
                    && final(self)@.connections =~= old(self)@.connections.update(
                    i,
                    ConnectionView {
                        id: old(self)@.connections[i].id,
                        uid: old(self)@.connections[i].uid,
                        last_seen: now as int,
                    },
                ),
            final(self)@.received == old(self)@.received,
            final(self)@.queued == old(self)@.queued,
            final(self)@.delivered == old(self)@.delivered,
            final(self)@.next_id == old(self)@.next_id,
    {
        match self.find_connection(uid) {
            Some(i) => {
                let c = self.connections.remove(i);
                self.connections.insert(
                    i,
                    Connection { id: c.id, uid: c.uid, last_seen: now },
                );
                proof {
                    assert(self@.connections =~= old(self)@.connections.update(
                        i as int,
                        ConnectionView {
                            id: old(self)@.connections[i as int].id,
                            uid: old(self)@.connections[i as int].uid,
                            last_seen: now as int,
                        },
                    ));
                    let cs = self@.connections;
                    let os = old(self)@.connections;
                    assert(forall|k: int|
                        0 <= k < cs.len() ==> #[trigger] cs[k].uid == os[k].uid && cs[k].id
                            == os[k].id);
                    assert(self@.received =~= old(self)@.received);
                    assert(self@.queued =~= old(self)@.queued);
                    assert(self@.delivered =~= old(self)@.delivered);
                }
            },
            None => {
                proof {
                    assert(self@ == old(self)@);
                }
            },
        }
    }

    /// Removes the connection registered under `uid`, if any.
    pub fn delete_connection(&mut self, uid: &String)
        requires
            old(self).inv(),
        ensures
            final(self).inv(),
            !has_conn(old(self)@.connections, uid@) ==> final(self)@ == old(self)@,
            has_conn(old(self)@.connections, uid@) ==> exists|i: int|
                0 <= i < old(self)@.connections.len() && old(self)@.connections[i].uid == uid@
                    && final(self)@.connections =~= old(self)@.connections.remove(i),
            !has_conn(final(self)@.connections, uid@),
            final(self)@.received == old(self)@.received,
            final(self)@.queued == old(self)@.queued,
            final(self)@.delivered == old(self)@.delivered,
            final(self)@.next_id == old(self)@.next_id,
    {
        match self.find_connection(uid) {
            Some(i) => {
                self.connections.remove(i);
                proof {
                    assert(self@.connections =~= old(self)@.connections.remove(i as int));
                    let cs = self@.connections;
                    let os = old(self)@.connections;
                    assert forall|k: int| 0 <= k < cs.len() implies cs[k].uid != uid@ by {
                        if k < i {
                            assert(cs[k] == os[k]);
                        } else {
                            assert(cs[k] == os[k + 1]);
                        }
                    }
                    assert forall|a: int, b: int|
                        0 <= a < b < cs.len() implies cs[a].uid != cs[b].uid by {
                        let a2: int = if a < i {
                            a
                        } else {
                            a + 1
                        };
                        let b2: int = if b < i {
                            b
                        } else {
                            b + 1
                        };
                        assert(cs[a] == os[a2]);
                        assert(cs[b] == os[b2]);
                    }
                    assert forall|k: int| 0 <= k < cs.len() implies 0 < #[trigger] cs[k].id
                        < self@.next_id by {
                        let k2: int = if k < i {
                            k
                        } else {
                            k + 1
                        };
                        assert(cs[k] == os[k2]);
                    }
                    assert(self@.received =~= old(self)@.received);
                    assert(self@.queued =~= old(self)@.queued);
                    assert(self@.delivered =~= old(self)@.delivered);
                }
            },
            None => {
                proof {
                    assert(self@ == old(self)@);
                }
            },
        }
    }

    /// Appends a reading from an accepted `SENSOR` frame under a fresh id;
    /// the reading keeps the frame's uid, value token and timestamp.
    pub fn add_received_message(&mut self, msg: &SensorMsg)
        requires
            old(self).inv(),
            old(self)@.next_id < i64::MAX,
        ensures
            final(self).inv(),
            final(self)@.received =~= old(self)@.received.push(
                ReceivedMessageView {
                    id: old(self)@.next_id,
                    uid: msg.uid@,
                    data: msg.data@,
                    created_at: msg.timestamp as int,
                },
            ),
            final(self)@.connections == old(self)@.connections,
            final(self)@.queued == old(self)@.queued,
            final(self)@.delivered == old(self)@.delivered,
            final(self)@.next_id == old(self)@.next_id + 1,
    {
        let m = ReceivedMessage {
            id: self.next_id,
            uid: msg.uid.clone(),
            data: msg.data.clone(),
            created_at: msg.timestamp,
        };
        self.received_messages.push(m);
        self.next_id = self.next_id + 1;
        proof {
            assert(self@.received =~= old(self)@.received.push(
                ReceivedMessageView {
                    id: old(self)@.next_id,
                    uid: msg.uid@,
                    data: msg.data@,
                    created_at: msg.timestamp as int,
                },
            ));
            let rs = self@.received;
            let os = old(self)@.received;
            assert forall|i: int, j: int| 0 <= i < j < rs.len() implies rs[i].id < rs[j].id by {
                assert(rs[i] == os[i]);
                if j < rs.len() - 1 {
                    assert(rs[j] == os[j]);
                }
            }
            assert forall|i: int| 0 <= i < rs.len() implies 0 < #[trigger] rs[i].id
                < self@.next_id by {
                if i < rs.len() - 1 {
                    assert(rs[i] == os[i]);
                }
            }
            assert(self@.connections =~= old(self)@.connections);
            assert(self@.queued =~= old(self)@.queued);
            assert(self@.delivered =~= old(self)@.delivered);
        }
    }

    /// Appends a broadcast payload to the queue under a fresh id, stamped
    /// with `now`.
    pub fn add_queued_message(&mut self, message: String, now: i64)
        requires
            old(self).inv(),
            old(self)@.next_id < i64::MAX,
        ensures
            final(self).inv(),
            final(self)@.queued =~= old(self)@.queued.push(
                QueuedMessageView {
                    id: old(self)@.next_id,
                    message: message@,
                    created_at: now as int,
                },
            ),
            final(self)@.connections == old(self)@.connections,
            final(self)@.received == old(self)@.received,
            final(self)@.delivered == old(self)@.delivered,
            final(self)@.next_id == old(self)@.next_id + 1,
    {
        let m = QueuedMessage { id: self.next_id, message, created_at: now };
        let ghost mv = QueuedMessageView {
            id: self.next_id as int,
            message: m.message@,
            created_at: now as int,
        };
        self.queued_messages.push(m);
        self.next_id = self.next_id + 1;
        proof {
            assert(self@.queued =~= old(self)@.queued.push(mv));
            let qs = self@.queued;
            let os = old(self)@.queued;
            assert forall|i: int, j: int| 0 <= i < j < qs.len() implies qs[i].id < qs[j].id by {
                assert(qs[i] == os[i]);
                if j < qs.len() - 1 {
                    assert(qs[j] == os[j]);
                }
            }
            assert forall|i: int| 0 <= i < qs.len() implies 0 < #[trigger] qs[i].id
                < self@.next_id by {
                if i < qs.len() - 1 {
                    assert(qs[i] == os[i]);
                }
            }
            assert(self@.connections =~= old(self)@.connections);
            assert(self@.received =~= old(self)@.received);
            assert(self@.delivered =~= old(self)@.delivered);
        }
    }

    /// Whether a delivery mark for this uid and broadcast id is recorded.
    pub fn is_marked_delivered(&self, uid: &String, queued_message_id: i64) -> (r: bool)
        ensures
            r == has_mark(self@.delivered, uid@, queued_message_id as int),
    {
        let n = self.delivered_messages.len();
        let mut i: usize = 0;
        while i < n
            invariant
                n == self@.delivered.len(),
                n == self.delivered_messages.len(),
                0 <= i <= n,
                forall|k: int|
                    0 <= k < i ==> !(self@.delivered[k].uid == uid@
                        && self@.delivered[k].queued_message_id == queued_message_id as int),
            decreases n - i,
        {
            if self.delivered_messages[i].queued_message_id == queued_message_id && str_eq(
                self.delivered_messages[i].uid.as_str(),
                uid.as_str(),
            ) {
                proof {
                    assert(self@.delivered[i as int].uid == uid@);
                    assert(self@.delivered[i as int].queued_message_id
                        == queued_message_id as int);
                }
                return true;
            }
            i = i + 1;
        }
        false
    }

    /// Records that `uid` has received the broadcast with this id. A pair
    /// already recorded is left alone, keeping marks unique per pair.
    pub fn add_delivered_message(&mut self, uid: &String, queued_message_id: i64)
        requires
            old(self).inv(),
        ensures
            final(self).inv(),
            has_mark(old(self)@.delivered, uid@, queued_message_id as int) ==> final(self)@
                == old(self)@,
            !has_mark(old(self)@.delivered, uid@, queued_message_id as int) ==> final(self)@.delivered
                =~= old(self)@.delivered.push(
                DeliveredMessageView { uid: uid@, queued_message_id: queued_message_id as int },
            ),
            forall|u: Seq<char>, q: int|
                has_mark(final(self)@.delivered, u, q) == (has_mark(old(self)@.delivered, u, q)
                    || (u == uid@ && q == queued_message_id as int)),
            final(self)@.connections == old(self)@.connections,
            final(self)@.received == old(self)@.received,
            final(self)@.queued == old(self)@.queued,
            final(self)@.next_id == old(self)@.next_id,
    {
        if self.is_marked_delivered(uid, queued_message_id) {
            proof {
                assert(self@ == old(self)@);
                assert forall|u: Seq<char>, q: int|
                    has_mark(self@.delivered, u, q) == (has_mark(old(self)@.delivered, u, q) || (
                    u == uid@ && q == queued_message_id as int)) by {
                    if u == uid@ && q == queued_message_id as int {
                        assert(has_mark(self@.delivered, u, q));
                    }
                }
            }
            return ;
        }
        let m = DeliveredMessage { uid: uid.clone(), queued_message_id };
        self.delivered_messages.push(m);
        proof {
            let ghost mv = DeliveredMessageView {
                uid: uid@,
                queued_message_id: queued_message_id as int,
            };
            assert(self@.delivered =~= old(self)@.delivered.push(mv));
            assert forall|u: Seq<char>, q: int|
                has_mark(self@.delivered, u, q) == (has_mark(old(self)@.delivered, u, q) || (u
                    == uid@ && q == queued_message_id as int)) by {
                let marks = self@.delivered;
                let n = old(self)@.delivered.len() as int;
                if has_mark(old(self)@.delivered, u, q) {
                    let i = choose|i: int|
                        0 <= i < old(self)@.delivered.len() && old(self)@.delivered[i].uid == u
                            && old(self)@.delivered[i].queued_message_id == q;
                    assert(marks[i].uid == u && marks[i].queued_message_id == q);
                } else if u == uid@ && q == queued_message_id as int {
                    assert(marks[n].uid == u && marks[n].queued_message_id == q);
                } else {
                    if has_mark(marks, u, q) {
                        let i = choose|i: int|
                            0 <= i < marks.len() && marks[i].uid == u
                                && marks[i].queued_message_id == q;
                        if i < n {
                            assert(has_mark(old(self)@.delivered, u, q));
                        }
                    }
                }
            }
            assert(self@.connections =~= old(self)@.connections);
            assert(self@.received =~= old(self)@.received);
            assert(self@.queued =~= old(self)@.queued);
            assert forall|i: int, j: int|
                0 <= i < j < self@.delivered.len() implies !(self@.delivered[i].uid
                == self@.delivered[j].uid && self@.delivered[i].queued_message_id
                == self@.delivered[j].queued_message_id) by {
                let n = old(self)@.delivered.len() as int;
                if j < n {
                    assert(self@.delivered[i] == old(self)@.delivered[i]);
                    assert(self@.delivered[j] == old(self)@.delivered[j]);
                } else {
                    assert(self@.delivered[i] == old(self)@.delivered[i]);
                    if self@.delivered[i].uid == uid@ && self@.delivered[i].queued_message_id
                        == queued_message_id as int {
                        assert(has_mark(old(self)@.delivered, uid@, queued_message_id as int));
                    }
                }
            }
        }
    }

    /// The broadcasts not yet marked delivered to `uid`, oldest first: the
    /// writer task's per-tick query.
    pub fn get_new_queued_messages(&self, uid: &String) -> (r: Vec<QueuedMessage>)
        ensures
            r.deep_view() =~= pending(self@.queued, self@.delivered, uid@),
    {
        let n = self.queued_messages.len();
        let mut r: Vec<QueuedMessage> = Vec::new();
        let mut i: usize = 0;
        proof {
            assert(self@.queued.take(0) =~= Seq::<QueuedMessageView>::empty());
        }
        while i < n
            invariant
                n == self@.queued.len(),
                n == self.queued_messages.len(),
                0 <= i <= n,
                r.deep_view() =~= pending(self@.queued.take(i as int), self@.delivered, uid@),
            decreases n - i,
        {
            let m = &self.queued_messages[i];
            proof {
                assert(self@.queued.take(i + 1).drop_last() =~= self@.queued.take(i as int));
                assert(self@.queued.take(i + 1).last() == self@.queued[i as int]);
            }
            if !self.is_marked_delivered(uid, m.id) {
                let copy = QueuedMessage {
                    id: m.id,
                    message: m.message.clone(),
                    created_at: m.created_at,
                };
                proof {
                    assert(copy@ == self@.queued[i as int]);
                }
                r.push(copy);
            }
            i = i + 1;
        }
        proof {
            assert(self@.queued.take(n as int) =~= self@.queued);
        }
        r
    }

    /// The `limit` most recently created readings, newest first; readings as
    /// new as one another come out in log order. This is the slice of the
    /// log one aggregator tick averages.
    pub fn get_last_received_messages(&self, limit: usize) -> (r: Vec<ReceivedMessage>)
        ensures
            exists|idxs: Seq<int>|
                is_recent_selection(self@.received, limit as int, idxs, r.deep_view()),
    {
        let n = self.received_messages.len();
        let take_n: usize = if limit < n {
            limit
        } else {
            n
        };
        let mut cands: Vec<usize> = Vec::new();
        let mut k: usize = 0;
        while k < n
            invariant
                0 <= k <= n,
                cands@.len() == k as int,
                forall|t: int| 0 <= t < k ==> #[trigger] cands@[t] == t,
            decreases n - k,
        {
            cands.push(k);
            k = k + 1;
        }
        let mut out: Vec<ReceivedMessage> = Vec::new();
        let ghost log = self@.received;
        let ghost mut idxs: Seq<int> = Seq::empty();
        proof {
            assert(out.deep_view() =~= Seq::<ReceivedMessageView>::empty());
            assert forall|j: int|
                0 <= j < n implies (idxs.contains(j) <==> !index_among(cands@, j)) by {
                assert(cands@[j] == j);
                assert(index_among(cands@, j));
            }
        }
        while out.len() < take_n
            invariant
                n == self.received_messages.len(),
                n == log.len(),
                log == self@.received,
                take_n <= n,
                out.len() <= take_n,
                idxs.len() == out.len() as int,
                idxs.len() + cands@.len() == n as int,
                forall|a: int, b: int| 0 <= a < b < cands@.len() ==> cands@[a] < cands@[b],
                forall|t: int| 0 <= t < cands@.len() ==> #[trigger] cands@[t] < n,
                forall|j: int| 0 <= j < n ==> (idxs.contains(j) <==> !index_among(cands@, j)),
                forall|k1: int|
                    0 <= k1 < idxs.len() ==> 0 <= #[trigger] idxs[k1] < n && out.deep_view()[k1]
                        == log[idxs[k1]],
                forall|a: int, b: int| 0 <= a < b < idxs.len() ==> more_recent(log, idxs[a], idxs[b]),
                forall|k1: int, t: int|
                    0 <= k1 < idxs.len() && 0 <= t < cands@.len() ==> more_recent(
                        log,
                        #[trigger] idxs[k1],
                        #[trigger] cands@[t] as int,
                    ),
            decreases take_n - out.len(),
        {
            proof {
                assert(cands@.len() >= 1);
            }
            let mut p: usize = 0;
            let mut t: usize = 1;
            while t < cands.len()
                invariant
                    n == self.received_messages.len(),
                    n == log.len(),
                    log == self@.received,
                    cands@.len() >= 1,
                    0 <= p < t <= cands@.len(),
                    forall|q: int| 0 <= q < cands@.len() ==> #[trigger] cands@[q] < n,
                    forall|a: int, b: int| 0 <= a < b < cands@.len() ==> cands@[a] < cands@[b],
                    forall|q: int|
                        0 <= q < t && q != p ==> more_recent(
                            log,
                            cands@[p as int] as int,
                            #[trigger] cands@[q] as int,
                        ),
                decreases cands@.len() - t,
            {
                let ct: usize = cands[t];
                let cp: usize = cands[p];
                if self.received_messages[ct].created_at
                    > self.received_messages[cp].created_at {
                    proof {
                        assert forall|q: int|
                            0 <= q < t + 1 && q != t as int implies more_recent(
                            log,
                            cands@[t as int] as int,
                            cands@[q] as int,
                        ) by {
                            if q != p {
                                assert(more_recent(log, cands@[p as int] as int, cands@[q] as int));
                            }
                        }
                    }
                    p = t;
                } else {
                    proof {
                        assert(cands@[p as int] < cands@[t as int]);
                        assert(more_recent(log, cands@[p as int] as int, cands@[t as int] as int));
                    }
                }
                t = t + 1;
            }
            let best: usize = cands[p];
            let ghost cbefore = cands@;
            let ghost ibefore = idxs;
            let ghost obefore = out.deep_view();
            cands.remove(p);
            let m = &self.received_messages[best];
            let copy = ReceivedMessage {
                id: m.id,
                uid: m.uid.clone(),
                data: m.data.clone(),
                created_at: m.created_at,
            };
            proof {
                assert(copy@ == log[best as int]);
            }
            out.push(copy);
            proof {
                idxs = ibefore.push(best as int);
                assert(cands@ =~= cbefore.remove(p as int));
                assert(out.deep_view() =~= obefore.push(log[best as int]));
                // the removed position maps the new candidate list into the old
                assert forall|q: int| 0 <= q < cands@.len() implies #[trigger] cands@[q]
                    == cbefore[if q < p {
                    q
                } else {
                    q + 1
                }] by {}
                assert forall|a: int, b: int|
                    0 <= a < b < cands@.len() implies cands@[a] < cands@[b] by {
                    let a2: int = if a < p {
                        a
                    } else {
                        a + 1
                    };
                    let b2: int = if b < p {
                        b
                    } else {
                        b + 1
                    };
                    assert(cands@[a] == cbefore[a2]);
                    assert(cands@[b] == cbefore[b2]);
                }
                assert forall|j: int|
                    0 <= j < n implies (idxs.contains(j) <==> !index_among(cands@, j)) by {
                    // membership in the new picks
                    if idxs.contains(j) {
                        let w = choose|w: int| 0 <= w < idxs.len() && idxs[w] == j;
                        if w < ibefore.len() {
                            assert(ibefore.contains(j));
                        } else {
                            assert(j == best as int);
                        }
                    }
                    if ibefore.contains(j) {
                        let w = choose|w: int| 0 <= w < ibefore.len() && ibefore[w] == j;
                        assert(idxs[w] == j);
                        assert(idxs.contains(j));
                    }
                    if j == best as int {
                        assert(idxs[idxs.len() - 1] == j);
                        assert(idxs.contains(j));
                    }
                    // membership among the remaining candidates
                    if index_among(cands@, j) {
                        let w = choose|w: int| 0 <= w < cands@.len() && cands@[w] == j;
                        let w2: int = if w < p {
                            w
                        } else {
                            w + 1
                        };
                        assert(cbefore[w2] == j);
                        assert(index_among(cbefore, j));
                        if j == best as int {
                            assert(cbefore[w2] == cbefore[p as int]);
                            assert(false);
                        }
                    }
                    if index_among(cbefore, j) && j != best as int {
                        let w = choose|w: int| 0 <= w < cbefore.len() && cbefore[w] == j;
                        assert(w != p);
                        let w2: int = if w < p {
                            w
                        } else {
                            w - 1
                        };
                        assert(cands@[w2] == j);
                        assert(index_among(cands@, j));
                    }
                }
                assert forall|a: int, b: int|
                    0 <= a < b < idxs.len() implies more_recent(log, idxs[a], idxs[b]) by {
                    if b == idxs.len() - 1 {
                        assert(idxs[a] == ibefore[a]);
                        assert(more_recent(log, ibefore[a], cbefore[p as int] as int));
                    } else {
                        assert(idxs[a] == ibefore[a]);
                        assert(idxs[b] == ibefore[b]);
                    }
                }
                assert forall|k1: int, u: int|
                    0 <= k1 < idxs.len() && 0 <= u < cands@.len() implies more_recent(
                    log,
                    #[trigger] idxs[k1],
                    #[trigger] cands@[u] as int,
                ) by {
                    let u2: int = if u < p {
                        u
                    } else {
                        u + 1
                    };
                    assert(cands@[u] == cbefore[u2]);
                    if k1 == idxs.len() - 1 {
                        assert(idxs[k1] == best as int);
                        assert(u2 != p);
                        assert(more_recent(log, cbefore[p as int] as int, cbefore[u2] as int));
                    } else {
                        assert(idxs[k1] == ibefore[k1]);
                        assert(more_recent(log, ibefore[k1], cbefore[u2] as int));
                    }
                }
            }
        }
        proof {
            assert forall|k1: int, j: int|
                #![trigger idxs[k1], log[j]]
                0 <= k1 < idxs.len() && 0 <= j < log.len() && !idxs.contains(j) implies
                more_recent(log, idxs[k1], j) by {
                assert(index_among(cands@, j));
                let w = choose|w: int| 0 <= w < cands@.len() && cands@[w] == j;
                assert(more_recent(log, idxs[k1], cands@[w] as int));
            }
            assert(is_recent_selection(log, limit as int, idxs, out.deep_view()));
        }
        out
    }

    /// The four table sizes, for the health endpoint.
    pub fn get_metrics(&self) -> (r: Metrics)
        ensures
            r.connections == self@.connections.len(),
            r.received_messages == self@.received.len(),
            r.queued_messages == self@.queued.len(),
            r.delivered_messages == self@.delivered.len(),
    {
        Metrics {
            connections: self.connections.len(),
            received_messages: self.received_messages.len(),
            queued_messages: self.queued_messages.len(),
            delivered_messages: self.delivered_messages.len(),
        }
    }
}

} // verus!
