//! The per-connection session protocol and the background aggregator, as
//! transition functions over the store: the handshake that registers a
//! client, the reader's decision on each inbound frame, the writer's
//! per-tick drain of pending broadcasts, and the aggregator's per-tick
//! sampling and publishing. The surrounding I/O — sockets, timers, task
//! scheduling — stays outside; these functions carry the state changes and
//! every decision.

use crate::codec::{
    avg_encode, conn_decode, disconn_decode, sensor_decode, AvgMsg, ConnMsg, DecodeError,
    DisconnMsg, Protocol, SensorMsg, get_protocol, protocol_of,
};
use crate::store::{
    has_conn, has_mark, is_recent_selection, pending, ConnectionView, QueuedMessage,
    QueuedMessageView, ReceivedMessage, ReceivedMessageView, Store,
};
use crate::text::str_eq;
use vstd::prelude::*;

verus! {

/// Where a session stands: waiting for its one handshake frame, exchanging
/// frames, or finished.
#[derive(Clone, Copy, Debug, PartialEq, Eq, Structural)]
pub enum SessionState {
    AwaitingHandshake,
    Active,
    Closed,
}

/// One client session: the uid it authenticated as, its protocol state, and
/// the liveness flag its reader and writer share — the reader clears it on a
/// graceful close, the writer polls it each tick.
pub struct Session {
    pub uid: String,
    pub state: SessionState,
    pub active: bool,
}

/// What one reader step decides: keep consuming frames, or end the session.
#[derive(Clone, Copy, Debug, PartialEq, Eq, Structural)]
pub enum ReaderFlow {
    Continue,
    Stop,
}

/// Performs the handshake on the first inbound frame: the frame must decode
/// as `CONN`; its uid is registered unless already present, untouched if it
/// is, and an active session for it begins. Any other frame yields no
/// session and leaves the store alone.
pub fn handshake(store: &mut Store, msg: &String, now: i64) -> (r: Option<Session>)
    requires
        old(store).inv(),
        old(store)@.next_id < i64::MAX,
    ensures
        final(store).inv(),
        match r {
            Some(s) => {
                &&& conn_decode(msg@) == Ok::<Seq<char>, DecodeError>(s.uid@)
                &&& s.uid@.len() == 36
                &&& s.state == SessionState::Active
                &&& s.active
                &&& (has_conn(old(store)@.connections, s.uid@) ==> final(store)@ == old(store)@)
                &&& (!has_conn(old(store)@.connections, s.uid@) ==> final(store)@.connections
                    =~= old(store)@.connections.push(
                    ConnectionView { id: old(store)@.next_id, uid: s.uid@, last_seen: now as int },
                ) && final(store)@.received == old(store)@.received
                    && final(store)@.queued == old(store)@.queued
                    && final(store)@.delivered == old(store)@.delivered
                    && final(store)@.next_id == old(store)@.next_id + 1)
            },
            None => conn_decode(msg@) is Err && final(store)@ == old(store)@,
        },
{
    let parsed = ConnMsg::from_msg(msg);
    match parsed {
        Ok(m) => {
            if store.get_connection(&m.uid).is_none() {
                store.add_connection(&m.uid, now);
            }
            Some(Session { uid: m.uid, state: SessionState::Active, active: true })
        },
        Err(_) => None,
    }
}

/// Consumes one inbound frame for an active session, exactly as the reader
/// task does. An accepted `SENSOR` frame for the session's own uid persists
/// the reading and touches the connection's last-seen time; an accepted
/// `DISCONN` for the own uid removes the connection and clears the shared
/// flag. Everything else — a uid that is not the session's, any decode
/// failure, any other leading tag — stops the reader and changes nothing:
/// the session fails closed.
pub fn reader_step(store: &mut Store, session: &mut Session, msg: &String, now: i64) -> (flow:
    ReaderFlow)
    requires
        old(store).inv(),
        old(store)@.next_id < i64::MAX,
        old(session).state == SessionState::Active,
    ensures
        final(store).inv(),
        final(session).uid == old(session).uid,
        final(session).state == old(session).state,
        ({
            let s0 = old(store)@;
            let s1 = final(store)@;
            let uid = old(session).uid@;
            if protocol_of(msg@) is SENSOR {
                match sensor_decode(msg@) {
                    Ok(t) => if t.0 == uid {
                        &&& flow is Continue
                        &&& final(session).active == old(session).active
                        &&& s1.received =~= s0.received.push(
                            ReceivedMessageView {
                                id: s0.next_id,
                                uid: uid,
                                data: t.2,
                                created_at: t.1,
                            },
                        )
                        &&& (!has_conn(s0.connections, uid) ==> s1.connections == s0.connections)
                        &&& (has_conn(s0.connections, uid) ==> exists|i: int|
                            0 <= i < s0.connections.len() && s0.connections[i].uid == uid
                                && s1.connections =~= s0.connections.update(
                                i,
                                ConnectionView {
                                    id: s0.connections[i].id,
                                    uid: s0.connections[i].uid,
                                    last_seen: now as int,
                                },
                            ))
                        &&& s1.queued == s0.queued
                        &&& s1.delivered == s0.delivered
                        &&& s1.next_id == s0.next_id + 1
                    } else {
                        &&& flow is Stop
                        &&& s1 == s0
                        &&& final(session).active == old(session).active
                    },
                    Err(_) => {
                        &&& flow is Stop
                        &&& s1 == s0
                        &&& final(session).active == old(session).active
                    },
                }
            } else if protocol_of(msg@) is DISCONN {
                match disconn_decode(msg@) {
                    Ok(u) => if u == uid {
                        &&& flow is Stop
                        &&& !final(session).active
                        &&& (!has_conn(s0.connections, uid) ==> s1.connections == s0.connections)
                        &&& (has_conn(s0.connections, uid) ==> exists|i: int|
                            0 <= i < s0.connections.len() && s0.connections[i].uid == uid
                                && s1.connections =~= s0.connections.remove(i))
                        &&& !has_conn(s1.connections, uid)
                        &&& s1.received == s0.received
                        &&& s1.queued == s0.queued
                        &&& s1.delivered == s0.delivered
                        &&& s1.next_id == s0.next_id
                    } else {
                        &&& flow is Stop
                        &&& s1 == s0
                        &&& final(session).active == old(session).active
                    },
                    Err(_) => {
                        &&& flow is Stop
                        &&& s1 == s0
                        &&& final(session).active == old(session).active
                    },
                }
            } else {
                &&& flow is Stop
                &&& s1 == s0
                &&& final(session).active == old(session).active
            }
        }),
{
    let proto = match get_protocol(msg) {
        Ok(p) => p,
        Err(_) => {
            return ReaderFlow::Stop;
        },
    };
    match proto {
        Protocol::SENSOR => {
            match SensorMsg::from_msg(msg) {
                Ok(m) => {
                    if !str_eq(m.uid.as_str(), session.uid.as_str()) {
                        return ReaderFlow::Stop;
                    }
                    store.add_received_message(&m);
                    store.update_connection(&m.uid, now);
                    ReaderFlow::Continue
                },
                Err(_) => ReaderFlow::Stop,
            }
        },
        Protocol::DISCONN => {
            match DisconnMsg::from_msg(msg) {
                Ok(m) => {
                    if !str_eq(m.uid.as_str(), session.uid.as_str()) {
                        return ReaderFlow::Stop;
                    }
                    store.delete_connection(&m.uid);
                    session.active = false;
                    ReaderFlow::Stop
                },
                Err(_) => ReaderFlow::Stop,
            }
        },
        _ => ReaderFlow::Stop,
    }
}

/// What the writer does on one tick: close the channel, or send these
/// broadcasts, oldest first.
pub enum WriterTick {
    Close,
    Deliver(Vec<QueuedMessage>),
}

/// One writer tick's decision: when the shared flag has been cleared the
/// channel is to be closed; otherwise the broadcasts still pending for this
/// session are to be sent, oldest first.
pub fn writer_poll(store: &Store, session: &Session) -> (r: WriterTick)
    ensures
        !session.active ==> r is Close,
        session.active ==> (r is Deliver && r->Deliver_0.deep_view() =~= pending(
            store@.queued,
            store@.delivered,
            session.uid@,
        )),
{
    if !session.active {
        WriterTick::Close
    } else {
        WriterTick::Deliver(store.get_new_queued_messages(&session.uid))
    }
}

/// Drains one writer tick on which every send succeeds: returns the
/// broadcasts that were pending for `uid`, oldest first, and marks each one
/// delivered. Afterwards nothing is pending for `uid` — a later tick sends
/// nothing again — while every other client's pending set stands untouched.
pub fn deliver_pending(store: &mut Store, uid: &String) -> (r: Vec<QueuedMessage>)
    requires
        old(store).inv(),
    ensures
        final(store).inv(),
        r.deep_view() =~= pending(old(store)@.queued, old(store)@.delivered, uid@),
        pending(final(store)@.queued, final(store)@.delivered, uid@) =~= Seq::<
            QueuedMessageView,
        >::empty(),
        forall|u: Seq<char>|
            u != uid@ ==> pending(final(store)@.queued, final(store)@.delivered, u) == pending(
                old(store)@.queued,
                old(store)@.delivered,
                u,
            ),
        forall|u: Seq<char>, q: int|
            has_mark(final(store)@.delivered, u, q) == (has_mark(old(store)@.delivered, u, q) || (
            u == uid@ && exists|k: int|
                0 <= k < pending(old(store)@.queued, old(store)@.delivered, uid@).len()
                    && (#[trigger] pending(old(store)@.queued, old(store)@.delivered, uid@)[k]).id
                    == q)),
        final(store)@.connections == old(store)@.connections,
        final(store)@.received == old(store)@.received,
        final(store)@.queued == old(store)@.queued,
        final(store)@.next_id == old(store)@.next_id,
{
    let r = store.get_new_queued_messages(uid);
    let ghost p = pending(old(store)@.queued, old(store)@.delivered, uid@);
    let n = r.len();
    let mut i: usize = 0;
    while i < n
        invariant
            store.inv(),
            n == r.len(),
            n == p.len(),
            r.deep_view() =~= p,
            0 <= i <= n,
            store@.connections == old(store)@.connections,
            store@.received == old(store)@.received,
            store@.queued == old(store)@.queued,
            store@.next_id == old(store)@.next_id,
            forall|u: Seq<char>, q: int|
                has_mark(store@.delivered, u, q) == (has_mark(old(store)@.delivered, u, q) || (u
                    == uid@ && exists|k: int| 0 <= k < i && (#[trigger] p[k]).id == q)),
        decreases n - i,
    {
        let id: i64 = r[i].id;
        proof {
            assert(r.deep_view()[i as int] == p[i as int]);
            assert(id as int == p[i as int].id);
        }
        store.add_delivered_message(uid, id);
        proof {
            assert forall|u: Seq<char>, q: int|
                has_mark(store@.delivered, u, q) == (has_mark(old(store)@.delivered, u, q) || (u
                    == uid@ && exists|k: int| 0 <= k < i + 1 && (#[trigger] p[k]).id == q)) by {
                if u == uid@ && q == id as int {
                    assert(p[i as int].id == q);
                    assert(exists|k: int| 0 <= k < i + 1 && (#[trigger] p[k]).id == q);
                }
                if has_mark(store@.delivered, u, q) && !has_mark(old(store)@.delivered, u, q) && !(
                u == uid@ && q == id as int) {
                    assert(exists|k: int| 0 <= k < i && (#[trigger] p[k]).id == q);
                }
                if u == uid@ && exists|k: int| 0 <= k < i + 1 && (#[trigger] p[k]).id == q {
                    let k = choose|k: int| 0 <= k < i + 1 && (#[trigger] p[k]).id == q;
                    if k < i {
                        assert(exists|k2: int| 0 <= k2 < i && (#[trigger] p[k2]).id == q);
                    } else {
                        assert(q == id as int);
                    }
                }
            }
        }
        i = i + 1;
    }
    proof {
        let s0 = old(store)@;
        let s1 = store@;
        crate::store::lemma_pending_membership(s0.queued, s0.delivered, uid@);
        assert forall|j: int|
            0 <= j < s1.queued.len() implies has_mark(
            s1.delivered,
            uid@,
            (#[trigger] s1.queued[j]).id,
        ) by {
            if !has_mark(s0.delivered, uid@, s0.queued[j].id) {
                assert(p.contains(s0.queued[j]));
                let k = choose|k: int| 0 <= k < p.len() && p[k] == s0.queued[j];
                assert(p[k].id == s0.queued[j].id);
            }
        }
        crate::store::lemma_pending_empty(s1.queued, s1.delivered, uid@);
        assert forall|u: Seq<char>|
            u != uid@ implies pending(s1.queued, s1.delivered, u) == pending(
            s0.queued,
            s0.delivered,
            u,
        ) by {
            assert(forall|q: int| has_mark(s1.delivered, u, q) == has_mark(s0.delivered, u, q));
            crate::store::lemma_pending_same_marks(s0.queued, s1.delivered, s0.delivered, u);
        }
    }
    r
}

/// What one aggregator tick decides: nothing to average, or the most recent
/// readings to average, newest first.
pub enum AggregatorTick {
    Skip,
    Publish(Vec<ReceivedMessage>),
}

/// One aggregator tick's sampling: the `limit` most recently created
/// readings, newest first, to be averaged; a tick that finds none is
/// skipped and produces no broadcast.
pub fn aggregator_poll(store: &Store, limit: usize) -> (r: AggregatorTick)
    ensures
        ({
            let cnt: int = if store@.received.len() < limit as int {
                store@.received.len() as int
            } else {
                limit as int
            };
            &&& cnt == 0 ==> r is Skip
            &&& cnt > 0 ==> (r is Publish && exists|idxs: Seq<int>|
                is_recent_selection(
                    store@.received,
                    limit as int,
                    idxs,
                    r->Publish_0.deep_view(),
                ))
        }),
{
    let msgs = store.get_last_received_messages(limit);
    if msgs.is_empty() {
        AggregatorTick::Skip
    } else {
        let ghost mdv = msgs.deep_view();
        let ghost w = choose|idxs: Seq<int>|
            is_recent_selection(store@.received, limit as int, idxs, mdv);
        let r = AggregatorTick::Publish(msgs);
        proof {
            assert(r->Publish_0.deep_view() == mdv);
            assert(is_recent_selection(store@.received, limit as int, w, r->Publish_0.deep_view()));
        }
        r
    }
}

/// Publishes one tick's result: the formatted mean, stamped `now`, becomes
/// an `AVG` frame appended to the broadcast queue — the sole producer of
/// broadcast content.
pub fn publish_average(store: &mut Store, value: &String, now: i64)
    requires
        old(store).inv(),
        old(store)@.next_id < i64::MAX,
    ensures
        final(store).inv(),
        final(store)@.queued =~= old(store)@.queued.push(
            QueuedMessageView {
                id: old(store)@.next_id,
                message: avg_encode(now as int, value@),
                created_at: now as int,
            },
        ),
        final(store)@.connections == old(store)@.connections,
        final(store)@.received == old(store)@.received,
        final(store)@.delivered == old(store)@.delivered,
        final(store)@.next_id == old(store)@.next_id + 1,
{
    let avg = AvgMsg { data: value.clone(), timestamp: now };
    let frame = avg.to_msg();
    store.add_queued_message(frame, now);
}

} // verus!
