//! One connection's session lifecycle.
//!
//! A session runs `Registering -> Active -> Terminating -> Removed`. While it
//! is `Active`, each poll of the connection's endpoint yields one
//! [`SessionEvent`]; [`session_step`] decides from that event alone whether
//! the session stays alive and which piece of outside work comes next. The
//! loop around the socket performs that work — the broadcast, the backoff
//! delay, or the removal — and [`handle_stream`] is the verified driver of
//! the whole lifecycle over a sequence of such events.

use vstd::prelude::*;

use crate::connections::index_of_id;
use crate::connections::seq_contains_id;
use crate::connections::Conn;
use crate::connections::Connections;

verus! {

/// Where one session stands in its lifecycle.
#[derive(PartialEq, Eq, Structural, Clone, Copy, Debug)]
pub enum SessionState {
    /// The connection is about to be inserted into the registry.
    Registering,
    /// The connection is registered and its endpoint is being polled.
    Active,
    /// The session is over; the connection must leave the registry.
    Terminating,
    /// The connection has left the registry; the session task exits.
    Removed,
}

/// The outcome of one poll of an active connection's endpoint.
#[derive(PartialEq, Eq, Structural, Clone, Copy, Debug)]
pub enum SessionEvent {
    /// The health check reported a pending transport error.
    HealthFailed,
    /// A read returned 0 bytes: the peer closed in an orderly way.
    ReadClosed,
    /// A read returned at least one byte: the broadcast trigger.
    ReadData,
    /// A read hit data, but the broadcast payload could not be fetched.
    PayloadUnavailable,
    /// A read reported the transient would-block condition.
    ReadWouldBlock,
    /// A read failed with any other error.
    ReadFailed,
}

/// What an active session asks its loop to do after one event.
#[derive(PartialEq, Eq, Structural, Clone, Copy, Debug)]
pub enum SessionAction {
    /// Fan the payload out to every registered connection, then poll again.
    Broadcast,
    /// Wait briefly for the transient condition to clear, then poll again.
    Backoff,
    /// Remove the connection from the registry and exit the session.
    Unregister,
}

impl SessionEvent {
    /// Does this event end the session? A reported transport error, an
    /// orderly close, an unreadable payload and any non-transient read error
    /// are fatal to the session; only the broadcast trigger and the
    /// would-block condition keep it alive.
    pub open spec fn is_terminal(self) -> bool {
        match self {
            SessionEvent::HealthFailed => true,
            SessionEvent::ReadClosed => true,
            SessionEvent::ReadData => false,
            SessionEvent::PayloadUnavailable => true,
            SessionEvent::ReadWouldBlock => false,
            SessionEvent::ReadFailed => true,
        }
    }
}

/// The state an active session moves to on `event`.
pub open spec fn spec_next_state(event: SessionEvent) -> SessionState {
    if event.is_terminal() {
        SessionState::Terminating
    } else {
        SessionState::Active
    }
}

/// The outside work an active session asks for on `event`.
pub open spec fn spec_next_action(event: SessionEvent) -> SessionAction {
    match event {
        SessionEvent::ReadData => SessionAction::Broadcast,
        SessionEvent::ReadWouldBlock => SessionAction::Backoff,
        _ => SessionAction::Unregister,
    }
}

/// Decide an active session's next state and next piece of outside work from
/// one poll outcome. Every terminal event leads to `Terminating` and asks for
/// the removal; the broadcast trigger and the would-block condition keep the
/// session `Active` and ask for the fan-out or the backoff.
pub fn session_step(state: SessionState, event: &SessionEvent) -> (r: (SessionState, SessionAction))
    requires
        state == SessionState::Active,
    ensures
        r.0 == spec_next_state(*event),
        r.1 == spec_next_action(*event),
{
    match event {
        SessionEvent::ReadData => (SessionState::Active, SessionAction::Broadcast),
        SessionEvent::ReadWouldBlock => (SessionState::Active, SessionAction::Backoff),
        _ => (SessionState::Terminating, SessionAction::Unregister),
    }
}

/// Does any event of `events` end the session?
pub open spec fn has_terminal(events: Seq<SessionEvent>) -> bool {
    exists|i: int| 0 <= i < events.len() && events[i].is_terminal()
}

/// The index of the first session-ending event at or after `i`, and the
/// event count when none follows.
pub open spec fn first_terminal_from(events: Seq<SessionEvent>, i: int) -> int
    decreases events.len() - i,
{
    if i >= events.len() {
        events.len() as int
    } else if events[i].is_terminal() {
        i
    } else {
        first_terminal_from(events, i + 1)
    }
}

/// The index of the first session-ending event, and the event count when
/// there is none: the session lives through exactly the events before it.
pub open spec fn first_terminal(events: Seq<SessionEvent>) -> int {
    first_terminal_from(events, 0)
}

/// How many broadcast triggers stand among the first `n` events.
pub open spec fn triggers_before(events: Seq<SessionEvent>, n: int) -> int
    decreases n,
{
    if n <= 0 {
        0
    } else {
        triggers_before(events, n - 1) + if events[n - 1] == SessionEvent::ReadData {
            1int
        } else {
            0int
        }
    }
}

/// A count of triggers is never negative.
proof fn lemma_triggers_before_nonneg(events: Seq<SessionEvent>, n: int)
    ensures
        triggers_before(events, n) >= 0,
    decreases n,
{
    if n > 0 {
        lemma_triggers_before_nonneg(events, n - 1);
    }
}

/// `payload` delivered `k` times over.
pub open spec fn repeated(payload: Seq<u8>, k: int) -> Seq<Seq<u8>>
    decreases k,
{
    if k <= 0 {
        Seq::empty()
    } else {
        repeated(payload, k - 1).push(payload)
    }
}

/// The payloads a session's broadcasts add to one connection: nothing while
/// the endpoint is held, and one copy of the payload per trigger the session
/// lives through when it is idle.
pub open spec fn session_deliveries(
    held: bool,
    payload: Seq<u8>,
    events: Seq<SessionEvent>,
) -> Seq<Seq<u8>> {
    if held {
        Seq::empty()
    } else {
        repeated(payload, triggers_before(events, first_terminal(events)))
    }
}

/// Drive one connection's session against the registry: register it, then
/// work through the poll outcomes in `events`, oldest first, broadcasting
/// `payload` on each trigger, until an event ends the session or the
/// outcomes run out. A session that ends is unregistered before the driver
/// returns, so its identifier is absent from the registry afterwards and the
/// membership is exactly what it was before; a session still alive when the
/// outcomes run out is still registered. Either way the assigned identifier
/// is fresh, the counter has moved past it, and every connection that was
/// registered throughout received one copy of the payload per trigger the
/// session lived through — none while its endpoint was held.
pub fn handle_stream(
    conns: &mut Connections,
    conn: Conn,
    events: &Vec<SessionEvent>,
    payload: &Vec<u8>,
) -> (r: (u32, SessionState))
    requires
        old(conns).wf(),
        old(conns).counter < u32::MAX,
    ensures
        final(conns).wf(),
        final(conns).counter == old(conns).counter + 1,
        r.0 == old(conns).counter + 1,
        !old(conns).id_set().contains(r.0),
        has_terminal(events@) ==> r.1 == SessionState::Removed
            && final(conns).id_set() == old(conns).id_set()
            && !final(conns).contains_id(r.0)
            && final(conns).entries@.len() == old(conns).entries@.len(),
        !has_terminal(events@) ==> r.1 == SessionState::Active
            && final(conns).id_set() == old(conns).id_set().insert(r.0)
            && final(conns).entries@.len() == old(conns).entries@.len() + 1
            && final(conns).entries@[old(conns).entries@.len() as int].id == r.0
            && final(conns).entries@[old(conns).entries@.len() as int].conn.held == conn.held
            && final(conns).entries@[old(conns).entries@.len() as int].conn.received()
                == conn.received() + session_deliveries(conn.held, payload@, events@),
        forall|j: int|
            0 <= j < old(conns).entries@.len() ==> {
                let e = #[trigger] old(conns).entries@[j];
                &&& final(conns).entries@[j].id == e.id
                &&& final(conns).entries@[j].conn.held == e.conn.held
                &&& final(conns).entries@[j].conn.received() == e.conn.received()
                    + session_deliveries(e.conn.held, payload@, events@)
            },
{
    let ghost conn0 = conn;
    let id = conns.store(conn);
    let ghost base = old(conns).id_set();
    let ghost m = old(conns).entries@.len() as int;
    proof {
        assert(!base.contains(id));
        assert(repeated(payload@, triggers_before(events@, 0)) =~= Seq::<Seq<u8>>::empty());
        assert forall|j: int|
            0 <= j < m implies #[trigger] conns.entries@[j] == old(conns).entries@[j]
            && conns.entries@[j].conn.received() == old(conns).entries@[j].conn.received()
            + repeated(payload@, triggers_before(events@, 0)) by {
            let e = old(conns).entries@[j];
            assert(e.conn.received() + repeated(payload@, triggers_before(events@, 0))
                =~= e.conn.received());
        }
        assert(conns.entries@[m].conn.received() =~= conn0.received() + repeated(
            payload@,
            triggers_before(events@, 0),
        ));
    }
    let mut state = SessionState::Active;
    let n = events.len();
    let mut i: usize = 0;
    while i < n
        invariant_except_break
            state == SessionState::Active,
            forall|k: int| 0 <= k < i ==> !(#[trigger] events@[k]).is_terminal(),
        invariant
            i <= n,
            n == events@.len(),
            conns.wf(),
            conns.counter == id,
            conns.id_set() == base.insert(id),
            !base.contains(id),
            first_terminal(events@) == first_terminal_from(events@, i as int),
            conns.entries@.len() == m + 1,
            m == old(conns).entries@.len(),
            forall|j: int|
                0 <= j < m ==> {
                    let e = #[trigger] old(conns).entries@[j];
                    &&& conns.entries@[j].id == e.id
                    &&& conns.entries@[j].conn.held == e.conn.held
                    &&& conns.entries@[j].conn.received() == e.conn.received() + repeated(
                        payload@,
                        if e.conn.held {
                            0int
                        } else {
                            triggers_before(events@, i as int)
                        },
                    )
                },
            conns.entries@[m].id == id,
            conns.entries@[m].conn.held == conn0.held,
            conns.entries@[m].conn.received() == conn0.received() + repeated(
                payload@,
                if conn0.held {
                    0int
                } else {
                    triggers_before(events@, i as int)
                },
            ),
        ensures
            conns.wf(),
            conns.counter == id,
            conns.id_set() == base.insert(id),
            state == SessionState::Active || state == SessionState::Terminating,
            state == SessionState::Terminating <==> has_terminal(events@),
            conns.entries@.len() == m + 1,
            forall|j: int|
                0 <= j < m ==> {
                    let e = #[trigger] old(conns).entries@[j];
                    &&& conns.entries@[j].id == e.id
                    &&& conns.entries@[j].conn.held == e.conn.held
                    &&& conns.entries@[j].conn.received() == e.conn.received() + repeated(
                        payload@,
                        if e.conn.held {
                            0int
                        } else {
                            triggers_before(events@, first_terminal(events@))
                        },
                    )
                },
            conns.entries@[m].id == id,
            conns.entries@[m].conn.held == conn0.held,
            conns.entries@[m].conn.received() == conn0.received() + repeated(
                payload@,
                if conn0.held {
                    0int
                } else {
                    triggers_before(events@, first_terminal(events@))
                },
            ),
        decreases n - i,
    {
        let ghost before = *conns;
        let ghost t = triggers_before(events@, i as int);
        let (next, action) = session_step(state, &events[i]);
        match action {
            SessionAction::Broadcast => {
                let _log = conns.broadcast(payload);
                proof {
                    lemma_triggers_before_nonneg(events@, i as int);
                    assert(events@[i as int] == SessionEvent::ReadData);
                    assert(triggers_before(events@, i as int + 1) == t + 1);
                    assert forall|j: int|
                        0 <= j < m implies {
                            let e = #[trigger] old(conns).entries@[j];
                            &&& conns.entries@[j].id == e.id
                            &&& conns.entries@[j].conn.held == e.conn.held
                            &&& conns.entries@[j].conn.received() == e.conn.received() + repeated(
                                payload@,
                                if e.conn.held {
                                    0int
                                } else {
                                    t + 1
                                },
                            )
                        } by {
                        let e = old(conns).entries@[j];
                        assert(before.entries@[j].id == e.id);
                        if !e.conn.held {
                            assert(conns.entries@[j].conn.received() == before.entries@[
                                j
                            ].conn.received().push(payload@));
                            assert((e.conn.received() + repeated(payload@, t)).push(payload@)
                                =~= e.conn.received() + repeated(payload@, t + 1));
                        }
                    }
                    assert(before.entries@[m].id == id);
                    if !conn0.held {
                        assert(conns.entries@[m].conn.received() == before.entries@[
                            m
                        ].conn.received().push(payload@));
                        assert((conn0.received() + repeated(payload@, t)).push(payload@)
                            =~= conn0.received() + repeated(payload@, t + 1));
                    }
                }
            },
            SessionAction::Backoff => {
                proof {
                    assert(events@[i as int] == SessionEvent::ReadWouldBlock);
                    assert(triggers_before(events@, i as int + 1) == t);
                }
            },
            SessionAction::Unregister => {},
        }
        state = next;
        if matches!(state, SessionState::Terminating) {
            proof {
                assert(events@[i as int].is_terminal());
                assert(has_terminal(events@));
                assert(first_terminal_from(events@, i as int) == i as int);
            }
            break ;
        }
        proof {
            assert(!events@[i as int].is_terminal());
            assert(first_terminal_from(events@, i as int) == first_terminal_from(
                events@,
                i as int + 1,
            ));
        }
        i = i + 1;
        proof {
            if i == n {
                assert(forall|k: int| 0 <= k < n ==> !(#[trigger] events@[k]).is_terminal());
            }
        }
    }
    proof {
        if i >= n && state == SessionState::Active {
            assert(!has_terminal(events@));
            assert(first_terminal_from(events@, n as int) == n as int);
        }
    }
    if matches!(state, SessionState::Terminating) {
        let ghost s = conns.entries@;
        conns.remove(id);
        state = SessionState::Removed;
        proof {
            assert(conns.id_set() =~= base);
            assert(s[m].id == id);
            assert(seq_contains_id(s, id));
            let ix = index_of_id(s, id);
            assert(0 <= ix < s.len() && s[ix].id == id);
            assert(ix == m);
            s.remove_ensures(m);
            assert(conns.entries@ == s.remove(m));
        }
    }
    proof {
        assert forall|j: int|
            0 <= j < m implies {
                let e = #[trigger] old(conns).entries@[j];
                &&& conns.entries@[j].id == e.id
                &&& conns.entries@[j].conn.held == e.conn.held
                &&& conns.entries@[j].conn.received() == e.conn.received() + session_deliveries(
                    e.conn.held,
                    payload@,
                    events@,
                )
            } by {
            let e = old(conns).entries@[j];
            if e.conn.held {
                assert(e.conn.received() + repeated(payload@, 0) =~= e.conn.received()
                    + session_deliveries(e.conn.held, payload@, events@));
            }
        }
        if state == SessionState::Active && conn0.held {
            assert(conn0.received() + repeated(payload@, 0) =~= conn0.received()
                + session_deliveries(conn0.held, payload@, events@));
        }
    }
    (id, state)
}

} // verus!
