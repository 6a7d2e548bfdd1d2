//! The messages a connection sends, and the life of a connection.

use vstd::prelude::*;

use crate::board::Direction;
use crate::db::Db;
use crate::registry::Registry;
use crate::session::{play_piece, session, session_error, Broadcast, PlayError};

verus! {

/// A move: the row to push a piece into, and the end to push it in from.
#[derive(Clone, Copy, Debug, PartialEq, Eq, Structural)]
pub struct Play {
    pub row: usize,
    pub direction: Direction,
}

/// A decoded inbound message. Without a `play` it only asks for the
/// current state.
#[derive(Clone, Copy, Debug, PartialEq, Eq, Structural)]
pub struct ClientRequest {
    pub play: Option<Play>,
}

/// The text is one of the two keepalive payloads, `ping` and `ping` with a
/// line feed.
pub open spec fn keepalive(text: Seq<char>) -> bool {
    text == seq!['p', 'i', 'n', 'g'] || text == seq!['p', 'i', 'n', 'g', '\n']
}

/// Whether the text is a keepalive. A keepalive is never decoded and never
/// reaches the game.
pub fn is_keepalive(message: &str) -> (yes: bool)
    ensures
        yes == keepalive(message@),
{
    proof {
        reveal_strlit("ping");
        reveal_strlit("ping\n");
        assert("ping"@ =~= seq!['p', 'i', 'n', 'g']);
        assert("ping\n"@ =~= seq!['p', 'i', 'n', 'g', '\n']);
    }
    let text = message.to_owned();
    text == "ping".to_owned() || text == "ping\n".to_owned()
}

/// A frame as the connection's receive loop hands it on.
#[derive(Clone, Copy, Debug, PartialEq, Eq, Structural)]
pub enum Inbound {
    /// Not a text frame.
    NotText,
    /// One of the keepalive payloads.
    Keepalive,
    /// Text that does not decode as a request.
    Malformed,
    /// A decoded request.
    Request(ClientRequest),
}

/// What became of a frame.
#[derive(Clone, Debug)]
pub enum Handled {
    /// The frame asked for nothing.
    Ignored,
    /// The frame did not decode; it is dropped and the connection stays
    /// open.
    Dropped,
    /// The connection is not registered, so there is no player to act for.
    NoPlayer,
    /// The request was given up.
    Failed(PlayError),
    /// The request went through: what to send to whom.
    Played(Broadcast),
}

/// Handles one frame of connection `uuid`. Frames that are not text and
/// keepalives ask for nothing. Text that did not decode is dropped. A
/// request is played for the user the connection belongs to. Only a request
/// that goes through changes the tables.
pub fn client_msg(uuid: &String, frame: Inbound, registry: &Registry, db: &mut Db) -> (handled:
    Handled)
    requires
        registry.wf(),
        old(db).wf(),
    ensures
        final(db).wf(),
        (frame is NotText || frame is Keepalive) <==> handled is Ignored,
        frame is Malformed <==> handled is Dropped,
        (frame is Request && !registry@.dom().contains(uuid@)) <==> handled is NoPlayer,
        handled matches Handled::Failed(e) ==> frame matches Inbound::Request(request)
            && session_error(old(db)@, registry@[uuid@].user_id, request.play) == Some(e),
        handled matches Handled::Played(broadcast) ==> frame matches Inbound::Request(request)
            && session_error(old(db)@, registry@[uuid@].user_id, request.play) is None && (
            final(db)@,
            broadcast@,
        ) == session(old(db)@, registry@[uuid@].user_id, request.play),
        !(handled is Played) ==> final(db)@ == old(db)@,
{
    match frame {
        Inbound::NotText => Handled::Ignored,
        Inbound::Keepalive => Handled::Ignored,
        Inbound::Malformed => Handled::Dropped,
        Inbound::Request(request) => match registry.get(uuid) {
            Some(client) => match play_piece(client.user_id, request.play, db) {
                Ok(broadcast) => Handled::Played(broadcast),
                Err(e) => Handled::Failed(e),
            },
            None => Handled::NoPlayer,
        },
    }
}

/// Where a connection stands in its life.
#[derive(Clone, Copy, Debug, PartialEq, Eq, Structural)]
pub enum ConnectionState {
    /// The transport asks to be upgraded.
    Connecting,
    /// Frames flow in both directions.
    Open,
    /// The connection was unregistered while its transport is still up.
    Closing,
    /// Nothing is left of the connection.
    Closed,
}

/// What happens to a connection.
#[derive(Clone, Copy, Debug, PartialEq, Eq, Structural)]
pub enum ConnectionEvent {
    /// The transport asks to be upgraded; `registered` says whether the
    /// registry holds the connection's id.
    Upgrade { registered: bool },
    /// A frame came in.
    Frame,
    /// The receive loop ended, at the end of the stream or on a transport
    /// error.
    InboundEnded,
    /// Somebody asked for the connection to be unregistered.
    UnregisterRequested,
}

/// What the connection's task is to do next.
#[derive(Clone, Copy, Debug, PartialEq, Eq, Structural)]
pub enum ConnectionAction {
    /// Refuse the upgrade: no connection comes to be.
    Reject,
    /// Create the outbound queue and attach its sender in the registry.
    Attach,
    /// Hand the frame to `client_msg`.
    Handle,
    /// Take the connection out of the registry.
    Unregister,
    /// Nothing.
    Nothing,
}

/// The state after an event, and what is to be done. An upgrade is granted
/// only to a registered connection. Frames are handled while the
/// connection is open. The connection is unregistered when its receive
/// loop ends or when somebody asks for it, whichever comes first, and not
/// again.
pub open spec fn stepped(state: ConnectionState, event: ConnectionEvent) -> (
    ConnectionState,
    ConnectionAction,
) {
    match (state, event) {
        (ConnectionState::Connecting, ConnectionEvent::Upgrade { registered }) => if registered {
            (ConnectionState::Open, ConnectionAction::Attach)
        } else {
            (ConnectionState::Closed, ConnectionAction::Reject)
        },
        (ConnectionState::Open, ConnectionEvent::Frame) => (
            ConnectionState::Open,
            ConnectionAction::Handle,
        ),
        (ConnectionState::Open, ConnectionEvent::InboundEnded) => (
            ConnectionState::Closed,
            ConnectionAction::Unregister,
        ),
        (ConnectionState::Open, ConnectionEvent::UnregisterRequested) => (
            ConnectionState::Closing,
            ConnectionAction::Unregister,
        ),
        (ConnectionState::Closing, ConnectionEvent::InboundEnded) => (
            ConnectionState::Closed,
            ConnectionAction::Nothing,
        ),
        _ => (state, ConnectionAction::Nothing),
    }
}

/// Advances a connection by one event.
pub fn client_connection(state: ConnectionState, event: ConnectionEvent) -> (next: (
    ConnectionState,
    ConnectionAction,
))
    ensures
        next == stepped(state, event),
{
    match state {
        ConnectionState::Connecting => match event {
            ConnectionEvent::Upgrade { registered } => if registered {
                (ConnectionState::Open, ConnectionAction::Attach)
            } else {
                (ConnectionState::Closed, ConnectionAction::Reject)
            },
            _ => (state, ConnectionAction::Nothing),
        },
        ConnectionState::Open => match event {
            ConnectionEvent::Frame => (ConnectionState::Open, ConnectionAction::Handle),
            ConnectionEvent::InboundEnded => (
                ConnectionState::Closed,
                ConnectionAction::Unregister,
            ),
            ConnectionEvent::UnregisterRequested => (
                ConnectionState::Closing,
                ConnectionAction::Unregister,
            ),
            _ => (state, ConnectionAction::Nothing),
        },
        ConnectionState::Closing => match event {
            ConnectionEvent::InboundEnded => (ConnectionState::Closed, ConnectionAction::Nothing),
            _ => (state, ConnectionAction::Nothing),
        },
        ConnectionState::Closed => (state, ConnectionAction::Nothing),
    }
}

/// The state after a sequence of events.
pub open spec fn run(state: ConnectionState, events: Seq<ConnectionEvent>) -> ConnectionState
    decreases events.len(),
{
    if events.len() == 0 {
        state
    } else {
        stepped(run(state, events.drop_last()), events.last()).0
    }
}

/// How often a sequence of events has the connection unregistered.
pub open spec fn unregistrations(state: ConnectionState, events: Seq<ConnectionEvent>) -> nat
    decreases events.len(),
{
    if events.len() == 0 {
        0
    } else {
        let before = unregistrations(state, events.drop_last());
        if stepped(run(state, events.drop_last()), events.last()).1
            == ConnectionAction::Unregister {
            before + 1
        } else {
            before
        }
    }
}

/// An open connection is unregistered exactly once, whatever ends it: not
/// while it stays open, and once and for all when it leaves that state.
pub proof fn lemma_unregistered_once(events: Seq<ConnectionEvent>)
    ensures
        run(ConnectionState::Open, events) != ConnectionState::Connecting,
        unregistrations(ConnectionState::Open, events) == (if run(ConnectionState::Open, events)
            == ConnectionState::Open {
            0nat
        } else {
            1nat
        }),
    decreases events.len(),
{
    if events.len() > 0 {
        lemma_unregistered_once(events.drop_last());
    }
}

/// A connection that is closing or closed never opens again and is not
/// unregistered again.
pub proof fn lemma_closed_stays_closed(state: ConnectionState, events: Seq<ConnectionEvent>)
    requires
        state == ConnectionState::Closing || state == ConnectionState::Closed,
    ensures
        run(state, events) == ConnectionState::Closing || run(state, events)
            == ConnectionState::Closed,
        state == ConnectionState::Closed ==> run(state, events) == ConnectionState::Closed,
        unregistrations(state, events) == 0,
    decreases events.len(),
{
    if events.len() > 0 {
        lemma_closed_stays_closed(state, events.drop_last());
    }
}

/// From the request for an upgrade on, a connection is unregistered once
/// if its upgrade was granted and it has left the open state since, and
/// never otherwise. A connection is open only after its upgrade was
/// granted.
pub proof fn lemma_life_of_connection(events: Seq<ConnectionEvent>)
    ensures
        match run(ConnectionState::Connecting, events) {
            ConnectionState::Connecting => !opened(ConnectionState::Connecting, events)
                && unregistrations(ConnectionState::Connecting, events) == 0,
            ConnectionState::Open => opened(ConnectionState::Connecting, events)
                && unregistrations(ConnectionState::Connecting, events) == 0,
            ConnectionState::Closing => opened(ConnectionState::Connecting, events)
                && unregistrations(ConnectionState::Connecting, events) == 1,
            ConnectionState::Closed => unregistrations(ConnectionState::Connecting, events) == (
            if opened(ConnectionState::Connecting, events) {
                1nat
            } else {
                0nat
            }),
        },
    decreases events.len(),
{
    if events.len() > 0 {
        lemma_life_of_connection(events.drop_last());
    }
}

/// The connection's upgrade was granted at some point of the sequence.
pub open spec fn opened(state: ConnectionState, events: Seq<ConnectionEvent>) -> bool
    decreases events.len(),
{
    if events.len() == 0 {
        false
    } else {
        opened(state, events.drop_last()) || stepped(
            run(state, events.drop_last()),
            events.last(),
        ).1 == ConnectionAction::Attach
    }
}

} // verus!
