//! Registration: from a player's name to a connection id and the address
//! to connect to.

use vstd::prelude::*;
use vstd::string::StringExecFns;

use crate::db::{Db, DbModel, StoreError};
use crate::registry::{remove_socket, ClientModel, Connections, Registry};
use crate::ws::{client_connection, ConnectionEvent, ConnectionState};

verus! {

/// What a player sends to register.
#[derive(Clone, Debug)]
pub struct RegisterRequest {
    pub username: String,
}

/// What a registered player gets back: the address of the connection.
#[derive(Clone, Debug)]
pub struct RegisterResponse {
    pub url: String,
}

/// Why a handler refused.
#[derive(Clone, Copy, Debug, PartialEq, Eq, Structural)]
pub enum HandlerError {
    /// No connection is registered under the id.
    NotFound,
}

/// A lower-case hexadecimal digit.
pub open spec fn is_lower_hex(c: char) -> bool {
    ('0' <= c && c <= '9') || ('a' <= c && c <= 'f')
}

/// A connection id as it is drawn: 32 lower-case hexadecimal digits.
pub open spec fn is_token(token: Seq<char>) -> bool {
    &&& token.len() == 32
    &&& forall|i: int| 0 <= i < 32 ==> is_lower_hex(#[trigger] token[i])
}

/// The address of connection `token`: secure and on `host` where a host is
/// configured, else plain and on the local default.
pub open spec fn url_of(host: Option<Seq<char>>, token: Seq<char>) -> Seq<char> {
    match host {
        Some(name) => "wss://"@ + name + "/ws/"@ + token,
        None => "ws://127.0.0.1:4321/ws/"@ + token,
    }
}

/// The tables, the registry and the address after `username` registers
/// and gets connection `token`.
pub open spec fn registered(
    db: DbModel,
    connections: Connections,
    username: Seq<char>,
    token: Seq<char>,
    host: Option<Seq<char>>,
) -> (DbModel, Connections, Seq<char>) {
    let (after, player) = db.upserted(username);
    (
        after,
        connections.insert(token, ClientModel { username, user_id: player.id, sender: None }),
        url_of(host, token),
    )
}

/// The model of an optional host name.
pub open spec fn host_of(host: Option<String>) -> Option<Seq<char>> {
    match host {
        Some(name) => Some(name@),
        None => None,
    }
}

/// A fresh connection id: a random version-4 UUID from `Uuid::new_v4`,
/// spelled by `as_simple` as 32 lower-case hexadecimal digits without
/// hyphens. Which id comes out is up to the random source of the operating
/// system; the call panics if that source cannot be read.
#[verifier::external_body]
fn new_token() -> (token: String)
    ensures
        is_token(token@),
{
    uuid::Uuid::new_v4().as_simple().to_string()
}

/// The address of connection `uuid`.
pub fn session_url(host: &Option<String>, uuid: &String) -> (url: String)
    ensures
        url@ == url_of(host_of(*host), uuid@),
{
    match host {
        Some(name) => {
            let mut url = String::from_str("wss://");
            url.append(name.as_str());
            url.append("/ws/");
            url.append(uuid.as_str());
            url
        },
        None => {
            let mut url = String::from_str("ws://127.0.0.1:4321/ws/");
            url.append(uuid.as_str());
            url
        },
    }
}

/// Registers the player named in `body` under connection id `uuid`: looks
/// the player up by name, adding the name where it is new, enters the
/// connection in the registry with no sender attached, and answers with
/// the connection's address. Fails, and changes nothing, only where a new
/// player is needed and the ids have run out.
pub fn register_with_token(
    body: RegisterRequest,
    uuid: String,
    registry: &mut Registry,
    db: &mut Db,
    host: &Option<String>,
) -> (result: Result<RegisterResponse, StoreError>)
    requires
        old(registry).wf(),
        old(db).wf(),
    ensures
        final(registry).wf(),
        final(db).wf(),
        result is Err <==> (!old(db)@.has_name(body.username@) && old(db)@.next_player_id()
            > i32::MAX),
        result matches Err(e) ==> e == StoreError::OutOfIds && final(db)@ == old(db)@ && final(registry)@
            == old(registry)@,
        result matches Ok(response) ==> (final(db)@, final(registry)@, response.url@)
            == registered(old(db)@, old(registry)@, body.username@, uuid@, host_of(*host)),
{
    let player = match db.get_player(&body.username) {
        Ok(player) => player,
        Err(e) => {
            return Err(e);
        },
    };
    let url = session_url(host, &uuid);
    registry.register_client(body.username, player.id, uuid);
    Ok(RegisterResponse { url })
}

/// Registers the player named in `body` under a fresh connection id. What
/// the id is cannot be said beforehand; for the id that was drawn, all is
/// as `register_with_token` does it.
pub fn register_handler(
    body: RegisterRequest,
    registry: &mut Registry,
    db: &mut Db,
    host: &Option<String>,
) -> (result: Result<RegisterResponse, StoreError>)
    requires
        old(registry).wf(),
        old(db).wf(),
    ensures
        final(registry).wf(),
        final(db).wf(),
        result is Err <==> (!old(db)@.has_name(body.username@) && old(db)@.next_player_id()
            > i32::MAX),
        result matches Err(e) ==> e == StoreError::OutOfIds && final(db)@ == old(db)@ && final(registry)@
            == old(registry)@,
        result matches Ok(response) ==> exists|token: Seq<char>|
            is_token(token) && (final(db)@, final(registry)@, response.url@)
                == #[trigger] registered(
                old(db)@,
                old(registry)@,
                body.username@,
                token,
                host_of(*host),
            ),
{
    let uuid = new_token();
    register_with_token(body, uuid, registry, db, host)
}

/// Takes connection `uuid` out of the registry; see `remove_socket`.
pub fn unregister_handler(uuid: String, registry: &mut Registry)
    requires
        old(registry).wf(),
    ensures
        final(registry).wf(),
        final(registry)@ == old(registry)@.remove(uuid@),
{
    remove_socket(&uuid, registry);
}

/// Decides on the upgrade of connection `uuid`: granted, and the
/// connection open, where the id is registered; refused with `NotFound`
/// where it is not.
pub fn ws_handler(uuid: &String, registry: &Registry) -> (decision: Result<
    ConnectionState,
    HandlerError,
>)
    requires
        registry.wf(),
    ensures
        decision is Ok <==> registry@.dom().contains(uuid@),
        decision matches Ok(state) ==> state == ConnectionState::Open,
        decision matches Err(e) ==> e == HandlerError::NotFound,
{
    let registered = registry.get(uuid).is_some();
    let (state, _) = client_connection(
        ConnectionState::Connecting,
        ConnectionEvent::Upgrade { registered },
    );
    if registered {
        Ok(state)
    } else {
        Err(HandlerError::NotFound)
    }
}

} // verus!
