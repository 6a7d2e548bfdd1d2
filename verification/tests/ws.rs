use stackedfour::board::{Colour, Direction};
use stackedfour::db::{Db, StoreError};
use stackedfour::registry::Registry;
use stackedfour::session::PlayError;
use stackedfour::ws::{
    client_msg, client_connection, is_keepalive, ClientRequest, ConnectionAction, ConnectionEvent,
    ConnectionState, Handled, Inbound, Play,
};

fn setup() -> (Registry, Db) {
    let mut db = Db::db_init();
    let ann = db.get_player(&"ann".to_string()).unwrap();
    let mut registry = Registry::new();
    registry.register_client(ann.name, ann.id, "a1".to_string());
    (registry, db)
}

#[test]
fn ping_with_or_without_line_feed_is_a_keepalive() {
    assert!(is_keepalive("ping"));
    assert!(is_keepalive("ping\n"));
}

#[test]
fn other_texts_are_no_keepalive() {
    assert!(!is_keepalive(""));
    assert!(!is_keepalive("pong"));
    assert!(!is_keepalive("ping "));
    assert!(!is_keepalive("ping\n\n"));
    assert!(!is_keepalive("ping\r\n"));
    assert!(!is_keepalive("Ping"));
    assert!(!is_keepalive("{\"play\":null}"));
}

#[test]
fn frames_that_ask_for_nothing_are_ignored() {
    let (registry, mut db) = setup();
    let uuid = "a1".to_string();
    assert!(matches!(
        client_msg(&uuid, Inbound::NotText, &registry, &mut db),
        Handled::Ignored
    ));
    assert!(matches!(
        client_msg(&uuid, Inbound::Keepalive, &registry, &mut db),
        Handled::Ignored
    ));
    assert!(db.games().is_empty());
}

#[test]
fn malformed_text_is_dropped() {
    let (registry, mut db) = setup();
    assert!(matches!(
        client_msg(&"a1".to_string(), Inbound::Malformed, &registry, &mut db),
        Handled::Dropped
    ));
    assert!(db.games().is_empty());
}

#[test]
fn request_of_an_unregistered_connection_finds_no_player() {
    let (registry, mut db) = setup();
    let request = Inbound::Request(ClientRequest { play: None });
    assert!(matches!(
        client_msg(&"zz".to_string(), request, &registry, &mut db),
        Handled::NoPlayer
    ));
    assert!(db.games().is_empty());
}

#[test]
fn request_is_played_for_the_user_of_the_connection() {
    let (registry, mut db) = setup();
    let play = Play { row: 2, direction: Direction::Right };
    let request = Inbound::Request(ClientRequest { play: Some(play) });
    match client_msg(&"a1".to_string(), request, &registry, &mut db) {
        Handled::Played(shown) => {
            assert_eq!(shown.this_player, 1);
            assert_eq!(shown.this_update.your_name, "ann");
            assert_eq!(shown.this_update.current_player, Some(Colour::Black));
            assert_eq!(shown.this_update.squares[2][6].unwrap().value, Colour::Red);
        }
        other => panic!("unexpected outcome: {:?}", other),
    }
    assert_eq!(db.games().len(), 1);
}

#[test]
fn request_that_cannot_be_played_fails_with_its_error() {
    let (mut registry, mut db) = setup();
    let play = Play { row: 9, direction: Direction::Left };
    let request = Inbound::Request(ClientRequest { play: Some(play) });
    assert!(matches!(
        client_msg(&"a1".to_string(), request, &registry, &mut db),
        Handled::Failed(PlayError::InvalidInput)
    ));
    registry.register_client("eve".to_string(), 66, "e1".to_string());
    let request = Inbound::Request(ClientRequest { play: None });
    assert!(matches!(
        client_msg(&"e1".to_string(), request, &registry, &mut db),
        Handled::Failed(PlayError::StoreUnavailable(StoreError::UnknownPlayer))
    ));
    assert!(db.games().is_empty());
}

#[test]
fn upgrade_is_granted_to_registered_connections_only() {
    assert_eq!(
        client_connection(
            ConnectionState::Connecting,
            ConnectionEvent::Upgrade { registered: true }
        ),
        (ConnectionState::Open, ConnectionAction::Attach)
    );
    assert_eq!(
        client_connection(
            ConnectionState::Connecting,
            ConnectionEvent::Upgrade { registered: false }
        ),
        (ConnectionState::Closed, ConnectionAction::Reject)
    );
}

#[test]
fn open_connection_handles_frames_and_is_unregistered_once() {
    let mut state = ConnectionState::Open;
    let mut unregistered = 0;
    let events = [
        ConnectionEvent::Frame,
        ConnectionEvent::Frame,
        ConnectionEvent::UnregisterRequested,
        ConnectionEvent::Frame,
        ConnectionEvent::UnregisterRequested,
        ConnectionEvent::InboundEnded,
        ConnectionEvent::InboundEnded,
        ConnectionEvent::Upgrade { registered: true },
    ];
    let expected = [
        (ConnectionState::Open, ConnectionAction::Handle),
        (ConnectionState::Open, ConnectionAction::Handle),
        (ConnectionState::Closing, ConnectionAction::Unregister),
        (ConnectionState::Closing, ConnectionAction::Nothing),
        (ConnectionState::Closing, ConnectionAction::Nothing),
        (ConnectionState::Closed, ConnectionAction::Nothing),
        (ConnectionState::Closed, ConnectionAction::Nothing),
        (ConnectionState::Closed, ConnectionAction::Nothing),
    ];
    for n in 0..events.len() {
        let (next, action) = client_connection(state, events[n]);
        assert_eq!((next, action), expected[n]);
        if action == ConnectionAction::Unregister {
            unregistered += 1;
        }
        state = next;
    }
    assert_eq!(unregistered, 1);
}

#[test]
fn end_of_the_stream_unregisters_and_closes() {
    assert_eq!(
        client_connection(ConnectionState::Open, ConnectionEvent::InboundEnded),
        (ConnectionState::Closed, ConnectionAction::Unregister)
    );
}

#[test]
fn events_out_of_place_change_nothing() {
    assert_eq!(
        client_connection(ConnectionState::Connecting, ConnectionEvent::Frame),
        (ConnectionState::Connecting, ConnectionAction::Nothing)
    );
    assert_eq!(
        client_connection(ConnectionState::Connecting, ConnectionEvent::InboundEnded),
        (ConnectionState::Connecting, ConnectionAction::Nothing)
    );
    assert_eq!(
        client_connection(
            ConnectionState::Open,
            ConnectionEvent::Upgrade { registered: false }
        ),
        (ConnectionState::Open, ConnectionAction::Nothing)
    );
}
