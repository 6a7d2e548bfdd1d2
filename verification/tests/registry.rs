use stackedfour::registry::{notify_players, remove_socket, Registry};
use tokio::sync::mpsc::unbounded_channel;
use tokio::sync::mpsc::UnboundedReceiver;
use warp::ws::Message;

type Frames = UnboundedReceiver<Result<Message, warp::Error>>;

fn connect(registry: &mut Registry, uuid: &str, name: &str, user_id: i32) -> Frames {
    let (sender, receiver) = unbounded_channel();
    registry.register_client(name.to_string(), user_id, uuid.to_string());
    assert!(registry.attach_sender(&uuid.to_string(), sender));
    receiver
}

fn texts(receiver: &mut Frames) -> Vec<String> {
    let mut seen = Vec::new();
    while let Ok(frame) = receiver.try_recv() {
        seen.push(frame.unwrap().to_str().unwrap().to_string());
    }
    seen
}

#[test]
fn delivery_reaches_both_connections_of_the_user_and_no_other() {
    let mut registry = Registry::new();
    let mut first = connect(&mut registry, "a1", "ann", 1);
    let mut other = connect(&mut registry, "b1", "bob", 2);
    let mut second = connect(&mut registry, "a2", "ann", 1);
    let mut reached = notify_players(Some(1), "state".to_string(), &registry);
    reached.sort();
    assert_eq!(reached, vec!["a1".to_string(), "a2".to_string()]);
    assert_eq!(texts(&mut first), vec!["state".to_string()]);
    assert_eq!(texts(&mut second), vec!["state".to_string()]);
    assert!(texts(&mut other).is_empty());
}

#[test]
fn connection_without_a_sender_is_passed_over() {
    let mut registry = Registry::new();
    registry.register_client("ann".to_string(), 1, "a1".to_string());
    let mut second = connect(&mut registry, "a2", "ann", 1);
    let reached = notify_players(Some(1), "state".to_string(), &registry);
    assert_eq!(reached, vec!["a2".to_string()]);
    assert_eq!(texts(&mut second), vec!["state".to_string()]);
}

#[test]
fn delivery_to_nobody_sends_nothing() {
    let mut registry = Registry::new();
    let mut first = connect(&mut registry, "a1", "ann", 1);
    assert!(notify_players(None, "state".to_string(), &registry).is_empty());
    assert!(notify_players(Some(2), "state".to_string(), &registry).is_empty());
    assert!(texts(&mut first).is_empty());
}

#[test]
fn delivery_to_a_closed_queue_is_dropped_silently() {
    let mut registry = Registry::new();
    let gone = connect(&mut registry, "a1", "ann", 1);
    drop(gone);
    let mut alive = connect(&mut registry, "a2", "ann", 1);
    let reached = notify_players(Some(1), "state".to_string(), &registry);
    assert_eq!(reached.len(), 2);
    assert_eq!(texts(&mut alive), vec!["state".to_string()]);
}

#[test]
fn registered_connection_is_found_with_its_user() {
    let mut registry = Registry::new();
    assert!(registry.get(&"a1".to_string()).is_none());
    registry.register_client("ann".to_string(), 1, "a1".to_string());
    let client = registry.get(&"a1".to_string()).unwrap();
    assert_eq!(client.username, "ann");
    assert_eq!(client.user_id, 1);
    assert!(client.sender.is_none());
}

#[test]
fn registering_an_id_again_replaces_the_connection() {
    let mut registry = Registry::new();
    let mut old = connect(&mut registry, "a1", "ann", 1);
    registry.register_client("bob".to_string(), 2, "a1".to_string());
    let client = registry.get(&"a1".to_string()).unwrap();
    assert_eq!(client.username, "bob");
    assert_eq!(client.user_id, 2);
    assert!(client.sender.is_none());
    assert!(notify_players(Some(1), "state".to_string(), &registry).is_empty());
    assert!(notify_players(Some(2), "state".to_string(), &registry).is_empty());
    assert!(texts(&mut old).is_empty());
}

#[test]
fn attaching_to_an_unregistered_id_does_nothing() {
    let mut registry = Registry::new();
    let (sender, _receiver) = unbounded_channel();
    assert!(!registry.attach_sender(&"a1".to_string(), sender));
    assert!(registry.get(&"a1".to_string()).is_none());
}

#[test]
fn attached_sender_is_the_one_that_was_given() {
    let mut registry = Registry::new();
    let mut receiver = connect(&mut registry, "a1", "ann", 1);
    let client = registry.get(&"a1".to_string()).unwrap();
    let sender = client.sender.as_ref().unwrap();
    sender.send(Ok(Message::text("direct"))).unwrap();
    assert_eq!(texts(&mut receiver), vec!["direct".to_string()]);
}

#[test]
fn removed_connection_is_gone_and_removal_repeats_harmlessly() {
    let mut registry = Registry::new();
    let mut first = connect(&mut registry, "a1", "ann", 1);
    let mut second = connect(&mut registry, "a2", "ann", 1);
    let mut other = connect(&mut registry, "b1", "bob", 2);
    remove_socket(&"a1".to_string(), &mut registry);
    assert!(registry.get(&"a1".to_string()).is_none());
    assert!(registry.get(&"a2".to_string()).is_some());
    remove_socket(&"a1".to_string(), &mut registry);
    remove_socket(&"zz".to_string(), &mut registry);
    let reached = notify_players(Some(1), "state".to_string(), &registry);
    assert_eq!(reached, vec!["a2".to_string()]);
    assert!(texts(&mut first).is_empty());
    assert_eq!(texts(&mut second), vec!["state".to_string()]);
    remove_socket(&"a2".to_string(), &mut registry);
    assert!(notify_players(Some(1), "state".to_string(), &registry).is_empty());
    assert_eq!(
        notify_players(Some(2), "state".to_string(), &registry),
        vec!["b1".to_string()]
    );
    assert_eq!(texts(&mut other), vec!["state".to_string()]);
}

#[test]
fn each_of_the_two_players_gets_their_own_payload() {
    let mut registry = Registry::new();
    let mut ann = connect(&mut registry, "a1", "ann", 1);
    let mut bob = connect(&mut registry, "b1", "bob", 2);
    let mut cid = connect(&mut registry, "c1", "cid", 3);
    let (this_reached, that_reached) = stackedfour::registry::notify_both(
        1,
        "for ann".to_string(),
        Some(2),
        "for bob".to_string(),
        &registry,
    );
    assert_eq!(this_reached, vec!["a1".to_string()]);
    assert_eq!(that_reached, vec!["b1".to_string()]);
    assert_eq!(texts(&mut ann), vec!["for ann".to_string()]);
    assert_eq!(texts(&mut bob), vec!["for bob".to_string()]);
    assert!(texts(&mut cid).is_empty());
    let (this_reached, that_reached) = stackedfour::registry::notify_both(
        3,
        "for cid".to_string(),
        None,
        "for nobody".to_string(),
        &registry,
    );
    assert_eq!(this_reached, vec!["c1".to_string()]);
    assert!(that_reached.is_empty());
    assert_eq!(texts(&mut cid), vec!["for cid".to_string()]);
    assert!(texts(&mut ann).is_empty());
}
