//! The live connections: who each belongs to, and the channel that carries
//! what it is sent.

use vstd::prelude::*;

verus! {

/// `tokio::sync::mpsc::UnboundedSender`, the sending half of an unbounded
/// queue. Nothing is known of what is inside a value of it.
#[verifier::external_type_specification]
#[verifier::external_body]
#[verifier::reject_recursive_types(T)]
pub struct ExUnboundedSender<T>(tokio::sync::mpsc::UnboundedSender<T>);

/// `warp::ws::Message`, a websocket frame. Nothing is known of what is
/// inside a value of it.
#[verifier::external_type_specification]
#[verifier::external_body]
pub struct ExMessage(warp::ws::Message);

/// `warp::Error`, an error of the transport. Nothing is known of what is
/// inside a value of it.
#[verifier::external_type_specification]
#[verifier::external_body]
pub struct ExTransportError(warp::Error);

/// The queue on which frames for one connection are put; a forwarding task
/// drains it onto the wire.
pub type Sender = tokio::sync::mpsc::UnboundedSender<Result<warp::ws::Message, warp::Error>>;

/// One connection of a player. The sender is attached once the transport
/// has finished its handshake.
#[derive(Debug, Clone)]
pub struct Client {
    pub username: String,
    pub user_id: i32,
    pub sender: Option<Sender>,
}

/// The model of a connection.
pub struct ClientModel {
    pub username: Seq<char>,
    pub user_id: i32,
    pub sender: Option<Sender>,
}

impl View for Client {
    type V = ClientModel;

    open spec fn view(&self) -> ClientModel {
        ClientModel { username: self.username@, user_id: self.user_id, sender: self.sender }
    }
}

/// The connections, by connection id.
pub type Connections = Map<Seq<char>, ClientModel>;

/// The ids of the connections that belong to `user`.
pub open spec fn sockets_of(connections: Connections, user: i32) -> Set<Seq<char>> {
    Set::new(|id: Seq<char>| connections.dom().contains(id) && connections[id].user_id == user)
}

/// The second mapping of the registry, from a user to the ids of the
/// user's connections. A user without connections has no entry.
pub open spec fn sockets_by_user(connections: Connections) -> Map<i32, Set<Seq<char>>> {
    Map::new(
        |user: i32|
            exists|id: Seq<char>| #[trigger]
                connections.dom().contains(id) && connections[id].user_id == user,
        |user: i32| sockets_of(connections, user),
    )
}

/// The ids of the connections of `user` that have a sender attached: those
/// that a delivery to `user` reaches.
pub open spec fn reachable(connections: Connections, user: i32) -> Set<Seq<char>> {
    Set::new(
        |id: Seq<char>|
            connections.dom().contains(id) && connections[id].user_id == user
                && connections[id].sender is Some,
    )
}

#[derive(Debug)]
struct Entry {
    uuid: String,
    client: Client,
}

/// The registry of live connections.
#[derive(Debug)]
pub struct Registry {
    entries: Vec<Entry>,
}

impl View for Registry {
    type V = Connections;

    closed spec fn view(&self) -> Connections {
        Map::new(
            |id: Seq<char>| self.holds(id),
            |id: Seq<char>| self.entries@[self.index_of(id)].client@,
        )
    }
}

impl Registry {
    spec fn holds(&self, id: Seq<char>) -> bool {
        exists|k: int| 0 <= k < self.entries@.len() && (#[trigger] self.entries@[k]).uuid@ == id
    }

    spec fn index_of(&self, id: Seq<char>) -> int {
        choose|k: int| 0 <= k < self.entries@.len() && (#[trigger] self.entries@[k]).uuid@ == id
    }

    /// What holds of the registry at all times: no two connections share
    /// an id.
    pub closed spec fn wf(&self) -> bool {
        forall|a: int, b: int|
            0 <= a < b < self.entries@.len() ==> (#[trigger] self.entries@[a]).uuid@ != (
            #[trigger] self.entries@[b]).uuid@
    }

    proof fn lemma_index(&self, k: int)
        requires
            self.wf(),
            0 <= k < self.entries@.len(),
        ensures
            self.holds(self.entries@[k].uuid@),
            self.index_of(self.entries@[k].uuid@) == k,
    {
        let c = self.index_of(self.entries@[k].uuid@);
        if c < k {
            assert(self.entries@[c].uuid@ != self.entries@[k].uuid@);
        } else if k < c {
            assert(self.entries@[k].uuid@ != self.entries@[c].uuid@);
        }
    }

    /// A registry without connections.
    pub fn new() -> (registry: Registry)
        ensures
            registry.wf(),
            registry@ == Map::<Seq<char>, ClientModel>::empty(),
    {
        let registry = Registry { entries: Vec::new() };
        assert(registry@ =~= Map::<Seq<char>, ClientModel>::empty());
        registry
    }

    fn find(&self, uuid: &String) -> (found: Option<usize>)
        requires
            self.wf(),
        ensures
            found is Some <==> self@.dom().contains(uuid@),
            found matches Some(k) ==> k < self.entries@.len() && self.entries@[k as int].uuid@
                == uuid@ && self.entries@[k as int].client@ == self@[uuid@],
    {
        let mut k: usize = 0;
        while k < self.entries.len()
            invariant
                self.wf(),
                k <= self.entries@.len(),
                forall|n: int| 0 <= n < k ==> (#[trigger] self.entries@[n]).uuid@ != uuid@,
            decreases self.entries@.len() - k,
        {
            if self.entries[k].uuid == *uuid {
                proof {
                    self.lemma_index(k as int);
                }
                return Some(k);
            }
            k += 1;
        }
        None
    }

    /// The connection with this id, if it is registered.
    pub fn get(&self, uuid: &String) -> (found: Option<&Client>)
        requires
            self.wf(),
        ensures
            found is Some <==> self@.dom().contains(uuid@),
            found matches Some(client) ==> client@ == self@[uuid@],
    {
        match self.find(uuid) {
            Some(k) => Some(&self.entries[k].client),
            None => None,
        }
    }
}

/// The ids that a list of strings spells.
pub open spec fn ids_of(list: Seq<String>) -> Seq<Seq<char>> {
    Seq::new(list.len(), |k: int| list[k]@)
}

/// Puts a text frame with `payload` on the connection's outbound queue, by
/// `UnboundedSender::send` on a frame made by `Message::text`. The call
/// never waits. Whether the frame was taken depends on whether the
/// receiving end still exists, so nothing is promised of the result.
#[verifier::external_body]
fn enqueue_text(sender: &Sender, payload: &str) -> (accepted: bool) {
    sender.send(Ok(warp::ws::Message::text(payload))).is_ok()
}

impl Registry {
    proof fn lemma_view(&self)
        requires
            self.wf(),
        ensures
            forall|k: int|
                0 <= k < self.entries@.len() ==> self@.dom().contains(
                    (#[trigger] self.entries@[k]).uuid@,
                ) && self@[self.entries@[k].uuid@] == self.entries@[k].client@,
            forall|id: Seq<char>|
                self@.dom().contains(id) ==> 0 <= self.index_of(id) < self.entries@.len()
                    && self.entries@[self.index_of(id)].uuid@ == id,
    {
        assert forall|k: int| 0 <= k < self.entries@.len() implies self@.dom().contains(
            (#[trigger] self.entries@[k]).uuid@,
        ) && self@[self.entries@[k].uuid@] == self.entries@[k].client@ by {
            self.lemma_index(k);
        }
    }

    /// The view after the client of entry `k` was replaced.
    proof fn lemma_replaced(before: Registry, after: Registry, k: int)
        requires
            before.wf(),
            0 <= k < before.entries@.len(),
            after.entries@.len() == before.entries@.len(),
            forall|n: int|
                0 <= n < before.entries@.len() ==> (#[trigger] after.entries@[n]).uuid@
                    == before.entries@[n].uuid@,
            forall|n: int|
                0 <= n < before.entries@.len() && n != k ==> (#[trigger] after.entries@[n]).client@
                    == before.entries@[n].client@,
        ensures
            after.wf(),
            after@ == before@.insert(before.entries@[k].uuid@, after.entries@[k].client@),
    {
        assert(after.wf()) by {
            assert forall|a: int, b: int| 0 <= a < b < after.entries@.len() implies (
            #[trigger] after.entries@[a]).uuid@ != (#[trigger] after.entries@[b]).uuid@ by {
                assert(before.entries@[a].uuid@ != before.entries@[b].uuid@);
            }
        }
        before.lemma_view();
        after.lemma_view();
        let id = before.entries@[k].uuid@;
        let goal = before@.insert(id, after.entries@[k].client@);
        assert(after.entries@[k].uuid@ == id);
        assert forall|other: Seq<char>| after@.dom().contains(other) == goal.dom().contains(
            other,
        ) by {
            if after@.dom().contains(other) {
                let n = after.index_of(other);
                assert(before.entries@[n].uuid@ == other);
            }
            if before@.dom().contains(other) {
                let n = before.index_of(other);
                assert(after.entries@[n].uuid@ == other);
            }
        }
        assert forall|other: Seq<char>| after@.dom().contains(other) implies after@[other]
            == goal[other] by {
            let n = after.index_of(other);
            assert(before.entries@[n].uuid@ == other);
            if other != id {
                assert(after.entries@[n].client@ == before.entries@[n].client@);
            } else {
                after.lemma_index(k);
            }
        }
        assert(after@ =~= goal);
    }

    /// The view after an entry with a new id was added at the end.
    proof fn lemma_pushed(before: Registry, after: Registry, entry: Entry)
        requires
            before.wf(),
            !before@.dom().contains(entry.uuid@),
            after.entries@ == before.entries@.push(entry),
        ensures
            after.wf(),
            after@ == before@.insert(entry.uuid@, entry.client@),
    {
        before.lemma_view();
        let last = before.entries@.len() as int;
        assert(after.wf()) by {
            assert forall|a: int, b: int| 0 <= a < b < after.entries@.len() implies (
            #[trigger] after.entries@[a]).uuid@ != (#[trigger] after.entries@[b]).uuid@ by {
                if b == last {
                    assert(before.entries@[a].uuid@ != entry.uuid@);
                } else {
                    assert(before.entries@[a].uuid@ != before.entries@[b].uuid@);
                }
            }
        }
        after.lemma_view();
        let goal = before@.insert(entry.uuid@, entry.client@);
        assert(after.entries@[last] == entry);
        assert forall|other: Seq<char>| after@.dom().contains(other) == goal.dom().contains(
            other,
        ) by {
            if after@.dom().contains(other) {
                let n = after.index_of(other);
                if n < last {
                    assert(before.entries@[n].uuid@ == other);
                }
            }
            if before@.dom().contains(other) {
                let n = before.index_of(other);
                assert(after.entries@[n].uuid@ == other);
            }
        }
        assert forall|other: Seq<char>| after@.dom().contains(other) implies after@[other]
            == goal[other] by {
            let n = after.index_of(other);
            if n < last {
                assert(before.entries@[n].uuid@ == other);
            }
        }
        assert(after@ =~= goal);
    }

    /// The view after entry `k` was taken out.
    proof fn lemma_removed(before: Registry, after: Registry, k: int)
        requires
            before.wf(),
            0 <= k < before.entries@.len(),
            after.entries@ == before.entries@.remove(k),
        ensures
            after.wf(),
            after@ == before@.remove(before.entries@[k].uuid@),
    {
        before.lemma_view();
        let id = before.entries@[k].uuid@;
        // Entry `n` of `after` is entry `shift(n)` of `before`.
        assert forall|n: int| 0 <= n < after.entries@.len() implies (#[trigger] after.entries@[n])
            == before.entries@[if n < k {
            n
        } else {
            n + 1
        }] by {}
        assert(after.wf()) by {
            assert forall|a: int, b: int| 0 <= a < b < after.entries@.len() implies (
            #[trigger] after.entries@[a]).uuid@ != (#[trigger] after.entries@[b]).uuid@ by {
                let a0 = if a < k {
                    a
                } else {
                    a + 1
                };
                let b0 = if b < k {
                    b
                } else {
                    b + 1
                };
                assert(before.entries@[a0].uuid@ != before.entries@[b0].uuid@);
            }
        }
        after.lemma_view();
        let goal = before@.remove(id);
        assert forall|other: Seq<char>| after@.dom().contains(other) == goal.dom().contains(
            other,
        ) by {
            if after@.dom().contains(other) {
                let n = after.index_of(other);
                let n0 = if n < k {
                    n
                } else {
                    n + 1
                };
                assert(before.entries@[n0].uuid@ == other);
                if other == id {
                    before.lemma_index(n0);
                    before.lemma_index(k);
                }
            }
            if goal.dom().contains(other) {
                let n0 = before.index_of(other);
                let n = if n0 < k {
                    n0
                } else {
                    n0 - 1
                };
                assert(after.entries@[n].uuid@ == other);
            }
        }
        assert forall|other: Seq<char>| after@.dom().contains(other) implies after@[other]
            == goal[other] by {
            let n = after.index_of(other);
            let n0 = if n < k {
                n
            } else {
                n + 1
            };
            assert(before.entries@[n0].uuid@ == other);
        }
        assert(after@ =~= goal);
    }

    /// Registers connection `uuid` for the user, with no sender attached
    /// yet. An earlier connection with the same id is replaced.
    pub fn register_client(&mut self, username: String, user_id: i32, uuid: String)
        requires
            old(self).wf(),
        ensures
            final(self).wf(),
            final(self)@ == old(self)@.insert(
                uuid@,
                ClientModel { username: username@, user_id, sender: None },
            ),
    {
        let ghost before = *self;
        let client = Client { username, user_id, sender: None };
        match self.find(&uuid) {
            Some(k) => {
                self.entries[k].client = client;
                proof {
                    Self::lemma_replaced(before, *self, k as int);
                }
            },
            None => {
                let ghost entry = Entry { uuid, client };
                self.entries.push(Entry { uuid, client });
                proof {
                    Self::lemma_pushed(before, *self, entry);
                }
            },
        }
    }

    /// Attaches the sender to connection `uuid`, once its transport is up.
    /// Returns whether the connection is registered; if it is not, nothing
    /// changes.
    pub fn attach_sender(&mut self, uuid: &String, sender: Sender) -> (attached: bool)
        requires
            old(self).wf(),
        ensures
            final(self).wf(),
            attached == old(self)@.dom().contains(uuid@),
            attached ==> final(self)@ == old(self)@.insert(
                uuid@,
                ClientModel { sender: Some(sender), ..old(self)@[uuid@] },
            ),
            !attached ==> final(self)@ == old(self)@,
    {
        let ghost before = *self;
        match self.find(uuid) {
            Some(k) => {
                self.entries[k].client.sender = Some(sender);
                proof {
                    Self::lemma_replaced(before, *self, k as int);
                }
                true
            },
            None => false,
        }
    }
}

/// Takes connection `uuid` out of the registry. With it the id leaves the
/// connections of its user, and a user whose last connection it was has no
/// entry any more. Where the id is not registered, nothing changes.
pub fn remove_socket(uuid: &String, registry: &mut Registry)
    requires
        old(registry).wf(),
    ensures
        final(registry).wf(),
        final(registry)@ == old(registry)@.remove(uuid@),
{
    let ghost before = *registry;
    match registry.find(uuid) {
        Some(k) => {
            registry.entries.remove(k);
            proof {
                Registry::lemma_removed(before, *registry, k as int);
            }
        },
        None => {
            assert(registry@ =~= before@.remove(uuid@));
        },
    }
}

/// Hands `payload` to every connection of the player that has a sender
/// attached, and to no other. Returns the ids of those connections. A
/// connection whose handshake is still under way is passed over, and a
/// queue whose receiving end is gone drops the payload: neither is an
/// error. Without a player nothing is sent.
pub fn notify_players(player_id: Option<i32>, payload: String, registry: &Registry) -> (reached:
    Vec<String>)
    requires
        registry.wf(),
    ensures
        ids_of(reached@).no_duplicates(),
        player_id matches Some(user) ==> ids_of(reached@).to_set() == reachable(registry@, user),
        player_id is None ==> reached@.len() == 0,
{
    let mut reached: Vec<String> = Vec::new();
    if let Some(user) = player_id {
        proof {
            registry.lemma_view();
        }
        // `from@[n]` is the entry that `reached@[n]` names.
        let ghost mut from: Seq<int> = Seq::empty();
        let mut k: usize = 0;
        while k < registry.entries.len()
            invariant
                registry.wf(),
                k <= registry.entries@.len(),
                from.len() == reached@.len(),
                forall|n: int|
                    0 <= n < from.len() ==> 0 <= (#[trigger] from[n]) < k
                        && registry.entries@[from[n]].uuid@ == reached@[n]@
                        && registry.entries@[from[n]].client.user_id == user
                        && registry.entries@[from[n]].client.sender is Some,
                forall|a: int, b: int| 0 <= a < b < from.len() ==> from[a] < from[b],
                forall|e: int|
                    0 <= e < k && (#[trigger] registry.entries@[e]).client.user_id == user
                        && registry.entries@[e].client.sender is Some ==> exists|n: int|
                        0 <= n < from.len() && #[trigger] from[n] == e,
            decreases registry.entries@.len() - k,
        {
            let entry = &registry.entries[k];
            if entry.client.user_id == user {
                if let Some(sender) = &entry.client.sender {
                    let _ = enqueue_text(sender, payload.as_str());
                    let ghost old_from = from;
                    reached.push(entry.uuid.clone());
                    proof {
                        from = from.push(k as int);
                        assert forall|e: int|
                            0 <= e < k + 1 && (#[trigger] registry.entries@[e]).client.user_id
                                == user && registry.entries@[e].client.sender is Some implies exists|
                            n: int,
                        |
                            0 <= n < from.len() && #[trigger] from[n] == e by {
                            if e < k {
                                let n = choose|n: int|
                                    0 <= n < old_from.len() && #[trigger] old_from[n] == e;
                                assert(from[n] == e);
                            } else {
                                assert(from[from.len() - 1] == e);
                            }
                        }
                    }
                }
            }
            k += 1;
        }
        proof {
            let ids = ids_of(reached@);
            assert forall|a: int, b: int| 0 <= a < b < ids.len() implies ids[a] != ids[b] by {
                assert(from[a] < from[b]);
                registry.lemma_index(from[a]);
                registry.lemma_index(from[b]);
            }
            let goal = reachable(registry@, user);
            assert forall|id: Seq<char>| ids.to_set().contains(id) == goal.contains(id) by {
                if ids.to_set().contains(id) {
                    let n = choose|n: int| 0 <= n < ids.len() && ids[n] == id;
                    registry.lemma_index(from[n]);
                }
                if goal.contains(id) {
                    let e = registry.index_of(id);
                    registry.lemma_index(e);
                    let n = choose|n: int| 0 <= n < from.len() && #[trigger] from[n] == e;
                    assert(ids[n] == id);
                }
            }
            assert(ids.to_set() =~= goal);
        }
    }
    reached
}

/// Hands the requester's payload to every reachable connection of the
/// requester, and the opponent's payload to every reachable connection of
/// the opponent, if there is one. Returns the ids of the connections
/// reached for each of the two, in that order.
pub fn notify_both(
    this_player: i32,
    this_payload: String,
    that_player: Option<i32>,
    that_payload: String,
    registry: &Registry,
) -> (reached: (Vec<String>, Vec<String>))
    requires
        registry.wf(),
    ensures
        ids_of(reached.0@).no_duplicates(),
        ids_of(reached.1@).no_duplicates(),
        ids_of(reached.0@).to_set() == reachable(registry@, this_player),
        that_player matches Some(user) ==> ids_of(reached.1@).to_set() == reachable(
            registry@,
            user,
        ),
        that_player is None ==> reached.1@.len() == 0,
{
    let this_reached = notify_players(Some(this_player), this_payload, registry);
    let that_reached = notify_players(that_player, that_payload, registry);
    (this_reached, that_reached)
}

/// The two mappings agree: a connection stands under its user in the
/// second mapping exactly when the first mapping holds it for that user.
pub proof fn lemma_mappings_consistent(connections: Connections, id: Seq<char>, user: i32)
    ensures
        (connections.dom().contains(id) && connections[id].user_id == user) <==> (sockets_by_user(
            connections,
        ).dom().contains(user) && sockets_by_user(connections)[user].contains(id)),
{
}

/// A user has an entry in the second mapping exactly when at least one
/// connection belongs to the user.
pub proof fn lemma_user_entry(connections: Connections, user: i32)
    ensures
        sockets_by_user(connections).dom().contains(user) <==> sockets_of(connections, user)
            != Set::<Seq<char>>::empty(),
{
    if sockets_by_user(connections).dom().contains(user) {
        let id = choose|id: Seq<char>| #[trigger]
            connections.dom().contains(id) && connections[id].user_id == user;
        assert(sockets_of(connections, user).contains(id));
    } else {
        assert(sockets_of(connections, user) =~= Set::<Seq<char>>::empty());
    }
}

/// Registering a connection adds its id to the connections of its user
/// and to no other user's.
pub proof fn lemma_register_adds(connections: Connections, id: Seq<char>, client: ClientModel)
    requires
        !connections.dom().contains(id),
    ensures
        sockets_of(connections.insert(id, client), client.user_id) == sockets_of(
            connections,
            client.user_id,
        ).insert(id),
        forall|user: i32|
            user != client.user_id ==> #[trigger] sockets_of(connections.insert(id, client), user)
                == sockets_of(connections, user),
{
    let after = connections.insert(id, client);
    assert(sockets_of(after, client.user_id) =~= sockets_of(connections, client.user_id).insert(id));
    assert forall|user: i32| user != client.user_id implies #[trigger] sockets_of(after, user)
        == sockets_of(connections, user) by {
        assert(sockets_of(after, user) =~= sockets_of(connections, user));
    }
}

/// Attaching a sender changes neither mapping's keys: every user keeps the
/// same connections.
pub proof fn lemma_attach_keeps_sockets(connections: Connections, id: Seq<char>, sender: Sender)
    requires
        connections.dom().contains(id),
    ensures
        sockets_by_user(
            connections.insert(id, ClientModel { sender: Some(sender), ..connections[id] }),
        ) == sockets_by_user(connections),
{
    let after = connections.insert(id, ClientModel { sender: Some(sender), ..connections[id] });
    assert forall|user: i32| sockets_of(after, user) == sockets_of(connections, user) by {
        assert(sockets_of(after, user) =~= sockets_of(connections, user));
    }
    assert forall|user: i32|
        sockets_by_user(after).dom().contains(user) == sockets_by_user(connections).dom().contains(
            user,
        ) by {
        if sockets_by_user(after).dom().contains(user) {
            let other = choose|other: Seq<char>| #[trigger]
                after.dom().contains(other) && after[other].user_id == user;
            assert(connections.dom().contains(other) && connections[other].user_id == user);
        }
        if sockets_by_user(connections).dom().contains(user) {
            let other = choose|other: Seq<char>| #[trigger]
                connections.dom().contains(other) && connections[other].user_id == user;
            assert(after.dom().contains(other) && after[other].user_id == user);
        }
    }
    assert(sockets_by_user(after) =~= sockets_by_user(connections));
}

/// Unregistering a connection takes its id out of the connections of its
/// user; where it was the user's last, the user's entry is gone too. Other
/// users keep theirs.
pub proof fn lemma_unregister_prunes(connections: Connections, id: Seq<char>)
    requires
        connections.dom().contains(id),
    ensures
        sockets_of(connections.remove(id), connections[id].user_id) == sockets_of(
            connections,
            connections[id].user_id,
        ).remove(id),
        sockets_of(connections, connections[id].user_id) == set![id] ==> !sockets_by_user(
            connections.remove(id),
        ).dom().contains(connections[id].user_id),
        forall|user: i32|
            user != connections[id].user_id ==> #[trigger] sockets_of(connections.remove(id), user)
                == sockets_of(connections, user),
{
    let user = connections[id].user_id;
    let after = connections.remove(id);
    assert(sockets_of(after, user) =~= sockets_of(connections, user).remove(id));
    if sockets_of(connections, user) == set![id] {
        assert(sockets_of(after, user) =~= Set::<Seq<char>>::empty());
        lemma_user_entry(after, user);
    }
    assert forall|other: i32| other != user implies #[trigger] sockets_of(after, other)
        == sockets_of(connections, other) by {
        assert(sockets_of(after, other) =~= sockets_of(connections, other));
    }
}

/// Unregistering twice is unregistering once.
pub proof fn lemma_unregister_idempotent(connections: Connections, id: Seq<char>)
    ensures
        connections.remove(id).remove(id) == connections.remove(id),
        !connections.dom().contains(id) ==> connections.remove(id) == connections,
{
    assert(connections.remove(id).remove(id) =~= connections.remove(id));
    if !connections.dom().contains(id) {
        assert(connections.remove(id) =~= connections);
    }
}

/// A delivery reaches no connection of another user, and none without a
/// sender.
pub proof fn lemma_reachable(connections: Connections, user: i32, id: Seq<char>)
    ensures
        reachable(connections, user).contains(id) <==> (sockets_of(connections, user).contains(id)
            && connections[id].sender is Some),
        reachable(connections, user).subset_of(sockets_of(connections, user)),
{
}

} // verus!
