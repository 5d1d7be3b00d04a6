//! The server simulation: the authoritative entity set, one inbound link
//! carrying every client's movement inputs, and the periodic world-state
//! broadcast.
//!
//! The server owns its clients outright.  Each frame it first ticks every
//! client — clients have their own independent cadence nested inside the
//! server's frame — forwarding any emitted input onto its own inbound link
//! with that client's latency; then, once its own interval has elapsed, it
//! applies every due input in arrival order and broadcasts one snapshot to
//! every client.

use vstd::prelude::*;

use crate::client::Client;
use crate::client::ClientModel;
use crate::client::CLIENT_UPDATE_INTERVAL_MS;
use crate::client::client_after_update;
use crate::client::client_update_output;
use crate::client::lemma_client_update_frame;
use crate::client::spec_new_client;
use crate::network::LagNetwork;
use crate::network::NetworkMessageModel;
use crate::network::clip_to_u64;
use crate::network::due_payloads;
use crate::network::held_back;
use crate::world::Entity;
use crate::world::EntityModel;
use crate::world::Message;
use crate::world::MessageModel;
use crate::world::MovementInput;
use crate::world::WorldStateEntry;
use crate::world::WorldStateMessage;
use crate::world::entity_found;
use crate::world::entity_index;
use crate::world::entity_models;
use crate::world::find_entity;
use crate::world::integrate_position;
use crate::world::integrated_position;
use crate::world::lemma_entity_index;
use crate::world::spec_new_entity;

verus! {

/// The server's fixed authoritative update interval, in milliseconds.
pub const SERVER_UPDATE_INTERVAL_MS: u64 = 100;

/// The authoritative simulation.
#[derive(Debug)]
pub struct Server {
    /// Every connected client, in registration order; the client at index
    /// `i` controls entity id `i + 1`.
    pub clients: Vec<Client>,
    /// Inbound link carrying the clients' movement inputs.
    pub network: LagNetwork,
    /// Simulated time accumulated towards the next authoritative tick.
    pub time_since_last_update: u64,
    /// Length of the authoritative tick, in milliseconds.
    pub update_interval: u64,
    /// The authoritative entities, in registration order.
    pub entities: Vec<Entity>,
    /// For each entity (by position, parallel to `entities`), the sequence
    /// number of the last input applied, or `None` before the first one.
    pub last_processed_inputs: Vec<Option<u32>>,
}

/// Mathematical values of a roster of clients.
pub open spec fn client_models(s: Seq<Client>) -> Seq<ClientModel> {
    s.map_values(|c: Client| c@)
}

/// Mathematical value of a [`Server`].
#[verifier::ext_equal]
pub ghost struct ServerModel {
    pub clients: Seq<ClientModel>,
    pub network: Seq<NetworkMessageModel>,
    pub time_since_last_update: u64,
    pub update_interval: u64,
    pub entities: Seq<EntityModel>,
    pub last_processed_inputs: Seq<Option<u32>>,
}

impl View for Server {
    type V = ServerModel;

    open spec fn view(&self) -> ServerModel {
        ServerModel {
            clients: client_models(self.clients@),
            network: self.network@,
            time_since_last_update: self.time_since_last_update,
            update_interval: self.update_interval,
            entities: entity_models(self.entities@),
            last_processed_inputs: self.last_processed_inputs@,
        }
    }
}

/// State of a freshly started server.
pub open spec fn spec_new_server() -> ServerModel {
    ServerModel {
        clients: Seq::empty(),
        network: Seq::empty(),
        time_since_last_update: 0,
        update_interval: SERVER_UPDATE_INTERVAL_MS,
        entities: Seq::empty(),
        last_processed_inputs: Seq::empty(),
    }
}

/// Structural soundness of a server: the acknowledgment table runs
/// parallel to the entity roster, every registration created exactly one
/// entity, and entity ids equal the 1-based registration order.
pub open spec fn server_wf(m: ServerModel) -> bool {
    &&& m.last_processed_inputs.len() == m.entities.len()
    &&& m.clients.len() == m.entities.len()
    &&& forall|i: int| 0 <= i < m.entities.len() ==> #[trigger] m.entities[i].entity_id == i + 1
    &&& forall|i: int| 0 <= i < m.clients.len() ==> #[trigger] m.clients[i].entity_id == i + 1
}

/// Effect of one movement input on the authoritative state: a known entity
/// integrates the input and has its acknowledgment marker set to the
/// input's sequence number; an input for an unknown id is dropped.
pub open spec fn server_after_movement(m: ServerModel, inp: MovementInput) -> ServerModel {
    if entity_found(m.entities, inp.entity_id) {
        let i = entity_index(m.entities, inp.entity_id);
        let ent = m.entities[i];
        ServerModel {
            entities: m.entities.update(
                i,
                EntityModel {
                    x: integrated_position(ent.x as int, inp.press_time, ent.speed) as i64,
                    ..ent
                },
            ),
            last_processed_inputs: m.last_processed_inputs.update(
                i,
                Some(inp.input_sequence_number),
            ),
            ..m
        }
    } else {
        m
    }
}

/// Effect of one received message: movement inputs are applied, stray
/// snapshots are ignored.
pub open spec fn server_after_message(m: ServerModel, msg: MessageModel) -> ServerModel {
    match msg {
        MessageModel::Movement(inp) => server_after_movement(m, inp),
        MessageModel::WorldState(_) => m,
    }
}

/// Effect of a sequence of received messages, in delivery (arrival) order.
pub open spec fn server_after_messages(m: ServerModel, msgs: Seq<MessageModel>) -> ServerModel
    decreases msgs.len(),
{
    if msgs.len() <= 0 {
        m
    } else {
        server_after_messages(server_after_message(m, msgs[0]), msgs.skip(1))
    }
}

/// Effect of fully draining the inbound link at `now` and applying every
/// due input in arrival order; inputs not yet due stay queued.
pub open spec fn server_after_drain(m: ServerModel, now: u64) -> ServerModel {
    server_after_messages(
        ServerModel { network: held_back(m.network, now), ..m },
        due_payloads(m.network, now),
    )
}

/// The snapshot the server broadcasts: one entry per authoritative entity,
/// in registration order, carrying its position and its acknowledgment
/// marker.
pub open spec fn snapshot_entries(
    entities: Seq<EntityModel>,
    lps: Seq<Option<u32>>,
) -> Seq<WorldStateEntry> {
    Seq::new(
        entities.len(),
        |i: int|
            WorldStateEntry {
                entity_id: entities[i].entity_id,
                position: entities[i].x,
                last_processed_input: lps[i],
            },
    )
}

/// Effect of the broadcast: every client's inbound link gains one copy of
/// the snapshot, delayed by that client's own configured latency.
pub open spec fn server_after_broadcast(m: ServerModel, now: u64) -> ServerModel {
    ServerModel {
        clients: Seq::new(
            m.clients.len(),
            |i: int|
                ClientModel {
                    network: m.clients[i].network.push(
                        NetworkMessageModel {
                            receive_time: clip_to_u64(
                                now + m.clients[i].latency_to_server,
                            ) as u64,
                            payload: MessageModel::WorldState(
                                snapshot_entries(m.entities, m.last_processed_inputs),
                            ),
                        },
                    ),
                    ..m.clients[i]
                },
        ),
        ..m
    }
}

/// Every client after its own frame, in place.
pub open spec fn ticked_clients(
    cs: Seq<ClientModel>,
    delta: u64,
    server_update_interval: u64,
    now: u64,
) -> Seq<ClientModel> {
    Seq::new(
        cs.len(),
        |i: int| client_after_update(cs[i], delta, server_update_interval, now),
    )
}

/// The movement inputs the clients' frames emit, in client order, already
/// wrapped for the server's inbound link with each client's own latency.
pub open spec fn collected_inputs(
    cs: Seq<ClientModel>,
    delta: u64,
    server_update_interval: u64,
    now: u64,
) -> Seq<NetworkMessageModel>
    decreases cs.len(),
{
    if cs.len() <= 0 {
        Seq::empty()
    } else {
        let head: Seq<NetworkMessageModel> = match client_update_output(
            cs[0],
            delta,
            server_update_interval,
            now,
        ) {
            Some(inp) => seq![
                NetworkMessageModel {
                    receive_time: clip_to_u64(now + cs[0].latency_to_server) as u64,
                    payload: MessageModel::Movement(inp),
                },
            ],
            None => Seq::empty(),
        };
        head + collected_inputs(cs.skip(1), delta, server_update_interval, now)
    }
}

/// Peeling the input collection from the back.
pub proof fn lemma_collected_inputs_snoc(
    cs: Seq<ClientModel>,
    c: ClientModel,
    delta: u64,
    server_update_interval: u64,
    now: u64,
)
    ensures
        collected_inputs(cs.push(c), delta, server_update_interval, now) == collected_inputs(
            cs,
            delta,
            server_update_interval,
            now,
        ) + (match client_update_output(c, delta, server_update_interval, now) {
            Some(inp) => seq![
                NetworkMessageModel {
                    receive_time: clip_to_u64(now + c.latency_to_server) as u64,
                    payload: MessageModel::Movement(inp),
                },
            ],
            None => Seq::<NetworkMessageModel>::empty(),
        }),
    decreases cs.len(),
{
    reveal_with_fuel(collected_inputs, 2);
    let tail: Seq<NetworkMessageModel> = match client_update_output(
        c,
        delta,
        server_update_interval,
        now,
    ) {
        Some(inp) => seq![
            NetworkMessageModel {
                receive_time: clip_to_u64(now + c.latency_to_server) as u64,
                payload: MessageModel::Movement(inp),
            },
        ],
        None => Seq::<NetworkMessageModel>::empty(),
    };
    if cs.len() == 0 {
        assert(cs.push(c)[0] == c);
        assert(cs.push(c).skip(1) =~= Seq::<ClientModel>::empty());
        assert(collected_inputs(cs.push(c), delta, server_update_interval, now) =~= tail);
        assert(collected_inputs(cs, delta, server_update_interval, now) + tail =~= tail);
    } else {
        assert(cs.push(c)[0] == cs[0]);
        assert(cs.push(c).skip(1) =~= cs.skip(1).push(c));
        lemma_collected_inputs_snoc(cs.skip(1), c, delta, server_update_interval, now);
        assert(collected_inputs(cs.push(c), delta, server_update_interval, now)
            =~= collected_inputs(cs, delta, server_update_interval, now) + tail);
    }
}

/// One authoritative frame.
///
/// First every client runs its own frame, its emitted input (if any)
/// entering the server's inbound link with that client's latency.  Then,
/// once the server's own interval has elapsed — keeping the remainder, so
/// drift does not build up — the server drains its link, applies every due
/// input in arrival order, and broadcasts one snapshot to every client.
pub open spec fn server_after_update(m: ServerModel, delta: u64, now: u64) -> ServerModel {
    let m1 = ServerModel {
        clients: ticked_clients(m.clients, delta, m.update_interval, now),
        network: m.network + collected_inputs(m.clients, delta, m.update_interval, now),
        ..m
    };
    let acc: int = clip_to_u64(m.time_since_last_update + delta);
    if acc >= m.update_interval {
        let m2 = ServerModel { time_since_last_update: (acc - m.update_interval) as u64, ..m1 };
        server_after_broadcast(server_after_drain(m2, now), now)
    } else {
        ServerModel { time_since_last_update: acc as u64, ..m1 }
    }
}

impl Server {
    /// A freshly started server with no clients and no entities.
    pub fn new() -> (s: Server)
        ensures
            s@ == spec_new_server(),
            server_wf(s@),
    {
        let s = Server {
            clients: Vec::new(),
            network: LagNetwork::new(),
            time_since_last_update: 0,
            update_interval: SERVER_UPDATE_INTERVAL_MS,
            entities: Vec::new(),
            last_processed_inputs: Vec::new(),
        };
        proof {
            assert(s@ =~~= spec_new_server());
        }
        s
    }

    /// Number of connected clients.
    pub fn list_clients(&self) -> (n: usize)
        ensures
            n == self@.clients.len(),
    {
        self.clients.len()
    }

    /// Registers one client: the new client's entity id equals its 1-based
    /// registration order, and one authoritative entity is created for it.
    /// Returns the new client's entity id.
    pub fn add_client(&mut self, now_ms: u64) -> (id: u32)
        requires
            old(self)@.clients.len() < u32::MAX,
        ensures
            id == old(self)@.clients.len() + 1,
            final(self)@ == (ServerModel {
                clients: old(self)@.clients.push(
                    spec_new_client(id, CLIENT_UPDATE_INTERVAL_MS, now_ms),
                ),
                entities: old(self)@.entities.push(spec_new_entity(id)),
                last_processed_inputs: old(self)@.last_processed_inputs.push(None),
                ..old(self)@
            }),
            server_wf(old(self)@) ==> server_wf(final(self)@),
    {
        let ghost m0 = self@;
        let n = self.clients.len();
        proof {
            assert(client_models(self.clients@).len() == n as int);
        }
        let id: u32 = (n as u32) + 1;
        let client = Client::new(id, CLIENT_UPDATE_INTERVAL_MS, now_ms);
        self.clients.push(client);
        let entity = Entity::new(id);
        self.entities.push(entity);
        self.last_processed_inputs.push(None);
        proof {
            assert(client_models(self.clients@) =~~= m0.clients.push(
                spec_new_client(id, CLIENT_UPDATE_INTERVAL_MS, now_ms),
            ));
            assert(entity_models(self.entities@) =~~= m0.entities.push(spec_new_entity(id)));
            assert(self.last_processed_inputs@ =~= m0.last_processed_inputs.push(None));
            assert(self@ =~~= (ServerModel {
                clients: m0.clients.push(spec_new_client(id, CLIENT_UPDATE_INTERVAL_MS, now_ms)),
                entities: m0.entities.push(spec_new_entity(id)),
                last_processed_inputs: m0.last_processed_inputs.push(None),
                ..m0
            }));
            if server_wf(m0) {
                assert(final(self)@.entities[m0.entities.len() as int].entity_id == m0.entities.len()
                    + 1);
                assert(server_wf(final(self)@));
            }
        }
        id
    }

    /// Read access to the client at the given registration index.
    pub fn client(&self, i: usize) -> (c: &Client)
        requires
            i < self@.clients.len(),
        ensures
            *c == self.clients@[i as int],
            c@ == self@.clients[i as int],
    {
        proof {
            assert(client_models(self.clients@)[i as int] == self.clients@[i as int]@);
        }
        &self.clients[i]
    }

    /// Mutable access to the client at the given registration index, for
    /// the driver to feed intents and flip the per-client toggles.
    pub fn client_mut(&mut self, i: usize) -> (c: &mut Client)
        requires
            i < old(self)@.clients.len(),
        ensures
            *c == old(self).clients@[i as int],
            final(self).clients@ == old(self).clients@.update(i as int, *final(c)),
            final(self).network == old(self).network,
            final(self).time_since_last_update == old(self).time_since_last_update,
            final(self).update_interval == old(self).update_interval,
            final(self).entities == old(self).entities,
            final(self).last_processed_inputs == old(self).last_processed_inputs,
    {
        &mut self.clients[i]
    }

    /// The authoritative position of the given entity, if it exists.
    pub fn entity_position(&self, entity_id: u32) -> (r: Option<i64>)
        ensures
            entity_found(self@.entities, entity_id) ==> r == Some(
                self@.entities[entity_index(self@.entities, entity_id)].x,
            ),
            !entity_found(self@.entities, entity_id) ==> r is None,
    {
        let en: usize = self.entities.len();
        match find_entity(&self.entities, entity_id) {
            Some(i) => {
                proof {
                    lemma_entity_index(entity_models(self.entities@), entity_id);
                    assert(entity_models(self.entities@).len() == en as int);
                }
                Some(self.entities[i].x)
            },
            None => None,
        }
    }

    /// The acknowledgment marker displayed for the given entity: the
    /// sequence number of the last input applied for it, or `None`.
    pub fn last_processed_input_of(&self, entity_id: u32) -> (r: Option<u32>)
        requires
            self@.last_processed_inputs.len() == self@.entities.len(),
        ensures
            entity_found(self@.entities, entity_id) ==> r
                == self@.last_processed_inputs[entity_index(self@.entities, entity_id)],
            !entity_found(self@.entities, entity_id) ==> r is None,
    {
        let en: usize = self.entities.len();
        match find_entity(&self.entities, entity_id) {
            Some(i) => {
                proof {
                    lemma_entity_index(entity_models(self.entities@), entity_id);
                    assert(entity_models(self.entities@).len() == en as int);
                }
                self.last_processed_inputs[i]
            },
            None => None,
        }
    }

    /// Applies one due movement input to the authoritative state.
    fn apply_movement_input(&mut self, inp: MovementInput)
        requires
            old(self)@.last_processed_inputs.len() == old(self)@.entities.len(),
        ensures
            final(self)@ == server_after_movement(old(self)@, inp),
            final(self)@.last_processed_inputs.len() == old(self)@.last_processed_inputs.len(),
            final(self)@.entities.len() == old(self)@.entities.len(),
    {
        let ghost m0 = self@;
        let pre_len: usize = self.entities.len();
        match find_entity(&self.entities, inp.entity_id) {
            Some(i) => {
                proof {
                    lemma_entity_index(entity_models(self.entities@), inp.entity_id);
                    assert(entity_models(self.entities@).len() == pre_len as int);
                }
                let cur = self.entities[i].x;
                let sp = self.entities[i].speed;
                let np = integrate_position(cur, inp.press_time, sp);
                let ghost vpre = self.entities@;
                self.entities[i].x = np;
                self.last_processed_inputs.set(i, Some(inp.input_sequence_number));
                proof {
                    let ghost ent = m0.entities[i as int];
                    assert forall|k: int|
                        0 <= k < vpre.len() && k != i implies entity_models(self.entities@)[k]
                        == m0.entities[k] by {
                        assert(self.entities@[k] == vpre[k]);
                        assert(entity_models(self.entities@)[k] == self.entities@[k]@);
                        assert(entity_models(vpre)[k] == vpre[k]@);
                    }
                    assert(entity_models(self.entities@)[i as int] =~~= (EntityModel {
                        x: integrated_position(ent.x as int, inp.press_time, ent.speed) as i64,
                        ..ent
                    }));
                    assert(entity_models(self.entities@) =~~= m0.entities.update(
                        entity_index(m0.entities, inp.entity_id),
                        EntityModel {
                            x: integrated_position(ent.x as int, inp.press_time, ent.speed) as i64,
                            ..ent
                        },
                    ));
                    assert(self.last_processed_inputs@ =~= m0.last_processed_inputs.update(
                        entity_index(m0.entities, inp.entity_id),
                        Some(inp.input_sequence_number),
                    ));
                    assert(self@ =~~= server_after_movement(m0, inp));
                }
            },
            None => {
                proof {
                    assert(self@ =~~= server_after_movement(m0, inp));
                }
            },
        }
    }

    /// Drains the inbound link completely and applies every due movement
    /// input in arrival order; inputs not yet due stay queued.
    #[verifier::loop_isolation(false)]
    pub fn processInputs(&mut self, now_ms: u64)
        requires
            old(self)@.last_processed_inputs.len() == old(self)@.entities.len(),
        ensures
            final(self)@ == server_after_drain(old(self)@, now_ms),
    {
        let ghost m0 = self@;
        let msgs = self.network.drain(now_ms);
        let ghost drained = ServerModel { network: held_back(m0.network, now_ms), ..m0 };
        let ghost payloads = msgs@.map_values(|m: Message| m@);
        let n = msgs.len();
        let mut i: usize = 0;
        proof {
            assert(payloads.take(0) =~= Seq::<MessageModel>::empty());
            assert(self@ =~~= server_after_messages(drained, payloads.take(0)));
        }
        while i < n
            invariant
                0 <= i <= n,
                n == msgs@.len(),
                self@ == server_after_messages(drained, payloads.take(i as int)),
                self@.last_processed_inputs.len() == self@.entities.len(),
            decreases n - i,
        {
            let ghost before = self@;
            match &msgs[i] {
                Message::Movement(inp) => {
                    let input = *inp;
                    self.apply_movement_input(input);
                    proof {
                        assert(payloads[i as int] == MessageModel::Movement(input));
                        assert(server_after_message(before, payloads[i as int]) == self@);
                    }
                },
                Message::WorldState(_) => {
                    proof {
                        assert(payloads[i as int] == msgs@[i as int]@);
                        assert(server_after_message(before, payloads[i as int]) == self@);
                    }
                },
            }
            proof {
                lemma_server_messages_snoc(drained, payloads.take(i as int), payloads[i as int]);
                assert(payloads.take(i as int + 1) =~= payloads.take(i as int).push(
                    payloads[i as int],
                ));
            }
            i += 1;
        }
        proof {
            assert(payloads.take(n as int) =~= payloads);
            assert(payloads == due_payloads(m0.network, now_ms));
            assert(self@ =~~= server_after_drain(m0, now_ms));
        }
    }

    /// Builds the snapshot covering every authoritative entity, in order.
    #[verifier::loop_isolation(false)]
    fn build_world_state(&self) -> (r: Vec<WorldStateEntry>)
        requires
            self@.last_processed_inputs.len() == self@.entities.len(),
        ensures
            r@ == snapshot_entries(self@.entities, self@.last_processed_inputs),
    {
        let ghost goal = snapshot_entries(self@.entities, self@.last_processed_inputs);
        let n = self.entities.len();
        let mut out: Vec<WorldStateEntry> = Vec::new();
        let mut i: usize = 0;
        while i < n
            invariant
                0 <= i <= n,
                n == self.entities@.len(),
                out@.len() == i,
                forall|k: int| 0 <= k < i ==> out@[k] == goal[k],
            decreases n - i,
        {
            let entry = WorldStateEntry {
                entity_id: self.entities[i].entity_id,
                position: self.entities[i].x,
                last_processed_input: self.last_processed_inputs[i],
            };
            out.push(entry);
            proof {
                assert(entity_models(self.entities@)[i as int] == self.entities@[i as int]@);
                assert(entry == goal[i as int]);
            }
            i += 1;
        }
        proof {
            assert(out@ =~= goal);
        }
        out
    }

    /// Broadcasts one world-state snapshot to every client's inbound link,
    /// delayed by that client's own configured latency.
    #[verifier::loop_isolation(false)]
    pub fn sendWorldState(&mut self, now_ms: u64)
        requires
            old(self)@.last_processed_inputs.len() == old(self)@.entities.len(),
        ensures
            final(self)@ == server_after_broadcast(old(self)@, now_ms),
    {
        let ghost m0 = self@;
        let ghost goal = server_after_broadcast(m0, now_ms).clients;
        let n = self.clients.len();
        let mut c: usize = 0;
        while c < n
            invariant
                0 <= c <= n,
                n == self.clients@.len(),
                (ServerModel { clients: m0.clients, ..self@ }) == m0,
                self@.clients.len() == m0.clients.len(),
                goal.len() == m0.clients.len(),
                forall|k: int| 0 <= k < c ==> self@.clients[k] == goal[k],
                forall|k: int| c <= k < n ==> self@.clients[k] == m0.clients[k],
            decreases n - c,
        {
            let snapshot = self.build_world_state();
            let lag = self.clients[c].latency_to_server;
            let ghost vpre = self.clients@;
            let msg = Message::WorldState(WorldStateMessage { world_state: snapshot });
            let ghost msgm = msg@;
            self.clients[c].network.send(lag, msg, now_ms);
            proof {
                assert(msgm == MessageModel::WorldState(
                    snapshot_entries(m0.entities, m0.last_processed_inputs),
                ));
                assert forall|k: int| 0 <= k < n && k != c implies self@.clients[k]
                    == client_models(vpre)[k] by {
                    assert(self.clients@[k] == vpre[k]);
                    assert(client_models(self.clients@)[k] == self.clients@[k]@);
                    assert(client_models(vpre)[k] == vpre[k]@);
                }
                assert(client_models(self.clients@)[c as int] =~~= (ClientModel {
                    network: m0.clients[c as int].network.push(
                        NetworkMessageModel {
                            receive_time: clip_to_u64(
                                now_ms + m0.clients[c as int].latency_to_server,
                            ) as u64,
                            payload: msgm,
                        },
                    ),
                    ..m0.clients[c as int]
                }));
                assert(self@.clients[c as int] =~~= goal[c as int]);
            }
            c += 1;
        }
        proof {
            assert(self@.clients =~~= goal);
            assert(self@ =~~= server_after_broadcast(m0, now_ms));
        }
    }

    /// One authoritative frame: ticks every client (forwarding any emitted
    /// input onto the server's inbound link with that client's latency),
    /// and, once the server's own interval has elapsed, applies every due
    /// input in arrival order and broadcasts one snapshot to every client.
    #[verifier::loop_isolation(false)]
    pub fn update(&mut self, delta_time: u64, now_ms: u64)
        requires
            old(self)@.last_processed_inputs.len() == old(self)@.entities.len(),
            forall|i: int|
                0 <= i < old(self)@.clients.len()
                    ==> #[trigger] old(self)@.clients[i].input_sequence_number < u32::MAX,
        ensures
            final(self)@ == server_after_update(old(self)@, delta_time, now_ms),
    {
        let ghost m = self@;
        let ghost ticked = ticked_clients(m.clients, delta_time, m.update_interval, now_ms);
        let n = self.clients.len();
        let mut c: usize = 0;
        proof {
            assert(m.clients.take(0) =~= Seq::<ClientModel>::empty());
            assert(m.network + collected_inputs(
                m.clients.take(0),
                delta_time,
                m.update_interval,
                now_ms,
            ) =~= m.network);
        }
        while c < n
            invariant
                0 <= c <= n,
                n == self.clients@.len(),
                n == m.clients.len(),
                (ServerModel { clients: m.clients, network: m.network, ..self@ }) == m,
                self@.clients.len() == m.clients.len(),
                forall|k: int| 0 <= k < c ==> self@.clients[k] == ticked[k],
                forall|k: int| c <= k < n ==> self@.clients[k] == m.clients[k],
                self@.network == m.network + collected_inputs(
                    m.clients.take(c as int),
                    delta_time,
                    m.update_interval,
                    now_ms,
                ),
            decreases n - c,
        {
            let lag = self.clients[c].latency_to_server;
            let interval = self.update_interval;
            let ghost vpre = self.clients@;
            let r = self.clients[c].update(delta_time, interval, now_ms);
            proof {
                assert(vpre[c as int]@ == m.clients[c as int]);
                assert forall|k: int| 0 <= k < n && k != c implies self@.clients[k]
                    == client_models(vpre)[k] by {
                    assert(self.clients@[k] == vpre[k]);
                    assert(client_models(self.clients@)[k] == self.clients@[k]@);
                    assert(client_models(vpre)[k] == vpre[k]@);
                }
                assert(client_models(self.clients@)[c as int] == client_after_update(
                    m.clients[c as int],
                    delta_time,
                    m.update_interval,
                    now_ms,
                ));
                assert(self@.clients[c as int] == ticked[c as int]);
                lemma_collected_inputs_snoc(
                    m.clients.take(c as int),
                    m.clients[c as int],
                    delta_time,
                    m.update_interval,
                    now_ms,
                );
                assert(m.clients.take(c as int + 1) =~= m.clients.take(c as int).push(
                    m.clients[c as int],
                ));
            }
            match r {
                Some(msg) => {
                    let ghost npre = self.network@;
                    self.network.send(lag, msg, now_ms);
                    proof {
                        assert(msg@ == MessageModel::Movement(
                            client_update_output(
                                m.clients[c as int],
                                delta_time,
                                m.update_interval,
                                now_ms,
                            )->Some_0,
                        ));
                        assert(self.network@ =~= m.network + collected_inputs(
                            m.clients.take(c as int + 1),
                            delta_time,
                            m.update_interval,
                            now_ms,
                        ));
                    }
                },
                None => {
                    proof {
                        assert(self.network@ =~= m.network + collected_inputs(
                            m.clients.take(c as int + 1),
                            delta_time,
                            m.update_interval,
                            now_ms,
                        ));
                    }
                },
            }
            c += 1;
        }
        proof {
            assert(m.clients.take(n as int) =~= m.clients);
            assert(self@.clients =~~= ticked);
        }
        let ghost m1 = ServerModel {
            clients: ticked,
            network: m.network + collected_inputs(m.clients, delta_time, m.update_interval, now_ms),
            ..m
        };
        proof {
            assert(self@ =~~= m1);
        }
        let acc: u64 = if delta_time > u64::MAX - self.time_since_last_update {
            u64::MAX
        } else {
            self.time_since_last_update + delta_time
        };
        if acc >= self.update_interval {
            self.time_since_last_update = acc - self.update_interval;
            let ghost m2 = self@;
            proof {
                assert(m2 =~~= (ServerModel {
                    time_since_last_update: (clip_to_u64(m.time_since_last_update + delta_time)
                        - m.update_interval) as u64,
                    ..m1
                }));
            }
            self.processInputs(now_ms);
            proof {
                lemma_server_messages_preserve_lengths(
                    ServerModel { network: held_back(m2.network, now_ms), ..m2 },
                    due_payloads(m2.network, now_ms),
                );
            }
            self.sendWorldState(now_ms);
            proof {
                assert(self@ =~~= server_after_update(m, delta_time, now_ms));
            }
        } else {
            self.time_since_last_update = acc;
            proof {
                assert(self@ =~~= server_after_update(m, delta_time, now_ms));
            }
        }
    }
}

/// Law (deterministic registration ids): in a well-formed server the
/// entity ids are exactly the 1-based registration order — client `i`
/// (0-based) controls entity id `i + 1` — and no id is ever reused, whether
/// or not a client ever sends input.
pub proof fn lemma_registration_ids(m: ServerModel)
    requires
        server_wf(m),
    ensures
        forall|i: int| 0 <= i < m.entities.len() ==> #[trigger] m.entities[i].entity_id == i + 1,
        forall|i: int| 0 <= i < m.clients.len() ==> #[trigger] m.clients[i].entity_id == i + 1,
        forall|i: int, j: int|
            0 <= i < j < m.entities.len() ==> m.entities[i].entity_id != m.entities[j].entity_id,
{
}

/// Law (well-formedness is invariant): an authoritative frame never breaks
/// the server's structure — the id assignment of
/// [`lemma_registration_ids`] survives every tick.
pub proof fn lemma_update_preserves_wf(m: ServerModel, delta: u64, now: u64)
    requires
        server_wf(m),
    ensures
        server_wf(server_after_update(m, delta, now)),
{
    let m1 = ServerModel {
        clients: ticked_clients(m.clients, delta, m.update_interval, now),
        network: m.network + collected_inputs(m.clients, delta, m.update_interval, now),
        ..m
    };
    assert forall|i: int| 0 <= i < m1.clients.len() implies #[trigger] m1.clients[i].entity_id == i
        + 1 by {
        lemma_client_update_frame(m.clients[i], delta, m.update_interval, now);
    }
    assert(server_wf(m1));
    let acc: int = clip_to_u64(m.time_since_last_update + delta);
    if acc >= m.update_interval {
        let m2 = ServerModel { time_since_last_update: (acc - m.update_interval) as u64, ..m1 };
        assert(server_wf(m2));
        let m3 = server_after_drain(m2, now);
        lemma_server_messages_preserve_lengths(
            ServerModel { network: held_back(m2.network, now), ..m2 },
            due_payloads(m2.network, now),
        );
        assert(server_wf(m3));
        let m4 = server_after_broadcast(m3, now);
        assert(forall|i: int|
            0 <= i < m4.clients.len() ==> #[trigger] m4.clients[i].entity_id
                == m3.clients[i].entity_id);
        assert(server_wf(m4));
    }
}

/// Law (every reachable pending log is sound): one authoritative frame
/// keeps every client's pending log strictly ascending, bounded by its
/// input counter and owned by its entity — client ticks only push the next
/// counter value or prune, and the broadcast only touches the clients'
/// inbound links.
pub proof fn lemma_server_update_preserves_client_logs(m: ServerModel, delta: u64, now: u64)
    requires
        m.last_processed_inputs.len() == m.entities.len(),
        forall|i: int|
            0 <= i < m.clients.len() ==> crate::client::client_log_wf(#[trigger] m.clients[i]),
        forall|i: int|
            0 <= i < m.clients.len() ==> (#[trigger] m.clients[i]).input_sequence_number
                < u32::MAX,
    ensures
        ({
            let m2 = server_after_update(m, delta, now);
            forall|i: int|
                0 <= i < m2.clients.len() ==> crate::client::client_log_wf(
                    #[trigger] m2.clients[i],
                )
        }),
{
    let ticked = ticked_clients(m.clients, delta, m.update_interval, now);
    assert forall|i: int| 0 <= i < ticked.len() implies crate::client::client_log_wf(
        #[trigger] ticked[i],
    ) by {
        crate::client::lemma_update_preserves_log_wf(m.clients[i], delta, m.update_interval, now);
    }
    let m1 = ServerModel {
        clients: ticked,
        network: m.network + collected_inputs(m.clients, delta, m.update_interval, now),
        ..m
    };
    let acc: int = clip_to_u64(m.time_since_last_update + delta);
    if acc >= m.update_interval {
        let m2 = ServerModel { time_since_last_update: (acc - m.update_interval) as u64, ..m1 };
        let m3 = server_after_drain(m2, now);
        lemma_server_messages_preserve_lengths(
            ServerModel { network: held_back(m2.network, now), ..m2 },
            due_payloads(m2.network, now),
        );
        assert(m3.clients == ticked);
        let m4 = server_after_broadcast(m3, now);
        assert forall|i: int| 0 <= i < m4.clients.len() implies crate::client::client_log_wf(
            #[trigger] m4.clients[i],
        ) by {
            assert(m4.clients[i].pending_inputs == m3.clients[i].pending_inputs);
            assert(m4.clients[i].input_sequence_number == m3.clients[i].input_sequence_number);
            assert(m4.clients[i].entity_id == m3.clients[i].entity_id);
        }
    }
}

/// Peeling the server's message fold from the back.
pub proof fn lemma_server_messages_snoc(m: ServerModel, msgs: Seq<MessageModel>, msg: MessageModel)
    ensures
        server_after_messages(m, msgs.push(msg)) == server_after_message(
            server_after_messages(m, msgs),
            msg,
        ),
    decreases msgs.len(),
{
    reveal_with_fuel(server_after_messages, 2);
    if msgs.len() == 0 {
        assert(msgs.push(msg)[0] == msg);
        assert(msgs.push(msg).skip(1) =~= Seq::<MessageModel>::empty());
    } else {
        assert(msgs.push(msg)[0] == msgs[0]);
        assert(msgs.push(msg).skip(1) =~= msgs.skip(1).push(msg));
        lemma_server_messages_snoc(server_after_message(m, msgs[0]), msgs.skip(1), msg);
    }
}

/// Applying inputs never changes how many entities or acknowledgment
/// markers the server holds.
pub proof fn lemma_server_messages_preserve_lengths(m: ServerModel, msgs: Seq<MessageModel>)
    requires
        m.last_processed_inputs.len() == m.entities.len(),
    ensures
        ({
            let m2 = server_after_messages(m, msgs);
            &&& m2.entities.len() == m.entities.len()
            &&& m2.last_processed_inputs.len() == m.last_processed_inputs.len()
            &&& forall|i: int|
                0 <= i < m.entities.len() ==> #[trigger] m2.entities[i].entity_id
                    == m.entities[i].entity_id
            &&& m2.clients == m.clients
            &&& m2.network == m.network
            &&& m2.time_since_last_update == m.time_since_last_update
            &&& m2.update_interval == m.update_interval
        }),
    decreases msgs.len(),
{
    if msgs.len() > 0 {
        match msgs[0] {
            MessageModel::Movement(inp) => {
                if entity_found(m.entities, inp.entity_id) {
                    lemma_entity_index(m.entities, inp.entity_id);
                }
            },
            MessageModel::WorldState(_) => {},
        }
        lemma_server_messages_preserve_lengths(server_after_message(m, msgs[0]), msgs.skip(1));
    }
}

} // verus!
