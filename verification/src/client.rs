//! The client simulation: input sampling, client-side prediction, server
//! reconciliation and entity interpolation.
//!
//! A client owns one locally-controlled entity id, an inbound link from the
//! server, a private roster of entity copies and a pending-input log.  Its
//! whole per-tick behaviour is a function of its previous state, the elapsed
//! simulated time and the messages that have become due, captured by
//! [`client_after_update`].

use vstd::prelude::*;

use crate::network::LagNetwork;
use crate::network::NetworkMessageModel;
use crate::network::clip_to_u64;
use crate::network::due_payloads;
use crate::network::held_back;
use crate::world::Entity;
use crate::world::EntityModel;
use crate::world::Message;
use crate::world::MessageModel;
use crate::world::MovementInput;
use crate::world::WorldStateEntry;
use crate::world::WorldStateMessage;
use crate::world::entity_found;
use crate::world::entity_index;
use crate::world::entity_models;
use crate::world::find_entity;
use crate::world::integrate_position;
use crate::world::integrated_position;
use crate::world::lemma_entity_index;
use crate::world::lemma_entity_index_push;
use crate::world::replayed_position;
use crate::world::spec_new_entity;

verus! {

/// Default one-way latency from a client to the server, in milliseconds.
pub const DEFAULT_LATENCY_MS: u64 = 250;

/// A client's own fixed update interval, in milliseconds.
pub const CLIENT_UPDATE_INTERVAL_MS: u64 = 20;

/// One client of the simulation.
#[derive(Debug)]
pub struct Client {
    /// Length of this client's own update tick, in milliseconds.
    pub update_interval: u64,
    /// Simulated time accumulated towards the next due tick.
    pub time_since_last_update: u64,
    /// Raw "move left" intent, fed in by the driver each frame.
    pub key_left: bool,
    /// Raw "move right" intent, fed in by the driver each frame.
    pub key_right: bool,
    /// Simulated time at which input was last sampled.
    pub last_time: u64,
    /// Next sequence number to stamp on an emitted input.
    pub input_sequence_number: u32,
    /// Id of the entity this client controls.
    pub entity_id: u32,
    /// Inbound link carrying the server's snapshots.
    pub network: LagNetwork,
    /// Local copies of every entity observed so far.
    pub entities: Vec<Entity>,
    /// Apply an emitted input locally before the server confirms it.
    pub client_side_prediction: bool,
    /// Replay unacknowledged inputs on top of each authoritative snapshot.
    pub server_reconciliation: bool,
    /// Inputs emitted but not yet acknowledged by the server.
    pub pending_inputs: Vec<MovementInput>,
    /// Configured one-way latency towards the server, in milliseconds.
    pub latency_to_server: u64,
    /// Smooth remote entities between snapshot samples instead of snapping.
    pub entity_interpolation: bool,
}

/// Mathematical value of a [`Client`].
#[verifier::ext_equal]
pub ghost struct ClientModel {
    pub update_interval: u64,
    pub time_since_last_update: u64,
    pub key_left: bool,
    pub key_right: bool,
    pub last_time: u64,
    pub input_sequence_number: u32,
    pub entity_id: u32,
    pub network: Seq<NetworkMessageModel>,
    pub entities: Seq<EntityModel>,
    pub client_side_prediction: bool,
    pub server_reconciliation: bool,
    pub pending_inputs: Seq<MovementInput>,
    pub latency_to_server: u64,
    pub entity_interpolation: bool,
}

impl View for Client {
    type V = ClientModel;

    open spec fn view(&self) -> ClientModel {
        ClientModel {
            update_interval: self.update_interval,
            time_since_last_update: self.time_since_last_update,
            key_left: self.key_left,
            key_right: self.key_right,
            last_time: self.last_time,
            input_sequence_number: self.input_sequence_number,
            entity_id: self.entity_id,
            network: self.network@,
            entities: entity_models(self.entities@),
            client_side_prediction: self.client_side_prediction,
            server_reconciliation: self.server_reconciliation,
            pending_inputs: self.pending_inputs@,
            latency_to_server: self.latency_to_server,
            entity_interpolation: self.entity_interpolation,
        }
    }
}

/// State of a freshly connected client.
pub open spec fn spec_new_client(entity_id: u32, update_interval: u64, now: u64) -> ClientModel {
    ClientModel {
        update_interval,
        time_since_last_update: 0,
        key_left: false,
        key_right: false,
        last_time: now,
        input_sequence_number: 0,
        entity_id,
        network: Seq::empty(),
        entities: Seq::empty(),
        client_side_prediction: false,
        server_reconciliation: false,
        pending_inputs: Seq::empty(),
        latency_to_server: DEFAULT_LATENCY_MS,
        entity_interpolation: false,
    }
}

/// The pending log after an acknowledgment of every sequence number up to
/// and including `ack`: the still-unacknowledged inputs, in original order.
pub open spec fn pruned_log(log: Seq<MovementInput>, ack: u32) -> Seq<MovementInput>
    decreases log.len(),
{
    if log.len() <= 0 {
        Seq::empty()
    } else if log[0].input_sequence_number <= ack {
        pruned_log(log.skip(1), ack)
    } else {
        seq![log[0]] + pruned_log(log.skip(1), ack)
    }
}

/// The pending log a snapshot entry leaves behind under reconciliation:
/// nothing is discarded until the server has acknowledged a first input.
pub open spec fn log_after_ack(log: Seq<MovementInput>, ack: Option<u32>) -> Seq<MovementInput> {
    match ack {
        Some(k) => pruned_log(log, k),
        None => log,
    }
}

/// Effect of one snapshot entry on a client.
///
/// An unseen entity id is first given a fresh local copy.  The client's own
/// entity snaps to the authoritative position and, under reconciliation,
/// re-integrates every still-unacknowledged pending input on top of it; with
/// reconciliation off the pending log is discarded outright.  A remote
/// entity either snaps to the authoritative position or, under
/// interpolation, merely records `(now, position)` in its sample buffer.
pub open spec fn client_after_entry(m: ClientModel, e: WorldStateEntry, now: u64) -> ClientModel {
    let roster = if entity_found(m.entities, e.entity_id) {
        m.entities
    } else {
        m.entities.push(spec_new_entity(e.entity_id))
    };
    let i = entity_index(roster, e.entity_id);
    let ent = roster[i];
    if e.entity_id == m.entity_id {
        if m.server_reconciliation {
            let kept = log_after_ack(m.pending_inputs, e.last_processed_input);
            let x2 = replayed_position(e.position as int, ent.speed, kept);
            ClientModel {
                entities: roster.update(i, EntityModel { x: x2 as i64, ..ent }),
                pending_inputs: kept,
                ..m
            }
        } else {
            ClientModel {
                entities: roster.update(i, EntityModel { x: e.position, ..ent }),
                pending_inputs: Seq::empty(),
                ..m
            }
        }
    } else {
        if m.entity_interpolation {
            ClientModel {
                entities: roster.update(
                    i,
                    EntityModel {
                        position_buffer: ent.position_buffer.push((now, e.position)),
                        ..ent
                    },
                ),
                ..m
            }
        } else {
            ClientModel { entities: roster.update(i, EntityModel { x: e.position, ..ent }), ..m }
        }
    }
}

/// Effect of a whole snapshot: its entries applied in order.
pub open spec fn client_after_entries(
    m: ClientModel,
    entries: Seq<WorldStateEntry>,
    now: u64,
) -> ClientModel
    decreases entries.len(),
{
    if entries.len() <= 0 {
        m
    } else {
        client_after_entries(client_after_entry(m, entries[0], now), entries.skip(1), now)
    }
}

/// Effect of one received message: snapshots are applied, stray movement
/// messages are ignored.
pub open spec fn client_after_message(m: ClientModel, msg: MessageModel, now: u64) -> ClientModel {
    match msg {
        MessageModel::WorldState(entries) => client_after_entries(m, entries, now),
        MessageModel::Movement(_) => m,
    }
}

/// Effect of a sequence of received messages, in delivery order.
pub open spec fn client_after_messages(
    m: ClientModel,
    msgs: Seq<MessageModel>,
    now: u64,
) -> ClientModel
    decreases msgs.len(),
{
    if msgs.len() <= 0 {
        m
    } else {
        client_after_messages(client_after_message(m, msgs[0], now), msgs.skip(1), now)
    }
}

/// Effect of fully draining the inbound link at `now` and processing every
/// due message in delivery order; messages not yet due stay queued.
pub open spec fn client_after_drain(m: ClientModel, now: u64) -> ClientModel {
    client_after_messages(
        ClientModel { network: held_back(m.network, now), ..m },
        due_payloads(m.network, now),
        now,
    )
}

/// Peeling a snapshot fold from the back: entries split into all-but-last
/// and last.
pub proof fn lemma_after_entries_snoc(
    m: ClientModel,
    entries: Seq<WorldStateEntry>,
    e: WorldStateEntry,
    now: u64,
)
    ensures
        client_after_entries(m, entries.push(e), now) == client_after_entry(
            client_after_entries(m, entries, now),
            e,
            now,
        ),
    decreases entries.len(),
{
    reveal_with_fuel(client_after_entries, 2);
    if entries.len() == 0 {
        assert(entries.push(e)[0] == e);
        assert(entries.push(e).skip(1) =~= Seq::<WorldStateEntry>::empty());
    } else {
        assert(entries.push(e)[0] == entries[0]);
        assert(entries.push(e).skip(1) =~= entries.skip(1).push(e));
        lemma_after_entries_snoc(client_after_entry(m, entries[0], now), entries.skip(1), e, now);
    }
}

/// Peeling a message fold from the back.
pub proof fn lemma_after_messages_snoc(
    m: ClientModel,
    msgs: Seq<MessageModel>,
    msg: MessageModel,
    now: u64,
)
    ensures
        client_after_messages(m, msgs.push(msg), now) == client_after_message(
            client_after_messages(m, msgs, now),
            msg,
            now,
        ),
    decreases msgs.len(),
{
    reveal_with_fuel(client_after_messages, 2);
    if msgs.len() == 0 {
        assert(msgs.push(msg)[0] == msg);
        assert(msgs.push(msg).skip(1) =~= Seq::<MessageModel>::empty());
    } else {
        assert(msgs.push(msg)[0] == msgs[0]);
        assert(msgs.push(msg).skip(1) =~= msgs.skip(1).push(msg));
        lemma_after_messages_snoc(client_after_message(m, msgs[0], now), msgs.skip(1), msg, now);
    }
}

impl Client {
    /// A freshly connected client controlling the given entity id, with
    /// prediction, reconciliation and interpolation all off.
    pub fn new(entity_id: u32, update_interval: u64, now_ms: u64) -> (c: Client)
        ensures
            c@ == spec_new_client(entity_id, update_interval, now_ms),
    {
        let c = Client {
            update_interval,
            time_since_last_update: 0,
            key_left: false,
            key_right: false,
            last_time: now_ms,
            input_sequence_number: 0,
            entity_id,
            network: LagNetwork::new(),
            entities: Vec::new(),
            client_side_prediction: false,
            server_reconciliation: false,
            pending_inputs: Vec::new(),
            latency_to_server: DEFAULT_LATENCY_MS,
            entity_interpolation: false,
        };
        proof {
            assert(c@ =~~= spec_new_client(entity_id, update_interval, now_ms));
        }
        c
    }

    /// Feeds this frame's raw key intents in; left takes priority over
    /// right when both are held.
    pub fn set_intent(&mut self, left: bool, right: bool)
        ensures
            final(self)@ == (ClientModel { key_left: left, key_right: right, ..old(self)@ }),
    {
        self.key_left = left;
        self.key_right = right;
        proof {
            assert(self@ =~~= (ClientModel {
                key_left: left,
                key_right: right,
                ..old(self)@
            }));
        }
    }

    /// Displayed position of this client's local copy of the given entity,
    /// or `None` while the entity has not been observed yet.
    pub fn get_position(&self, entity_id: u32) -> (r: Option<i64>)
        ensures
            entity_found(self@.entities, entity_id) ==> r == Some(
                self@.entities[entity_index(self@.entities, entity_id)].x,
            ),
            !entity_found(self@.entities, entity_id) ==> r is None,
    {
        let en: usize = self.entities.len();
        match find_entity(&self.entities, entity_id) {
            Some(i) => {
                proof {
                    lemma_entity_index(entity_models(self.entities@), entity_id);
                    assert(entity_models(self.entities@).len() == en as int);
                }
                Some(self.entities[i].x)
            },
            None => None,
        }
    }

    /// Number of emitted inputs the server has not acknowledged yet.
    pub fn pending_input_count(&self) -> (n: usize)
        ensures
            n == self@.pending_inputs.len(),
    {
        self.pending_inputs.len()
    }

    /// Applies one snapshot entry to the local roster and pending log.
    #[verifier::loop_isolation(false)]
    fn apply_snapshot_entry(&mut self, entry: WorldStateEntry, now_ms: u64)
        ensures
            final(self)@ == client_after_entry(old(self)@, entry, now_ms),
    {
        let ghost m0 = self@;
        let id = entry.entity_id;
        let pre_len: usize = self.entities.len();
        let i: usize = match find_entity(&self.entities, id) {
            Some(i) => i,
            None => {
                let fresh = Entity::new(id);
                proof {
                    lemma_entity_index_push(entity_models(self.entities@), fresh@);
                }
                self.entities.push(fresh);
                proof {
                    assert(m0.entities.len() == old(self).entities@.len());
                    assert(entity_models(self.entities@) =~~= m0.entities.push(
                        spec_new_entity(id),
                    ));
                }
                pre_len
            },
        };
        let ghost roster = entity_models(self.entities@);
        proof {
            assert(roster.len() == self.entities@.len());
            lemma_entity_index(roster, id);
            assert(entity_index(roster, id) == i);
            assert(roster == if entity_found(m0.entities, id) {
                m0.entities
            } else {
                m0.entities.push(spec_new_entity(id))
            });
        }
        let ghost ent = roster[i as int];
        if id == self.entity_id {
            self.entities[i].x = entry.position;
            if self.server_reconciliation {
                let ghost kept_spec = log_after_ack(m0.pending_inputs, entry.last_processed_input);
                let mut kept: Vec<MovementInput> = Vec::new();
                let n = self.pending_inputs.len();
                let mut j: usize = 0;
                proof {
                    assert(m0.pending_inputs.take(0) =~= Seq::<MovementInput>::empty());
                    assert(kept@ =~= log_after_ack(m0.pending_inputs.take(0), entry.last_processed_input));
                }
                while j < n
                    invariant
                        0 <= j <= n,
                        n == self.pending_inputs@.len(),
                        self.pending_inputs@ == m0.pending_inputs,
                        kept@ == log_after_ack(
                            m0.pending_inputs.take(j as int),
                            entry.last_processed_input,
                        ),
                    decreases n - j,
                {
                    let inp = self.pending_inputs[j];
                    let keep: bool = match entry.last_processed_input {
                        Some(k) => inp.input_sequence_number > k,
                        None => true,
                    };
                    proof {
                        lemma_log_after_ack_snoc(
                            m0.pending_inputs.take(j as int),
                            inp,
                            entry.last_processed_input,
                        );
                        assert(m0.pending_inputs.take(j as int + 1) =~= m0.pending_inputs.take(
                            j as int,
                        ).push(inp));
                    }
                    if keep {
                        kept.push(inp);
                    }
                    j += 1;
                }
                proof {
                    assert(m0.pending_inputs.take(n as int) =~= m0.pending_inputs);
                    assert(kept@ == kept_spec);
                }
                let ghost speed = ent.speed;
                let ghost m1 = self@;
                let kn = kept.len();
                let mut j2: usize = 0;
                proof {
                    assert(kept_spec.take(0) =~= Seq::<MovementInput>::empty());
                }
                while j2 < kn
                    invariant
                        0 <= j2 <= kn,
                        kn == kept@.len(),
                        kept@ == kept_spec,
                        (ClientModel { entities: m1.entities, ..self@ }) == m1,
                        i < self.entities@.len(),
                        entity_models(self.entities@) == roster.update(
                            i as int,
                            EntityModel {
                                x: replayed_position(
                                    entry.position as int,
                                    speed,
                                    kept_spec.take(j2 as int),
                                ) as i64,
                                ..ent
                            },
                        ),
                        crate::world::i64_range(replayed_position(
                            entry.position as int,
                            speed,
                            kept_spec.take(j2 as int),
                        )),
                    decreases kn - j2,
                {
                    let inp = kept[j2];
                    let ghost before = replayed_position(
                        entry.position as int,
                        speed,
                        kept_spec.take(j2 as int),
                    );
                    let cur: i64 = self.entities[i].x;
                    let sp: i64 = self.entities[i].speed;
                    proof {
                        assert(entity_models(self.entities@)[i as int].x == cur);
                        assert(sp == speed);
                    }
                    let next: i64 = integrate_position(cur, inp.press_time, sp);
                    let ghost prev_vec = self.entities@;
                    self.entities[i].x = next;
                    proof {
                        lemma_replayed_snoc(
                            entry.position as int,
                            speed,
                            kept_spec.take(j2 as int),
                            inp,
                        );
                        assert(kept_spec.take(j2 as int + 1) =~= kept_spec.take(j2 as int).push(inp));
                        let ghost target = replayed_position(
                            entry.position as int,
                            speed,
                            kept_spec.take(j2 as int + 1),
                        );
                        assert(target == integrated_position(before, inp.press_time, speed));
                        assert(next as int == target);
                        assert(crate::world::i64_range(target));
                        let ghost goal = roster.update(
                            i as int,
                            EntityModel { x: target as i64, ..ent },
                        );
                        assert(self.entities@.len() == prev_vec.len());
                        assert(entity_models(prev_vec)[i as int] =~~= (EntityModel {
                            x: before as i64,
                            ..ent
                        }));
                        assert(self.entities@[i as int]@ =~~= (EntityModel { x: target as i64, ..ent }));
                        assert forall|k: int| 0 <= k < self.entities@.len() implies #[trigger] entity_models(
                            self.entities@,
                        )[k] =~~= goal[k] by {
                            assert(entity_models(self.entities@)[k] == self.entities@[k]@);
                            if k != i {
                                assert(self.entities@[k] == prev_vec[k]);
                                assert(entity_models(prev_vec)[k] == prev_vec[k]@);
                                assert(entity_models(prev_vec)[k] == roster.update(
                                    i as int,
                                    EntityModel { x: before as i64, ..ent },
                                )[k]);
                            }
                        }
                        assert(entity_models(self.entities@) =~~= goal);
                    }
                    j2 += 1;
                }
                self.pending_inputs = kept;
                proof {
                    assert(kept_spec.take(kn as int) =~= kept_spec);
                    assert(self@ =~~= client_after_entry(m0, entry, now_ms));
                }
            } else {
                self.pending_inputs.clear();
                proof {
                    assert(entity_models(self.entities@) =~~= roster.update(
                        i as int,
                        EntityModel { x: entry.position, ..ent },
                    ));
                    assert(self@ =~~= client_after_entry(m0, entry, now_ms));
                }
            }
        } else {
            if !self.entity_interpolation {
                self.entities[i].x = entry.position;
                proof {
                    assert(entity_models(self.entities@) =~~= roster.update(
                        i as int,
                        EntityModel { x: entry.position, ..ent },
                    ));
                    assert(self@ =~~= client_after_entry(m0, entry, now_ms));
                }
            } else {
                self.entities[i].position_buffer.push((now_ms, entry.position));
                proof {
                    assert(entity_models(self.entities@) =~~= roster.update(
                        i as int,
                        EntityModel {
                            position_buffer: ent.position_buffer.push((now_ms, entry.position)),
                            ..ent
                        },
                    ));
                    assert(self@ =~~= client_after_entry(m0, entry, now_ms));
                }
            }
        }
    }

    /// Applies every entry of one snapshot, in order.
    #[verifier::loop_isolation(false)]
    fn apply_world_state(&mut self, snapshot: &WorldStateMessage, now_ms: u64)
        ensures
            final(self)@ == client_after_entries(old(self)@, snapshot.world_state@, now_ms),
    {
        let ghost m0 = self@;
        let ghost entries = snapshot.world_state@;
        let n = snapshot.world_state.len();
        let mut i: usize = 0;
        proof {
            assert(entries.take(0) =~= Seq::<WorldStateEntry>::empty());
        }
        while i < n
            invariant
                0 <= i <= n,
                self@ == client_after_entries(m0, entries.take(i as int), now_ms),
            decreases n - i,
        {
            let entry = snapshot.world_state[i];
            self.apply_snapshot_entry(entry, now_ms);
            proof {
                lemma_after_entries_snoc(m0, entries.take(i as int), entry, now_ms);
                assert(entries.take(i as int + 1) =~= entries.take(i as int).push(entry));
            }
            i += 1;
        }
        proof {
            assert(entries.take(n as int) =~= entries);
        }
    }

    /// Drains the inbound link completely and processes every due message
    /// in delivery order; messages not yet due stay queued.
    #[verifier::loop_isolation(false)]
    pub fn proccessServerMessages(&mut self, now_ms: u64)
        ensures
            final(self)@ == client_after_drain(old(self)@, now_ms),
    {
        let ghost m0 = self@;
        let msgs = self.network.drain(now_ms);
        let ghost drained = ClientModel { network: held_back(m0.network, now_ms), ..m0 };
        let ghost payloads = msgs@.map_values(|m: Message| m@);
        let n = msgs.len();
        let mut i: usize = 0;
        proof {
            assert(payloads.take(0) =~= Seq::<MessageModel>::empty());
            assert(self@ =~~= client_after_messages(drained, payloads.take(0), now_ms));
        }
        while i < n
            invariant
                0 <= i <= n,
                n == msgs@.len(),
                self@ == client_after_messages(drained, payloads.take(i as int), now_ms),
            decreases n - i,
        {
            let ghost before = self@;
            match &msgs[i] {
                Message::WorldState(snapshot) => {
                    self.apply_world_state(snapshot, now_ms);
                    proof {
                        assert(payloads[i as int] == MessageModel::WorldState(
                            snapshot.world_state@,
                        ));
                        assert(client_after_message(before, payloads[i as int], now_ms) == self@);
                    }
                },
                Message::Movement(_) => {
                    proof {
                        assert(payloads[i as int] == msgs@[i as int]@);
                        assert(client_after_message(before, payloads[i as int], now_ms) == self@);
                    }
                },
            }
            proof {
                lemma_after_messages_snoc(drained, payloads.take(i as int), payloads[i as int], now_ms);
                assert(payloads.take(i as int + 1) =~= payloads.take(i as int).push(
                    payloads[i as int],
                ));
            }
            i += 1;
        }
        proof {
            assert(payloads.take(n as int) =~= payloads);
            assert(payloads == due_payloads(m0.network, now_ms));
            assert(self@ =~~= client_after_drain(m0, now_ms));
        }
    }

    /// Runs the interpolation step over every remote entity: prunes each
    /// sample buffer to the render timestamp and blends or snaps the
    /// displayed position.
    #[verifier::loop_isolation(false)]
    pub fn interpolateEntities(&mut self, server_update_interval: u64, now_ms: u64)
        ensures
            final(self)@ == client_after_interpolation(
                old(self)@,
                render_timestamp(now_ms, server_update_interval),
            ),
    {
        let rts: u64 = if now_ms >= server_update_interval {
            now_ms - server_update_interval
        } else {
            0
        };
        let ghost m0 = self@;
        let ghost goal = client_after_interpolation(m0, rts).entities;
        let n = self.entities.len();
        let mut idx: usize = 0;
        while idx < n
            invariant
                0 <= idx <= n,
                n == self.entities@.len(),
                (ClientModel { entities: m0.entities, ..self@ }) == m0,
                self@.entities.len() == m0.entities.len(),
                goal.len() == m0.entities.len(),
                forall|k: int| 0 <= k < idx ==> self@.entities[k] == goal[k],
                forall|k: int| idx <= k < n ==> self@.entities[k] == m0.entities[k],
            decreases n - idx,
        {
            let eid = self.entities[idx].entity_id;
            let ghost orig = m0.entities[idx as int];
            if eid != self.entity_id {
                while self.entities[idx].position_buffer.len() >= 2
                    && self.entities[idx].position_buffer[1].0 <= rts
                    invariant
                        0 <= idx < n,
                        n == self.entities@.len(),
                        (ClientModel { entities: m0.entities, ..self@ }) == m0,
                        self@.entities.len() == m0.entities.len(),
                        forall|k: int| 0 <= k < idx ==> self@.entities[k] == goal[k],
                        forall|k: int|
                            idx < k < n ==> self@.entities[k] == m0.entities[k],
                        self@.entities[idx as int].x == orig.x,
                        self@.entities[idx as int].speed == orig.speed,
                        self@.entities[idx as int].entity_id == orig.entity_id,
                        pruned_buffer(self@.entities[idx as int].position_buffer, rts)
                            == pruned_buffer(orig.position_buffer, rts),
                    decreases self.entities@[idx as int].position_buffer@.len(),
                {
                    let ghost bpre = self@.entities[idx as int].position_buffer;
                    let ghost epre = self@.entities[idx as int];
                    let ghost vpre = self.entities@;
                    self.entities[idx].position_buffer.remove(0);
                    proof {
                        assert(self@.entities[idx as int].position_buffer =~= bpre.skip(1));
                        assert(pruned_buffer(bpre, rts) == pruned_buffer(bpre.skip(1), rts));
                        assert forall|k: int| 0 <= k < n && k != idx implies self@.entities[k]
                            == entity_models(vpre)[k] by {
                            assert(self.entities@[k] == vpre[k]);
                            assert(entity_models(self.entities@)[k] == self.entities@[k]@);
                            assert(entity_models(vpre)[k] == vpre[k]@);
                        }
                    }
                }
                let ghost pruned = pruned_buffer(orig.position_buffer, rts);
                proof {
                    assert(self@.entities[idx as int].position_buffer == pruned);
                }
                let blen = self.entities[idx].position_buffer.len();
                if blen >= 2 {
                    let t0 = self.entities[idx].position_buffer[0].0;
                    let p0 = self.entities[idx].position_buffer[0].1;
                    let t1 = self.entities[idx].position_buffer[1].0;
                    let p1 = self.entities[idx].position_buffer[1].1;
                    if t0 <= rts && rts <= t1 {
                        let np = interpolate_position(t0, p0, t1, p1, rts);
                        let ghost vpre = self.entities@;
                        self.entities[idx].x = np;
                        proof {
                            assert forall|k: int| 0 <= k < n && k != idx implies self@.entities[k]
                                == entity_models(vpre)[k] by {
                                assert(self.entities@[k] == vpre[k]);
                                assert(entity_models(self.entities@)[k] == self.entities@[k]@);
                                assert(entity_models(vpre)[k] == vpre[k]@);
                            }
                            assert(self@.entities[idx as int] =~~= interpolated_entity(orig, rts));
                        }
                    } else {
                        proof {
                            assert(self@.entities[idx as int] =~~= interpolated_entity(orig, rts));
                        }
                    }
                } else if blen == 1 {
                    let t0 = self.entities[idx].position_buffer[0].0;
                    if t0 <= rts {
                        let p0 = self.entities[idx].position_buffer[0].1;
                        let ghost vpre = self.entities@;
                        self.entities[idx].x = p0;
                        proof {
                            assert forall|k: int| 0 <= k < n && k != idx implies self@.entities[k]
                                == entity_models(vpre)[k] by {
                                assert(self.entities@[k] == vpre[k]);
                                assert(entity_models(self.entities@)[k] == self.entities@[k]@);
                                assert(entity_models(vpre)[k] == vpre[k]@);
                            }
                            assert(self@.entities[idx as int] =~~= interpolated_entity(orig, rts));
                        }
                    } else {
                        proof {
                            assert(self@.entities[idx as int] =~~= interpolated_entity(orig, rts));
                        }
                    }
                } else {
                    proof {
                        assert(self@.entities[idx as int] =~~= interpolated_entity(orig, rts));
                    }
                }
                proof {
                    assert(goal[idx as int] == interpolated_entity(orig, rts));
                    assert(self@.entities[idx as int] == goal[idx as int]);
                }
            } else {
                proof {
                    assert(goal[idx as int] == m0.entities[idx as int]);
                }
            }
            idx += 1;
        }
        proof {
            assert(self@.entities =~~= goal);
            assert(self@ =~~= client_after_interpolation(m0, rts));
        }
    }

    /// Samples the current key intents into at most one movement input.
    ///
    /// The sample clock always advances to `now_ms`.  While a key is held,
    /// the emitted input carries the elapsed press time (negated for left)
    /// and the next sequence number; it is appended to the pending log —
    /// reconciliation needs the full unacknowledged history — and, under
    /// prediction, applied to the local controlled entity at once.
    pub fn process_input(&mut self, now_ms: u64) -> (r: Option<Message>)
        requires
            old(self).input_sequence_number < u32::MAX,
        ensures
            final(self)@ == client_after_input(old(self)@, now_ms),
            client_emits(old(self)@) ==> (r matches Some(msg) && msg@ == MessageModel::Movement(
                sampled_input(old(self)@, now_ms),
            )),
            !client_emits(old(self)@) ==> r is None,
    {
        let ghost m0 = self@;
        let elapsed: u64 = if now_ms >= self.last_time {
            now_ms - self.last_time
        } else {
            0
        };
        let pt_mag: i64 = if elapsed > i64::MAX as u64 {
            i64::MAX
        } else {
            elapsed as i64
        };
        self.last_time = now_ms;
        let press_time: i64;
        if self.key_left {
            press_time = -pt_mag;
        } else if self.key_right {
            press_time = pt_mag;
        } else {
            proof {
                assert(self@ =~~= client_after_input(m0, now_ms));
            }
            return None;
        }
        let movement_input = MovementInput {
            press_time,
            entity_id: self.entity_id,
            input_sequence_number: self.input_sequence_number,
        };
        proof {
            assert(movement_input == sampled_input(m0, now_ms));
        }
        self.input_sequence_number = self.input_sequence_number + 1;
        if self.client_side_prediction {
            match find_entity(&self.entities, self.entity_id) {
                Some(i) => {
                    let en: usize = self.entities.len();
                    proof {
                        lemma_entity_index(entity_models(self.entities@), m0.entity_id);
                        assert(entity_models(self.entities@).len() == en as int);
                    }
                    let cur = self.entities[i].x;
                    let sp = self.entities[i].speed;
                    let np = integrate_position(cur, movement_input.press_time, sp);
                    let ghost vpre = self.entities@;
                    let ghost n = self.entities@.len();
                    self.entities[i].x = np;
                    proof {
                        let ghost ent = m0.entities[i as int];
                        assert forall|k: int| 0 <= k < n && k != i implies entity_models(
                            self.entities@,
                        )[k] == m0.entities[k] by {
                            assert(self.entities@[k] == vpre[k]);
                            assert(entity_models(self.entities@)[k] == self.entities@[k]@);
                            assert(entity_models(vpre)[k] == vpre[k]@);
                        }
                        assert(entity_models(self.entities@)[i as int] =~~= (EntityModel {
                            x: integrated_position(
                                ent.x as int,
                                movement_input.press_time,
                                ent.speed,
                            ) as i64,
                            ..ent
                        }));
                        assert(entity_models(self.entities@).len() == self.entities@.len());
                        assert(self.entities@.len() == vpre.len());
                        assert(m0.entities.len() == vpre.len());
                        assert(i == entity_index(m0.entities, m0.entity_id));
                        assert(entity_models(self.entities@) =~~= m0.entities.update(
                            entity_index(m0.entities, m0.entity_id),
                            EntityModel {
                                x: integrated_position(
                                    ent.x as int,
                                    sampled_input(m0, now_ms).press_time,
                                    ent.speed,
                                ) as i64,
                                ..ent
                            },
                        ));
                    }
                },
                None => {},
            }
        }
        self.pending_inputs.push(movement_input);
        proof {
            assert(self.pending_inputs@ =~= m0.pending_inputs.push(movement_input));
            assert(self@ =~~= client_after_input(m0, now_ms));
        }
        Some(Message::Movement(movement_input))
    }

    /// One frame of this client.
    ///
    /// Time is accumulated towards the client's own update interval; once
    /// it is reached, the interval is subtracted — keeping the remainder,
    /// so drift does not build up — and the client drains its inbound link,
    /// optionally interpolates remote entities, and samples input.  The
    /// returned message, if any, is this tick's movement input, for the
    /// caller to enqueue towards the server with this client's latency.
    pub fn update(&mut self, delta_time: u64, server_update_interval: u64, now_ms: u64) -> (r:
        Option<Message>)
        requires
            old(self).input_sequence_number < u32::MAX,
        ensures
            final(self)@ == client_after_update(
                old(self)@,
                delta_time,
                server_update_interval,
                now_ms,
            ),
            (match client_update_output(old(self)@, delta_time, server_update_interval, now_ms) {
                Some(inp) => r matches Some(msg) && msg@ == MessageModel::Movement(inp),
                None => r is None,
            }),
    {
        let ghost m = self@;
        let acc: u64 = if delta_time > u64::MAX - self.time_since_last_update {
            u64::MAX
        } else {
            self.time_since_last_update + delta_time
        };
        if acc >= self.update_interval {
            self.time_since_last_update = acc - self.update_interval;
            let ghost m0 = self@;
            proof {
                assert(m0 =~~= (ClientModel {
                    time_since_last_update: (clip_to_u64(m.time_since_last_update + delta_time)
                        - m.update_interval) as u64,
                    ..m
                }));
            }
            self.proccessServerMessages(now_ms);
            let ghost m1 = self@;
            proof {
                lemma_messages_preserve_frame(
                    ClientModel { network: held_back(m0.network, now_ms), ..m0 },
                    due_payloads(m0.network, now_ms),
                    now_ms,
                );
                assert(m1.input_sequence_number == m.input_sequence_number);
                assert(m1.entity_interpolation == m.entity_interpolation);
            }
            if self.entity_interpolation {
                self.interpolateEntities(server_update_interval, now_ms);
            }
            let ghost m2 = self@;
            proof {
                assert(m2.input_sequence_number == m.input_sequence_number);
                assert(m2 == (if m1.entity_interpolation {
                    client_after_interpolation(m1, render_timestamp(now_ms, server_update_interval))
                } else {
                    m1
                }));
            }
            let r = self.process_input(now_ms);
            proof {
                assert(self@ == client_after_input(m2, now_ms));
                assert(self@ =~~= client_after_update(m, delta_time, server_update_interval, now_ms));
            }
            r
        } else {
            self.time_since_last_update = acc;
            proof {
                assert(!client_tick_due(m, delta_time));
                assert(self@ =~~= client_after_update(m, delta_time, server_update_interval, now_ms));
            }
            None
        }
    }
}

/// The simulated time a client renders remote entities at: one server tick
/// behind `now`, clamped at the start of time.  Rendering in the past keeps
/// two authoritative samples around the rendered instant.
pub open spec fn render_timestamp(now: u64, server_update_interval: u64) -> u64 {
    if now >= server_update_interval {
        (now - server_update_interval) as u64
    } else {
        0
    }
}

/// An interpolation buffer with its stale head removed: leading samples are
/// dropped while at least two remain and already the second one is at or
/// before the render timestamp, anchoring the buffer to the two samples
/// bracketing it.
pub open spec fn pruned_buffer(b: Seq<(u64, i64)>, rts: u64) -> Seq<(u64, i64)>
    decreases b.len(),
{
    if b.len() >= 2 && b[1].0 <= rts {
        pruned_buffer(b.skip(1), rts)
    } else {
        b
    }
}

/// The linear blend of two timestamped positions at the render timestamp:
/// `p0 + (p1 - p0) * (rts - t0) / (t1 - t0)`, with the division truncated
/// towards `p0`.  Meaningful when `t0 <= rts < t1`; total by convention
/// elsewhere.
pub open spec fn blend(t0: u64, p0: i64, t1: u64, p1: i64, rts: u64) -> int {
    if t0 < t1 {
        let off: int = rts - t0;
        let dt: int = t1 - t0;
        if p1 >= p0 {
            p0 + (p1 - p0) * off / dt
        } else {
            p0 - (p0 - p1) * off / dt
        }
    } else {
        p0 as int
    }
}

/// One remote entity after the interpolation step: its buffer pruned, and
/// its displayed position blended between the two bracketing samples,
/// snapped to a single old-enough sample, or left unchanged when the buffer
/// holds too little data.
pub open spec fn interpolated_entity(e: EntityModel, rts: u64) -> EntityModel {
    let b = pruned_buffer(e.position_buffer, rts);
    if b.len() >= 2 && b[0].0 <= rts && rts <= b[1].0 {
        EntityModel {
            x: blend(b[0].0, b[0].1, b[1].0, b[1].1, rts) as i64,
            position_buffer: b,
            ..e
        }
    } else if b.len() == 1 && b[0].0 <= rts {
        EntityModel { x: b[0].1, position_buffer: b, ..e }
    } else {
        EntityModel { position_buffer: b, ..e }
    }
}

/// The interpolation step over a whole roster: every remote entity is
/// interpolated; the locally-controlled entity is left alone.
pub open spec fn client_after_interpolation(m: ClientModel, rts: u64) -> ClientModel {
    ClientModel {
        entities: Seq::new(
            m.entities.len(),
            |k: int|
                if m.entities[k].entity_id == m.entity_id {
                    m.entities[k]
                } else {
                    interpolated_entity(m.entities[k], rts)
                },
        ),
        ..m
    }
}

/// Milliseconds of press time a tick samples: the simulated time elapsed
/// since the last sample, zero if the clock did not advance, saturating at
/// the representable range.
pub open spec fn elapsed_press(last_time: u64, now: u64) -> int {
    if last_time <= now {
        if now - last_time > i64::MAX as int {
            i64::MAX as int
        } else {
            now - last_time
        }
    } else {
        0
    }
}

/// Whether a tick emits an input: only while a key is held.
pub open spec fn client_emits(m: ClientModel) -> bool {
    m.key_left || m.key_right
}

/// The input a tick at `now` emits: the elapsed press time, negated for a
/// left move (left takes priority), stamped with the next sequence number.
pub open spec fn sampled_input(m: ClientModel, now: u64) -> MovementInput {
    let e: int = elapsed_press(m.last_time, now);
    let pt: int = if m.key_left {
        -e
    } else {
        e
    };
    MovementInput {
        press_time: pt as i64,
        entity_id: m.entity_id,
        input_sequence_number: m.input_sequence_number,
    }
}

/// Effect of the input-sampling step: the sample clock always advances;
/// while a key is held, the emitted input is appended to the pending log,
/// the sequence counter steps, and under prediction the input is applied to
/// the local copy of the controlled entity at once.
pub open spec fn client_after_input(m: ClientModel, now: u64) -> ClientModel {
    let m1 = ClientModel { last_time: now, ..m };
    if !client_emits(m) {
        m1
    } else {
        let inp = sampled_input(m, now);
        let m2 = ClientModel {
            input_sequence_number: (m.input_sequence_number + 1) as u32,
            pending_inputs: m.pending_inputs.push(inp),
            ..m1
        };
        if m.client_side_prediction && entity_found(m.entities, m.entity_id) {
            let i = entity_index(m.entities, m.entity_id);
            let ent = m.entities[i];
            ClientModel {
                entities: m.entities.update(
                    i,
                    EntityModel {
                        x: integrated_position(ent.x as int, inp.press_time, ent.speed) as i64,
                        ..ent
                    },
                ),
                ..m2
            }
        } else {
            m2
        }
    }
}

/// The message the input-sampling step hands to the caller for delivery to
/// the server, if any.
pub open spec fn client_input_output(m: ClientModel, now: u64) -> Option<MovementInput> {
    if client_emits(m) {
        Some(sampled_input(m, now))
    } else {
        None
    }
}

/// Whether a frame's accumulated time reaches the client's own update
/// interval, so that this frame performs a real tick.
pub open spec fn client_tick_due(m: ClientModel, delta: u64) -> bool {
    clip_to_u64(m.time_since_last_update + delta) >= m.update_interval
}

/// One frame of the client: time is accumulated (saturating), and when the
/// interval is reached — keeping the remainder, so drift does not build up —
/// the client drains its inbound link, optionally interpolates remote
/// entities one server tick in the past, and samples input.
pub open spec fn client_after_update(
    m: ClientModel,
    delta: u64,
    server_update_interval: u64,
    now: u64,
) -> ClientModel {
    let acc: int = clip_to_u64(m.time_since_last_update + delta);
    if acc >= m.update_interval {
        let m0 = ClientModel { time_since_last_update: (acc - m.update_interval) as u64, ..m };
        let m1 = client_after_drain(m0, now);
        let m2 = if m1.entity_interpolation {
            client_after_interpolation(m1, render_timestamp(now, server_update_interval))
        } else {
            m1
        };
        client_after_input(m2, now)
    } else {
        ClientModel { time_since_last_update: acc as u64, ..m }
    }
}

/// The outbound message one frame of the client produces, if any: only a
/// due tick with a key held emits one.
pub open spec fn client_update_output(
    m: ClientModel,
    delta: u64,
    server_update_interval: u64,
    now: u64,
) -> Option<MovementInput> {
    if client_tick_due(m, delta) {
        let acc: int = clip_to_u64(m.time_since_last_update + delta);
        let m0 = ClientModel { time_since_last_update: (acc - m.update_interval) as u64, ..m };
        let m1 = client_after_drain(m0, now);
        let m2 = if m1.entity_interpolation {
            client_after_interpolation(m1, render_timestamp(now, server_update_interval))
        } else {
            m1
        };
        client_input_output(m2, now)
    } else {
        None
    }
}

/// The exact linear blend of two timestamped positions at a render
/// timestamp lying in `[t0, t1)`.  The result always lies between the two
/// sample positions.
pub fn interpolate_position(t0: u64, p0: i64, t1: u64, p1: i64, rts: u64) -> (r: i64)
    requires
        t0 <= rts < t1,
    ensures
        r as int == blend(t0, p0, t1, p1, rts),
        p0 <= p1 ==> p0 <= r <= p1,
        p1 <= p0 ==> p1 <= r <= p0,
{
    let off: u128 = (rts - t0) as u128;
    let dt: u128 = (t1 - t0) as u128;
    proof {
        assert((u64::MAX as int) * (u64::MAX as int) < (u128::MAX as int)) by (nonlinear_arith);
    }
    if p1 >= p0 {
        let mag: u128 = ((p1 as i128) - (p0 as i128)) as u128;
        proof {
            assert((mag as int) * (off as int) <= (u64::MAX as int) * (u64::MAX as int))
                by (nonlinear_arith)
                requires
                    0 <= (mag as int) <= (u64::MAX as int),
                    0 <= (off as int) <= (u64::MAX as int),
            ;
        }
        let q: u128 = mag * off / dt;
        proof {
            assert((mag as int) * (off as int) <= (dt as int) * (mag as int)) by (nonlinear_arith)
                requires
                    0 <= mag as int,
                    0 <= (off as int) < (dt as int),
            ;
            vstd::arithmetic::div_mod::lemma_multiply_divide_le(
                mag as int * off as int,
                dt as int,
                mag as int,
            );
            vstd::arithmetic::div_mod::lemma_div_pos_is_pos(
                mag as int * off as int,
                dt as int,
            );
            assert(q as int == (p1 - p0) * (rts - t0) / (t1 - t0));
        }
        (p0 as i128 + q as i128) as i64
    } else {
        let mag: u128 = ((p0 as i128) - (p1 as i128)) as u128;
        proof {
            assert((mag as int) * (off as int) <= (u64::MAX as int) * (u64::MAX as int))
                by (nonlinear_arith)
                requires
                    0 <= (mag as int) <= (u64::MAX as int),
                    0 <= (off as int) <= (u64::MAX as int),
            ;
        }
        let q: u128 = mag * off / dt;
        proof {
            assert((mag as int) * (off as int) <= (dt as int) * (mag as int)) by (nonlinear_arith)
                requires
                    0 <= mag as int,
                    0 <= (off as int) < (dt as int),
            ;
            vstd::arithmetic::div_mod::lemma_multiply_divide_le(
                mag as int * off as int,
                dt as int,
                mag as int,
            );
            vstd::arithmetic::div_mod::lemma_div_pos_is_pos(
                mag as int * off as int,
                dt as int,
            );
            assert(q as int == (p0 - p1) * (rts - t0) / (t1 - t0));
        }
        (p0 as i128 - q as i128) as i64
    }
}

/// Processing messages never touches the input counter, the raw intents,
/// the toggles, the identity or the timing state of a client.
pub proof fn lemma_entries_preserve_frame(m: ClientModel, entries: Seq<WorldStateEntry>, now: u64)
    ensures
        ({
            let m2 = client_after_entries(m, entries, now);
            &&& m2.input_sequence_number == m.input_sequence_number
            &&& m2.key_left == m.key_left
            &&& m2.key_right == m.key_right
            &&& m2.last_time == m.last_time
            &&& m2.time_since_last_update == m.time_since_last_update
            &&& m2.update_interval == m.update_interval
            &&& m2.entity_id == m.entity_id
            &&& m2.network == m.network
            &&& m2.client_side_prediction == m.client_side_prediction
            &&& m2.server_reconciliation == m.server_reconciliation
            &&& m2.latency_to_server == m.latency_to_server
            &&& m2.entity_interpolation == m.entity_interpolation
        }),
    decreases entries.len(),
{
    if entries.len() > 0 {
        lemma_entries_preserve_frame(client_after_entry(m, entries[0], now), entries.skip(1), now);
    }
}

/// As [`lemma_entries_preserve_frame`], lifted to whole message sequences.
pub proof fn lemma_messages_preserve_frame(m: ClientModel, msgs: Seq<MessageModel>, now: u64)
    ensures
        ({
            let m2 = client_after_messages(m, msgs, now);
            &&& m2.input_sequence_number == m.input_sequence_number
            &&& m2.key_left == m.key_left
            &&& m2.key_right == m.key_right
            &&& m2.last_time == m.last_time
            &&& m2.time_since_last_update == m.time_since_last_update
            &&& m2.update_interval == m.update_interval
            &&& m2.entity_id == m.entity_id
            &&& m2.network == m.network
            &&& m2.client_side_prediction == m.client_side_prediction
            &&& m2.server_reconciliation == m.server_reconciliation
            &&& m2.latency_to_server == m.latency_to_server
            &&& m2.entity_interpolation == m.entity_interpolation
        }),
    decreases msgs.len(),
{
    if msgs.len() > 0 {
        match msgs[0] {
            MessageModel::WorldState(entries) => {
                lemma_entries_preserve_frame(m, entries, now);
            },
            MessageModel::Movement(_) => {},
        }
        lemma_messages_preserve_frame(client_after_message(m, msgs[0], now), msgs.skip(1), now);
    }
}

/// A whole client frame never changes who the client is, its link latency,
/// its cadence or its toggles.
pub proof fn lemma_client_update_frame(m: ClientModel, delta: u64, server_update_interval: u64, now: u64)
    ensures
        ({
            let m2 = client_after_update(m, delta, server_update_interval, now);
            &&& m2.entity_id == m.entity_id
            &&& m2.latency_to_server == m.latency_to_server
            &&& m2.update_interval == m.update_interval
            &&& m2.client_side_prediction == m.client_side_prediction
            &&& m2.server_reconciliation == m.server_reconciliation
            &&& m2.entity_interpolation == m.entity_interpolation
            &&& m2.key_left == m.key_left
            &&& m2.key_right == m.key_right
        }),
{
    if client_tick_due(m, delta) {
        let acc: int = clip_to_u64(m.time_since_last_update + delta);
        let m0 = ClientModel { time_since_last_update: (acc - m.update_interval) as u64, ..m };
        lemma_messages_preserve_frame(
            ClientModel { network: held_back(m0.network, now), ..m0 },
            due_payloads(m0.network, now),
            now,
        );
    }
}

/// A pending log whose sequence numbers strictly increase from front to
/// back — the shape every reachable pending log has, since each emitted
/// input takes the next counter value.
pub open spec fn ascending_log(log: Seq<MovementInput>) -> bool {
    forall|i: int, j: int|
        0 <= i < j < log.len() ==> log[i].input_sequence_number < log[j].input_sequence_number
}

/// Soundness of a client's pending log: sequence numbers strictly
/// ascending, all below the counter for the next input, and every entry
/// steering this client's own entity.  Every reachable client has it: the
/// log only ever grows by an input taking the next counter value, and only
/// ever shrinks by pruning.
pub open spec fn client_log_wf(m: ClientModel) -> bool {
    &&& ascending_log(m.pending_inputs)
    &&& forall|i: int|
        0 <= i < m.pending_inputs.len() ==> (#[trigger] m.pending_inputs[i]).input_sequence_number
            < m.input_sequence_number && m.pending_inputs[i].entity_id == m.entity_id
}

/// One snapshot entry keeps the pending log sound: pruning only removes
/// entries.
pub proof fn lemma_entry_preserves_log_wf(m: ClientModel, e: WorldStateEntry, now: u64)
    requires
        client_log_wf(m),
    ensures
        client_log_wf(client_after_entry(m, e, now)),
{
    let m2 = client_after_entry(m, e, now);
    if e.entity_id == m.entity_id && m.server_reconciliation {
        match e.last_processed_input {
            Some(k) => {
                lemma_pruned_log_exact(m.pending_inputs, k);
                let kept = pruned_log(m.pending_inputs, k);
                assert forall|i: int|
                    0 <= i < kept.len() implies (#[trigger] kept[i]).input_sequence_number
                    < m.input_sequence_number && kept[i].entity_id == m.entity_id by {
                    assert(m.pending_inputs.contains(kept[i]));
                    let w: int = choose|w: int|
                        0 <= w < m.pending_inputs.len() && m.pending_inputs[w] == kept[i];
                    assert(m.pending_inputs[w].input_sequence_number < m.input_sequence_number);
                }
            },
            None => {},
        }
    }
}

/// A whole snapshot keeps the pending log sound.
pub proof fn lemma_entries_preserve_log_wf(m: ClientModel, entries: Seq<WorldStateEntry>, now: u64)
    requires
        client_log_wf(m),
    ensures
        client_log_wf(client_after_entries(m, entries, now)),
    decreases entries.len(),
{
    if entries.len() > 0 {
        lemma_entry_preserves_log_wf(m, entries[0], now);
        lemma_entries_preserve_log_wf(client_after_entry(m, entries[0], now), entries.skip(1), now);
    }
}

/// A whole delivery keeps the pending log sound.
pub proof fn lemma_messages_preserve_log_wf(m: ClientModel, msgs: Seq<MessageModel>, now: u64)
    requires
        client_log_wf(m),
    ensures
        client_log_wf(client_after_messages(m, msgs, now)),
    decreases msgs.len(),
{
    if msgs.len() > 0 {
        match msgs[0] {
            MessageModel::WorldState(entries) => {
                lemma_entries_preserve_log_wf(m, entries, now);
            },
            MessageModel::Movement(_) => {},
        }
        lemma_messages_preserve_log_wf(client_after_message(m, msgs[0], now), msgs.skip(1), now);
    }
}

/// Law (the pending log stays sound): a whole client frame — message
/// processing, interpolation and input sampling — preserves the log's
/// strict ascending order, its bound by the input counter and its
/// ownership, provided the counter cannot wrap.  So the ascending-order
/// hypothesis of the pruning and replay laws holds of every reachable
/// client.
pub proof fn lemma_update_preserves_log_wf(
    m: ClientModel,
    delta: u64,
    server_update_interval: u64,
    now: u64,
)
    requires
        client_log_wf(m),
        m.input_sequence_number < u32::MAX,
    ensures
        client_log_wf(client_after_update(m, delta, server_update_interval, now)),
{
    if client_tick_due(m, delta) {
        let acc: int = clip_to_u64(m.time_since_last_update + delta);
        let m0 = ClientModel { time_since_last_update: (acc - m.update_interval) as u64, ..m };
        let drained = ClientModel { network: held_back(m0.network, now), ..m0 };
        let m1 = client_after_drain(m0, now);
        lemma_messages_preserve_log_wf(drained, due_payloads(m0.network, now), now);
        lemma_messages_preserve_frame(drained, due_payloads(m0.network, now), now);
        let m2 = if m1.entity_interpolation {
            client_after_interpolation(m1, render_timestamp(now, server_update_interval))
        } else {
            m1
        };
        assert(client_log_wf(m2));
        assert(m2.input_sequence_number == m.input_sequence_number);
        let m3 = client_after_input(m2, now);
        if client_emits(m2) {
            let inp = sampled_input(m2, now);
            assert(m3.pending_inputs == m2.pending_inputs.push(inp));
            assert(forall|i: int|
                0 <= i < m2.pending_inputs.len() ==> #[trigger] m3.pending_inputs[i]
                    == m2.pending_inputs[i]);
            assert(m3.pending_inputs[m2.pending_inputs.len() as int] == inp);
        }
    }
}

/// What pruning keeps, exactly: only inputs above the acknowledgment, every
/// previously-pending input above it, nothing from elsewhere, and the
/// original relative (ascending) order.
pub proof fn lemma_pruned_log_exact(log: Seq<MovementInput>, k: u32)
    ensures
        forall|i: int|
            0 <= i < pruned_log(log, k).len() ==> #[trigger] pruned_log(
                log,
                k,
            )[i].input_sequence_number > k,
        forall|i: int|
            0 <= i < log.len() && log[i].input_sequence_number > k ==> pruned_log(log, k).contains(
                #[trigger] log[i],
            ),
        forall|i: int| 0 <= i < pruned_log(log, k).len() ==> log.contains(#[trigger] pruned_log(log, k)[i]),
        ascending_log(log) ==> ascending_log(pruned_log(log, k)),
    decreases log.len(),
{
    if log.len() > 0 {
        let t = log.skip(1);
        let pt = pruned_log(t, k);
        lemma_pruned_log_exact(t, k);
        assert(forall|j: int| 0 <= j < t.len() ==> #[trigger] t[j] == log[j + 1]);
        assert(ascending_log(log) ==> ascending_log(t));
        if log[0].input_sequence_number <= k {
            assert(pruned_log(log, k) == pt);
            assert forall|i: int|
                0 <= i < log.len() && log[i].input_sequence_number > k implies pruned_log(
                log,
                k,
            ).contains(#[trigger] log[i]) by {
                assert(i > 0);
                assert(t[i - 1] == log[i]);
            }
            assert forall|i: int| 0 <= i < pt.len() implies log.contains(#[trigger] pt[i]) by {
                let w: int = choose|w: int| 0 <= w < t.len() && t[w] == pt[i];
                assert(log[w + 1] == pt[i]);
            }
        } else {
            let p = seq![log[0]] + pt;
            assert(pruned_log(log, k) == p);
            assert(p[0] == log[0]);
            assert(forall|j: int| 0 <= j < pt.len() ==> p[j + 1] == #[trigger] pt[j]);
            assert forall|i: int|
                0 <= i < p.len() implies #[trigger] p[i].input_sequence_number > k by {
                if i > 0 {
                    assert(p[i] == pt[i - 1]);
                }
            }
            assert forall|i: int|
                0 <= i < log.len() && log[i].input_sequence_number > k implies p.contains(
                #[trigger] log[i],
            ) by {
                if i == 0 {
                    assert(p[0] == log[0]);
                } else {
                    assert(t[i - 1] == log[i]);
                    assert(pt.contains(log[i]));
                    let w: int = choose|w: int| 0 <= w < pt.len() && pt[w] == log[i];
                    assert(p[w + 1] == log[i]);
                }
            }
            assert forall|i: int| 0 <= i < p.len() implies log.contains(#[trigger] p[i]) by {
                if i == 0 {
                    assert(log[0] == p[0]);
                } else {
                    assert(p[i] == pt[i - 1]);
                    let w: int = choose|w: int| 0 <= w < t.len() && t[w] == pt[i - 1];
                    assert(log[w + 1] == p[i]);
                }
            }
            if ascending_log(log) {
                assert forall|i: int, j: int|
                    0 <= i < j < p.len() implies p[i].input_sequence_number
                    < p[j].input_sequence_number by {
                    if i == 0 {
                        assert(p[j] == pt[j - 1]);
                        assert(t.contains(pt[j - 1]));
                        let w: int = choose|w: int| 0 <= w < t.len() && t[w] == pt[j - 1];
                        assert(log[w + 1] == p[j]);
                        assert(log[0].input_sequence_number < log[w + 1].input_sequence_number);
                    } else {
                        assert(p[i] == pt[i - 1]);
                        assert(p[j] == pt[j - 1]);
                        assert(ascending_log(pt));
                    }
                }
            }
        }
    }
}

/// Law (pruning on acknowledgment): under reconciliation, a snapshot entry
/// for the controlled entity acknowledging sequence number `k` leaves as
/// the pending log exactly the subset of previously-pending inputs whose
/// sequence number exceeds `k`, in their original relative order.
pub proof fn lemma_snapshot_prunes_log(m: ClientModel, e: WorldStateEntry, now: u64, k: u32)
    requires
        m.server_reconciliation,
        e.entity_id == m.entity_id,
        e.last_processed_input == Some(k),
    ensures
        client_after_entry(m, e, now).pending_inputs == pruned_log(m.pending_inputs, k),
        forall|i: int|
            0 <= i < pruned_log(m.pending_inputs, k).len() ==> #[trigger] pruned_log(
                m.pending_inputs,
                k,
            )[i].input_sequence_number > k,
        forall|i: int|
            0 <= i < m.pending_inputs.len() && m.pending_inputs[i].input_sequence_number > k
                ==> pruned_log(m.pending_inputs, k).contains(#[trigger] m.pending_inputs[i]),
        forall|i: int|
            0 <= i < pruned_log(m.pending_inputs, k).len() ==> m.pending_inputs.contains(
                #[trigger] pruned_log(m.pending_inputs, k)[i],
            ),
        ascending_log(m.pending_inputs) ==> ascending_log(pruned_log(m.pending_inputs, k)),
{
    lemma_pruned_log_exact(m.pending_inputs, k);
}

/// Law (replay reconstructs the reconciled position): under
/// reconciliation, right after a snapshot entry for the controlled entity,
/// replaying the surviving pending log — every still-unacknowledged input,
/// in order — directly on top of the acknowledged snapshot position
/// reproduces the client's reconciled position exactly.
pub proof fn lemma_replay_reconstructs_position(m: ClientModel, e: WorldStateEntry, now: u64)
    requires
        m.server_reconciliation,
        e.entity_id == m.entity_id,
    ensures
        ({
            let m2 = client_after_entry(m, e, now);
            let i = entity_index(m2.entities, m.entity_id);
            &&& 0 <= i < m2.entities.len()
            &&& m2.entities[i].x as int == replayed_position(
                e.position as int,
                m2.entities[i].speed,
                m2.pending_inputs,
            )
        }),
{
    let roster = if entity_found(m.entities, e.entity_id) {
        m.entities
    } else {
        m.entities.push(spec_new_entity(e.entity_id))
    };
    if entity_found(m.entities, e.entity_id) {
        lemma_entity_index(roster, e.entity_id);
    } else {
        lemma_entity_index_push(m.entities, spec_new_entity(e.entity_id));
        lemma_entity_index(roster, e.entity_id);
    }
    let i = entity_index(roster, e.entity_id);
    let ent = roster[i];
    let kept = log_after_ack(m.pending_inputs, e.last_processed_input);
    let m2 = client_after_entry(m, e, now);
    assert(m2.entities == roster.update(
        i,
        EntityModel {
            x: replayed_position(e.position as int, ent.speed, kept) as i64,
            ..ent
        },
    ));
    crate::world::lemma_entity_index_unique(m2.entities, e.entity_id, i);
    crate::world::lemma_replayed_in_range(e.position as int, ent.speed, kept);
}

/// Peeling a pruning fold from the back: the last input stays exactly when
/// its sequence number is unacknowledged.
pub proof fn lemma_log_after_ack_snoc(log: Seq<MovementInput>, inp: MovementInput, ack: Option<u32>)
    ensures
        log_after_ack(log.push(inp), ack) == (match ack {
            Some(k) => if inp.input_sequence_number > k {
                log_after_ack(log, ack).push(inp)
            } else {
                log_after_ack(log, ack)
            },
            None => log.push(inp),
        }),
    decreases log.len(),
{
    reveal_with_fuel(pruned_log, 2);
    match ack {
        None => {},
        Some(k) => {
            if log.len() == 0 {
                assert(log.push(inp)[0] == inp);
                assert(log.push(inp).skip(1) =~= Seq::<MovementInput>::empty());
                if inp.input_sequence_number > k {
                    assert(pruned_log(log.push(inp), k) =~= seq![inp]);
                    assert(pruned_log(log, k).push(inp) =~= seq![inp]);
                }
            } else {
                assert(log.push(inp)[0] == log[0]);
                assert(log.push(inp).skip(1) =~= log.skip(1).push(inp));
                lemma_log_after_ack_snoc(log.skip(1), inp, ack);
                if log[0].input_sequence_number > k {
                    if inp.input_sequence_number > k {
                        assert(pruned_log(log.push(inp), k) =~= pruned_log(log, k).push(inp));
                    }
                }
            }
        },
    }
}

/// Peeling a replay fold from the back.
pub proof fn lemma_replayed_snoc(pos: int, speed: i64, inputs: Seq<MovementInput>, inp: MovementInput)
    ensures
        replayed_position(pos, speed, inputs.push(inp)) == integrated_position(
            replayed_position(pos, speed, inputs),
            inp.press_time,
            speed,
        ),
    decreases inputs.len(),
{
    reveal_with_fuel(replayed_position, 2);
    if inputs.len() == 0 {
        assert(inputs.push(inp)[0] == inp);
        assert(inputs.push(inp).skip(1) =~= Seq::<MovementInput>::empty());
    } else {
        assert(inputs.push(inp)[0] == inputs[0]);
        assert(inputs.push(inp).skip(1) =~= inputs.skip(1).push(inp));
        lemma_replayed_snoc(
            integrated_position(pos, inputs[0].press_time, speed),
            speed,
            inputs.skip(1),
            inp,
        );
    }
}

} // verus!
