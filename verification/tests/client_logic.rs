use netcode::client::Client;
use netcode::network::LagNetwork;
use netcode::world::Entity;
use netcode::world::Message;
use netcode::world::MovementInput;
use netcode::world::WorldStateEntry;
use netcode::world::WorldStateMessage;

fn own_snapshot(position: i64, last_processed_input: Option<u32>) -> Message {
    Message::WorldState(WorldStateMessage {
        world_state: vec![WorldStateEntry {
            entity_id: 1,
            position,
            last_processed_input,
        }],
    })
}

fn pending(seq: u32, press_time: i64) -> MovementInput {
    MovementInput {
        press_time,
        entity_id: 1,
        input_sequence_number: seq,
    }
}

fn deliver(c: &mut Client, msg: Message, now: u64) {
    let mut inbound = LagNetwork::new();
    inbound.send(0, msg, now);
    c.network = inbound;
    c.proccessServerMessages(now);
}

#[test]
fn entity_spawns_at_its_id_slot_and_integrates_inputs() {
    let mut e = Entity::new(1);
    assert_eq!(e.x, 140_000);
    assert_eq!(e.speed, 40_000);
    e.applyInput(pending(0, -20));
    assert_eq!(e.x, 140_000 - 20 * 40_000);
}

#[test]
fn reconciliation_prunes_acknowledged_inputs_and_replays_the_rest() {
    let mut c = Client::new(1, 20, 0);
    c.server_reconciliation = true;
    c.pending_inputs = vec![
        pending(0, 10),
        pending(1, -4),
        pending(2, 3),
        pending(3, 5),
    ];
    c.input_sequence_number = 4;
    deliver(&mut c, own_snapshot(100_000, Some(1)), 50);
    // Exactly the inputs above the acknowledgment survive, in order.
    let seqs: Vec<u32> = c
        .pending_inputs
        .iter()
        .map(|i| i.input_sequence_number)
        .collect();
    assert_eq!(seqs, vec![2, 3]);
    // Replaying them on the acknowledged position gives the new position.
    assert_eq!(
        c.get_position(1),
        Some(100_000 + 3 * 40_000 + 5 * 40_000)
    );
}

#[test]
fn reconciliation_replays_everything_before_a_first_acknowledgment() {
    let mut c = Client::new(1, 20, 0);
    c.server_reconciliation = true;
    c.pending_inputs = vec![pending(0, 2), pending(1, 2)];
    c.input_sequence_number = 2;
    deliver(&mut c, own_snapshot(140_000, None), 50);
    assert_eq!(c.pending_inputs.len(), 2);
    assert_eq!(c.get_position(1), Some(140_000 + 4 * 40_000));
}

#[test]
fn without_reconciliation_a_snapshot_clears_the_pending_log() {
    let mut c = Client::new(1, 20, 0);
    c.pending_inputs = vec![pending(0, 10), pending(1, 10)];
    c.input_sequence_number = 2;
    deliver(&mut c, own_snapshot(77_000, Some(0)), 50);
    assert_eq!(c.pending_inputs.len(), 0);
    assert_eq!(c.get_position(1), Some(77_000));
}

#[test]
fn prediction_applies_the_input_before_any_confirmation() {
    let mut c = Client::new(1, 20, 0);
    c.client_side_prediction = true;
    deliver(&mut c, own_snapshot(140_000, None), 0);
    c.key_right = true;
    let out = c.process_input(6);
    assert!(out.is_some());
    assert_eq!(c.get_position(1), Some(140_000 + 6 * 40_000));
    assert_eq!(c.pending_inputs.len(), 1);
}

#[test]
fn without_prediction_the_position_waits_for_the_server() {
    let mut c = Client::new(1, 20, 0);
    deliver(&mut c, own_snapshot(140_000, None), 0);
    c.key_left = true;
    let out = c.process_input(6);
    assert!(out.is_some());
    assert_eq!(c.get_position(1), Some(140_000));
    // The input is still logged for reconciliation.
    assert_eq!(c.pending_inputs.len(), 1);
}

#[test]
fn inputs_carry_consecutive_sequence_numbers_from_zero() {
    let mut c = Client::new(1, 20, 0);
    c.key_left = true;
    for (call, now) in [(0u32, 10u64), (1, 20), (2, 30)] {
        match c.process_input(now) {
            Some(Message::Movement(input)) => {
                assert_eq!(input.input_sequence_number, call);
                assert_eq!(input.entity_id, 1);
                // Ten elapsed milliseconds, negated for a left move.
                assert_eq!(input.press_time, -10);
            }
            _ => panic!("a held key must emit a movement input"),
        }
    }
    assert_eq!(c.pending_input_count(), 3);
}

#[test]
fn no_key_held_means_no_input() {
    let mut c = Client::new(1, 20, 0);
    assert!(c.process_input(10).is_none());
    assert_eq!(c.pending_input_count(), 0);
    assert_eq!(c.input_sequence_number, 0);
}

#[test]
fn left_takes_priority_over_right() {
    let mut c = Client::new(1, 20, 0);
    c.set_intent(true, true);
    match c.process_input(8) {
        Some(Message::Movement(input)) => assert_eq!(input.press_time, -8),
        _ => panic!("a held key must emit a movement input"),
    }
}

#[test]
fn a_frame_below_the_interval_is_a_no_op() {
    let mut c = Client::new(1, 20, 0);
    c.key_left = true;
    assert!(c.update(10, 100, 10).is_none());
    assert_eq!(c.time_since_last_update, 10);
    assert_eq!(c.pending_input_count(), 0);
}

#[test]
fn the_tick_keeps_the_remainder_of_accumulated_time() {
    let mut c = Client::new(1, 20, 0);
    c.update(30, 100, 30);
    assert_eq!(c.time_since_last_update, 10);
}

#[test]
fn integration_saturates_at_the_representable_range() {
    let mut e = Entity::new(1);
    e.x = i64::MAX - 5;
    e.applyInput(pending(0, 1)); // one more step would overflow
    assert_eq!(e.x, i64::MAX);
    e.x = i64::MIN + 5;
    e.applyInput(pending(1, -1));
    assert_eq!(e.x, i64::MIN);
}
