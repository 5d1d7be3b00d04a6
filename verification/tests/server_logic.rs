use netcode::server::Server;
use netcode::world::Message;
use netcode::world::MovementInput;

fn movement(entity_id: u32, seq: u32, press_time: i64) -> Message {
    Message::Movement(MovementInput {
        press_time,
        entity_id,
        input_sequence_number: seq,
    })
}

#[test]
fn registration_hands_out_ids_in_order_without_reuse() {
    let mut s = Server::new();
    let first = s.add_client(0);
    let second = s.add_client(0);
    assert_eq!(first, 1);
    assert_eq!(second, 2);
    assert_eq!(s.list_clients(), 2);
    // One authoritative entity per client, at its id-determined spawn
    // position, even though neither client ever sent input.
    assert_eq!(s.entity_position(1), Some(140_000));
    assert_eq!(s.entity_position(2), Some(240_000));
    assert_eq!(s.entity_position(3), None);
    assert_eq!(s.client(0).entity_id, 1);
    assert_eq!(s.client(1).entity_id, 2);
}

#[test]
fn a_due_input_is_applied_and_acknowledged() {
    let mut s = Server::new();
    s.add_client(0);
    s.network.send(0, movement(1, 0, -20), 10);
    s.processInputs(10);
    assert_eq!(s.entity_position(1), Some(140_000 - 20 * 40_000));
    assert_eq!(s.last_processed_input_of(1), Some(0));
}

#[test]
fn an_input_for_an_unknown_entity_is_dropped() {
    let mut s = Server::new();
    s.add_client(0);
    s.network.send(0, movement(99, 0, 50), 10);
    s.processInputs(10);
    assert_eq!(s.entity_position(1), Some(140_000));
    assert_eq!(s.last_processed_input_of(1), None);
    assert_eq!(s.network.len(), 0);
}

#[test]
fn an_undue_input_stays_queued_across_a_tick() {
    let mut s = Server::new();
    s.add_client(0);
    s.network.send(500, movement(1, 0, 10), 0); // release 500
    s.processInputs(100);
    assert_eq!(s.entity_position(1), Some(140_000));
    assert_eq!(s.network.len(), 1);
    s.processInputs(500);
    assert_eq!(s.entity_position(1), Some(140_000 + 10 * 40_000));
}

#[test]
fn inputs_apply_in_arrival_order() {
    let mut s = Server::new();
    s.add_client(0);
    s.network.send(0, movement(1, 0, 3), 10);
    s.network.send(0, movement(1, 1, 4), 11);
    s.processInputs(20);
    assert_eq!(s.entity_position(1), Some(140_000 + 7 * 40_000));
    assert_eq!(s.last_processed_input_of(1), Some(1));
}

#[test]
fn broadcast_reaches_every_client_after_its_own_latency() {
    let mut s = Server::new();
    s.add_client(0);
    s.add_client(0);
    s.client_mut(1).latency_to_server = 50;
    s.sendWorldState(100);
    // Client 0 keeps the default 250 ms latency, client 1 got 50 ms.
    assert_eq!(s.client(0).network.len(), 1);
    assert_eq!(s.client(1).network.len(), 1);
    let msg0 = s.client_mut(0).network.receive(349);
    assert!(msg0.is_none());
    let msg0 = s.client_mut(0).network.receive(350).expect("due at 350");
    match msg0 {
        Message::WorldState(ws) => {
            assert_eq!(ws.world_state.len(), 2);
            assert_eq!(ws.world_state[0].entity_id, 1);
            assert_eq!(ws.world_state[0].position, 140_000);
            assert_eq!(ws.world_state[0].last_processed_input, None);
            assert_eq!(ws.world_state[1].entity_id, 2);
        }
        _ => panic!("the broadcast must be a world-state snapshot"),
    }
    assert!(s.client_mut(1).network.receive(149).is_none());
    assert!(s.client_mut(1).network.receive(150).is_some());
}

#[test]
fn a_server_frame_below_the_interval_only_ticks_clients() {
    let mut s = Server::new();
    s.add_client(0);
    s.update(20, 20);
    assert_eq!(s.time_since_last_update, 20);
    // No broadcast yet: the client's link is still empty.
    assert_eq!(s.client(0).network.len(), 0);
}
