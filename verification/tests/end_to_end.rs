use netcode::server::Server;

/// Drives the server with fixed 20 ms frames up to (and including) the
/// frame at `until` milliseconds, starting after `from`.
fn run_frames(s: &mut Server, from: u64, until: u64) {
    let mut now = from + 20;
    while now <= until {
        s.update(20, now);
        now += 20;
    }
}

/// One client, prediction off, reconciliation off, sends a single
/// left-move input.  Its displayed position must not move until the
/// snapshot reflecting that input has crossed the simulated link, and must
/// then equal the server's authoritative post-integration value.
#[test]
fn a_lone_input_round_trips_through_the_server() {
    let mut s = Server::new();
    s.add_client(0);

    // Hold "left" for exactly the first client tick (frame at 20 ms):
    // the tick samples 20 elapsed ms, emitting press time -20 with
    // sequence number 0.
    s.client_mut(0).key_left = true;
    s.update(20, 20);
    s.client_mut(0).key_left = false;

    // The input left at 20 ms with 250 ms latency: the server may not see
    // it before 270 ms.  Its first authoritative tick afterwards is at
    // 300 ms.  Until then, every snapshot carries the spawn position.
    run_frames(&mut s, 20, 280);
    assert_eq!(s.entity_position(1), Some(140_000));

    // Before any snapshot has arrived (the first one leaves at 100 ms and
    // lands at 350 ms) the client has no local copy at all.
    assert_eq!(s.client(0).get_position(1), None);

    // By 300 ms the server has integrated the input.
    run_frames(&mut s, 280, 300);
    let authoritative = 140_000 - 20 * 40_000;
    assert_eq!(s.entity_position(1), Some(authoritative));
    assert_eq!(s.last_processed_input_of(1), Some(0));

    // Snapshots sent before 300 ms still carry the spawn position: when
    // the first lands (350 ms, received on the client tick at 360 ms) the
    // local position equals the unchanged spawn value.
    run_frames(&mut s, 300, 440);
    assert_eq!(s.client(0).get_position(1), Some(140_000));

    // The post-integration snapshot leaves at 300 ms and lands at 550 ms:
    // from the next client tick on, the local position equals the
    // server's authoritative value.
    run_frames(&mut s, 440, 560);
    assert_eq!(s.client(0).get_position(1), Some(authoritative));
    assert_eq!(s.entity_position(1), Some(authoritative));
}

/// Two registered clients get entity ids 1 and 2 in registration order,
/// with no reuse, even though neither ever sends input.
#[test]
fn two_clients_register_distinct_consecutive_ids() {
    let mut s = Server::new();
    let a = s.add_client(0);
    let b = s.add_client(0);
    assert_eq!((a, b), (1, 2));

    // Run half a second of frames without any input.
    run_frames(&mut s, 0, 500);

    // Both authoritative entities still exist, under their original ids,
    // at their distinct spawn positions.
    assert_eq!(s.entity_position(1), Some(140_000));
    assert_eq!(s.entity_position(2), Some(240_000));
    assert_eq!(s.client(0).entity_id, 1);
    assert_eq!(s.client(1).entity_id, 2);

    // Each client has observed both entities from the broadcasts.
    assert_eq!(s.client(0).get_position(1), Some(140_000));
    assert_eq!(s.client(0).get_position(2), Some(240_000));
    assert_eq!(s.client(1).get_position(1), Some(140_000));
    assert_eq!(s.client(1).get_position(2), Some(240_000));
}

/// With reconciliation on, the pending log shrinks as acknowledgments
/// come back, and the predicted position converges to the authoritative
/// one once the stream of inputs stops.
#[test]
fn reconciliation_converges_with_prediction_on() {
    let mut s = Server::new();
    s.add_client(0);
    {
        let c = s.client_mut(0);
        c.client_side_prediction = true;
        c.server_reconciliation = true;
        c.latency_to_server = 30;
    }

    // Hold "right" for three client ticks: inputs 0, 1, 2 of 20 ms each.
    s.client_mut(0).key_right = true;
    run_frames(&mut s, 0, 60);
    s.client_mut(0).key_right = false;
    assert_eq!(s.client(0).pending_input_count(), 3);

    // Run on until all inputs are applied and acknowledged.
    run_frames(&mut s, 60, 600);
    assert_eq!(s.last_processed_input_of(1), Some(2));
    assert_eq!(s.client(0).pending_input_count(), 0);

    let expected = 140_000 + 60 * 40_000;
    assert_eq!(s.entity_position(1), Some(expected));
    assert_eq!(s.client(0).get_position(1), Some(expected));
}
