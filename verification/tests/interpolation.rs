use netcode::client::Client;
use netcode::client::interpolate_position;
use netcode::network::LagNetwork;
use netcode::world::Message;
use netcode::world::WorldStateEntry;
use netcode::world::WorldStateMessage;

fn snapshot_for(entity_id: u32, position: i64) -> Message {
    Message::WorldState(WorldStateMessage {
        world_state: vec![WorldStateEntry {
            entity_id,
            position,
            last_processed_input: None,
        }],
    })
}

#[test]
fn blend_matches_the_exact_linear_formula() {
    // Samples (0, 0) and (100, 10000), render timestamp 40:
    // 0 + (10000 - 0) * 40 / 100 = 4000.
    assert_eq!(interpolate_position(0, 0, 100, 10000, 40), 4000);
}

#[test]
fn blend_works_on_a_falling_slope() {
    // Samples (200, 9000) and (300, 1000), render timestamp 225:
    // 9000 - 8000 * 25 / 100 = 7000.
    assert_eq!(interpolate_position(200, 9000, 300, 1000, 225), 7000);
}

#[test]
fn blend_is_exact_at_the_left_sample() {
    assert_eq!(interpolate_position(50, 123, 150, 456, 50), 123);
}

/// Builds a client (controlling entity 1) whose copy of remote entity 2
/// has received authoritative samples at the given times and positions.
fn client_with_remote_samples(samples: &[(u64, i64)]) -> Client {
    let mut c = Client::new(1, 20, 0);
    c.entity_interpolation = true;
    let mut inbound = LagNetwork::new();
    for (t, p) in samples {
        inbound.send(0, snapshot_for(2, *p), *t);
    }
    c.network = inbound;
    // Process each snapshot at its own observation time, so the buffer
    // records the send times.
    for (t, _) in samples {
        c.proccessServerMessages(*t);
    }
    c
}

#[test]
fn interpolation_step_blends_a_bracketed_remote_entity() {
    let mut c = client_with_remote_samples(&[(0, 0), (100, 10000)]);
    // Render timestamp = now - server interval = 140 - 100 = 40.
    c.interpolateEntities(100, 140);
    assert_eq!(c.get_position(2), Some(4000));
}

#[test]
fn interpolation_step_snaps_to_a_single_old_sample() {
    let mut c = client_with_remote_samples(&[(0, 7000)]);
    c.interpolateEntities(100, 140);
    assert_eq!(c.get_position(2), Some(7000));
}

#[test]
fn interpolation_step_leaves_position_alone_without_enough_data() {
    // Both samples are still in the future of the render timestamp
    // (rts = 0): nothing to blend yet, the spawn-time snap stays.
    let mut c = client_with_remote_samples(&[(60, 5000), (90, 9000)]);
    let before = c.get_position(2);
    c.interpolateEntities(100, 100);
    assert_eq!(c.get_position(2), before);
}

#[test]
fn interpolation_prunes_aged_out_samples() {
    // With three samples and a late render timestamp, the leading pair
    // ages out and the blend uses the last two samples:
    // rts = 250 - 100 = 150; samples (100, 1000) and (200, 2000):
    // 1000 + 1000 * 50 / 100 = 1500.
    let mut c = client_with_remote_samples(&[(0, 0), (100, 1000), (200, 2000)]);
    c.interpolateEntities(100, 250);
    assert_eq!(c.get_position(2), Some(1500));
}

#[test]
fn remote_entity_snaps_directly_when_interpolation_is_off() {
    let mut c = Client::new(1, 20, 0);
    let mut inbound = LagNetwork::new();
    inbound.send(0, snapshot_for(2, 4242), 0);
    c.network = inbound;
    c.proccessServerMessages(10);
    assert_eq!(c.get_position(2), Some(4242));
}
