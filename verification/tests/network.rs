use netcode::network::LagNetwork;
use netcode::world::Message;
use netcode::world::MovementInput;

fn movement(seq: u32) -> Message {
    Message::Movement(MovementInput {
        press_time: 5,
        entity_id: 1,
        input_sequence_number: seq,
    })
}

fn seq_of(msg: Message) -> u32 {
    match msg {
        Message::Movement(input) => input.input_sequence_number,
        Message::WorldState(_) => panic!("expected a movement message"),
    }
}

#[test]
fn receive_on_empty_link_yields_nothing() {
    let mut link = LagNetwork::new();
    assert!(link.receive(0).is_none());
    assert!(link.receive(1_000_000).is_none());
}

#[test]
fn message_is_withheld_until_release_time() {
    // Sent at 100 with 250 ms latency: invisible strictly before 350,
    // delivered by the first receive at 350.
    let mut link = LagNetwork::new();
    link.send(250, movement(0), 100);
    assert!(link.receive(100).is_none());
    assert!(link.receive(349).is_none());
    let got = link.receive(350).expect("due message must be delivered");
    assert_eq!(seq_of(got), 0);
    assert!(link.receive(350).is_none());
}

#[test]
fn due_messages_come_back_in_send_order() {
    // A sent before B with the same latency; both due: A first.
    let mut link = LagNetwork::new();
    link.send(10, movement(0), 0);
    link.send(10, movement(1), 5);
    assert_eq!(seq_of(link.receive(20).unwrap()), 0);
    assert_eq!(seq_of(link.receive(20).unwrap()), 1);
    assert!(link.receive(20).is_none());
}

#[test]
fn insertion_order_wins_over_release_order() {
    // The first-enqueued message has the *later* release time; once both
    // are due, delivery still follows insertion order.
    let mut link = LagNetwork::new();
    link.send(300, movement(0), 0); // release 300
    link.send(10, movement(1), 0); // release 10
    assert_eq!(seq_of(link.receive(400).unwrap()), 0);
    assert_eq!(seq_of(link.receive(400).unwrap()), 1);
}

#[test]
fn earlier_due_message_overtakes_later_queued_one() {
    // At time 50 only the second message is due: it is delivered, and the
    // first stays queued until its own release time.
    let mut link = LagNetwork::new();
    link.send(300, movement(0), 0); // release 300
    link.send(10, movement(1), 0); // release 10
    assert_eq!(seq_of(link.receive(50).unwrap()), 1);
    assert!(link.receive(50).is_none());
    assert_eq!(seq_of(link.receive(300).unwrap()), 0);
}

#[test]
fn drain_returns_exactly_the_due_messages_in_order() {
    let mut link = LagNetwork::new();
    link.send(10, movement(0), 0); // release 10
    link.send(500, movement(1), 0); // release 500
    link.send(20, movement(2), 0); // release 20
    let due = link.drain(100);
    let seqs: Vec<u32> = due.into_iter().map(seq_of).collect();
    assert_eq!(seqs, vec![0, 2]);
    assert_eq!(link.len(), 1);
    assert_eq!(seq_of(link.receive(500).unwrap()), 1);
}

#[test]
fn release_time_saturates_at_the_end_of_time() {
    let mut link = LagNetwork::new();
    link.send(u64::MAX, movement(0), 10);
    assert!(link.receive(u64::MAX - 1).is_none());
    assert!(link.receive(u64::MAX).is_some());
}
