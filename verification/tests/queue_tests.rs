use relmsg::message::Message;
use relmsg::message_queue::MessageQueue;

fn record(id: u16, payload: &[u8]) -> Vec<u8> {
    Message::new(id, payload.to_vec()).into_vec()
}

#[test]
fn queue_ordering_under_reordering() {
    // records arriving 1, 0, 2 are delivered 0, 1, 2, and nothing at all
    // is delivered before the record for id 0 arrives
    let mut q = MessageQueue::new();

    q.recv_messages(&record(1, b"one"));
    assert_eq!(q.recv_next_all(), Vec::<Vec<u8>>::new());

    q.recv_messages(&record(0, b"zero"));
    q.recv_messages(&record(2, b"two"));
    let delivered = q.recv_next_all();
    assert_eq!(delivered, vec![b"zero".to_vec(), b"one".to_vec(), b"two".to_vec()]);
    assert_eq!(q.recv_next_all(), Vec::<Vec<u8>>::new());
}

#[test]
fn queue_duplicate_records_dropped() {
    let mut q = MessageQueue::new();
    q.recv_messages(&record(0, b"zero"));
    // retransmitted copy of an already delivered id
    q.recv_messages(&record(0, b"zero"));
    assert_eq!(q.recv_next_all(), vec![b"zero".to_vec()]);
    // duplicate of one still waiting in the reorder buffer
    q.recv_messages(&record(2, b"two"));
    q.recv_messages(&record(2, b"two"));
    q.recv_messages(&record(1, b"one"));
    assert_eq!(q.recv_next_all(), vec![b"one".to_vec(), b"two".to_vec()]);
}

#[test]
fn queue_retransmits_until_acknowledged() {
    let mut q = MessageQueue::new();
    q.queue_message(b"abc");

    let first = q.send_next(7, 1200);
    assert_eq!(first, record(0, b"abc"));

    // not acknowledged yet: the same record rides every later packet
    let second = q.send_next(8, 1200);
    assert_eq!(second, record(0, b"abc"));

    q.acknowledge(7);
    let third = q.send_next(9, 1200);
    assert_eq!(third, Vec::<u8>::new());
}

#[test]
fn queue_send_next_respects_budget() {
    let mut q = MessageQueue::new();
    q.queue_message(b"0123456789");
    // a message over the byte budget is withheld ...
    let tight = q.send_next(1, 5);
    assert_eq!(tight, Vec::<u8>::new());
    // ... and stays queued for a roomier packet
    let roomy = q.send_next(2, 1200);
    assert_eq!(roomy, record(0, b"0123456789"));
}

#[test]
fn queue_packs_multiple_messages() {
    let mut q = MessageQueue::new();
    q.queue_message(b"aa");
    q.queue_message(b"bb");
    let payload = q.send_next(1, 1200);
    let mut expected = record(0, b"aa");
    expected.append(&mut record(1, b"bb"));
    assert_eq!(payload, expected);

    q.acknowledge(1);
    assert_eq!(q.send_next(2, 1200), Vec::<u8>::new());
}

#[test]
fn queue_acknowledge_unknown_packet_is_noop() {
    let mut q = MessageQueue::new();
    q.queue_message(b"abc");
    q.acknowledge(42);
    assert_eq!(q.send_next(1, 1200), record(0, b"abc"));
}
