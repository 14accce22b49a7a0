use relmsg::connection::Connection;
use relmsg::connection::smoothed_average;
use relmsg::recency::is_recent;

#[test]
fn recency_successor_and_predecessor() {
    assert!(is_recent(1, 0));
    assert!(!is_recent(0, 1));
    assert!(!is_recent(5, 5));
    // across the wraparound boundary
    assert!(is_recent(0, 65535));
    assert!(!is_recent(65535, 0));
}

#[test]
fn connection_loss_inference() {
    // 128 history slots: every send past a full buffer of unacknowledged
    // packets counts one presumed loss
    let mut conn = Connection::new(0);
    for k in 0..133u64 {
        let _ = conn.send(k);
    }
    assert_eq!(conn.lost_packets, 5);
    assert_eq!(conn.sent_packets, 133);
}

#[test]
fn rtt_estimate_converges_monotonically() {
    // fixed 100 ms samples: the estimate rises toward 100 ms and never
    // overshoots; it is unsigned, so it can never go negative
    let sample_micros = 100_000u64;
    let mut rtt = 0u64;
    for _ in 0..200 {
        let next = smoothed_average(rtt, sample_micros);
        assert!(next >= rtt);
        assert!(next <= sample_micros);
        rtt = next;
    }
    assert!(rtt > 99_000);

    // from above, it falls toward the sample just as steadily
    let mut high = 250_000u64;
    for _ in 0..200 {
        let next = smoothed_average(high, sample_micros);
        assert!(next <= high);
        assert!(next >= sample_micros);
        high = next;
    }
    assert!(high < 101_000);
}

#[test]
fn connection_end_to_end() {
    let mut alice = Connection::new(0);
    let mut bob = Connection::new(0);

    alice.queue_message(b"hi");
    let datagram = alice.send(0);

    assert!(bob.receive_packet(&datagram, 10).is_ok());
    assert_eq!(bob.recv_messages(), vec![b"hi".to_vec()]);

    bob.queue_message(b"hello");
    let reply = bob.send(20);

    assert!(alice.receive_packet(&reply, 30).is_ok());
    assert_eq!(alice.recv_messages(), vec![b"hello".to_vec()]);

    // the reply acknowledged the first packet after a 30 ms round trip
    assert_eq!(alice.acked_packets, 1);
    assert_eq!(alice.rtt_micros, 3_000);
    assert_eq!(alice.rtt_millis(), 3);
}

#[test]
fn connection_malformed_datagram_rejected() {
    let mut conn = Connection::new(0);
    let before_received = conn.recv_packets;
    assert!(conn.receive_packet(&[1, 2, 3], 5).is_err());
    assert_eq!(conn.recv_packets, before_received);
    assert_eq!(conn.recv_messages(), Vec::<Vec<u8>>::new());
}

#[test]
fn connection_retransmits_across_packets() {
    let mut alice = Connection::new(0);
    let mut bob = Connection::new(0);

    alice.queue_message(b"data");
    // the first datagram is lost in transit; the next one still carries
    // the message
    let _lost = alice.send(0);
    let second = alice.send(16);
    assert!(bob.receive_packet(&second, 30).is_ok());
    assert_eq!(bob.recv_messages(), vec![b"data".to_vec()]);

    // bob's reply acknowledges packet 1; the message is retired
    let reply = bob.send(40);
    assert!(alice.receive_packet(&reply, 60).is_ok());
    let third = alice.send(70);
    // 8-byte header only: no payload rides along any more
    assert_eq!(third.len(), 8);
}
