use relmsg::packet::Packet;
use relmsg::packet::ParseError;

#[test]
fn packet_test_serialize_deserialize() {
    let packet = Packet::new(5, 7, vec![7, 5, 3, 2, 1], vec![]);
    let vec = packet.into_vec();
    let new = Packet::from_slice(&vec).unwrap();
    assert_eq!(Packet::new(5, 7, vec![7, 5, 3, 2, 1], vec![]), new);
}

#[test]
fn packet_from_slice_too_short() {
    let r = Packet::from_slice(&[0u8; 7]);
    assert!(matches!(r, Err(ParseError::SliceTooShort)));
    let r8 = Packet::from_slice(&[0u8; 8]);
    assert!(r8.is_ok());
}

#[test]
fn packet_wraparound_full_window() {
    // the full 32-ack window around a base near the wraparound boundary
    let ack: u16 = 5;
    let mut window: Vec<u16> = Vec::new();
    for i in 0..32u16 {
        window.push(ack.wrapping_sub(i));
    }
    let packet = Packet::new(9, ack, window.clone(), vec![1, 2, 3]);
    let bytes = packet.into_vec();
    let decoded = Packet::from_slice(&bytes).unwrap();
    assert_eq!(decoded.sequence, 9);
    assert_eq!(decoded.ack, ack);
    assert_eq!(decoded.acks, window);
    assert_eq!(decoded.data, vec![1, 2, 3]);
}

#[test]
fn packet_far_acks_dropped() {
    // an ack 32 or more behind the base does not fit the bitfield
    let ack: u16 = 100;
    let packet = Packet::new(0, ack, vec![ack.wrapping_sub(32), ack.wrapping_sub(1000)], vec![]);
    let bytes = packet.into_vec();
    let decoded = Packet::from_slice(&bytes).unwrap();
    assert_eq!(decoded.acks, Vec::<u16>::new());
}

#[test]
fn packet_header_layout() {
    let packet = Packet::new(0x0102, 0x0304, vec![0x0304], vec![0xAA, 0xBB]);
    let bytes = packet.into_vec();
    // sequence and ack big-endian, bit 0 set for the ack itself, then payload
    assert_eq!(bytes, vec![0x01, 0x02, 0x03, 0x04, 0x00, 0x00, 0x00, 0x01, 0xAA, 0xBB]);
}
