use relmsg::message::Message;
use relmsg::message::message_into_vec;
use relmsg::packet::ParseError;

#[test]
fn message_test_serialize_deserialize() {
    let m1 = "hi";
    let m2 = "ho";
    let mess1 = Message::new(1, Vec::from(m1));
    let mess2 = Message::new(1, Vec::from(m2));
    let mut mv = mess1.into_vec();
    mv.append(&mut mess2.into_vec());
    let des = Message::from_slice(&mv).unwrap();
    assert_eq!(std::str::from_utf8(&des[0].data).unwrap(), m1);
    assert_eq!(std::str::from_utf8(&des[1].data).unwrap(), m2);
}

#[test]
fn message_from_slice_too_short() {
    let r = Message::from_slice(&[0u8; 7]);
    assert!(matches!(r, Err(ParseError::SliceTooShort)));
}

#[test]
fn message_from_slice_truncated_record() {
    // header claims 10 payload bytes, only 4 follow
    let bytes = [0x00, 0x00, 0x00, 0x0A, 1, 2, 3, 4];
    let r = Message::from_slice(&bytes);
    assert!(matches!(r, Err(ParseError::RecordTruncated)));
}

#[test]
fn message_record_layout() {
    let m = Message::new(0x0102, vec![0xAA]);
    assert_eq!(m.size, 1);
    let bytes = message_into_vec(&m);
    assert_eq!(bytes, vec![0x01, 0x02, 0x00, 0x01, 0xAA]);
    assert_eq!(m.into_vec(), vec![0x01, 0x02, 0x00, 0x01, 0xAA]);
}
