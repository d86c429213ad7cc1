use swim_rs::protocol::messages::{CodecError, Message, PeerAddr};

fn v4(port: u16) -> PeerAddr {
    PeerAddr { v6: false, ip: 0x7f00_0001, port, flowinfo: 0, scope_id: 0 }
}

fn v6(port: u16) -> PeerAddr {
    PeerAddr { v6: true, ip: u128::MAX - 5, port, flowinfo: 9, scope_id: 3 }
}

#[test]
fn ping_roundtrip() {
    let m = Message::Ping { seq: 7, from: v4(7001) };
    let bytes = m.to_bytes().unwrap();
    assert!(!bytes.is_empty());
    assert_eq!(Message::from_bytes(&bytes), Ok(m));
}

#[test]
fn ack_roundtrip() {
    let m = Message::Ack { seq: u32::MAX, from: v6(65535) };
    let bytes = m.to_bytes().unwrap();
    assert_eq!(Message::from_bytes(&bytes), Ok(m));
}

#[test]
fn ping_req_roundtrip() {
    let m = Message::PingReq { seq: 0, from: v4(1), target: v6(2) };
    let bytes = m.to_bytes().unwrap();
    assert_eq!(Message::from_bytes(&bytes), Ok(m));
}

#[test]
fn encoding_is_deterministic_and_tells_messages_apart() {
    let a = Message::Ping { seq: 1, from: v4(7001) };
    let b = Message::Ack { seq: 1, from: v4(7001) };
    let c = Message::Ping { seq: 2, from: v4(7001) };
    assert_eq!(a.to_bytes().unwrap(), a.to_bytes().unwrap());
    assert_ne!(a.to_bytes().unwrap(), b.to_bytes().unwrap());
    assert_ne!(a.to_bytes().unwrap(), c.to_bytes().unwrap());
}

#[test]
fn encoded_ping_bytes() {
    let m = Message::Ping {
        seq: 5,
        from: PeerAddr { v6: false, ip: 1, port: 2, flowinfo: 0, scope_id: 0 },
    };
    assert_eq!(m.to_bytes().unwrap(), vec![0u8, 5, 0, 1, 2, 0, 0, 0]);
}

#[test]
fn empty_bytes_do_not_decode() {
    assert_eq!(Message::from_bytes(&[]), Err(CodecError::Decode));
}

#[test]
fn truncated_bytes_do_not_decode() {
    let bytes = Message::PingReq { seq: 3, from: v4(1), target: v4(2) }.to_bytes().unwrap();
    assert_eq!(Message::from_bytes(&bytes[..bytes.len() - 1]), Err(CodecError::Decode));
    assert_eq!(Message::from_bytes(&[0xff, 0xff, 0xff]), Err(CodecError::Decode));
}

#[test]
fn unknown_tag_is_malformed() {
    let mut bytes = Message::Ping { seq: 3, from: v4(1) }.to_bytes().unwrap();
    bytes[0] = 7;
    assert_eq!(Message::from_bytes(&bytes), Err(CodecError::Malformed));
}

#[test]
fn from_wire_checks_the_record() {
    let w = (false, 0x7f00_0001u128, 7001u16, 0u32, 0u32);
    assert_eq!(Message::from_wire(0, 9, w, None), Some(Message::Ping { seq: 9, from: v4(7001) }));
    assert_eq!(Message::from_wire(1, 9, w, None), Some(Message::Ack { seq: 9, from: v4(7001) }));
    assert_eq!(
        Message::from_wire(2, 9, w, Some(w)),
        Some(Message::PingReq { seq: 9, from: v4(7001), target: v4(7001) })
    );
    assert_eq!(Message::from_wire(2, 9, w, None), None);
    assert_eq!(Message::from_wire(0, 9, w, Some(w)), None);
    assert_eq!(Message::from_wire(3, 9, w, None), None);
    let wide = (false, 1u128 << 32, 1u16, 0u32, 0u32);
    assert_eq!(Message::from_wire(0, 9, wide, None), None);
    assert_eq!(Message::from_wire(2, 9, w, Some(wide)), None);
    let flow = (false, 1u128, 1u16, 1u32, 0u32);
    assert_eq!(Message::from_wire(0, 9, flow, None), None);
}

#[test]
fn address_validity() {
    assert!(v4(1).is_valid());
    assert!(v6(1).is_valid());
    assert!(!PeerAddr { v6: false, ip: 1 << 40, port: 1, flowinfo: 0, scope_id: 0 }.is_valid());
    assert_eq!(v4(3).to_wire(), (false, 0x7f00_0001, 3, 0, 0));
}
