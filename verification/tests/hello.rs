use buran::ipc::{BwpError, Hello, HelloAck, HELLO_PAYLOAD_LEN};

#[test]
fn hello_roundtrips() {
    let h = Hello { version: 1, pid: 4242, concurrency: 128, capabilities: 0b1 };
    assert_eq!(Hello::decode(&h.encode()).unwrap(), h);
}

#[test]
fn hello_rejects_bad_magic() {
    let mut buf = Hello { version: 1, pid: 1, concurrency: 1, capabilities: 0 }.encode();
    buf[0] = b'X';
    assert!(matches!(Hello::decode(&buf), Err(BwpError::BadMagic)));
}

#[test]
fn hello_rejects_short_payload() {
    assert!(matches!(
        Hello::decode(&[0u8; HELLO_PAYLOAD_LEN - 1]),
        Err(BwpError::Truncated { .. })
    ));
}

#[test]
fn hello_ack_roundtrips() {
    let a = HelloAck { version: 1, concurrency: u32::MAX };
    assert_eq!(HelloAck::decode(&a.encode()).unwrap(), a);
}

#[test]
fn hello_ack_rejects_short_payload() {
    assert!(matches!(HelloAck::decode(&[0u8; 4]), Err(BwpError::Truncated { .. })));
}
