use buran::ipc::{BwpError, FrameHeader, FrameKind, FRAME_HEADER_LEN, PONG_BUSY};
use buran::ipc::frame::push_frame;

const ALL_KINDS: [FrameKind; 17] = [
    FrameKind::Hello,
    FrameKind::HelloAck,
    FrameKind::Request,
    FrameKind::RequestBody,
    FrameKind::Retire,
    FrameKind::Claim,
    FrameKind::ResponseHeaders,
    FrameKind::ResponseBody,
    FrameKind::Flush,
    FrameKind::End,
    FrameKind::Done,
    FrameKind::Error,
    FrameKind::Ping,
    FrameKind::Pong,
    FrameKind::Abort,
    FrameKind::Log,
    FrameKind::WsMessage,
];

#[test]
fn frame_kind_roundtrips_through_u8() {
    for kind in ALL_KINDS {
        let byte = kind.code();
        assert_eq!(FrameKind::try_from(byte).unwrap(), kind);
    }
}

#[test]
fn frame_kind_rejects_unknown_discriminants() {
    for byte in [0u8, 18, 100, 255] {
        match FrameKind::try_from(byte) {
            Err(BwpError::UnknownKind(v)) => assert_eq!(v, byte),
            other => panic!("expected UnknownKind({byte}), got {other:?}"),
        }
    }
}

#[test]
fn header_encode_has_fixed_layout() {
    let h = FrameHeader::new(FrameKind::Request, 1, 0);
    let buf = h.encode();
    assert_eq!(buf.len(), FRAME_HEADER_LEN);
    assert_eq!(buf[0], FrameKind::Request.code());
    // bytes 2..4 are reserved and must stay zero.
    assert_eq!(&buf[2..4], &[0, 0]);
}

#[test]
fn header_roundtrips_with_all_fields() {
    let h = FrameHeader {
        kind: FrameKind::ResponseHeaders,
        flags: 0b0000_0001,
        request_id: 0xDEAD_BEEF,
        payload_len: 0x0102_0304,
        aux: 404,
    };
    let decoded = FrameHeader::decode(&h.encode()).unwrap();
    assert_eq!(decoded.kind, h.kind);
    assert_eq!(decoded.flags, h.flags);
    assert_eq!(decoded.request_id, h.request_id);
    assert_eq!(decoded.payload_len, h.payload_len);
    assert_eq!(decoded.aux, h.aux);
}

#[test]
fn pong_carries_request_id_and_status() {
    let mut h = FrameHeader::new(FrameKind::Pong, 77, 0);
    h.aux = PONG_BUSY;
    let decoded = FrameHeader::decode(&h.encode()).unwrap();
    assert_eq!(decoded.kind, FrameKind::Pong);
    assert_eq!(decoded.request_id, 77);
    assert_eq!(decoded.aux, PONG_BUSY);
}

#[test]
fn header_uses_little_endian() {
    let h = FrameHeader::new(FrameKind::Request, 0x0403_0201, 0x0807_0605);
    let buf = h.encode();
    assert_eq!(&buf[4..8], &[0x01, 0x02, 0x03, 0x04]);
    assert_eq!(&buf[8..12], &[0x05, 0x06, 0x07, 0x08]);
}

#[test]
fn new_zeroes_flags_and_aux() {
    let h = FrameHeader::new(FrameKind::End, 7, 3);
    assert_eq!(h.flags, 0);
    assert_eq!(h.aux, 0);
    assert_eq!(h.request_id, 7);
    assert_eq!(h.payload_len, 3);
}

#[test]
fn decode_rejects_unknown_kind_byte() {
    let mut buf = FrameHeader::new(FrameKind::Hello, 1, 0).encode();
    buf[0] = 200;
    assert!(matches!(FrameHeader::decode(&buf), Err(BwpError::UnknownKind(200))));
}

#[test]
fn every_byte_from_one_to_seventeen_names_a_kind() {
    for byte in 1..=17u8 {
        assert_eq!(FrameKind::try_from(byte).unwrap().code(), byte);
    }
    assert_eq!(FrameKind::try_from(0), Err(BwpError::UnknownKind(0)));
    assert_eq!(FrameKind::try_from(18), Err(BwpError::UnknownKind(18)));
}

#[test]
fn whole_frame_is_header_and_payload() {
    let mut out = vec![9u8];
    let header = FrameHeader { kind: FrameKind::End, flags: 2, request_id: 3, payload_len: 2, aux: 256 };
    push_frame(&mut out, &header, b"ab");
    assert_eq!(out, [9, 10, 2, 0, 0, 3, 0, 0, 0, 2, 0, 0, 0, 0, 1, 0, 0, b'a', b'b']);
}
