use buran::router::ws::{
    accept_key, encode_close, encode_frame, DecodeError, Decoder, Message, CLOSE_BAD_DATA,
    CLOSE_PROTOCOL_ERROR, CLOSE_TOO_BIG, OP_BINARY, OP_CLOSE, OP_CONTINUATION, OP_PING, OP_PONG,
    OP_TEXT,
};

/// Client-side frame builder: masked, arbitrary fin/opcode.
fn client_frame(fin: bool, opcode: u8, payload: &[u8]) -> Vec<u8> {
    let mut out = Vec::new();
    out.push(if fin { 0x80 } else { 0 } | opcode);
    match payload.len() {
        n if n <= 125 => out.push(0x80 | n as u8),
        n if n <= u16::MAX as usize => {
            out.push(0x80 | 126);
            out.extend_from_slice(&(n as u16).to_be_bytes());
        }
        n => {
            out.push(0x80 | 127);
            out.extend_from_slice(&(n as u64).to_be_bytes());
        }
    }
    let mask = [0x11u8, 0x22, 0x33, 0x44];
    out.extend_from_slice(&mask);
    out.extend(payload.iter().enumerate().map(|(i, b)| b ^ mask[i % 4]));
    out
}

fn decode_all(dec: &mut Decoder, buf: &mut Vec<u8>) -> Vec<Message> {
    let mut out = Vec::new();
    while let Some(msg) = dec.next(buf).unwrap() {
        out.push(msg);
    }
    out
}

#[test]
fn accept_key_matches_rfc_vector() {
    // RFC 6455 section 1.3 handshake example.
    assert_eq!(accept_key(b"dGhlIHNhbXBsZSBub25jZQ=="), "s3pPLMBiTxaQ9kYGzzhZRbK+xOo=");
}

#[test]
fn decodes_text_and_binary() {
    let mut dec = Decoder::new(1024);
    let mut buf = client_frame(true, OP_TEXT, "привет".as_bytes());
    buf.extend(client_frame(true, OP_BINARY, &[0, 159, 146, 150]));
    let msgs = decode_all(&mut dec, &mut buf);
    assert_eq!(
        msgs,
        vec![
            Message::Text("привет".as_bytes().to_vec()),
            Message::Binary(vec![0, 159, 146, 150]),
        ]
    );
    assert!(buf.is_empty(), "all bytes consumed");
}

#[test]
fn decodes_extended_lengths() {
    // 126..=65535 uses the 16-bit form, larger the 64-bit form.
    let mid = vec![7u8; 300];
    let big = vec![9u8; 70_000];
    let mut dec = Decoder::new(1 << 20);
    let mut buf = client_frame(true, OP_BINARY, &mid);
    buf.extend(client_frame(true, OP_BINARY, &big));
    let msgs = decode_all(&mut dec, &mut buf);
    assert_eq!(msgs, vec![Message::Binary(mid), Message::Binary(big)]);
}

#[test]
fn incremental_feeding_needs_more_then_completes() {
    let frame = client_frame(true, OP_TEXT, b"chunked arrival");
    let mut dec = Decoder::new(1024);
    let mut buf = Vec::new();
    // Feed byte by byte: no message until the last byte lands.
    for &b in &frame[..frame.len() - 1] {
        buf.push(b);
        assert!(dec.next(&mut buf).unwrap().is_none());
    }
    buf.push(*frame.last().unwrap());
    assert_eq!(
        dec.next(&mut buf).unwrap(),
        Some(Message::Text(b"chunked arrival".to_vec()))
    );
}

#[test]
fn reassembles_fragments_with_interleaved_ping() {
    let mut dec = Decoder::new(1024);
    let mut buf = client_frame(false, OP_TEXT, b"frag-");
    // Control frames may interleave between fragments (section 5.4).
    buf.extend(client_frame(true, OP_PING, b"marco"));
    buf.extend(client_frame(true, OP_CONTINUATION, b"ment"));
    let msgs = decode_all(&mut dec, &mut buf);
    assert_eq!(
        msgs,
        vec![Message::Ping(b"marco".to_vec()), Message::Text(b"frag-ment".to_vec())]
    );
}

#[test]
fn close_ping_pong_pass_through() {
    let mut dec = Decoder::new(1024);
    let mut buf = client_frame(true, OP_CLOSE, &[0x03, 0xE8]); // 1000
    buf.extend(client_frame(true, OP_PONG, b"polo"));
    let msgs = decode_all(&mut dec, &mut buf);
    assert_eq!(msgs, vec![Message::Close(vec![0x03, 0xE8]), Message::Pong(b"polo".to_vec())]);
}

#[test]
fn rejects_unmasked_client_frame() {
    let mut frame = client_frame(true, OP_TEXT, b"x");
    frame[1] &= 0x7F; // clear the mask bit, key bytes become garbage payload
    let mut dec = Decoder::new(1024);
    assert_eq!(dec.next(&mut frame), Err(DecodeError::Protocol("unmasked client frame")));
}

#[test]
fn rejects_rsv_bits() {
    let mut frame = client_frame(true, OP_TEXT, b"x");
    frame[0] |= 0b0100_0000;
    let mut dec = Decoder::new(1024);
    assert!(matches!(dec.next(&mut frame), Err(DecodeError::Protocol(_))));
}

#[test]
fn rejects_reserved_opcode() {
    let mut frame = client_frame(true, 3, b"x");
    let mut dec = Decoder::new(1024);
    assert!(matches!(dec.next(&mut frame), Err(DecodeError::Protocol(_))));
}

#[test]
fn rejects_broken_fragmentation() {
    // Continuation with nothing started.
    let mut dec = Decoder::new(1024);
    let mut buf = client_frame(true, OP_CONTINUATION, b"lost");
    assert!(matches!(dec.next(&mut buf), Err(DecodeError::Protocol(_))));

    // A fresh data frame in the middle of a fragmented message.
    let mut dec = Decoder::new(1024);
    let mut buf = client_frame(false, OP_TEXT, b"first");
    buf.extend(client_frame(true, OP_TEXT, b"second"));
    assert!(matches!(dec.next(&mut buf), Err(DecodeError::Protocol(_))));

    // Fragmented control frame.
    let mut dec = Decoder::new(1024);
    let mut buf = client_frame(false, OP_PING, b"p");
    assert!(matches!(dec.next(&mut buf), Err(DecodeError::Protocol(_))));
}

#[test]
fn rejects_oversized_control_frame() {
    let mut buf = client_frame(true, OP_PING, &[0u8; 126]);
    let mut dec = Decoder::new(1 << 20);
    assert!(matches!(dec.next(&mut buf), Err(DecodeError::Protocol(_))));
}

#[test]
fn rejects_bad_utf8_text() {
    let mut buf = client_frame(true, OP_TEXT, &[0xFF, 0xFE]);
    let mut dec = Decoder::new(1024);
    assert_eq!(dec.next(&mut buf), Err(DecodeError::BadUtf8));

    // Also when the invalid byte hides in a later fragment.
    let mut dec = Decoder::new(1024);
    let mut buf = client_frame(false, OP_TEXT, b"ok");
    buf.extend(client_frame(true, OP_CONTINUATION, &[0xFF]));
    assert_eq!(decode_err(&mut dec, &mut buf), DecodeError::BadUtf8);
}

#[test]
fn rejects_messages_over_the_limit() {
    // Single frame over the limit is cut before buffering.
    let mut buf = client_frame(true, OP_BINARY, &[0u8; 100]);
    let mut dec = Decoder::new(99);
    assert_eq!(dec.next(&mut buf), Err(DecodeError::TooBig));

    // Fragments individually under the limit, together over it.
    let mut dec = Decoder::new(99);
    let mut buf = client_frame(false, OP_BINARY, &[0u8; 60]);
    buf.extend(client_frame(true, OP_CONTINUATION, &[0u8; 60]));
    assert_eq!(decode_err(&mut dec, &mut buf), DecodeError::TooBig);
}

fn decode_err(dec: &mut Decoder, buf: &mut Vec<u8>) -> DecodeError {
    loop {
        match dec.next(buf) {
            Ok(Some(_)) => continue,
            Ok(None) => panic!("expected an error, ran out of data"),
            Err(e) => return e,
        }
    }
}

#[test]
fn error_close_codes() {
    assert_eq!(DecodeError::Protocol("x").close_code(), CLOSE_PROTOCOL_ERROR);
    assert_eq!(DecodeError::TooBig.close_code(), CLOSE_TOO_BIG);
    assert_eq!(DecodeError::BadUtf8.close_code(), CLOSE_BAD_DATA);
}

#[test]
fn encode_frame_length_forms() {
    let small = encode_frame(OP_TEXT, &[b'a'; 125]);
    assert_eq!(&small[..2], &[0x81, 125]);

    let mid = encode_frame(OP_BINARY, &[0; 126]);
    assert_eq!(&mid[..4], &[0x82, 126, 0, 126]);

    let big = encode_frame(OP_BINARY, &[0; 70_000]);
    assert_eq!(big[0], 0x82);
    assert_eq!(big[1], 127);
    assert_eq!(u64::from_be_bytes(big[2..10].try_into().unwrap()), 70_000);
}

#[test]
fn encode_close_carries_code_and_reason() {
    let frame = encode_close(1001, "bye");
    assert_eq!(frame[0], 0x80 | OP_CLOSE);
    assert_eq!(frame[1], 5); // 2 code bytes + 3 reason bytes, unmasked
    assert_eq!(&frame[2..4], &1001u16.to_be_bytes());
    assert_eq!(&frame[4..], b"bye");
}

#[test]
fn server_frames_roundtrip_through_client_decoder_rules() {
    // encode_frame output is a valid frame except for masking, which
    // the decoder demands from clients — sanity-check the layout by
    // re-masking it manually.
    let encoded = encode_frame(OP_TEXT, b"loop");
    assert_eq!(encoded[0], 0x81);
    assert_eq!(encoded[1], 4);
    assert_eq!(&encoded[2..], b"loop");
}

#[test]
fn what_a_client_sends_is_decoded_to_itself() {
    for n in [0usize, 1, 125, 126, 65_535, 65_536] {
        let payload: Vec<u8> = (0..n).map(|i| i as u8).collect();
        let mut dec = Decoder::new(1 << 20);
        let mut buf = client_frame(true, OP_BINARY, &payload);
        assert_eq!(decode_all(&mut dec, &mut buf), vec![Message::Binary(payload)]);
    }
}

fn mixed_stream() -> (Vec<u8>, Vec<Message>) {
    let mut wire = client_frame(true, OP_PING, b"1");
    wire.extend(client_frame(false, OP_TEXT, b"he"));
    wire.extend(client_frame(true, OP_PONG, b""));
    wire.extend(client_frame(false, OP_CONTINUATION, b""));
    wire.extend(client_frame(true, OP_PING, b"2"));
    wire.extend(client_frame(true, OP_CONTINUATION, b"llo"));
    wire.extend(client_frame(true, OP_BINARY, &[7; 200]));
    let want = vec![
        Message::Ping(b"1".to_vec()),
        Message::Pong(vec![]),
        Message::Ping(b"2".to_vec()),
        Message::Text(b"hello".to_vec()),
        Message::Binary(vec![7; 200]),
    ];
    (wire, want)
}

#[test]
fn a_stream_is_read_as_sent() {
    let (mut wire, want) = mixed_stream();
    let mut dec = Decoder::new(1024);
    assert_eq!(decode_all(&mut dec, &mut wire), want);
    assert!(wire.is_empty());
}

#[test]
fn pieces_of_a_stream_do_not_matter() {
    for size in [1, 2, 3, 7, 64] {
        let (wire, want) = mixed_stream();
        let mut dec = Decoder::new(1024);
        let mut buf = Vec::new();
        let mut got = Vec::new();
        for piece in wire.chunks(size) {
            buf.extend_from_slice(piece);
            got.extend(decode_all(&mut dec, &mut buf));
            // Nothing new has come: nothing changes.
            let waiting = buf.clone();
            assert_eq!(dec.next(&mut buf), Ok(None));
            assert_eq!(buf, waiting);
        }
        assert_eq!(got, want);
        assert!(buf.is_empty());
    }
}

#[test]
fn a_message_over_the_limit_is_too_big_however_it_is_cut() {
    let (mut wire, want) = mixed_stream();
    let mut dec = Decoder::new(199);
    for m in &want[..4] {
        assert_eq!(dec.next(&mut wire).unwrap().as_ref(), Some(m));
    }
    assert_eq!(dec.next(&mut wire), Err(DecodeError::TooBig));

    let (mut wire, want) = mixed_stream();
    let mut dec = Decoder::new(4);
    for m in &want[..3] {
        assert_eq!(dec.next(&mut wire).unwrap().as_ref(), Some(m));
    }
    assert_eq!(dec.next(&mut wire), Err(DecodeError::TooBig));
}
