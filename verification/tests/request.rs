use buran::ipc::request::TABLE_FIXED;
use buran::ipc::{BwpError, RequestBuilder, RequestView};

fn sample() -> Vec<u8> {
    RequestBuilder::new()
        .method(b"POST")
        .path(b"/index.php")
        .target(b"/index.php?x=1")
        .query(b"x=1")
        .version(b"HTTP/1.1")
        .remote_addr(b"10.0.0.7")
        .server_name(b"example.test")
        .server_port(8080)
        .content_length(11)
        .field(b"host", b"example.test")
        .field(b"accept", b"*/*")
        .preread_body(b"hello world")
        .finish()
}

#[test]
fn builder_view_roundtrip() {
    let payload = sample();
    let view = RequestView::parse(&payload).unwrap();

    assert_eq!(view.method().unwrap(), b"POST");
    assert_eq!(view.path().unwrap(), b"/index.php");
    assert_eq!(view.target().unwrap(), b"/index.php?x=1");
    assert_eq!(view.query().unwrap(), b"x=1");
    assert_eq!(view.version().unwrap(), b"HTTP/1.1");
    assert_eq!(view.remote_addr().unwrap(), b"10.0.0.7");
    assert_eq!(view.server_name().unwrap(), b"example.test");
    assert_eq!(view.server_port(), 8080);
    assert_eq!(view.content_length(), 11);
    assert_eq!(view.preread_body().unwrap(), b"hello world");
}

#[test]
fn fields_preserve_order_and_values() {
    let payload = sample();
    let view = RequestView::parse(&payload).unwrap();
    assert_eq!(view.fields_count(), 2);

    let fields: Vec<_> =
        view.fields().into_iter().map(|f| f.unwrap()).map(|f| (f.name.to_vec(), f.value.to_vec())).collect();
    assert_eq!(fields[0], (b"host".to_vec(), b"example.test".to_vec()));
    assert_eq!(fields[1], (b"accept".to_vec(), b"*/*".to_vec()));
}

#[test]
fn empty_request_roundtrips() {
    let payload = RequestBuilder::new().finish();
    let view = RequestView::parse(&payload).unwrap();
    assert_eq!(view.fields_count(), 0);
    assert_eq!(view.method().unwrap(), b"");
    assert_eq!(view.preread_body().unwrap(), b"");
    assert_eq!(view.content_length(), 0);
    assert_eq!(view.server_port(), 0);
}

#[test]
fn parse_rejects_short_payload() {
    // Anything below the fixed table header is truncated.
    assert!(matches!(
        RequestView::parse(&[0u8; TABLE_FIXED - 1]),
        Err(BwpError::Truncated { expected: TABLE_FIXED, .. })
    ));
}

#[test]
fn parse_rejects_impossible_blob_offset() {
    let mut payload = sample();
    // Corrupt blob_off to point before the table end.
    payload[0..4].copy_from_slice(&0u32.to_le_bytes());
    assert!(matches!(RequestView::parse(&payload), Err(BwpError::Truncated { .. })));
}

#[test]
fn slice_out_of_bounds_is_reported() {
    let mut payload = sample();
    // Blow up the method length field (table pos 8) past the blob.
    let bad_len = (payload.len() as u32).to_le_bytes();
    payload[8..12].copy_from_slice(&bad_len);
    assert!(matches!(
        RequestView::parse(&payload).unwrap().method(),
        Err(BwpError::OutOfBounds { .. })
    ));
}

#[test]
fn default_builder_matches_new() {
    let a = RequestBuilder::default().method(b"GET").finish();
    let b = RequestBuilder::new().method(b"GET").finish();
    assert_eq!(a, b);
}

#[test]
fn whatever_was_told_is_read() {
    let payload = RequestBuilder::new()
        .field(b"a", b"1")
        .method(b"GET")
        .field(b"", b"")
        .preread_body(b"early")
        .field(b"a", b"2")
        .method(b"PUT")
        .server_port(1)
        .field(b"a", b"1")
        .server_port(2)
        .preread_body(b"late")
        .path(b"")
        .finish();
    let view = RequestView::parse(&payload).unwrap();
    assert_eq!(view.method().unwrap(), b"PUT");
    assert_eq!(view.server_port(), 2);
    assert_eq!(view.preread_body().unwrap(), b"late");
    assert_eq!(view.path().unwrap(), b"");
    assert_eq!(view.target().unwrap(), b"");
    let want: [(&[u8], &[u8]); 4] = [(b"a", b"1"), (b"", b""), (b"a", b"2"), (b"a", b"1")];
    assert_eq!(view.fields_count(), want.len());
    let all = view.fields();
    assert_eq!(all.len(), want.len());
    for (k, (name, value)) in want.iter().enumerate() {
        let f = view.field(k).unwrap();
        assert_eq!((f.name, f.value), (*name, *value));
        let g = all[k].as_ref().unwrap();
        assert_eq!((g.name, g.value), (*name, *value));
    }
}
