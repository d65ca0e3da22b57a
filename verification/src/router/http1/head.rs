//! Bytes of responses.

use vstd::prelude::*;
use vstd::string::*;
use vstd::utf8::encode_utf8;

use crate::bytes::{dec, eq_ignore_case, lowered, push_bytes, push_dec, push_str, text};
use crate::router::routes::{op_views, opt_str};

verus! {

/// The server token with the version.
pub const SERVER_FULL: &'static str = "buran/0.1.0";

/// The server token without it.
pub const SERVER_BARE: &'static str = "buran";

/// The value of the `server` header.
pub fn server_header(with_version: bool) -> (r: &'static str)
    ensures
        r@ == if with_version {
            SERVER_FULL@
        } else {
            SERVER_BARE@
        },
{
    if with_version {
        SERVER_FULL
    } else {
        SERVER_BARE
    }
}

/// The phrase of a status code; codes without one have the empty phrase.
pub open spec fn phrase(status: u16) -> Seq<char> {
    match status {
        101 => "Switching Protocols"@,
        200 => "OK"@,
        301 => "Moved Permanently"@,
        302 => "Found"@,
        304 => "Not Modified"@,
        400 => "Bad Request"@,
        403 => "Forbidden"@,
        404 => "Not Found"@,
        408 => "Request Timeout"@,
        411 => "Length Required"@,
        413 => "Content Too Large"@,
        431 => "Request Header Fields Too Large"@,
        500 => "Internal Server Error"@,
        502 => "Bad Gateway"@,
        503 => "Service Unavailable"@,
        _ => ""@,
    }
}

pub fn reason_phrase(status: u16) -> (r: &'static str)
    ensures
        r@ == phrase(status),
{
    match status {
        101 => "Switching Protocols",
        200 => "OK",
        301 => "Moved Permanently",
        302 => "Found",
        304 => "Not Modified",
        400 => "Bad Request",
        403 => "Forbidden",
        404 => "Not Found",
        408 => "Request Timeout",
        411 => "Length Required",
        413 => "Content Too Large",
        431 => "Request Header Fields Too Large",
        500 => "Internal Server Error",
        502 => "Bad Gateway",
        503 => "Service Unavailable",
        _ => "",
    }
}

/// A header operation: the name with the value to set, or without one to
/// remove the header.
pub type Ops<'a> = [(&'a str, Option<&'a str>)];

/// `HTTP/1.1 200 OK` with its line end.
pub open spec fn phrased_line(status: u16, reason: Seq<u8>) -> Seq<u8> {
    text("HTTP/1.1 ") + dec(status as nat) + text(" ") + reason + text("\r\n")
}

/// The same with the phrase of the code.
pub open spec fn status_line(status: u16) -> Seq<u8> {
    phrased_line(status, encode_utf8(phrase(status)))
}

pub open spec fn header_line(name: Seq<u8>, value: Seq<u8>) -> Seq<u8> {
    name + text(": ") + value + text("\r\n")
}

/// Whether an operation names a header; the case of letters does not count.
pub open spec fn named_by(ops: Seq<(Seq<char>, Option<Seq<char>>)>, name: Seq<u8>) -> bool {
    exists|i: int|
        0 <= i < ops.len() && lowered(encode_utf8((#[trigger] ops[i]).0)) == lowered(name)
}

/// A header that an operation may replace or remove.
pub open spec fn own_line(
    name: Seq<u8>,
    value: Seq<u8>,
    ops: Seq<(Seq<char>, Option<Seq<char>>)>,
) -> Seq<u8> {
    if named_by(ops, name) {
        seq![]
    } else {
        header_line(name, value)
    }
}

/// The headers that the operations set, in order.
pub open spec fn set_lines(ops: Seq<(Seq<char>, Option<Seq<char>>)>) -> Seq<u8>
    decreases ops.len(),
{
    if ops.len() == 0 {
        seq![]
    } else {
        let before = set_lines(ops.drop_last());
        match ops.last().1 {
            Some(v) => before + header_line(encode_utf8(ops.last().0), encode_utf8(v)),
            None => before,
        }
    }
}

/// `connection: close` unless the connection is kept.
pub open spec fn close_line(keep_alive: bool) -> Seq<u8> {
    if keep_alive {
        seq![]
    } else {
        text("connection: close\r\n")
    }
}

pub fn push_phrased_line(out: &mut Vec<u8>, status: u16, reason: &str)
    ensures
        final(out)@ == old(out)@ + phrased_line(status, text(reason)),
{
    push_str(out, "HTTP/1.1 ");
    push_dec(out, status as u64);
    push_str(out, " ");
    push_str(out, reason);
    push_str(out, "\r\n");
    assert(out@ =~= old(out)@ + phrased_line(status, text(reason)));
}

pub fn push_status_line(out: &mut Vec<u8>, status: u16)
    ensures
        final(out)@ == old(out)@ + status_line(status),
{
    push_phrased_line(out, status, reason_phrase(status));
}

pub fn push_header(out: &mut Vec<u8>, name: &[u8], value: &[u8])
    ensures
        final(out)@ == old(out)@ + header_line(name@, value@),
{
    push_bytes(out, name);
    push_str(out, ": ");
    push_bytes(out, value);
    push_str(out, "\r\n");
    assert(out@ =~= old(out)@ + header_line(name@, value@));
}

/// Whether an operation names a header.
pub fn is_named(ops: &Ops<'_>, name: &[u8]) -> (r: bool)
    ensures
        r == named_by(op_views(ops@), name@),
{
    let ghost views = op_views(ops@);
    let mut i: usize = 0;
    while i < ops.len()
        invariant
            i <= ops@.len(),
            views == op_views(ops@),
            forall|j: int|
                0 <= j < i ==> lowered(encode_utf8((#[trigger] views[j]).0)) != lowered(name@),
        decreases ops@.len() - i,
    {
        assert(views[i as int].0 == ops@[i as int].0@);
        if eq_ignore_case(ops[i].0.as_bytes(), name) {
            return true;
        }
        i += 1;
    }
    false
}

pub fn push_own(out: &mut Vec<u8>, name: &[u8], value: &[u8], ops: &Ops<'_>)
    ensures
        final(out)@ == old(out)@ + own_line(name@, value@, op_views(ops@)),
{
    if !is_named(ops, name) {
        push_header(out, name, value);
    } else {
        assert(out@ =~= old(out)@ + own_line(name@, value@, op_views(ops@)));
    }
}

pub fn push_set(out: &mut Vec<u8>, ops: &Ops<'_>)
    ensures
        final(out)@ == old(out)@ + set_lines(op_views(ops@)),
{
    let ghost views = op_views(ops@);
    let ghost was = out@;
    let mut i: usize = 0;
    assert(out@ =~= was + set_lines(views.take(0)));
    while i < ops.len()
        invariant
            i <= ops@.len(),
            views == op_views(ops@),
            out@ == was + set_lines(views.take(i as int)),
        decreases ops@.len() - i,
    {
        proof {
            assert(views.take(i + 1).drop_last() =~= views.take(i as int));
            assert(views.take(i + 1).last() == views[i as int]);
            assert(views[i as int] == (ops@[i as int].0@, opt_str(ops@[i as int].1)));
        }
        let ghost before = out@;
        if let Some(v) = ops[i].1 {
            push_header(out, ops[i].0.as_bytes(), v.as_bytes());
        }
        assert(out@ =~= was + set_lines(views.take(i + 1)));
        i += 1;
    }
    assert(views.take(i as int) =~= views);
}

pub fn push_close(out: &mut Vec<u8>, keep_alive: bool)
    ensures
        final(out)@ == old(out)@ + close_line(keep_alive),
{
    if !keep_alive {
        push_str(out, "connection: close\r\n");
    } else {
        assert(out@ =~= old(out)@ + close_line(keep_alive));
    }
}

/// The bytes of a response without a body.
pub open spec fn return_bytes(
    server: Seq<u8>,
    status: u16,
    location: Option<Seq<u8>>,
    ops: Seq<(Seq<char>, Option<Seq<char>>)>,
    keep_alive: bool,
) -> Seq<u8> {
    status_line(status) + own_line(text("server"), server, ops) + text("content-length: 0\r\n")
        + match location {
        Some(l) => own_line(text("location"), l, ops),
        None => seq![],
    } + set_lines(ops) + close_line(keep_alive) + text("\r\n")
}

/// The location as bytes.
pub open spec fn opt_bytes(l: Option<&[u8]>) -> Option<Seq<u8>> {
    match l {
        Some(b) => Some(b@),
        None => None,
    }
}

/// Write a response without a body, with a redirect target where one is given.
pub fn write_return(
    out: &mut Vec<u8>,
    server: &str,
    status: u16,
    location: Option<&[u8]>,
    ops: &Ops<'_>,
    keep_alive: bool,
)
    ensures
        final(out)@ == old(out)@ + return_bytes(
            text(server),
            status,
            opt_bytes(location),
            op_views(ops@),
            keep_alive,
        ),
{
    let mut head: Vec<u8> = Vec::new();
    push_status_line(&mut head, status);
    assert(head@ =~= status_line(status));
    push_own(&mut head, "server".as_bytes(), server.as_bytes(), ops);
    push_str(&mut head, "content-length: 0\r\n");
    let ghost before = head@;
    if let Some(l) = location {
        push_own(&mut head, "location".as_bytes(), l, ops);
    }
    assert(head@ =~= before + match location {
        Some(l) => own_line(text("location"), l@, op_views(ops@)),
        None => seq![],
    });
    push_set(&mut head, ops);
    push_close(&mut head, keep_alive);
    push_str(&mut head, "\r\n");
    push_bytes(out, head.as_slice());
}

/// The bytes of a response with a body of known length.
pub open spec fn response_bytes(
    server: Seq<u8>,
    status: u16,
    content_type: Seq<u8>,
    body: Seq<u8>,
    ops: Seq<(Seq<char>, Option<Seq<char>>)>,
    keep_alive: bool,
) -> Seq<u8> {
    status_line(status) + own_line(text("server"), server, ops) + own_line(
        text("content-type"),
        content_type,
        ops,
    ) + header_line(text("content-length"), dec(body.len())) + set_lines(ops) + close_line(
        keep_alive,
    ) + text("\r\n") + body
}

pub fn write_response(
    out: &mut Vec<u8>,
    server: &str,
    status: u16,
    content_type: &str,
    body: &[u8],
    ops: &Ops<'_>,
    keep_alive: bool,
)
    ensures
        final(out)@ == old(out)@ + response_bytes(
            text(server),
            status,
            text(content_type),
            body@,
            op_views(ops@),
            keep_alive,
        ),
{
    let mut all: Vec<u8> = Vec::new();
    push_status_line(&mut all, status);
    assert(all@ =~= status_line(status));
    push_own(&mut all, "server".as_bytes(), server.as_bytes(), ops);
    push_own(&mut all, "content-type".as_bytes(), content_type.as_bytes(), ops);
    push_length(&mut all, body.len() as u64);
    push_set(&mut all, ops);
    push_close(&mut all, keep_alive);
    push_str(&mut all, "\r\n");
    push_bytes(&mut all, body);
    push_bytes(out, all.as_slice());
}

pub fn push_length(out: &mut Vec<u8>, n: u64)
    ensures
        final(out)@ == old(out)@ + header_line(text("content-length"), dec(n as nat)),
{
    push_str(out, "content-length");
    push_str(out, ": ");
    push_dec(out, n);
    push_str(out, "\r\n");
    assert(out@ =~= old(out)@ + header_line(text("content-length"), dec(n as nat)));
}

/// The bytes of a plain answer that says its own status.
pub open spec fn simple_bytes(
    server: Seq<u8>,
    status: u16,
    reason: Seq<u8>,
    keep_alive: bool,
) -> Seq<u8> {
    response_bytes(
        server,
        status,
        text("text/plain"),
        dec(status as nat) + text(" ") + reason + text("\n"),
        seq![],
        keep_alive,
    )
}

pub fn write_simple(out: &mut Vec<u8>, server: &str, status: u16, reason: &str, keep_alive: bool)
    ensures
        final(out)@ == old(out)@ + simple_bytes(text(server), status, text(reason), keep_alive),
{
    let mut body: Vec<u8> = Vec::new();
    push_dec(&mut body, status as u64);
    push_str(&mut body, " ");
    push_str(&mut body, reason);
    push_str(&mut body, "\n");
    assert(body@ =~= dec(status as nat) + text(" ") + text(reason) + text("\n"));
    let none: Vec<(&str, Option<&str>)> = Vec::new();
    assert(op_views(none@) =~= Seq::<(Seq<char>, Option<Seq<char>>)>::empty());
    write_response(out, server, status, "text/plain", body.as_slice(), none.as_slice(), keep_alive);
}

pub open spec fn hex_byte(n: int) -> u8 {
    if n < 10 {
        (48 + n) as u8
    } else {
        (87 + n) as u8
    }
}

/// Lower-case hexadecimal digits of a number.
pub open spec fn hex_text(n: nat) -> Seq<u8>
    decreases n,
{
    if n < 16 {
        seq![hex_byte(n as int)]
    } else {
        hex_text(n / 16).push(hex_byte((n % 16) as int))
    }
}

pub fn push_hex(out: &mut Vec<u8>, n: u64)
    ensures
        final(out)@ == old(out)@ + hex_text(n as nat),
    decreases n,
{
    let last: u8 = (n % 16) as u8;
    let digit: u8 = if last < 10 {
        48 + last
    } else {
        87 + last
    };
    if n >= 16 {
        push_hex(out, n / 16);
    }
    out.push(digit);
    assert(out@ =~= old(out)@ + hex_text(n as nat));
}

/// One chunk of a chunked body; no data makes no chunk.
pub open spec fn chunk_bytes(data: Seq<u8>) -> Seq<u8> {
    if data.len() == 0 {
        seq![]
    } else {
        hex_text(data.len()) + text("\r\n") + data + text("\r\n")
    }
}

pub fn write_chunk(out: &mut Vec<u8>, data: &[u8])
    ensures
        final(out)@ == old(out)@ + chunk_bytes(data@),
{
    if data.len() > 0 {
        push_hex(out, data.len() as u64);
        push_str(out, "\r\n");
        push_bytes(out, data);
        push_str(out, "\r\n");
    }
    assert(out@ =~= old(out)@ + chunk_bytes(data@));
}

} // verus!
