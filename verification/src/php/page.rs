//! What answers a request that no script serves.

use vstd::prelude::*;
use vstd::string::*;

use crate::bytes::{dec, push_bytes, push_dec, push_str, text};
use crate::ipc::request::entry;
use crate::ipc::{BwpError, RequestView};
use crate::text::{push_relayed, relayed};

verus! {

/// The reason phrase on the page.
pub open spec fn reason_of(status: u16) -> Seq<u8> {
    match status {
        301 => text("Moved Permanently"),
        403 => text("Forbidden"),
        404 => text("Not Found"),
        _ => text("Error"),
    }
}

fn push_reason(out: &mut Vec<u8>, status: u16)
    ensures
        final(out)@ == old(out)@ + reason_of(status),
{
    match status {
        301 => push_str(out, "Moved Permanently"),
        403 => push_str(out, "Forbidden"),
        404 => push_str(out, "Not Found"),
        _ => push_str(out, "Error"),
    }
}

/// The page for a status.
pub open spec fn page_text(status: u16) -> Seq<u8> {
    text("<html>\n<head><title>") + dec(status as nat) + text(" ") + reason_of(status) + text(
        "</title></head>\n<body><h1>",
    ) + dec(status as nat) + text(" ") + reason_of(status) + text("</h1></body>\n</html>\n")
}

/// The page for a status.
pub fn page(status: u16) -> (r: Vec<u8>)
    ensures
        r@ == page_text(status),
{
    let mut out: Vec<u8> = Vec::new();
    push_str(&mut out, "<html>\n<head><title>");
    assert(out@ =~= text("<html>\n<head><title>"));
    push_dec(&mut out, status as u64);
    push_str(&mut out, " ");
    push_reason(&mut out, status);
    push_str(&mut out, "</title></head>\n<body><h1>");
    push_dec(&mut out, status as u64);
    push_str(&mut out, " ");
    push_reason(&mut out, status);
    push_str(&mut out, "</h1></body>\n</html>\n");
    out
}

/// Where a directory without its trailing slash redirects to: the same path
/// with the slash, under the host that was asked.
pub open spec fn location_text(host: Seq<u8>, path: Seq<u8>, query: Seq<u8>) -> Seq<u8> {
    let h = relayed(host);
    let q = relayed(query);
    let base = if h.len() == 0 {
        seq![]
    } else {
        text("http://") + h
    };
    let tail = if q.len() == 0 {
        seq![]
    } else {
        text("?") + q
    };
    base + relayed(path) + text("/") + tail
}

fn location(host: &[u8], path: &[u8], query: &[u8]) -> (r: Vec<u8>)
    ensures
        r@ == location_text(host@, path@, query@),
{
    let mut h: Vec<u8> = Vec::new();
    push_relayed(&mut h, host);
    assert(h@ =~= relayed(host@));
    let mut q: Vec<u8> = Vec::new();
    push_relayed(&mut q, query);
    assert(q@ =~= relayed(query@));
    let mut out: Vec<u8> = Vec::new();
    if h.len() > 0 {
        push_str(&mut out, "http://");
        push_bytes(&mut out, h.as_slice());
        assert(out@ =~= text("http://") + h@);
    }
    push_relayed(&mut out, path);
    push_str(&mut out, "/");
    let ghost so_far = out@;
    if q.len() > 0 {
        push_str(&mut out, "?");
        push_bytes(&mut out, q.as_slice());
        assert(out@ =~= so_far + (text("?") + q@));
    }
    assert(out@ =~= location_text(host@, path@, query@));
    out
}

/// The header block that goes with the page: an error where it needs what
/// cannot be read from the request.
pub open spec fn page_head(p: Seq<u8>, path: Seq<u8>, status: u16) -> Result<Seq<u8>, BwpError> {
    if status != 301 {
        Ok(text("content-type: text/html\r\n"))
    } else {
        match entry(p, 52) {
            Err(e) => Err(e),
            Ok(host) => match entry(p, 28) {
                Err(e) => Err(e),
                Ok(query) => Ok(
                    text("content-type: text/html\r\n") + text("location: ") + location_text(
                        host,
                        path,
                        query,
                    ) + text("\r\n"),
                ),
            },
        }
    }
}

/// The header block that goes with the page for a status.
pub fn page_headers(req: &RequestView<'_>, path: &[u8], status: u16) -> (r: Result<Vec<u8>, BwpError>)
    ensures
        match page_head(req.payload(), path@, status) {
            Ok(h) => r matches Ok(v) && v@ == h,
            Err(e) => r matches Err(x) && x == e,
        },
{
    let mut out: Vec<u8> = Vec::new();
    push_str(&mut out, "content-type: text/html\r\n");
    assert(out@ =~= text("content-type: text/html\r\n"));
    if status == 301 {
        let host = match req.server_name() {
            Ok(h) => h,
            Err(e) => {
                return Err(e);
            },
        };
        let query = match req.query() {
            Ok(q) => q,
            Err(e) => {
                return Err(e);
            },
        };
        let to = location(host, path, query);
        push_str(&mut out, "location: ");
        push_bytes(&mut out, to.as_slice());
        push_str(&mut out, "\r\n");
    }
    Ok(out)
}

} // verus!
