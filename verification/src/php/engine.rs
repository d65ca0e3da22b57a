//! How the engine is started, and called for a request.

use vstd::prelude::*;
use vstd::string::*;
use vstd::utf8::encode_utf8;

use crate::bytes::{find_byte, is_text, text, to_vec, u32_at};
use crate::config::table::Table;
use crate::ipc::request::entry;
use crate::ipc::{BwpError, RequestView};
use crate::php::AppConfig;
use crate::worker::WorkerError;

verus! {

/// One directive per line.
pub open spec fn directives(entries: Seq<(String, String)>) -> Seq<char>
    decreases entries.len(),
{
    if entries.len() == 0 {
        seq![]
    } else {
        directives(entries.drop_last()) + entries.last().0@ + "="@ + entries.last().1@ + "\n"@
    }
}

fn append_directives(out: &mut String, t: &Table<String>)
    ensures
        final(out)@ == old(out)@ + directives(t.entries()),
{
    let ghost all = t.entries();
    let ghost was = out@;
    let mut i: usize = 0;
    assert(was + directives(all.take(0)) =~= was);
    while i < t.len()
        invariant
            i <= all.len(),
            all == t.entries(),
            out@ == was + directives(all.take(i as int)),
        decreases all.len() - i,
    {
        proof {
            assert(all.take(i + 1).drop_last() =~= all.take(i as int));
            assert(all.take(i + 1).last() == all[i as int]);
        }
        out.append(t.name(i).as_str());
        out.append("=");
        out.append(t.value(i).as_str());
        out.append("\n");
        assert(out@ =~= was + directives(all.take(i + 1)));
        i += 1;
    }
    assert(all.take(i as int) =~= all);
}

/// The directives that the engine starts with: those of the system, then those
/// that scripts may override. `None` where there are none; an error where one
/// holds a zero byte.
pub fn ini_entries(app: &AppConfig) -> (r: Result<Option<String>, WorkerError>)
    ensures
        ({
            let all = directives(app.admin.entries()) + directives(app.user.entries());
            if all.len() == 0 {
                r == Ok::<Option<String>, WorkerError>(None)
            } else if encode_utf8(all).contains(0) {
                r == Err::<Option<String>, WorkerError>(WorkerError::Closed)
            } else {
                r matches Ok(Some(s)) && s@ == all
            }
        }),
{
    let mut out = String::new();
    append_directives(&mut out, &app.admin);
    append_directives(&mut out, &app.user);
    let ghost all = directives(app.admin.entries()) + directives(app.user.entries());
    assert(out@ =~= all);
    let bytes = out.as_str().as_bytes();
    if bytes.len() == 0 {
        proof {
            vstd::utf8::encode_utf8_decode_utf8(all);
            vstd::utf8::encode_utf8_decode_utf8(seq![]);
            vstd::utf8::is_ascii_chars_encode_utf8(Seq::<char>::empty());
            assert(encode_utf8(Seq::<char>::empty()) =~= encode_utf8(all));
        }
        return Ok(None);
    }
    proof {
        vstd::utf8::is_ascii_chars_encode_utf8(Seq::<char>::empty());
        if all.len() == 0 {
            assert(all =~= Seq::<char>::empty());
        }
    }
    if find_byte(0, bytes).is_some() {
        return Err(WorkerError::Closed);
    }
    Ok(Some(out))
}

/// Bytes that can be handed to the engine: those without a zero byte.
pub open spec fn c_text(b: Seq<u8>) -> Option<Seq<u8>> {
    if b.contains(0) {
        None
    } else {
        Some(b)
    }
}

fn c_bytes(b: &[u8]) -> (r: Option<Vec<u8>>)
    ensures
        opt_view(r) == c_text(b@),
{
    match find_byte(0, b) {
        Some(_) => None,
        None => Some(to_vec(b)),
    }
}

pub open spec fn opt_view(v: Option<Vec<u8>>) -> Option<Seq<u8>> {
    match v {
        Some(v) => Some(v@),
        None => None,
    }
}

/// What the last of the first `n` headers of a name holds; nothing where that
/// one holds a zero byte.
pub open spec fn last_header(p: Seq<u8>, name: Seq<u8>, n: int) -> Option<Seq<u8>>
    decreases n,
{
    if n <= 0 {
        None
    } else if entry(p, 80 + 16 * (n - 1)) == Ok::<Seq<u8>, BwpError>(name) {
        match entry(p, 80 + 16 * (n - 1) + 8) {
            Ok(v) => c_text(v),
            Err(_) => None,
        }
    } else {
        last_header(p, name, n - 1)
    }
}

/// The error of the first of the first `n` headers that cannot be read.
pub open spec fn bad_header(p: Seq<u8>, n: int) -> Option<BwpError>
    decreases n,
{
    if n <= 0 {
        None
    } else {
        match bad_header(p, n - 1) {
            Some(e) => Some(e),
            None => match entry(p, 80 + 16 * (n - 1)) {
                Err(e) => Some(e),
                Ok(_) => match entry(p, 80 + 16 * (n - 1) + 8) {
                    Err(e) => Some(e),
                    Ok(_) => None,
                },
            },
        }
    }
}

/// What the engine is called with.
#[derive(Debug, PartialEq, Eq)]
pub struct EngineCall {
    pub method: Vec<u8>,
    pub uri: Vec<u8>,
    pub query: Option<Vec<u8>>,
    pub content_type: Option<Vec<u8>>,
    pub cookies: Option<Vec<u8>>,
    pub auth: Option<Vec<u8>>,
}

/// Bytes without a zero byte, or nothing.
pub open spec fn or_empty(b: Option<Seq<u8>>) -> Seq<u8> {
    match b {
        Some(b) => b,
        None => seq![],
    }
}

/// What the engine is called with for a request.
pub open spec fn is_call(r: Result<EngineCall, BwpError>, p: Seq<u8>) -> bool {
    match entry(p, 4) {
        Err(e) => r matches Err(x) && x == e,
        Ok(method) => match entry(p, 20) {
            Err(e) => r matches Err(x) && x == e,
            Ok(uri) => match entry(p, 28) {
                Err(e) => r matches Err(x) && x == e,
                Ok(query) => match bad_header(p, u32_at(p, 76) as int) {
                    Some(e) => r matches Err(x) && x == e,
                    None => r matches Ok(c) && is_call_of(c, method, uri, query, p),
                },
            },
        },
    }
}

pub open spec fn is_call_of(
    c: EngineCall,
    method: Seq<u8>,
    uri: Seq<u8>,
    query: Seq<u8>,
    p: Seq<u8>,
) -> bool {
    let n = u32_at(p, 76) as int;
    &&& c.method@ == or_empty(c_text(method))
    &&& c.uri@ == or_empty(c_text(uri))
    &&& opt_view(c.query) == if query.len() == 0 {
        None
    } else {
        c_text(query)
    }
    &&& opt_view(c.content_type) == last_header(p, text("content-type"), n)
    &&& opt_view(c.cookies) == last_header(p, text("cookie"), n)
    &&& opt_view(c.auth) == last_header(p, text("authorization"), n)
}

/// The bytes, or none where they hold a zero byte.
fn plain(b: &[u8]) -> (r: Vec<u8>)
    ensures
        r@ == or_empty(c_text(b@)),
{
    match c_bytes(b) {
        Some(v) => v,
        None => {
            let none: Vec<u8> = Vec::new();
            assert(none@ =~= seq![]);
            none
        },
    }
}

proof fn lemma_names()
    ensures
        text("content-type") != text("cookie"),
        text("content-type") != text("authorization"),
        text("cookie") != text("authorization"),
{
    reveal_strlit("content-type");
    reveal_strlit("cookie");
    reveal_strlit("authorization");
    vstd::utf8::is_ascii_chars_encode_utf8("content-type"@);
    vstd::utf8::is_ascii_chars_encode_utf8("cookie"@);
    vstd::utf8::is_ascii_chars_encode_utf8("authorization"@);
    assert(text("content-type").len() == 12);
    assert(text("cookie").len() == 6);
    assert(text("authorization").len() == 13);
}

/// What the headers that the engine reads itself hold.
struct Named {
    content_type: Option<Vec<u8>>,
    cookies: Option<Vec<u8>>,
    auth: Option<Vec<u8>>,
}

impl Named {
    spec fn of(self, p: Seq<u8>, n: int) -> bool {
        &&& opt_view(self.content_type) == last_header(p, text("content-type"), n)
        &&& opt_view(self.cookies) == last_header(p, text("cookie"), n)
        &&& opt_view(self.auth) == last_header(p, text("authorization"), n)
    }
}

fn named_headers(req: &RequestView<'_>) -> (r: Result<Named, BwpError>)
    ensures
        match bad_header(req.payload(), u32_at(req.payload(), 76) as int) {
            Some(e) => r matches Err(x) && x == e,
            None => r matches Ok(n) && n.of(req.payload(), u32_at(req.payload(), 76) as int),
        },
{
    let ghost p = req.payload();
    let count: usize = req.fields_count();
    let mut named = Named { content_type: None, cookies: None, auth: None };
    let mut i: usize = 0;
    while i < count
        invariant
            i <= count,
            p == req.payload(),
            count == u32_at(p, 76),
            bad_header(p, i as int) is None,
            named.of(p, i as int),
        decreases count - i,
    {
        match req.field(i) {
            Err(e) => {
                proof {
                    lemma_bad_header(p, i + 1, count as int);
                }
                return Err(e);
            },
            Ok(f) => {
                proof {
                    lemma_names();
                }
                if is_text(f.name, "content-type") {
                    named.content_type = c_bytes(f.value);
                } else if is_text(f.name, "cookie") {
                    named.cookies = c_bytes(f.value);
                } else if is_text(f.name, "authorization") {
                    named.auth = c_bytes(f.value);
                }
            },
        }
        i += 1;
    }
    Ok(named)
}

/// What the engine is called with for a request.
pub fn engine_call(req: &RequestView<'_>) -> (r: Result<EngineCall, BwpError>)
    ensures
        is_call(r, req.payload()),
{
    let method = match req.method() {
        Ok(m) => m,
        Err(e) => {
            return Err(e);
        },
    };
    let uri = match req.target() {
        Ok(u) => u,
        Err(e) => {
            return Err(e);
        },
    };
    let query = match req.query() {
        Ok(q) => q,
        Err(e) => {
            return Err(e);
        },
    };
    let named = match named_headers(req) {
        Ok(n) => n,
        Err(e) => {
            return Err(e);
        },
    };
    let query = if query.len() == 0 {
        None
    } else {
        c_bytes(query)
    };
    Ok(
        EngineCall {
            method: plain(method),
            uri: plain(uri),
            query,
            content_type: named.content_type,
            cookies: named.cookies,
            auth: named.auth,
        },
    )
}

proof fn lemma_bad_header(p: Seq<u8>, i: int, n: int)
    requires
        i <= n,
        bad_header(p, i) is Some,
    ensures
        bad_header(p, n) == bad_header(p, i),
    decreases n - i,
{
    if i < n {
        assert(i + 1 > 0) by {
            if i <= 0 {
                assert(bad_header(p, i) is None);
            }
        }
        lemma_bad_header(p, i + 1, n);
    }
}

} // verus!
