//! A request on its way to a worker.

use vstd::prelude::*;

use crate::bytes::text;
use crate::ipc::history::{a_setting_is_told, with_setting, Setting};
use crate::ipc::request::{request_roundtrip, says, table_len, RequestBuilder, RequestModel};
use crate::router::args::{lookup, pairs, value_of};
use crate::router::dispatch::{DispatchError, SubmitBody, INLINE_BODY_LIMIT};
use crate::router::http1::parse::Parsed;

verus! {

/// How a body travels: an upgrade has none, a large one that was read spills
/// to a file.
pub fn plan_body(buffered: usize, streams: bool, upgrade: bool) -> (r: SubmitBody)
    ensures
        r == if upgrade {
            SubmitBody::Upgrade
        } else if streams {
            SubmitBody::Stream
        } else if buffered > INLINE_BODY_LIMIT {
            SubmitBody::File
        } else {
            SubmitBody::Inline
        },
{
    if upgrade {
        SubmitBody::Upgrade
    } else if streams {
        SubmitBody::Stream
    } else if buffered > INLINE_BODY_LIMIT {
        SubmitBody::File
    } else {
        SubmitBody::Inline
    }
}

/// The answer to a request that no worker takes: a failed worker is a bad
/// gateway, a full or stalled queue is overload.
pub fn refusal_status(e: DispatchError) -> (r: u16)
    ensures
        r == if e == DispatchError::WorkerFailed {
            502u16
        } else {
            503u16
        },
{
    match e {
        DispatchError::WorkerFailed => 502,
        DispatchError::QueueFull => 503,
        DispatchError::QueueTimeout => 503,
    }
}

/// What the worker is told besides the request itself.
pub struct Delivery<'a> {
    /// The path and query to serve, after rewrites.
    pub path: &'a [u8],
    pub query: &'a [u8],
    pub remote_text: &'a str,
    pub local_port: u16,
    pub content_length: u64,
    /// The body, or the name of the file that holds it.
    pub preread: &'a [u8],
}

/// The request as the worker reads it. Its target is the one that the client
/// sent.
pub open spec fn worker_view(p: Parsed, d: Delivery<'_>) -> RequestModel {
    RequestModel {
        method: p.method@,
        path: d.path@,
        target: p.target@,
        query: d.query@,
        version: text("HTTP/1.1"),
        remote_addr: text(d.remote_text),
        server_name: value_of(pairs(p.headers@), text("host")),
        content_length: d.content_length,
        server_port: d.local_port,
        fields: pairs(p.headers@),
        body: d.preread@,
    }
}

/// The bytes of the header fields.
pub open spec fn fields_size(fields: Seq<(Seq<u8>, Seq<u8>)>) -> int
    decreases fields.len(),
{
    if fields.len() == 0 {
        0
    } else {
        fields_size(fields.drop_last()) + fields.last().0.len() + fields.last().1.len()
    }
}

/// Whether the strings of a request and the table of its fields can be
/// addressed.
pub open spec fn fits(m: RequestModel) -> bool {
    &&& m.method.len() + m.path.len() + m.target.len() + m.query.len() + m.version.len()
        + m.remote_addr.len() + m.server_name.len() + fields_size(m.fields) + m.body.len()
        <= u32::MAX
    &&& table_len(m.fields.len() as int) <= u32::MAX
}

proof fn lemma_fields_size(fields: Seq<(Seq<u8>, Seq<u8>)>, n: int)
    requires
        0 <= n <= fields.len(),
    ensures
        0 <= fields_size(fields.take(n)) <= fields_size(fields),
    decreases fields.len(),
{
    if n == fields.len() {
        assert(fields.take(n) =~= fields);
        if n > 0 {
            lemma_fields_size(fields.drop_last(), n - 1);
            assert(fields.drop_last().take(n - 1) =~= fields.drop_last());
        }
    } else {
        assert(fields.drop_last().take(n) =~= fields.take(n));
        lemma_fields_size(fields.drop_last(), n);
    }
}

fn size_of_fields(headers: &Vec<(Vec<u8>, Vec<u8>)>) -> (r: Option<u64>)
    ensures
        match r {
            Some(n) => n == fields_size(pairs(headers@)),
            None => fields_size(pairs(headers@)) > u32::MAX,
        },
{
    let ghost all = pairs(headers@);
    let mut n: u64 = 0;
    let mut i: usize = 0;
    assert(all.take(0).len() == 0);
    while i < headers.len()
        invariant
            i <= headers@.len(),
            all == pairs(headers@),
            n == fields_size(all.take(i as int)),
            n <= u32::MAX,
        decreases headers@.len() - i,
    {
        proof {
            assert(all.take(i + 1).drop_last() =~= all.take(i as int));
            assert(all.take(i + 1).last() == all[i as int]);
            lemma_fields_size(all, i + 1);
        }
        let a: u64 = headers[i].0.len() as u64;
        let b: u64 = headers[i].1.len() as u64;
        if a > u32::MAX as u64 || b > u32::MAX as u64 || n + a + b > u32::MAX as u64 {
            return None;
        }
        n = n + a + b;
        i += 1;
    }
    assert(all.take(i as int) =~= all);
    Some(n)
}

/// Whether a length is small, and then added.
fn add_len(n: u64, len: usize) -> (r: Option<u64>)
    requires
        n <= u32::MAX,
    ensures
        match r {
            Some(m) => m == n + len && m <= u32::MAX,
            None => n + len > u32::MAX,
        },
{
    if len as u64 > u32::MAX as u64 - n {
        None
    } else {
        Some(n + len as u64)
    }
}

fn total(p: &Parsed, host: &[u8], d: &Delivery<'_>) -> (r: bool)
    requires
        host@ == value_of(pairs(p.headers@), text("host")),
    ensures
        r == fits(worker_view(*p, *d)),
{
    let ghost m = worker_view(*p, *d);
    let fields: u64 = match size_of_fields(&p.headers) {
        Some(n) => n,
        None => {
            return false;
        },
    };
    proof {
        lemma_fields_size(m.fields, 0);
    }
    if fields > u32::MAX as u64 || p.headers.len() as u64 > 268435450 {
        assert(p.headers@.len() > 268435450 ==> table_len(m.fields.len() as int) > u32::MAX);
        return false;
    }
    let lens: [usize; 8] = [
        p.method.len(),
        d.path.len(),
        p.target.len(),
        d.query.len(),
        "HTTP/1.1".as_bytes().len(),
        d.remote_text.as_bytes().len(),
        host.len(),
        d.preread.len(),
    ];
    let mut n: u64 = fields;
    let mut i: usize = 0;
    let ghost all = lens@;
    let ghost want = fields + sum(all);
    proof {
        lemma_sum_eight(all);
        assert(fits(m) == (want <= u32::MAX));
    }
    while i < 8
        invariant
            m == worker_view(*p, *d),
            want == fields + sum(all),
            fits(m) == (want <= u32::MAX),
            i <= 8,
            all == lens@,
            all.len() == 8,
            n <= u32::MAX,
            n == fields + sum(all.take(i as int)),
        decreases 8 - i,
    {
        proof {
            assert(all.take(i + 1).drop_last() =~= all.take(i as int));
            assert(all.take(i + 1).last() == all[i as int]);
        }
        match add_len(n, lens[i]) {
            Some(m2) => {
                n = m2;
            },
            None => {
                proof {
                    lemma_sum_grows(all, i + 1);
                }
                return false;
            },
        }
        i += 1;
    }
    assert(all.take(8) =~= all);
    true
}

spec fn sum(s: Seq<usize>) -> int
    decreases s.len(),
{
    if s.len() == 0 {
        0
    } else {
        sum(s.drop_last()) + s.last()
    }
}

proof fn lemma_sum_grows(s: Seq<usize>, n: int)
    requires
        0 <= n <= s.len(),
    ensures
        sum(s.take(n)) <= sum(s),
    decreases s.len(),
{
    if n == s.len() {
        assert(s.take(n) =~= s);
    } else {
        assert(s.drop_last().take(n) =~= s.take(n));
        lemma_sum_grows(s.drop_last(), n);
    }
}

proof fn lemma_sum_eight(s: Seq<usize>)
    requires
        s.len() == 8,
    ensures
        sum(s) == s[0] + s[1] + s[2] + s[3] + s[4] + s[5] + s[6] + s[7],
{
    reveal_with_fuel(sum, 9);
}

/// The payload of a request frame; nothing where the request is too large for
/// one.
pub fn worker_request(p: &Parsed, d: &Delivery<'_>) -> (r: Option<Vec<u8>>)
    ensures
        match r {
            Some(b) => fits(worker_view(*p, *d)) && says(b@, worker_view(*p, *d)),
            None => !fits(worker_view(*p, *d)),
        },
{
    let nothing: Vec<u8> = Vec::new();
    assert(nothing@ =~= Seq::<u8>::empty());
    let host: &[u8] = match lookup(p.headers.as_slice(), "host".as_bytes()) {
        Some(h) => h,
        None => nothing.as_slice(),
    };
    if !total(p, host, d) {
        return None;
    }
    let ghost m = worker_view(*p, *d);
    proof {
        lemma_fields_size(m.fields, 0);
    }
    let mut b = RequestBuilder::new();
    let ghost l0 = b.layout();
    b.method(p.method.as_slice());
    let ghost l1 = b.layout();
    b.path(d.path);
    let ghost l2 = b.layout();
    b.target(p.target.as_slice());
    let ghost l3 = b.layout();
    b.query(d.query);
    let ghost l4 = b.layout();
    b.version("HTTP/1.1".as_bytes());
    let ghost l5 = b.layout();
    b.remote_addr(d.remote_text.as_bytes());
    let ghost l6 = b.layout();
    b.server_name(host);
    let ghost l7 = b.layout();
    b.server_port(d.local_port);
    b.content_length(d.content_length);
    let ghost l8 = b.layout();
    proof {
        a_setting_is_told(l0, Setting::Method(m.method));
        a_setting_is_told(l1, Setting::Path(m.path));
        a_setting_is_told(l2, Setting::Target(m.target));
        a_setting_is_told(l3, Setting::Query(m.query));
        a_setting_is_told(l4, Setting::Version(m.version));
        a_setting_is_told(l5, Setting::RemoteAddr(m.remote_addr));
        a_setting_is_told(l6, Setting::ServerName(m.server_name));
        a_setting_is_told(l7, Setting::ServerPort(m.server_port));
        a_setting_is_told(
            with_setting(l7, Setting::ServerPort(m.server_port)),
            Setting::ContentLength(m.content_length),
        );
        assert(l8.request().fields =~= Seq::<(Seq<u8>, Seq<u8>)>::empty());
    }
    let mut i: usize = 0;
    let ghost base = l8.blob.len();
    assert(m.fields.take(0) =~= Seq::<(Seq<u8>, Seq<u8>)>::empty());
    while i < p.headers.len()
        invariant
            i <= p.headers@.len(),
            m == worker_view(*p, *d),
            fits(m),
            base + fields_size(m.fields) + m.body.len() <= u32::MAX,
            b.layout().wf(),
            b.layout().fields.len() == i,
            b.layout().blob.len() == base + fields_size(m.fields.take(i as int)),
            b.layout().request() == (RequestModel {
                fields: m.fields.take(i as int),
                body: b.layout().request().body,
                ..m
            }),
        decreases p.headers@.len() - i,
    {
        let ghost l = b.layout();
        let ghost f = m.fields[i as int];
        proof {
            assert(m.fields.take(i + 1).drop_last() =~= m.fields.take(i as int));
            assert(m.fields.take(i + 1).last() == f);
            lemma_fields_size(m.fields, i + 1);
            a_setting_is_told(l, Setting::Field(f.0, f.1));
            assert(m.fields.take(i as int).push(f) =~= m.fields.take(i + 1));
        }
        b.field(p.headers[i].0.as_slice(), p.headers[i].1.as_slice());
        i += 1;
    }
    assert(m.fields.take(i as int) =~= m.fields);
    let ghost l9 = b.layout();
    b.preread_body(d.preread);
    proof {
        a_setting_is_told(l9, Setting::Body(m.body));
        request_roundtrip(b.layout());
    }
    Some(b.finish())
}

} // verus!
