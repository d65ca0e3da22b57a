//! Flat request encoding: a fixed offset table followed by one blob.
//!
//! The router builds this once while parsing HTTP; the worker reads fields
//! by offset without copying. Layout of the table (offsets are relative to
//! the start of the blob):
//!
//! ```text
//! 0   u32 blob_off          (= table end, from payload start)
//! 4   (off u32, len u32) method
//! 12  (off u32, len u32) path        decoded, normalized
//! 20  (off u32, len u32) target      original request target
//! 28  (off u32, len u32) query
//! 36  (off u32, len u32) version
//! 44  (off u32, len u32) remote_addr
//! 52  (off u32, len u32) server_name
//! 60  u64 content_length
//! 68  u32 app_target       (reserved, 0)
//! 72  u32 server_port
//! 76  u32 fields_count
//! 80  fields_count * (name_off u32, name_len u32, val_off u32, val_len u32)
//! ..  (off u32, len u32) preread body
//! ```

use vstd::prelude::*;

use crate::bytes::{
    le32, le64, lemma_le32, lemma_le64, push_bytes, push_u32, push_u64, read_u32, read_u64, u32_at,
    u64_at,
};
use crate::ipc::history::{with_setting, Setting};
use crate::ipc::BwpError;

verus! {

pub const TABLE_FIXED: usize = 80;

const FIELD_ENTRY: usize = 16;

const BODY_ENTRY: usize = 8;

/// Length of the table of a request with `n` header fields.
pub open spec fn table_len(n: int) -> int {
    80 + 16 * n + 8
}

/// Whether a payload holds a table and a blob where the table says.
pub open spec fn payload_shape(p: Seq<u8>) -> Result<(), BwpError> {
    if p.len() < TABLE_FIXED {
        Err(BwpError::Truncated { expected: TABLE_FIXED, actual: p.len() as usize })
    } else {
        let need = table_len(u32_at(p, 76) as int);
        if p.len() < need || u32_at(p, 0) < need || u32_at(p, 0) > p.len() {
            Err(BwpError::Truncated { expected: need as usize, actual: p.len() as usize })
        } else {
            Ok(())
        }
    }
}

/// The blob slice that the table entry at `pos` names.
pub open spec fn entry(p: Seq<u8>, pos: int) -> Result<Seq<u8>, BwpError> {
    let off = u32_at(p, pos);
    let len = u32_at(p, pos + 4);
    let start = u32_at(p, 0) + off;
    if start + len > p.len() {
        Err(BwpError::OutOfBounds { off: off as usize, len: len as usize, blob: p.len() as usize })
    } else {
        Ok(p.subrange(start, start + len))
    }
}

/// A borrowed slice, or the error, that a table entry stands for.
pub open spec fn is_entry(r: Result<&[u8], BwpError>, e: Result<Seq<u8>, BwpError>) -> bool {
    match (r, e) {
        (Ok(s), Ok(t)) => s@ == t,
        (Err(a), Err(b)) => a == b,
        _ => false,
    }
}

#[derive(Debug, Clone, Copy)]
pub struct FieldView<'a> {
    pub name: &'a [u8],
    pub value: &'a [u8],
}

/// The `i`-th header field of the payload, or the error of its first bad entry.
pub open spec fn is_field(r: Result<FieldView<'_>, BwpError>, p: Seq<u8>, i: int) -> bool {
    let base = 80 + 16 * i;
    match entry(p, base) {
        Err(e) => r == Err::<FieldView, BwpError>(e),
        Ok(name) => match entry(p, base + 8) {
            Err(e) => r == Err::<FieldView, BwpError>(e),
            Ok(value) => r matches Ok(f) && f.name@ == name && f.value@ == value,
        },
    }
}

/// Borrowed view over an encoded request payload.
pub struct RequestView<'a> {
    payload: &'a [u8],
    blob_off: usize,
    fields_count: usize,
}

impl<'a> RequestView<'a> {
    /// The bytes this view reads.
    pub closed spec fn payload(self) -> Seq<u8> {
        self.payload@
    }

    #[verifier::type_invariant]
    spec fn well_formed(self) -> bool {
        &&& payload_shape(self.payload@) is Ok
        &&& self.blob_off == u32_at(self.payload@, 0)
        &&& self.fields_count == u32_at(self.payload@, 76)
        &&& table_len(self.fields_count as int) <= self.payload.len()
    }

    pub fn parse(payload: &'a [u8]) -> (r: Result<Self, BwpError>)
        ensures
            match payload_shape(payload@) {
                Ok(_) => r matches Ok(v) && v.payload() == payload@,
                Err(e) => r == Err::<Self, BwpError>(e),
            },
    {
        if payload.len() < TABLE_FIXED {
            return Err(BwpError::Truncated { expected: TABLE_FIXED, actual: payload.len() });
        }
        let blob_off: u32 = read_u32(payload, 0);
        let fields_count: u32 = read_u32(payload, 76);
        let need: u64 = 80 + fields_count as u64 * 16 + 8;
        if (payload.len() as u64) < need || (blob_off as u64) < need || blob_off as u64
            > payload.len() as u64 {
            return Err(BwpError::Truncated { expected: need as usize, actual: payload.len() });
        }
        Ok(
            RequestView {
                payload,
                blob_off: blob_off as usize,
                fields_count: fields_count as usize,
            },
        )
    }

    pub fn method(&self) -> (r: Result<&'a [u8], BwpError>)
        ensures
            is_entry(r, entry(self.payload(), 4)),
    {
        self.slice_at(4)
    }

    pub fn path(&self) -> (r: Result<&'a [u8], BwpError>)
        ensures
            is_entry(r, entry(self.payload(), 12)),
    {
        self.slice_at(12)
    }

    pub fn target(&self) -> (r: Result<&'a [u8], BwpError>)
        ensures
            is_entry(r, entry(self.payload(), 20)),
    {
        self.slice_at(20)
    }

    pub fn query(&self) -> (r: Result<&'a [u8], BwpError>)
        ensures
            is_entry(r, entry(self.payload(), 28)),
    {
        self.slice_at(28)
    }

    pub fn version(&self) -> (r: Result<&'a [u8], BwpError>)
        ensures
            is_entry(r, entry(self.payload(), 36)),
    {
        self.slice_at(36)
    }

    pub fn remote_addr(&self) -> (r: Result<&'a [u8], BwpError>)
        ensures
            is_entry(r, entry(self.payload(), 44)),
    {
        self.slice_at(44)
    }

    pub fn server_name(&self) -> (r: Result<&'a [u8], BwpError>)
        ensures
            is_entry(r, entry(self.payload(), 52)),
    {
        self.slice_at(52)
    }

    pub fn content_length(&self) -> (r: u64)
        ensures
            r == u64_at(self.payload(), 60),
    {
        proof {
            use_type_invariant(self);
        }
        read_u64(self.payload, 60)
    }

    /// The low sixteen bits of the port entry.
    pub fn server_port(&self) -> (r: u16)
        ensures
            r == u32_at(self.payload(), 72) % 65536,
    {
        proof {
            use_type_invariant(self);
        }
        (read_u32(self.payload, 72) % 65536) as u16
    }

    pub fn fields_count(&self) -> (r: usize)
        ensures
            r == u32_at(self.payload(), 76),
    {
        proof {
            use_type_invariant(self);
        }
        self.fields_count
    }

    pub fn field(&self, i: usize) -> (r: Result<FieldView<'a>, BwpError>)
        requires
            i < u32_at(self.payload(), 76),
        ensures
            is_field(r, self.payload(), i as int),
    {
        proof {
            use_type_invariant(self);
        }
        let base: usize = TABLE_FIXED + i * FIELD_ENTRY;
        let name = match self.slice_at(base) {
            Ok(s) => s,
            Err(e) => {
                return Err(e);
            },
        };
        match self.slice_at(base + 8) {
            Ok(value) => Ok(FieldView { name, value }),
            Err(e) => Err(e),
        }
    }

    /// Every header field, in the order of the table.
    pub fn fields(&self) -> (r: Vec<Result<FieldView<'a>, BwpError>>)
        ensures
            r@.len() == u32_at(self.payload(), 76),
            forall|i: int| 0 <= i < r@.len() ==> is_field(#[trigger] r@[i], self.payload(), i),
    {
        let n: usize = self.fields_count();
        let mut out: Vec<Result<FieldView<'a>, BwpError>> = Vec::new();
        let mut i: usize = 0;
        while i < n
            invariant
                i <= n,
                n == u32_at(self.payload(), 76),
                out@.len() == i,
                forall|k: int| 0 <= k < i ==> is_field(#[trigger] out@[k], self.payload(), k),
            decreases n - i,
        {
            let f = self.field(i);
            out.push(f);
            i += 1;
        }
        out
    }

    pub fn preread_body(&self) -> (r: Result<&'a [u8], BwpError>)
        ensures
            is_entry(r, entry(self.payload(), 80 + 16 * u32_at(self.payload(), 76))),
    {
        proof {
            use_type_invariant(self);
        }
        self.slice_at(TABLE_FIXED + self.fields_count * FIELD_ENTRY)
    }

    fn slice_at(&self, table_pos: usize) -> (r: Result<&'a [u8], BwpError>)
        requires
            table_pos + 8 <= table_len(u32_at(self.payload(), 76) as int),
        ensures
            is_entry(r, entry(self.payload(), table_pos as int)),
    {
        proof {
            use_type_invariant(self);
        }
        let off: u32 = read_u32(self.payload, table_pos);
        let len: u32 = read_u32(self.payload, table_pos + 4);
        let start: u64 = self.blob_off as u64 + off as u64;
        let end: u64 = start + len as u64;
        if end > self.payload.len() as u64 {
            return Err(
                BwpError::OutOfBounds {
                    off: off as usize,
                    len: len as usize,
                    blob: self.payload.len(),
                },
            );
        }
        Ok(&self.payload[start as usize..end as usize])
    }
}

/// A request as its reader sees it.
pub struct RequestModel {
    pub method: Seq<u8>,
    pub path: Seq<u8>,
    pub target: Seq<u8>,
    pub query: Seq<u8>,
    pub version: Seq<u8>,
    pub remote_addr: Seq<u8>,
    pub server_name: Seq<u8>,
    pub content_length: u64,
    pub server_port: u16,
    pub fields: Seq<(Seq<u8>, Seq<u8>)>,
    pub body: Seq<u8>,
}

/// What a builder has gathered: the blob, and for every string its place in it.
pub struct Layout {
    pub blob: Seq<u8>,
    pub fields: Seq<(u32, u32, u32, u32)>,
    pub method: (u32, u32),
    pub path: (u32, u32),
    pub target: (u32, u32),
    pub query: (u32, u32),
    pub version: (u32, u32),
    pub remote_addr: (u32, u32),
    pub server_name: (u32, u32),
    pub content_length: u64,
    pub server_port: u16,
    pub body: (u32, u32),
}

impl Layout {
    pub open spec fn holds(self, r: (u32, u32)) -> bool {
        r.0 + r.1 <= self.blob.len()
    }

    pub open spec fn slice(self, r: (u32, u32)) -> Seq<u8> {
        self.blob.subrange(r.0 as int, r.0 + r.1)
    }

    /// Every place lies in the blob, and blob and table can be addressed.
    pub open spec fn wf(self) -> bool {
        &&& self.blob.len() <= u32::MAX
        &&& table_len(self.fields.len() as int) <= u32::MAX
        &&& self.holds(self.method)
        &&& self.holds(self.path)
        &&& self.holds(self.target)
        &&& self.holds(self.query)
        &&& self.holds(self.version)
        &&& self.holds(self.remote_addr)
        &&& self.holds(self.server_name)
        &&& self.holds(self.body)
        &&& forall|i: int|
            0 <= i < self.fields.len() ==> {
                let f = #[trigger] self.fields[i];
                self.holds((f.0, f.1)) && self.holds((f.2, f.3))
            }
    }

    /// The request that the places spell out.
    pub open spec fn request(self) -> RequestModel {
        RequestModel {
            method: self.slice(self.method),
            path: self.slice(self.path),
            target: self.slice(self.target),
            query: self.slice(self.query),
            version: self.slice(self.version),
            remote_addr: self.slice(self.remote_addr),
            server_name: self.slice(self.server_name),
            content_length: self.content_length,
            server_port: self.server_port,
            fields: self.fields.map_values(
                |f: (u32, u32, u32, u32)| (self.slice((f.0, f.1)), self.slice((f.2, f.3))),
            ),
            body: self.slice(self.body),
        }
    }

    /// The place of a string that is about to be appended.
    pub open spec fn next(self, data: Seq<u8>) -> (u32, u32) {
        (self.blob.len() as u32, data.len() as u32)
    }

    /// Room for `n` more bytes.
    pub open spec fn room(self, n: int) -> bool {
        self.blob.len() + n <= u32::MAX
    }
}

/// The layout of a builder that holds nothing.
pub open spec fn empty_layout() -> Layout {
    Layout {
        blob: seq![],
        fields: seq![],
        method: (0, 0),
        path: (0, 0),
        target: (0, 0),
        query: (0, 0),
        version: (0, 0),
        remote_addr: (0, 0),
        server_name: (0, 0),
        content_length: 0,
        server_port: 0,
        body: (0, 0),
    }
}

pub open spec fn pair_bytes(r: (u32, u32)) -> Seq<u8> {
    le32(r.0) + le32(r.1)
}

pub open spec fn quad_bytes(f: (u32, u32, u32, u32)) -> Seq<u8> {
    pair_bytes((f.0, f.1)) + pair_bytes((f.2, f.3))
}

pub open spec fn fields_bytes(fields: Seq<(u32, u32, u32, u32)>) -> Seq<u8>
    decreases fields.len(),
{
    if fields.len() == 0 {
        seq![]
    } else {
        fields_bytes(fields.drop_last()) + quad_bytes(fields.last())
    }
}

/// The fixed part of the table.
#[verifier::opaque]
pub open spec fn fixed_bytes(l: Layout) -> Seq<u8> {
    le32(table_len(l.fields.len() as int) as u32) + pair_bytes(l.method) + pair_bytes(l.path)
        + pair_bytes(l.target) + pair_bytes(l.query) + pair_bytes(l.version) + pair_bytes(
        l.remote_addr,
    ) + pair_bytes(l.server_name) + le64(l.content_length) + le32(0) + le32(l.server_port as u32)
        + le32(l.fields.len() as u32)
}

/// The whole payload: table, then blob.
pub open spec fn request_bytes(l: Layout) -> Seq<u8> {
    fixed_bytes(l) + fields_bytes(l.fields) + pair_bytes(l.body) + l.blob
}

/// Builds an encoded request payload. Strings are appended to the blob as
/// they are set.
pub struct RequestBuilder {
    blob: Vec<u8>,
    fields: Vec<(u32, u32, u32, u32)>,
    method: (u32, u32),
    path: (u32, u32),
    target: (u32, u32),
    query: (u32, u32),
    version: (u32, u32),
    remote_addr: (u32, u32),
    server_name: (u32, u32),
    content_length: u64,
    server_port: u16,
    body: (u32, u32),
}

impl Default for RequestBuilder {
    fn default() -> (r: Self)
        ensures
            r.layout() == empty_layout(),
    {
        RequestBuilder::new()
    }
}

impl RequestBuilder {
    /// What has been gathered so far.
    pub closed spec fn layout(self) -> Layout {
        Layout {
            blob: self.blob@,
            fields: self.fields@,
            method: self.method,
            path: self.path,
            target: self.target,
            query: self.query,
            version: self.version,
            remote_addr: self.remote_addr,
            server_name: self.server_name,
            content_length: self.content_length,
            server_port: self.server_port,
            body: self.body,
        }
    }

    pub fn new() -> (r: Self)
        ensures
            r.layout() == empty_layout(),
            r.layout().wf(),
    {
        let r = RequestBuilder {
            blob: Vec::with_capacity(1024),
            fields: Vec::with_capacity(24),
            method: (0, 0),
            path: (0, 0),
            target: (0, 0),
            query: (0, 0),
            version: (0, 0),
            remote_addr: (0, 0),
            server_name: (0, 0),
            content_length: 0,
            server_port: 0,
            body: (0, 0),
        };
        assert(r.blob@ =~= empty_layout().blob);
        assert(r.fields@ =~= empty_layout().fields);
        r
    }

    fn append(&mut self, data: &[u8]) -> (r: (u32, u32))
        requires
            old(self).layout().wf(),
            old(self).layout().room(data@.len() as int),
        ensures
            r == old(self).layout().next(data@),
            final(self).layout() == (Layout {
                blob: old(self).layout().blob + data@,
                ..old(self).layout()
            }),
            final(self).layout().wf(),
            final(self).layout().holds(r),
    {
        let off: u32 = self.blob.len() as u32;
        push_bytes(&mut self.blob, data);
        (off, data.len() as u32)
    }

    pub fn method(&mut self, v: &[u8]) -> (r: &mut Self)
        requires
            old(self).layout().wf(),
            old(self).layout().room(v@.len() as int),
        ensures
            r.layout() == with_setting(old(self).layout(), Setting::Method(v@)),
            r.layout().wf(),
            *final(self) == *final(r),
    {
        self.method = self.append(v);
        self
    }

    pub fn path(&mut self, v: &[u8]) -> (r: &mut Self)
        requires
            old(self).layout().wf(),
            old(self).layout().room(v@.len() as int),
        ensures
            r.layout() == with_setting(old(self).layout(), Setting::Path(v@)),
            r.layout().wf(),
            *final(self) == *final(r),
    {
        self.path = self.append(v);
        self
    }

    pub fn target(&mut self, v: &[u8]) -> (r: &mut Self)
        requires
            old(self).layout().wf(),
            old(self).layout().room(v@.len() as int),
        ensures
            r.layout() == with_setting(old(self).layout(), Setting::Target(v@)),
            r.layout().wf(),
            *final(self) == *final(r),
    {
        self.target = self.append(v);
        self
    }

    pub fn query(&mut self, v: &[u8]) -> (r: &mut Self)
        requires
            old(self).layout().wf(),
            old(self).layout().room(v@.len() as int),
        ensures
            r.layout() == with_setting(old(self).layout(), Setting::Query(v@)),
            r.layout().wf(),
            *final(self) == *final(r),
    {
        self.query = self.append(v);
        self
    }

    pub fn version(&mut self, v: &[u8]) -> (r: &mut Self)
        requires
            old(self).layout().wf(),
            old(self).layout().room(v@.len() as int),
        ensures
            r.layout() == with_setting(old(self).layout(), Setting::Version(v@)),
            r.layout().wf(),
            *final(self) == *final(r),
    {
        self.version = self.append(v);
        self
    }

    pub fn remote_addr(&mut self, v: &[u8]) -> (r: &mut Self)
        requires
            old(self).layout().wf(),
            old(self).layout().room(v@.len() as int),
        ensures
            r.layout() == with_setting(old(self).layout(), Setting::RemoteAddr(v@)),
            r.layout().wf(),
            *final(self) == *final(r),
    {
        self.remote_addr = self.append(v);
        self
    }

    pub fn server_name(&mut self, v: &[u8]) -> (r: &mut Self)
        requires
            old(self).layout().wf(),
            old(self).layout().room(v@.len() as int),
        ensures
            r.layout() == with_setting(old(self).layout(), Setting::ServerName(v@)),
            r.layout().wf(),
            *final(self) == *final(r),
    {
        self.server_name = self.append(v);
        self
    }

    pub fn content_length(&mut self, v: u64) -> (r: &mut Self)
        requires
            old(self).layout().wf(),
        ensures
            r.layout() == with_setting(old(self).layout(), Setting::ContentLength(v)),
            r.layout().wf(),
            *final(self) == *final(r),
    {
        self.content_length = v;
        self
    }

    pub fn server_port(&mut self, v: u16) -> (r: &mut Self)
        requires
            old(self).layout().wf(),
        ensures
            r.layout() == with_setting(old(self).layout(), Setting::ServerPort(v)),
            r.layout().wf(),
            *final(self) == *final(r),
    {
        self.server_port = v;
        self
    }

    pub fn field(&mut self, name: &[u8], value: &[u8]) -> (r: &mut Self)
        requires
            old(self).layout().wf(),
            old(self).layout().room(name@.len() as int + value@.len()),
            table_len(old(self).layout().fields.len() as int + 1) <= u32::MAX,
        ensures
            r.layout() == with_setting(old(self).layout(), Setting::Field(name@, value@)),
            r.layout().wf(),
            *final(self) == *final(r),
    {
        let n = self.append(name);
        let v = self.append(value);
        self.fields.push((n.0, n.1, v.0, v.1));
        assert(self.blob@ =~= old(self).layout().blob + (name@ + value@));
        self
    }

    pub fn preread_body(&mut self, v: &[u8]) -> (r: &mut Self)
        requires
            old(self).layout().wf(),
            old(self).layout().room(v@.len() as int),
        ensures
            r.layout() == with_setting(old(self).layout(), Setting::Body(v@)),
            r.layout().wf(),
            *final(self) == *final(r),
    {
        self.body = self.append(v);
        self
    }

    /// The payload of what has been gathered; the builder keeps it.
    pub fn finish(&mut self) -> (r: Vec<u8>)
        requires
            old(self).layout().wf(),
        ensures
            r@ == request_bytes(old(self).layout()),
            final(self).layout() == old(self).layout(),
    {
        let need: usize = TABLE_FIXED + self.fields.len() * FIELD_ENTRY + BODY_ENTRY;
        let mut t: Vec<u8> = Vec::new();
        push_u32(&mut t, need as u32);
        push_pair(&mut t, self.method);
        push_pair(&mut t, self.path);
        push_pair(&mut t, self.target);
        push_pair(&mut t, self.query);
        push_pair(&mut t, self.version);
        push_pair(&mut t, self.remote_addr);
        push_pair(&mut t, self.server_name);
        push_u64(&mut t, self.content_length);
        push_u32(&mut t, 0);
        push_u32(&mut t, self.server_port as u32);
        push_u32(&mut t, self.fields.len() as u32);
        let ghost l = self.layout();
        assert(t@ =~= fixed_bytes(l)) by {
            reveal(fixed_bytes);
        }
        let mut i: usize = 0;
        assert(self.fields@.take(0) =~= seq![]);
        while i < self.fields.len()
            invariant
                i <= self.fields@.len(),
                self.layout() == l,
                self.fields@ == l.fields,
                t@ == fixed_bytes(l) + fields_bytes(l.fields.take(i as int)),
            decreases self.fields@.len() - i,
        {
            let f = self.fields[i];
            push_pair(&mut t, (f.0, f.1));
            push_pair(&mut t, (f.2, f.3));
            proof {
                let up = l.fields.take(i + 1);
                assert(up.drop_last() =~= l.fields.take(i as int));
                assert(t@ =~= fixed_bytes(l) + fields_bytes(up));
            }
            i += 1;
        }
        assert(l.fields.take(i as int) =~= l.fields);
        push_pair(&mut t, self.body);
        push_bytes(&mut t, self.blob.as_slice());
        t
    }
}

fn push_pair(out: &mut Vec<u8>, r: (u32, u32))
    ensures
        final(out)@ == old(out)@ + pair_bytes(r),
{
    push_u32(out, r.0);
    push_u32(out, r.1);
    assert(out@ =~= old(out)@ + pair_bytes(r));
}

proof fn lemma_fields_bytes(fields: Seq<(u32, u32, u32, u32)>)
    ensures
        fields_bytes(fields).len() == 16 * fields.len(),
        forall|i: int|
            0 <= i < fields.len() ==> #[trigger] fields_bytes(fields).subrange(
                16 * i,
                16 * i + 16,
            ) == quad_bytes(fields[i]),
    decreases fields.len(),
{
    if fields.len() > 0 {
        let init = fields.drop_last();
        lemma_fields_bytes(init);
        assert forall|i: int| 0 <= i < fields.len() implies #[trigger] fields_bytes(
            fields,
        ).subrange(16 * i, 16 * i + 16) == quad_bytes(fields[i]) by {
            if i < init.len() {
                assert(fields_bytes(fields).subrange(16 * i, 16 * i + 16) =~= fields_bytes(
                    init,
                ).subrange(16 * i, 16 * i + 16));
                assert(init[i] == fields[i]);
            } else {
                assert(fields_bytes(fields).subrange(16 * i, 16 * i + 16) =~= quad_bytes(
                    fields.last(),
                ));
            }
        }
    }
}

proof fn lemma_entry(p: Seq<u8>, pos: int, r: (u32, u32), blob: Seq<u8>)
    requires
        0 <= pos,
        pos + 8 <= p.len(),
        p.subrange(pos, pos + 8) == pair_bytes(r),
        u32_at(p, 0) + blob.len() == p.len(),
        p.subrange(u32_at(p, 0) as int, p.len() as int) == blob,
        r.0 + r.1 <= blob.len(),
    ensures
        entry(p, pos) == Ok::<Seq<u8>, BwpError>(blob.subrange(r.0 as int, r.0 + r.1)),
{
    assert(p.subrange(pos, pos + 4) =~= p.subrange(pos, pos + 8).subrange(0, 4));
    assert(pair_bytes(r).subrange(0, 4) =~= le32(r.0));
    assert(p.subrange(pos + 4, pos + 8) =~= p.subrange(pos, pos + 8).subrange(4, 8));
    assert(pair_bytes(r).subrange(4, 8) =~= le32(r.1));
    lemma_le32(p, pos, r.0);
    lemma_le32(p, pos + 4, r.1);
    let start = u32_at(p, 0) + r.0;
    assert(p.subrange(start, start + r.1) =~= blob.subrange(r.0 as int, r.0 + r.1));
}

/// What a payload says about the request: everything a reader can ask for.
pub open spec fn says(p: Seq<u8>, m: RequestModel) -> bool {
    &&& payload_shape(p) is Ok
    &&& entry(p, 4) == Ok::<Seq<u8>, BwpError>(m.method)
    &&& entry(p, 12) == Ok::<Seq<u8>, BwpError>(m.path)
    &&& entry(p, 20) == Ok::<Seq<u8>, BwpError>(m.target)
    &&& entry(p, 28) == Ok::<Seq<u8>, BwpError>(m.query)
    &&& entry(p, 36) == Ok::<Seq<u8>, BwpError>(m.version)
    &&& entry(p, 44) == Ok::<Seq<u8>, BwpError>(m.remote_addr)
    &&& entry(p, 52) == Ok::<Seq<u8>, BwpError>(m.server_name)
    &&& u64_at(p, 60) == m.content_length
    &&& u32_at(p, 72) == m.server_port
    &&& u32_at(p, 76) == m.fields.len()
    &&& forall|i: int|
        0 <= i < m.fields.len() ==> {
            &&& entry(p, 80 + 16 * i) == Ok::<Seq<u8>, BwpError>((#[trigger] m.fields[i]).0)
            &&& entry(p, 80 + 16 * i + 8) == Ok::<Seq<u8>, BwpError>(m.fields[i].1)
        }
    &&& entry(p, 80 + 16 * (m.fields.len() as int)) == Ok::<Seq<u8>, BwpError>(m.body)
}

#[verifier::spinoff_prover]
#[verifier::rlimit(60)]
proof fn lemma_fixed(l: Layout)
    ensures
        fixed_bytes(l).len() == 80,
        fixed_bytes(l).subrange(0, 4) == le32(table_len(l.fields.len() as int) as u32),
        fixed_bytes(l).subrange(4, 12) == pair_bytes(l.method),
        fixed_bytes(l).subrange(12, 20) == pair_bytes(l.path),
        fixed_bytes(l).subrange(20, 28) == pair_bytes(l.target),
        fixed_bytes(l).subrange(28, 36) == pair_bytes(l.query),
        fixed_bytes(l).subrange(36, 44) == pair_bytes(l.version),
        fixed_bytes(l).subrange(44, 52) == pair_bytes(l.remote_addr),
        fixed_bytes(l).subrange(52, 60) == pair_bytes(l.server_name),
        fixed_bytes(l).subrange(60, 68) == le64(l.content_length),
        fixed_bytes(l).subrange(72, 76) == le32(l.server_port as u32),
        fixed_bytes(l).subrange(76, 80) == le32(l.fields.len() as u32),
{
    reveal(fixed_bytes);
}

/// A number of the fixed part reads back from the whole.
proof fn lemma_u32_in(p: Seq<u8>, fixed: Seq<u8>, pos: int, x: u32)
    requires
        80 <= p.len(),
        p.subrange(0, 80) == fixed,
        0 <= pos <= 76,
        fixed.subrange(pos, pos + 4) == le32(x),
    ensures
        u32_at(p, pos) == x,
{
    assert(p.subrange(pos, pos + 4) =~= p.subrange(0, 80).subrange(pos, pos + 4));
    lemma_le32(p, pos, x);
}

proof fn lemma_u64_in(p: Seq<u8>, fixed: Seq<u8>, pos: int, x: u64)
    requires
        80 <= p.len(),
        p.subrange(0, 80) == fixed,
        0 <= pos <= 72,
        fixed.subrange(pos, pos + 8) == le64(x),
    ensures
        u64_at(p, pos) == x,
{
    assert(p.subrange(pos, pos + 8) =~= p.subrange(0, 80).subrange(pos, pos + 8));
    lemma_le64(p, pos, x);
}

/// Where the parts of four joined sequences stand.
proof fn lemma_four(a: Seq<u8>, b: Seq<u8>, c: Seq<u8>, d: Seq<u8>)
    ensures
        (a + b + c + d).len() == a.len() + b.len() + c.len() + d.len(),
        (a + b + c + d).subrange(0, a.len() as int) == a,
        (a + b + c + d).subrange(
            (a.len() + b.len() + c.len()) as int,
            (a + b + c + d).len() as int,
        ) == d,
{
    assert((a + b + c + d).subrange(0, a.len() as int) =~= a);
    assert((a + b + c + d).subrange(
        (a.len() + b.len() + c.len()) as int,
        (a + b + c + d).len() as int,
    ) =~= d);
}

proof fn lemma_numbers(l: Layout)
    requires
        l.wf(),
    ensures
        request_bytes(l).len() == table_len(l.fields.len() as int) + l.blob.len(),
        u32_at(request_bytes(l), 0) == table_len(l.fields.len() as int),
        u64_at(request_bytes(l), 60) == l.content_length,
        u32_at(request_bytes(l), 72) == l.server_port,
        u32_at(request_bytes(l), 76) == l.fields.len(),
        request_bytes(l).subrange(0, 80) == fixed_bytes(l),
        request_bytes(l).subrange(
            table_len(l.fields.len() as int),
            request_bytes(l).len() as int,
        ) == l.blob,
{
    let p = request_bytes(l);
    let n = l.fields.len() as int;
    lemma_fields_bytes(l.fields);
    lemma_fixed(l);
    lemma_four(fixed_bytes(l), fields_bytes(l.fields), pair_bytes(l.body), l.blob);
    assert(p.subrange(0, 80) == fixed_bytes(l));
    lemma_u32_in(p, fixed_bytes(l), 0, table_len(n) as u32);
    lemma_u64_in(p, fixed_bytes(l), 60, l.content_length);
    lemma_u32_in(p, fixed_bytes(l), 72, l.server_port as u32);
    lemma_u32_in(p, fixed_bytes(l), 76, n as u32);
}

proof fn lemma_fixed_entry(l: Layout, pos: int, r: (u32, u32))
    requires
        l.wf(),
        l.holds(r),
        0 <= pos <= 72,
        fixed_bytes(l).subrange(pos, pos + 8) == pair_bytes(r),
    ensures
        entry(request_bytes(l), pos) == Ok::<Seq<u8>, BwpError>(l.slice(r)),
{
    let p = request_bytes(l);
    lemma_numbers(l);
    lemma_fixed(l);
    assert(p.subrange(pos, pos + 8) =~= p.subrange(0, 80).subrange(pos, pos + 8));
    lemma_entry(p, pos, r, l.blob);
}

proof fn lemma_field_entry(l: Layout, i: int)
    requires
        l.wf(),
        0 <= i < l.fields.len(),
    ensures
        ({
            let q = l.fields[i];
            &&& entry(request_bytes(l), 80 + 16 * i) == Ok::<Seq<u8>, BwpError>(l.slice((q.0, q.1)))
            &&& entry(request_bytes(l), 80 + 16 * i + 8) == Ok::<Seq<u8>, BwpError>(
                l.slice((q.2, q.3)),
            )
        }),
{
    let p = request_bytes(l);
    let q = l.fields[i];
    let base = 80 + 16 * i;
    let whole = p.subrange(base, base + 16);
    assert(base + 16 <= p.len() && whole == quad_bytes(q)) by {
        lemma_fixed(l);
        lemma_table_row(fixed_bytes(l), l.fields, pair_bytes(l.body), l.blob, i);
    }
    lemma_numbers(l);
    assert(p.subrange(base, base + 8) == pair_bytes((q.0, q.1)) && p.subrange(base + 8, base + 16)
        == pair_bytes((q.2, q.3))) by {
        lemma_halves(p, base, q);
    }
    assert(entry(p, base) == Ok::<Seq<u8>, BwpError>(l.slice((q.0, q.1)))) by {
        lemma_entry(p, base, (q.0, q.1), l.blob);
    }
    assert(entry(p, base + 8) == Ok::<Seq<u8>, BwpError>(l.slice((q.2, q.3)))) by {
        lemma_entry(p, base + 8, (q.2, q.3), l.blob);
    }
}

proof fn lemma_table_row(
    fixed: Seq<u8>,
    fields: Seq<(u32, u32, u32, u32)>,
    body: Seq<u8>,
    blob: Seq<u8>,
    i: int,
)
    requires
        fixed.len() == 80,
        0 <= i < fields.len(),
    ensures
        ({
            let p = fixed + fields_bytes(fields) + body + blob;
            let base = 80 + 16 * i;
            base + 16 <= p.len() && p.subrange(base, base + 16) == quad_bytes(fields[i])
        }),
{
    lemma_fields_bytes(fields);
    let f = fields_bytes(fields);
    assert(f.subrange(16 * i, 16 * i + 16) == quad_bytes(fields[i]));
    let p = fixed + f + body + blob;
    assert(p.subrange(80 + 16 * i, 80 + 16 * i + 16) =~= f.subrange(16 * i, 16 * i + 16));
}

proof fn lemma_halves(p: Seq<u8>, base: int, q: (u32, u32, u32, u32))
    requires
        0 <= base,
        base + 16 <= p.len(),
        p.subrange(base, base + 16) == quad_bytes(q),
    ensures
        p.subrange(base, base + 8) == pair_bytes((q.0, q.1)),
        p.subrange(base + 8, base + 16) == pair_bytes((q.2, q.3)),
{
    let whole = p.subrange(base, base + 16);
    let a = pair_bytes((q.0, q.1));
    let b = pair_bytes((q.2, q.3));
    assert(a.len() == 8 && b.len() == 8);
    assert((a + b).subrange(0, 8) =~= a);
    assert((a + b).subrange(8, 16) =~= b);
    assert(p.subrange(base, base + 8) =~= whole.subrange(0, 8));
    assert(p.subrange(base + 8, base + 16) =~= whole.subrange(8, 16));
}

proof fn lemma_body_entry(l: Layout)
    requires
        l.wf(),
    ensures
        entry(request_bytes(l), 80 + 16 * (l.fields.len() as int)) == Ok::<Seq<u8>, BwpError>(
            l.slice(l.body),
        ),
{
    let p = request_bytes(l);
    let pos = 80 + 16 * (l.fields.len() as int);
    lemma_numbers(l);
    lemma_fixed(l);
    lemma_fields_bytes(l.fields);
    assert(p.subrange(pos, pos + 8) =~= pair_bytes(l.body));
    lemma_entry(p, pos, l.body, l.blob);
}

/// A built payload reads back as what was put in: `parse` accepts it and every
/// accessor answers the value that the builder was given last.
pub proof fn request_roundtrip(l: Layout)
    requires
        l.wf(),
    ensures
        says(request_bytes(l), l.request()),
{
    lemma_numbers(l);
    lemma_fixed(l);
    lemma_fixed_entry(l, 4, l.method);
    lemma_fixed_entry(l, 12, l.path);
    lemma_fixed_entry(l, 20, l.target);
    lemma_fixed_entry(l, 28, l.query);
    lemma_fixed_entry(l, 36, l.version);
    lemma_fixed_entry(l, 44, l.remote_addr);
    lemma_fixed_entry(l, 52, l.server_name);
    lemma_body_entry(l);
    let p = request_bytes(l);
    let m = l.request();
    assert forall|i: int| 0 <= i < m.fields.len() implies {
        &&& entry(p, 80 + 16 * i) == Ok::<Seq<u8>, BwpError>((#[trigger] m.fields[i]).0)
        &&& entry(p, 80 + 16 * i + 8) == Ok::<Seq<u8>, BwpError>(m.fields[i].1)
    } by {
        lemma_field_entry(l, i);
    }
}

/// Setting one string leaves every other string of the request as it was.
pub proof fn append_keeps_request(l: Layout, data: Seq<u8>)
    requires
        l.wf(),
        l.room(data.len() as int),
    ensures
        (Layout { blob: l.blob + data, ..l }).request() == l.request(),
        (Layout { blob: l.blob + data, ..l }).slice(l.next(data)) == data,
{
    let k = Layout { blob: l.blob + data, ..l };
    assert forall|r: (u32, u32)| l.holds(r) implies #[trigger] k.slice(r) == l.slice(r) by {
        assert(k.slice(r) =~= l.slice(r));
    }
    assert(k.slice(l.next(data)) =~= data);
    assert(k.request().fields =~= l.request().fields);
}

} // verus!
