//! What a reader finds in a request, by what its builder was told.

use vstd::prelude::*;

use crate::bytes::u32_at;
use crate::ipc::request::{
    append_keeps_request, empty_layout, is_field, request_bytes, request_roundtrip, says, table_len,
    FieldView, Layout, RequestModel,
};
use crate::ipc::BwpError;

verus! {

/// One thing that a builder is told.
pub enum Setting {
    Method(Seq<u8>),
    Path(Seq<u8>),
    Target(Seq<u8>),
    Query(Seq<u8>),
    Version(Seq<u8>),
    RemoteAddr(Seq<u8>),
    ServerName(Seq<u8>),
    ContentLength(u64),
    ServerPort(u16),
    Field(Seq<u8>, Seq<u8>),
    Body(Seq<u8>),
}

impl Setting {
    /// The bytes that it appends to the blob.
    pub open spec fn data(self) -> Seq<u8> {
        match self {
            Setting::Method(v) => v,
            Setting::Path(v) => v,
            Setting::Target(v) => v,
            Setting::Query(v) => v,
            Setting::Version(v) => v,
            Setting::RemoteAddr(v) => v,
            Setting::ServerName(v) => v,
            Setting::ContentLength(_) => seq![],
            Setting::ServerPort(_) => seq![],
            Setting::Field(name, value) => name + value,
            Setting::Body(v) => v,
        }
    }

    /// Whether a builder has room for it.
    pub open spec fn fits(self, l: Layout) -> bool {
        &&& l.room(self.data().len() as int)
        &&& self is Field ==> table_len(l.fields.len() as int + 1) <= u32::MAX
    }
}

/// What a builder has gathered once it is told one thing more.
pub open spec fn with_setting(l: Layout, s: Setting) -> Layout {
    let at = l.next(s.data());
    let k = Layout { blob: l.blob + s.data(), ..l };
    match s {
        Setting::Method(_) => Layout { method: at, ..k },
        Setting::Path(_) => Layout { path: at, ..k },
        Setting::Target(_) => Layout { target: at, ..k },
        Setting::Query(_) => Layout { query: at, ..k },
        Setting::Version(_) => Layout { version: at, ..k },
        Setting::RemoteAddr(_) => Layout { remote_addr: at, ..k },
        Setting::ServerName(_) => Layout { server_name: at, ..k },
        Setting::ContentLength(v) => Layout { content_length: v, ..l },
        Setting::ServerPort(v) => Layout { server_port: v, ..l },
        Setting::Field(name, value) => Layout {
            fields: l.fields.push(
                (at.0, name.len() as u32, (at.0 + name.len()) as u32, value.len() as u32),
            ),
            ..k
        },
        Setting::Body(_) => Layout { body: at, ..k },
    }
}

/// A request once its builder is told one thing more: a field is added, of
/// everything else the last word counts.
pub open spec fn told(m: RequestModel, s: Setting) -> RequestModel {
    match s {
        Setting::Method(v) => RequestModel { method: v, ..m },
        Setting::Path(v) => RequestModel { path: v, ..m },
        Setting::Target(v) => RequestModel { target: v, ..m },
        Setting::Query(v) => RequestModel { query: v, ..m },
        Setting::Version(v) => RequestModel { version: v, ..m },
        Setting::RemoteAddr(v) => RequestModel { remote_addr: v, ..m },
        Setting::ServerName(v) => RequestModel { server_name: v, ..m },
        Setting::ContentLength(v) => RequestModel { content_length: v, ..m },
        Setting::ServerPort(v) => RequestModel { server_port: v, ..m },
        Setting::Field(name, value) => RequestModel { fields: m.fields.push((name, value)), ..m },
        Setting::Body(v) => RequestModel { body: v, ..m },
    }
}

/// A builder that has room for a setting takes it, and keeps everything else
/// that it was told.
pub proof fn a_setting_is_told(l: Layout, s: Setting)
    requires
        l.wf(),
        s.fits(l),
    ensures
        with_setting(l, s).wf(),
        with_setting(l, s).request() == told(l.request(), s),
{
    let after = with_setting(l, s);
    let k = Layout { blob: l.blob + s.data(), ..l };
    append_keeps_request(l, s.data());
    let want = told(l.request(), s);
    match s {
        Setting::ContentLength(_) | Setting::ServerPort(_) => {
            assert(after.request().fields =~= want.fields);
        },
        Setting::Field(name, value) => {
            let at = l.next(s.data());
            let (n, v) = ((at.0, name.len() as u32), (
                (at.0 + name.len()) as u32,
                value.len() as u32,
            ));
            assert(after.slice(n) =~= name);
            assert(after.slice(v) =~= value);
            let got = after.request().fields;
            assert forall|i: int| 0 <= i < want.fields.len() implies got[i] == want.fields[i] by {
                if i < l.fields.len() {
                    assert(after.fields[i] == l.fields[i]);
                    assert(k.request().fields[i] == l.request().fields[i]);
                }
            }
            assert(got =~= want.fields);
            assert forall|i: int| 0 <= i < after.fields.len() implies {
                let f = #[trigger] after.fields[i];
                after.holds((f.0, f.1)) && after.holds((f.2, f.3))
            } by {
                if i < l.fields.len() {
                    assert(after.fields[i] == l.fields[i]);
                }
            }
        },
        _ => {
            assert(after.request().fields =~= k.request().fields);
        },
    }
}

/// What a builder has gathered that was told these things, from nothing.
pub open spec fn gathered(h: Seq<Setting>) -> Layout
    decreases h.len(),
{
    if h.len() == 0 {
        empty_layout()
    } else {
        with_setting(gathered(h.drop_last()), h.last())
    }
}

/// The request that a builder was told, from nothing.
pub open spec fn told_all(h: Seq<Setting>) -> RequestModel
    decreases h.len(),
{
    if h.len() == 0 {
        empty_layout().request()
    } else {
        told(told_all(h.drop_last()), h.last())
    }
}

/// The fields among what a builder was told, in order.
pub open spec fn fields_told(h: Seq<Setting>) -> Seq<(Seq<u8>, Seq<u8>)>
    decreases h.len(),
{
    if h.len() == 0 {
        seq![]
    } else {
        match h.last() {
            Setting::Field(name, value) => fields_told(h.drop_last()).push((name, value)),
            _ => fields_told(h.drop_last()),
        }
    }
}

/// The bytes of all that a builder was told.
pub open spec fn size_of_all(h: Seq<Setting>) -> int
    decreases h.len(),
{
    if h.len() == 0 {
        0
    } else {
        size_of_all(h.drop_last()) + h.last().data().len()
    }
}

/// Whether a builder has room for all of it.
pub open spec fn all_fit(h: Seq<Setting>) -> bool {
    size_of_all(h) <= u32::MAX && table_len(fields_told(h).len() as int) <= u32::MAX
}

proof fn lemma_gathered(h: Seq<Setting>)
    requires
        all_fit(h),
    ensures
        gathered(h).wf(),
        gathered(h).request() == told_all(h),
        gathered(h).blob.len() == size_of_all(h),
        gathered(h).fields.len() == fields_told(h).len(),
        told_all(h).fields == fields_told(h),
    decreases h.len(),
{
    if h.len() == 0 {
        assert(told_all(h).fields =~= fields_told(h));
    } else {
        let before = h.drop_last();
        assert(h.last().data().len() >= 0);
        assert(fields_told(before).len() <= fields_told(h).len());
        lemma_gathered(before);
        a_setting_is_told(gathered(before), h.last());
    }
}

/// Whatever a builder was told, in whatever order, a reader finds: of each
/// string and number the last that was set, and every field, in the order in
/// which they were added, repeated and empty ones too.
pub proof fn what_was_told_is_read(h: Seq<Setting>)
    requires
        all_fit(h),
    ensures
        gathered(h).wf(),
        says(request_bytes(gathered(h)), told_all(h)),
        ({
            let p = request_bytes(gathered(h));
            let fields = fields_told(h);
            &&& u32_at(p, 76) == fields.len()
            &&& forall|k: int, r: Result<FieldView<'_>, BwpError>|
                0 <= k < fields.len() && #[trigger] is_field(r, p, k) ==> (r matches Ok(f)
                    && f.name@ == fields[k].0 && f.value@ == fields[k].1)
        }),
{
    lemma_gathered(h);
    request_roundtrip(gathered(h));
    let m = told_all(h);
    assert forall|k: int, r: Result<FieldView<'_>, BwpError>|
        0 <= k < m.fields.len() && #[trigger] is_field(r, request_bytes(gathered(h)), k) implies (
    r matches Ok(f) && f.name@ == m.fields[k].0 && f.value@ == m.fields[k].1) by {
        let field = m.fields[k];
    }
}

} // verus!
