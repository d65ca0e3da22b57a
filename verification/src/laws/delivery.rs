//! What an application, a file or a route's own answer gets of a request.

use vstd::prelude::*;
use vstd::string::*;
use vstd::utf8::encode_utf8;

use crate::bytes::{lowered, text};
use crate::ipc::request::{FieldView, RequestView};
use crate::ipc::BwpError;
use crate::laws::php::without_start;
use crate::laws::relay::{
    a_body_is_answered, a_return_is_answered, farewell, first_line, message, own, said, set_headers,
};
use crate::laws::routing::{behind_mark, known, lemma_under, under};
use crate::router::addr::Addr;
use crate::router::args::pairs;
use crate::router::compile::names;
use crate::router::http1::head::phrase;
use crate::router::http1::parse::Parsed;
use crate::router::http1::stage::{follows, meta_at, Stage};
use crate::router::http1::submit::{worker_request, Delivery};
use crate::router::matching::lowered_chars;
use crate::router::routes::{
    op_views, ops_of, Action, CompiledRoutes, Decision, Fallback, RouteOutcome,
};
use crate::router::serve_static::{
    after_dot, locate, mime_for, opted_in, source_ext, uri_at, uri_mark, with_uri, StaticContext,
    StaticPlan,
};
use crate::config::table::Table;
use crate::router::template::rendered;
use crate::router::uri::normalized;
use crate::text::text_of;

verus! {

/// The application reads of a request what the client sent: its method, target and
/// headers, the path and query that the route made of them, where the client is,
/// which host it asked for, and the body as far as it came along.
#[verifier::spinoff_prover]
#[verifier::rlimit(50)]
pub proof fn an_application_reads_what_was_sent<'a>(
    p: &Parsed,
    d: &Delivery<'_>,
    b: Vec<u8>,
    bytes: &'a [u8],
    v: RequestView<'a>,
    method: Result<&'a [u8], BwpError>,
    path: Result<&'a [u8], BwpError>,
    target: Result<&'a [u8], BwpError>,
    query: Result<&'a [u8], BwpError>,
    version: Result<&'a [u8], BwpError>,
    peer: Result<&'a [u8], BwpError>,
    host: Result<&'a [u8], BwpError>,
    body: Result<&'a [u8], BwpError>,
    length: u64,
    port: u16,
    count: usize,
    i: usize,
    field: Result<FieldView<'a>, BwpError>,
)
    requires
        call_ensures(worker_request, (p, d), Some(b)),
        bytes@ == b@,
        call_ensures(RequestView::parse, (bytes,), Ok::<RequestView, BwpError>(v)),
        call_ensures(RequestView::method, (&v,), method),
        call_ensures(RequestView::path, (&v,), path),
        call_ensures(RequestView::target, (&v,), target),
        call_ensures(RequestView::query, (&v,), query),
        call_ensures(RequestView::version, (&v,), version),
        call_ensures(RequestView::remote_addr, (&v,), peer),
        call_ensures(RequestView::server_name, (&v,), host),
        call_ensures(RequestView::preread_body, (&v,), body),
        call_ensures(RequestView::content_length, (&v,), length),
        call_ensures(RequestView::server_port, (&v,), port),
        call_ensures(RequestView::fields_count, (&v,), count),
        i < p.headers@.len(),
        call_ensures(RequestView::field, (&v, i), field),
    ensures
        method matches Ok(x) && x@ == p.method@,
        path matches Ok(x) && x@ == d.path@,
        target matches Ok(x) && x@ == p.target@,
        query matches Ok(x) && x@ == d.query@,
        version matches Ok(x) && x@ == text("HTTP/1.1"),
        peer matches Ok(x) && x@ == text(d.remote_text),
        host matches Ok(x) && x@ == under(pairs(p.headers@), text("host")),
        body matches Ok(x) && x@ == d.preread@,
        length == d.content_length,
        port == d.local_port,
        count == p.headers@.len(),
        field matches Ok(f) && f.name@ == p.headers@[i as int].0@ && f.value@
            == p.headers@[i as int].1@,
{
    let h = pairs(p.headers@);
    lemma_under(h, text("host"));
    assert(h.len() == p.headers@.len());
    assert(h[i as int] == (p.headers@[i as int].0@, p.headers@[i as int].1@));
}

/// A route's own answer is sent as it is configured: its status, and where the
/// client is to go, with the values of the request.
#[verifier::spinoff_prover]
#[verifier::rlimit(50)]
pub proof fn a_route_answers_for_itself(
    s: &Stage<'_>,
    p: &Parsed,
    peer: &str,
    server: &str,
    r: Option<(u16, Vec<u8>)>,
)
    requires
        call_ensures(Stage::plain_reply, (s, p, peer, server), r),
    ensures
        ({
            let changes = op_views(s.ops@);
            match s.decision {
                Decision::Return { status, location } => {
                    &&& r matches Some((code, bytes))
                    &&& code == status
                    &&& bytes@ == message(
                        seq![first_line(status, encode_utf8(phrase(status)))] + own(
                            text("server"),
                            text(server),
                            changes,
                        ) + seq![text("content-length: 0")] + match location {
                            Some(t) => own(
                                text("location"),
                                rendered(t.parts(), known(*p, text(peer), s.path@, s.query@)),
                                changes,
                            ),
                            None => seq![],
                        } + set_headers(changes) + farewell(p.keep_alive),
                        seq![],
                    )
                },
                Decision::NotFound => {
                    &&& r matches Some((code, bytes))
                    &&& code == 404
                    &&& bytes@ == message(
                        seq![first_line(404, encode_utf8("Not Found"@))] + own(
                            text("server"),
                            text(server),
                            changes,
                        ) + own(text("content-type"), text("text/plain"), changes) + seq![
                            said(
                                text("content-length"),
                                crate::bytes::dec(text("404 Not Found\n").len()),
                            ),
                        ] + set_headers(changes) + farewell(p.keep_alive),
                        text("404 Not Found\n"),
                    )
                },
                _ => r is None,
            }
        }),
{
    let changes = op_views(s.ops@);
    lemma_under(pairs(p.headers@), text("host"));
    match s.decision {
        Decision::Return { status, location } => {
            a_return_is_answered(
                text(server),
                status,
                match location {
                    Some(t) => Some(
                        rendered(t.parts(), known(*p, text(peer), s.path@, s.query@)),
                    ),
                    None => None,
                },
                changes,
                p.keep_alive,
            );
        },
        Decision::NotFound => {
            a_body_is_answered(
                text(server),
                404,
                text("text/plain"),
                text("404 Not Found\n"),
                changes,
                p.keep_alive,
            );
        },
        _ => {},
    }
}

/// Where a file is not there, the share's fallback takes the request: its rewrite
/// makes the path from the request as it stands, its changes to the headers come
/// behind those that were made, and its action is carried out. Without a fallback
/// nothing is found.
#[verifier::spinoff_prover]
#[verifier::rlimit(50)]
pub proof fn a_miss_goes_to_the_fallback<'r>(
    s: Stage<'r>,
    routes: &'r CompiledRoutes,
    p: &Parsed,
    remote: Addr,
    peer: &str,
    f: &'r Fallback,
    r: Stage<'r>,
)
    requires
        call_ensures(Stage::missed, (s, routes, p, remote, peer), r),
    ensures
        (s.decision matches Decision::Share { fallback: Some(g), .. } && g == f) ==> {
            &&& f.action matches Action::Application { name } ==> (
            r.decision matches Decision::Application(n) && n@ == name@)
            &&& f.action matches Action::Return { status, .. } ==> (
            r.decision matches Decision::Return { status: code, .. } && code == status)
            &&& f.action matches Action::Share { template, .. } ==> (
            r.decision matches Decision::Share { template: t, .. } && t@ == template@)
            &&& !(f.action is Route) ==> {
                &&& op_views(r.ops@) == op_views(s.ops@) + ops_of(f.response_headers@)
                &&& match f.rewrite {
                    Some(t) => {
                        let made = rendered(
                            t.parts(),
                            known(*p, text(peer), s.path@, s.query@),
                        );
                        &&& r.path@ == normalized(crate::bytes::until(made, 63))
                        &&& r.query@ == behind_mark(made)
                    },
                    None => r.path@ == s.path@ && r.query@ == s.query@,
                }
            }
        },
        (s.decision matches Decision::Share { fallback: None, .. }) ==> r.decision is NotFound,
{
    let meta = meta_at(s, *p, remote, text(peer));
    lemma_under(pairs(p.headers@), text("host"));
    let next = choose|next: RouteOutcome<'r>| #[trigger] follows(r, s, next, *routes, meta);
    if let Decision::Share { fallback: Some(g), .. } = s.decision {
        if let Some(t) = g.rewrite {
            crate::laws::routing::lemma_mark(
                rendered(t.parts(), known(*p, text(peer), s.path@, s.query@)),
            );
        }
        let none = Seq::<(Seq<char>, Option<Seq<char>>)>::empty();
        assert(none + ops_of(g.response_headers@) =~= ops_of(g.response_headers@));
    }
}

/// Where a template marks the place of the path.
pub open spec fn marked(s: Seq<char>, i: int) -> bool {
    0 <= i <= s.len() - 4 && s[i] == '$' && s[i + 1] == 'u' && s[i + 2] == 'r' && s[i + 3] == 'i'
}

proof fn lemma_uri_at(s: Seq<char>, from: int, i: int)
    requires
        0 <= from <= i <= s.len(),
        forall|j: int| from <= j < i ==> !#[trigger] marked(s, j),
        i < s.len() ==> marked(s, i),
    ensures
        uri_at(s, from) == i,
    decreases i - from,
{
    if from < i {
        assert(!marked(s, from));
        lemma_uri_at(s, from + 1, i);
    }
}

/// A path that ends in a slash names a directory: its index is meant.
pub open spec fn with_index(path: Seq<char>, index: Seq<char>) -> Seq<char> {
    if path.len() > 0 && path[path.len() - 1] == '/' {
        path + index
    } else {
        path
    }
}

/// The file that a share gives for a path lies under what stands before the path's
/// mark in the template: it is the path, with what stands behind the mark, and with
/// the index of a directory. A source that is kept back, a type that is not served
/// and the directory itself give none.
#[verifier::spinoff_prover]
#[verifier::rlimit(50)]
pub proof fn a_share_looks_under_its_own_directory(
    template: &str,
    index: &str,
    path: &[u8],
    ctx: &StaticContext<'_>,
    base: Seq<char>,
    tail: Seq<char>,
    rel: Seq<char>,
    r: Option<StaticPlan>,
)
    requires
        call_ensures(locate, (template, index, path, ctx), r),
        template@ == base + seq!['$', 'u', 'r', 'i'] + tail,
        forall|j: int| 0 <= j < base.len() ==> !#[trigger] marked(template@, j),
        forall|j: int| base.len() + 4 <= j < template@.len() ==> !#[trigger] marked(template@, j),
        without_start(with_index(text_of(path@) + tail, index@), '/', rel),
    ensures
        ({
            let target = with_index(text_of(path@) + tail, index@);
            let ext = source_ext(target);
            let kept = (names(ctx.source_exts@).contains(ext) || names(
                ctx.extra_source_exts@,
            ).contains(ext)) && !opted_in(*ctx.serve_sources, ext);
            let served = ctx.types matches Some(t) ==> t.hits(lowered(encode_utf8(target)));
            &&& (r is Some) == (!kept && served && rel.len() > 0)
            &&& r matches Some(plan) ==> plan.base@ == base && plan.rel@ == rel
        }),
{
    let t = template@;
    let n = base.len() as int;
    assert(marked(t, n));
    lemma_uri_at(t, 0, n);
    assert(t.subrange(0, n) =~= base);
    lemma_uri_at(t, n + 4, t.len() as int);
    assert(t.subrange(n + 4, t.len() as int) =~= tail);
    assert(!uri_mark(t, t.len() as int));
    assert(with_uri(t, n + 4, text_of(path@)) == tail);
    crate::laws::php::lemma_without_start(
        with_index(text_of(path@) + tail, index@),
        '/',
        rel,
    );
}

/// The extension by which a source is known stands behind the last dot, in small
/// letters; dots and spaces behind it do not hide it.
pub proof fn a_source_is_known_by_its_extension(stem: Seq<char>, ext: Seq<char>, junk: Seq<char>)
    requires
        ext.len() > 0,
        forall|i: int| 0 <= i < ext.len() ==> ext[i] != '.',
        ext[ext.len() - 1] != ' ',
        forall|i: int| 0 <= i < junk.len() ==> junk[i] == '.' || junk[i] == ' ',
    ensures
        source_ext(stem.push('.') + ext + junk) == lowered_chars(ext),
    decreases junk.len(),
{
    let s = stem.push('.') + ext + junk;
    if junk.len() > 0 {
        assert(s.last() == junk[junk.len() - 1]);
        assert(s.drop_last() =~= stem.push('.') + ext + junk.drop_last());
        a_source_is_known_by_its_extension(stem, ext, junk.drop_last());
    } else {
        assert(s =~= stem.push('.') + ext);
        assert(s.last() == ext[ext.len() - 1]);
        lemma_after_dot(stem, ext);
    }
}

proof fn lemma_after_dot(stem: Seq<char>, ext: Seq<char>)
    requires
        forall|i: int| 0 <= i < ext.len() ==> ext[i] != '.',
    ensures
        after_dot(stem.push('.') + ext) == ext,
    decreases ext.len(),
{
    let s = stem.push('.') + ext;
    if ext.len() > 0 {
        assert(s.last() == ext[ext.len() - 1]);
        assert(s.drop_last() =~= stem.push('.') + ext.drop_last());
        lemma_after_dot(stem, ext.drop_last());
        assert(ext.drop_last().push(ext.last()) =~= ext);
    } else {
        assert(s =~= stem.push('.'));
        assert(after_dot(s) =~= ext);
    }
}

/// A type that is configured for an extension wins over the usual one.
pub proof fn a_configured_type_wins(
    path: &str,
    types: &Table<String>,
    stem: Seq<char>,
    ext: Seq<char>,
    r: String,
)
    requires
        call_ensures(mime_for, (path, types), r),
        path@ == stem.push('.') + ext,
        forall|i: int| 0 <= i < ext.len() ==> ext[i] != '.',
        types.has(lowered_chars(ext)),
    ensures
        r@ == types.at(lowered_chars(ext))@,
{
    lemma_after_dot(stem, ext);
}

} // verus!
