//! What holds at the edges: limits of connections and bodies, names of types and
//! days, and what processes tell each other at their start.

use vstd::prelude::*;
use vstd::string::*;
use vstd::utf8::{decode_utf8, encode_utf8, valid_utf8};

use crate::bytes::{chars, dec, le32};
use crate::cli::accept_module;
use crate::config::schema::{Application, StaticSettings};
use crate::config::table::{text_map, Table};
use crate::control::config_message;
use crate::echo::{body_source, BodySource, Inbound, Routed, Tasks};
use crate::ipc::frame::{kind_code, FrameHeader};
use crate::ipc::hello::{hello_bytes, Hello};
use crate::ipc::request::{says, RequestModel};
use crate::ipc::{FrameKind, RequestView};
use crate::json::{json_list, json_members, json_option, json_text};
use crate::laws::pool::{four, lemma_on_wire, on_wire};
use crate::router::http1::conn::{
    admits_connection, body_too_slow, failure_answer, Failure, PoolCaps,
};
use crate::router::http1::stage::Stage;
use crate::router::matching::lowered_chars;
use crate::router::routes::Decision;
use crate::router::serve_static::builtin_mime;
use crate::router::setup::{inverted, mime_overrides, with_type};
use crate::router::uri::{month_name, weekday_name};
use crate::supervisor::{in_order, ini, ini_file, module_app_config, DropIds};
use crate::text::{option_text, texts, trimmed};
use crate::worker::hello_frame;

verus! {

/// A connection is taken while fewer are open than may be; without a limit always.
pub proof fn a_connection_is_taken_below_the_limit(open: u64, max: u64, r: bool)
    requires
        call_ensures(admits_connection, (open, max), r),
    ensures
        max == 0 ==> r,
        max > 0 ==> r == (open < max),
{
}

/// A body is too slow only once the time of grace is over, and only where less of
/// it came than the rate asks for.
pub proof fn a_slow_body_is_given_time(received: u64, elapsed: u64, grace: u64, rate: u64, r: bool)
    requires
        call_ensures(body_too_slow, (received, elapsed, grace, rate), r),
    ensures
        elapsed <= grace ==> !r,
        rate == 0 ==> !r,
        received >= rate * elapsed ==> !r,
        elapsed > grace && rate > 0 && received < rate * elapsed ==> r,
{
}

/// A failure has its status. The connection ends where the client's bytes cannot be
/// told apart any more, and where no application is there.
pub proof fn a_failure_has_its_status(f: Failure, keep_alive: bool, r: (u16, bool))
    requires
        call_ensures(failure_answer, (f, keep_alive), r),
    ensures
        f is Head ==> r == (431u16, false),
        f is Body ==> r == (408u16, false),
        f is NoPool ==> r == (500u16, false),
        f is Spill || f is Payload ==> r == (500u16, keep_alive),
{
}

/// A request becomes a WebSocket only where the client asked for one and its route
/// leads, without a miss, to an application that speaks it.
pub proof fn only_who_speaks_it_gets_an_upgrade(
    s: &Stage<'_>,
    key: &Option<Vec<u8>>,
    pools: &Table<PoolCaps>,
    r: bool,
)
    requires
        call_ensures(Stage::upgrades, (s, key, pools), r),
    ensures
        r ==> *key is Some && s.misses == 0,
        r ==> (s.decision matches Decision::Application(n) && pools.has(n@) && pools.at(
            n@,
        ).websocket),
        *key is Some && s.misses == 0 && (s.decision matches Decision::Application(n)
            && pools.has(n@) && pools.at(n@).websocket) ==> r,
{
}

/// A file has the usual type of its extension, and one whose extension is not known
/// is plain bytes.
#[verifier::spinoff_prover]
#[verifier::rlimit(50)]
pub proof fn files_have_their_usual_types(ext: Seq<char>)
    ensures
        (ext == "html"@ || ext == "htm"@) ==> builtin_mime(ext) == "text/html"@,
        ext == "css"@ ==> builtin_mime(ext) == "text/css"@,
        (ext == "js"@ || ext == "mjs"@) ==> builtin_mime(ext) == "text/javascript"@,
        ext == "json"@ ==> builtin_mime(ext) == "application/json"@,
        ext == "txt"@ ==> builtin_mime(ext) == "text/plain"@,
        ext == "svg"@ ==> builtin_mime(ext) == "image/svg+xml"@,
        ext == "png"@ ==> builtin_mime(ext) == "image/png"@,
        (ext == "jpg"@ || ext == "jpeg"@) ==> builtin_mime(ext) == "image/jpeg"@,
        ext == "gif"@ ==> builtin_mime(ext) == "image/gif"@,
        ext == "webp"@ ==> builtin_mime(ext) == "image/webp"@,
        ext == "ico"@ ==> builtin_mime(ext) == "image/x-icon"@,
        ext == "woff2"@ ==> builtin_mime(ext) == "font/woff2"@,
        ext == "woff"@ ==> builtin_mime(ext) == "font/woff"@,
        ext == "pdf"@ ==> builtin_mime(ext) == "application/pdf"@,
        ext == "xml"@ ==> builtin_mime(ext) == "application/xml"@,
        ext == "wasm"@ ==> builtin_mime(ext) == "application/wasm"@,
        ({
            &&& ext != "html"@ && ext != "htm"@ && ext != "css"@
            &&& ext != "js"@ && ext != "mjs"@ && ext != "json"@
            &&& ext != "txt"@ && ext != "svg"@ && ext != "png"@
            &&& ext != "jpg"@ && ext != "jpeg"@ && ext != "gif"@
            &&& ext != "webp"@ && ext != "ico"@ && ext != "woff2"@
            &&& ext != "woff"@ && ext != "pdf"@ && ext != "xml"@
            &&& ext != "wasm"@
        }) ==> builtin_mime(ext) == "application/octet-stream"@,
{
    reveal_strlit("html");
    reveal_strlit("htm");
    reveal_strlit("css");
    reveal_strlit("js");
    reveal_strlit("mjs");
    reveal_strlit("json");
    reveal_strlit("txt");
    reveal_strlit("svg");
    reveal_strlit("png");
    reveal_strlit("jpg");
    reveal_strlit("jpeg");
    reveal_strlit("gif");
    reveal_strlit("webp");
    reveal_strlit("ico");
    reveal_strlit("woff2");
    reveal_strlit("woff");
    reveal_strlit("pdf");
    reveal_strlit("xml");
    reveal_strlit("wasm");
    assert("html"@.len() == 4 && "htm"@.len() == 3 && "css"@.len() == 3);
    assert("js"@.len() == 2 && "mjs"@.len() == 3 && "json"@.len() == 4);
    assert("txt"@.len() == 3 && "svg"@.len() == 3 && "png"@.len() == 3);
    assert("jpg"@.len() == 3 && "jpeg"@.len() == 4 && "gif"@.len() == 3);
    assert("webp"@.len() == 4 && "ico"@.len() == 3 && "woff2"@.len() == 5);
    assert("woff"@.len() == 4 && "pdf"@.len() == 3 && "xml"@.len() == 3);
    assert("wasm"@.len() == 4);
    assert("html"@[0] != "json"@[0]);
    assert("html"@[0] != "jpeg"@[0]);
    assert("html"@[0] != "webp"@[0]);
    assert("html"@[0] != "woff"@[0]);
    assert("html"@[0] != "wasm"@[0]);
    assert("htm"@[0] != "css"@[0]);
    assert("htm"@[0] != "mjs"@[0]);
    assert("htm"@[0] != "txt"@[0]);
    assert("htm"@[0] != "svg"@[0]);
    assert("htm"@[0] != "png"@[0]);
    assert("htm"@[0] != "jpg"@[0]);
    assert("htm"@[0] != "gif"@[0]);
    assert("htm"@[0] != "ico"@[0]);
    assert("htm"@[0] != "pdf"@[0]);
    assert("htm"@[0] != "xml"@[0]);
    assert("css"@[0] != "mjs"@[0]);
    assert("css"@[0] != "txt"@[0]);
    assert("css"@[0] != "svg"@[0]);
    assert("css"@[0] != "png"@[0]);
    assert("css"@[0] != "jpg"@[0]);
    assert("css"@[0] != "gif"@[0]);
    assert("css"@[0] != "ico"@[0]);
    assert("css"@[0] != "pdf"@[0]);
    assert("css"@[0] != "xml"@[0]);
    assert("mjs"@[0] != "txt"@[0]);
    assert("mjs"@[0] != "svg"@[0]);
    assert("mjs"@[0] != "png"@[0]);
    assert("mjs"@[0] != "jpg"@[0]);
    assert("mjs"@[0] != "gif"@[0]);
    assert("mjs"@[0] != "ico"@[0]);
    assert("mjs"@[0] != "pdf"@[0]);
    assert("mjs"@[0] != "xml"@[0]);
    assert("json"@[1] != "jpeg"@[1]);
    assert("json"@[0] != "webp"@[0]);
    assert("json"@[0] != "woff"@[0]);
    assert("json"@[0] != "wasm"@[0]);
    assert("txt"@[0] != "svg"@[0]);
    assert("txt"@[0] != "png"@[0]);
    assert("txt"@[0] != "jpg"@[0]);
    assert("txt"@[0] != "gif"@[0]);
    assert("txt"@[0] != "ico"@[0]);
    assert("txt"@[0] != "pdf"@[0]);
    assert("txt"@[0] != "xml"@[0]);
    assert("svg"@[0] != "png"@[0]);
    assert("svg"@[0] != "jpg"@[0]);
    assert("svg"@[0] != "gif"@[0]);
    assert("svg"@[0] != "ico"@[0]);
    assert("svg"@[0] != "pdf"@[0]);
    assert("svg"@[0] != "xml"@[0]);
    assert("png"@[0] != "jpg"@[0]);
    assert("png"@[0] != "gif"@[0]);
    assert("png"@[0] != "ico"@[0]);
    assert("png"@[1] != "pdf"@[1]);
    assert("png"@[0] != "xml"@[0]);
    assert("jpg"@[0] != "gif"@[0]);
    assert("jpg"@[0] != "ico"@[0]);
    assert("jpg"@[0] != "pdf"@[0]);
    assert("jpg"@[0] != "xml"@[0]);
    assert("jpeg"@[0] != "webp"@[0]);
    assert("jpeg"@[0] != "woff"@[0]);
    assert("jpeg"@[0] != "wasm"@[0]);
    assert("gif"@[0] != "ico"@[0]);
    assert("gif"@[0] != "pdf"@[0]);
    assert("gif"@[0] != "xml"@[0]);
    assert("webp"@[1] != "woff"@[1]);
    assert("webp"@[1] != "wasm"@[1]);
    assert("ico"@[0] != "pdf"@[0]);
    assert("ico"@[0] != "xml"@[0]);
    assert("woff"@[1] != "wasm"@[1]);
    assert("pdf"@[0] != "xml"@[0]);
}

/// The months and the days of the week have their names; the first of January 1970
/// was a Thursday.
pub proof fn days_and_months_have_their_names(day: int)
    ensures
        month_name(1) == "Jan"@ && month_name(2) == "Feb"@ && month_name(3) == "Mar"@,
        month_name(4) == "Apr"@ && month_name(5) == "May"@ && month_name(6) == "Jun"@,
        month_name(7) == "Jul"@ && month_name(8) == "Aug"@ && month_name(9) == "Sep"@,
        month_name(10) == "Oct"@ && month_name(11) == "Nov"@ && month_name(12) == "Dec"@,
        weekday_name(7 * day) == "Thu"@ && weekday_name(7 * day + 1) == "Fri"@,
        weekday_name(7 * day + 2) == "Sat"@ && weekday_name(7 * day + 3) == "Sun"@,
        weekday_name(7 * day + 4) == "Mon"@ && weekday_name(7 * day + 5) == "Tue"@,
        weekday_name(7 * day + 6) == "Wed"@,
{
    assert((7 * day) % 7 == 0);
    assert((7 * day + 1) % 7 == 1);
    assert((7 * day + 2) % 7 == 2);
    assert((7 * day + 3) % 7 == 3);
    assert((7 * day + 4) % 7 == 4);
    assert((7 * day + 5) % 7 == 5);
    assert((7 * day + 6) % 7 == 6);
}

/// An extension as it is compared: without its dot, in small letters.
pub open spec fn key_of(ext: String) -> Seq<char> {
    lowered_chars(trimmed(ext@, '.'))
}

/// Whether a type is configured for an extension.
pub open spec fn configured(e: (String, Vec<String>), k: Seq<char>) -> bool {
    exists|j: int| 0 <= j < e.1@.len() && key_of(#[trigger] e.1@[j]) == k
}

proof fn lemma_with_type(
    m: Map<Seq<char>, Seq<char>>,
    mime: Seq<char>,
    exts: Seq<String>,
    k: Seq<char>,
)
    ensures
        ({
            let n = with_type(m, mime, exts);
            if exists|j: int| 0 <= j < exts.len() && key_of(#[trigger] exts[j]) == k {
                n.dom().contains(k) && n[k] == mime
            } else {
                n.dom().contains(k) == m.dom().contains(k) && (m.dom().contains(k) ==> n[k] == m[k])
            }
        }),
    decreases exts.len(),
{
    if exts.len() > 0 {
        let init = exts.drop_last();
        lemma_with_type(m, mime, init, k);
        assert(exts[exts.len() - 1] == exts.last());
        if exists|j: int| 0 <= j < init.len() && key_of(#[trigger] init[j]) == k {
            let j = choose|j: int| 0 <= j < init.len() && key_of(#[trigger] init[j]) == k;
            assert(exts[j] == init[j]);
        } else if key_of(exts.last()) != k {
            assert forall|j: int| 0 <= j < exts.len() implies key_of(#[trigger] exts[j]) != k by {
                if j < init.len() {
                    assert(init[j] == exts[j]);
                }
            }
        }
    }
}

/// A file's type is that which is configured for its extension; where several are,
/// the last of them.
pub proof fn the_last_type_that_is_configured_counts(
    settings: &Option<StaticSettings>,
    s: StaticSettings,
    k: Seq<char>,
    i: int,
    r: Table<String>,
)
    requires
        call_ensures(mime_overrides, (settings,), r),
        *settings == Some(s),
    ensures
        ({
            let e = s.mime_types.entries();
            &&& 0 <= i < e.len() && configured(e[i], k) && (forall|j: int|
                i < j < e.len() ==> !configured(#[trigger] e[j], k)) ==> text_map(
                r,
            ).dom().contains(k) && text_map(r)[k] == e[i].0@
            &&& (forall|j: int| 0 <= j < e.len() ==> !configured(#[trigger] e[j], k))
                ==> !text_map(r).dom().contains(k)
        }),
{
    lemma_inverted(s.mime_types.entries(), k, i);
}

proof fn lemma_inverted(e: Seq<(String, Vec<String>)>, k: Seq<char>, i: int)
    ensures
        0 <= i < e.len() && configured(e[i], k) && (forall|j: int|
            i < j < e.len() ==> !configured(#[trigger] e[j], k)) ==> inverted(e).dom().contains(k)
            && inverted(e)[k] == e[i].0@,
        (forall|j: int| 0 <= j < e.len() ==> !configured(#[trigger] e[j], k)) ==> !inverted(
            e,
        ).dom().contains(k),
    decreases e.len(),
{
    if e.len() > 0 {
        let init = e.drop_last();
        lemma_inverted(init, k, i);
        lemma_with_type(inverted(init), e.last().0@, e.last().1@, k);
        assert(e[e.len() - 1] == e.last());
        assert forall|j: int| 0 <= j < init.len() implies #[trigger] init[j] == e[j] by {}
        if forall|j: int| 0 <= j < e.len() ==> !configured(#[trigger] e[j], k) {
            assert forall|j: int| 0 <= j < init.len() implies !configured(#[trigger] init[j], k) by {
                assert(!configured(e[j], k));
            }
            assert(!configured(e[e.len() - 1], k));
        }
        if 0 <= i < init.len() && configured(e[i], k) && (forall|j: int|
            i < j < e.len() ==> !configured(#[trigger] e[j], k)) {
            assert forall|j: int| i < j < init.len() implies !configured(#[trigger] init[j], k) by {
                assert(!configured(e[j], k));
            }
            assert(!configured(e[e.len() - 1], k));
            assert(init[i] == e[i]);
        }
    }
}

/// A module is used only if it speaks the protocol's first version. Its extensions
/// are taken in their order.
pub proof fn a_module_must_speak_the_protocol(
    module: &str,
    version: u64,
    exts: &Vec<String>,
    r: Result<Vec<String>, String>,
)
    requires
        call_ensures(accept_module, (module, version, exts), r),
    ensures
        (r is Ok) == (version == 1),
        r matches Ok(v) ==> v@.len() == exts@.len() && forall|i: int|
            0 <= i < v@.len() ==> (#[trigger] v@[i])@ == key_of(exts@[i]),
{
}

/// Where the body of a request is: with it, in the file that stands in its place,
/// or still to come.
pub proof fn a_body_is_where_its_flags_say(
    view: &RequestView<'_>,
    m: RequestModel,
    flags: u8,
    r: Result<BodySource, String>,
)
    requires
        call_ensures(body_source, (view, flags), r),
        says(view.payload(), m),
    ensures
        flags & 2u8 != 0 ==> r == Ok::<BodySource, String>(BodySource::Stream(m.content_length)),
        flags & 2u8 == 0 && flags & 1u8 == 0 ==> (r matches Ok(BodySource::Inline(v)) && v@
            == m.body),
        flags & 2u8 == 0 && flags & 1u8 != 0 && valid_utf8(m.body) ==> (
        r matches Ok(BodySource::File(s)) && s@ == decode_utf8(m.body)),
{
}

/// What arrives for a task reaches that task as what it is. One that is aborted is
/// stopped and given back; a question is answered by whether it still runs.
pub proof fn what_arrives_reaches_its_task(
    t: &mut Tasks,
    h: &FrameHeader,
    payload: Vec<u8>,
    r: Routed,
)
    requires
        call_ensures(Tasks::route, (t, h, payload), r),
    ensures
        ({
            let id = h.request_id;
            let code = kind_code(h.kind);
            &&& code == 4 && old(t)@.routes.contains(id) ==> (
            r matches Routed::Deliver(i, Inbound::Body(v)) && i == id && v@ == payload@)
            &&& code == 17 && old(t)@.routes.contains(id) ==> (
            r matches Routed::Deliver(i, Inbound::Ws(op, v)) && i == id && op == h.aux && v@
                == payload@)
            &&& code == 13 ==> (r matches Routed::Answer(v) && v@ == on_wire(
                14,
                id,
                if old(t)@.running.contains(id) {
                    1
                } else {
                    0
                },
                seq![],
            ))
            &&& code == 15 && old(t)@.running.contains(id) ==> {
                &&& r matches Routed::Cancel(i, v) && i == id && v@ == on_wire(11, id, 0, seq![])
                &&& !final(t)@.running.contains(id) && !final(t)@.routes.contains(id)
            }
            &&& code != 15 ==> final(t)@ == old(t)@
        }),
{
    let id = h.request_id;
    lemma_on_wire(FrameKind::Pong, id, 0, seq![]);
    lemma_on_wire(FrameKind::Pong, id, 1, seq![]);
    lemma_on_wire(FrameKind::Done, id, 0, seq![]);
}

/// A worker introduces itself with the protocol's mark and version, its process,
/// how much it can do at once and what it can do.
pub proof fn a_worker_introduces_itself(
    pid: u32,
    concurrency: u32,
    capabilities: u32,
    r: Vec<u8>,
)
    requires
        call_ensures(hello_frame, (pid, concurrency, capabilities), r),
    ensures
        r@ == on_wire(
            1,
            0,
            0,
            seq![66u8, 87, 80, 0] + four(1) + four(pid) + four(concurrency) + four(capabilities),
        ),
{
    let h = Hello { version: 1, pid, concurrency, capabilities };
    lemma_on_wire(FrameKind::Hello, 0, 0, hello_bytes(h));
    assert(le32(1) =~= four(1));
    assert(le32(pid) =~= four(pid));
    assert(le32(concurrency) =~= four(concurrency));
    assert(le32(capabilities) =~= four(capabilities));
}

/// A configuration goes to a module behind its length, unless it is over a
/// mebibyte.
pub proof fn a_configuration_goes_behind_its_length(config: &str, r: Option<Vec<u8>>)
    requires
        call_ensures(config_message, (config,), r),
    ensures
        ({
            let b = encode_utf8(config@);
            &&& b.len() <= 1048576 ==> (r matches Some(m) && m@ == four(b.len() as u32) + b)
            &&& b.len() > 1048576 ==> r is None
        }),
{
    let n = encode_utf8(config@).len() as u32;
    assert(le32(n) =~= four(n));
}

/// What a module is told of its application: each setting under its own name.
pub proof fn a_module_is_told_of_its_application(
    app: &Application,
    ids: &DropIds,
    root: &str,
    r: String,
)
    requires
        call_ensures(module_app_config, (app, ids, root), r),
    ensures
        exists|admin: Seq<(Seq<char>, Seq<char>)>, user: Seq<(Seq<char>, Seq<char>)>|
            #![trigger
                in_order(admin, ini(app.options, "admin"@)),
                in_order(user, ini(app.options, "user"@))
            ]
            in_order(admin, ini(app.options, "admin"@)) && in_order(
                user,
                ini(app.options, "user"@),
            ) && r@ == "{\"admin\":{"@ + json_members(admin) + "},\"execute\":["@ + json_list(
                texts(app.execute@),
            ) + "],\"group_id\":"@ + id_text(ids.gid) + ",\"index\":"@ + json_option(
                option_text(app.index),
            ) + ",\"ini_file\":"@ + json_option(ini_file(app.options)) + ",\"max_requests\":"@
                + chars(dec(app.limits.requests as nat)) + ",\"root\":"@ + json_text(root@)
                + ",\"script\":"@ + json_option(option_text(app.script)) + ",\"user\":{"@
                + json_members(user) + "},\"user_id\":"@ + id_text(ids.uid) + ",\"user_name\":"@
                + json_option(option_text(ids.user_name)) + "}"@,
{
}

/// A number that may be missing.
pub open spec fn id_text(n: Option<u32>) -> Seq<char> {
    match n {
        Some(n) => chars(dec(n as nat)),
        None => "null"@,
    }
}

} // verus!
