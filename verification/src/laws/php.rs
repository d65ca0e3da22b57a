//! What a PHP application makes of a request.

use vstd::prelude::*;
use vstd::string::*;
use vstd::utf8::{decode_utf8, encode_utf8, is_ascii_chars_encode_utf8, valid_utf8};

use crate::bytes::{chars, dec, is_ascii, lemma_ascii, text, u32_at, u64_at};
use crate::ipc::request::{entry, says, RequestModel};
use crate::ipc::{BwpError, RequestView};
use crate::php::engine::{engine_call, last_header, EngineCall};
use crate::php::script::{
    cut_after, executable_exts, is_executable, resolve_script, verdict, OnDisk, Resolution,
    ResolvedScript, ScriptModel, Target,
};
use crate::php::vars::{
    build_server_vars, connection_items, header_items, header_var, item, path_items, request_items,
    server_items, told, type_items, types_content, var_char, variables_lie_where_their_entries_say,
    ServerVars, Variable,
};
use crate::php::AppConfig;
use crate::text::{ends_in, first_of, first_stands_at, stands_at, texts, trimmed, trimmed_end};
use crate::ipc::FrameKind;
use crate::laws::pool::{lemma_on_wire, on_wire};
use crate::php::page::page_headers;
use crate::php::session::Session;
use crate::worker::Responder;

verus! {

/// What is left of a text without the given character at its end.
pub open spec fn without_end(s: Seq<char>, c: char, left: Seq<char>) -> bool {
    &&& left.len() <= s.len()
    &&& s.subrange(0, left.len() as int) == left
    &&& forall|i: int| left.len() <= i < s.len() ==> s[i] == c
    &&& left.len() > 0 ==> left[left.len() - 1] != c
}

/// What is left of a text without the given character at its start.
pub open spec fn without_start(s: Seq<char>, c: char, left: Seq<char>) -> bool {
    &&& left.len() <= s.len()
    &&& s.subrange(s.len() - left.len(), s.len() as int) == left
    &&& forall|i: int| 0 <= i < s.len() - left.len() ==> s[i] == c
    &&& left.len() > 0 ==> left[0] != c
}

proof fn lemma_without_end(s: Seq<char>, c: char, left: Seq<char>)
    requires
        without_end(s, c, left),
    ensures
        trimmed_end(s, c) == left,
    decreases s.len(),
{
    if s.len() == left.len() {
        assert(s =~= left);
    } else {
        assert(s[s.len() - 1] == c);
        assert(s.drop_last().subrange(0, left.len() as int) =~= left);
        lemma_without_end(s.drop_last(), c, left);
    }
}

pub proof fn lemma_without_start(s: Seq<char>, c: char, left: Seq<char>)
    requires
        without_start(s, c, left),
    ensures
        trimmed(s, c) == left,
    decreases s.len(),
{
    if s.len() == left.len() {
        assert(s =~= left);
    } else {
        assert(s[0] == c);
        let t = s.subrange(1, s.len() as int);
        assert(t.subrange(t.len() - left.len(), t.len() as int) =~= left);
        lemma_without_start(t, c, left);
    }
}

/// What marks a file as a script: its extension is one of PHP's two or one of
/// those that are configured.
pub open spec fn marks(app: AppConfig, k: int) -> Seq<char> {
    if k == 0 {
        ".php"@
    } else if k == 1 {
        ".phtml"@
    } else {
        app.execute@[k - 2]@
    }
}

/// Whether a text holds another at a place.
pub open spec fn holds_at(s: Seq<char>, m: Seq<char>, i: int) -> bool {
    &&& 0 <= i <= i + m.len() <= s.len()
    &&& forall|j: int| 0 <= j < m.len() ==> s[i + j] == #[trigger] m[j]
}

/// Whether a text holds another anywhere.
pub open spec fn holds(s: Seq<char>, m: Seq<char>) -> bool {
    exists|i: int| holds_at(s, m, i)
}

/// The first of the extensions that the path holds with a slash behind it.
pub open spec fn first_marked(app: AppConfig, path: Seq<char>, k: int) -> bool {
    &&& 0 <= k < app.execute@.len() + 2
    &&& holds(path, marks(app, k).push('/'))
    &&& forall|j: int| 0 <= j < k ==> !holds(path, #[trigger] marks(app, j).push('/'))
}

/// A path that holds no such extension.
pub open spec fn unmarked(app: AppConfig, path: Seq<char>) -> bool {
    forall|k: int|
        0 <= k < app.execute@.len() + 2 ==> !holds(path, #[trigger] marks(app, k).push('/'))
}

proof fn lemma_slash()
    ensures
        "/"@ == seq!['/'],
{
    reveal_strlit("/");
    assert("/"@ =~= seq!['/']);
}

proof fn lemma_holds_at(s: Seq<char>, m: Seq<char>, i: int)
    ensures
        stands_at(s, m, i) == holds_at(s, m, i),
{
    if 0 <= i && i + m.len() <= s.len() {
        let part = s.subrange(i, i + m.len());
        if part == m {
            assert forall|j: int| 0 <= j < m.len() implies s[i + j] == #[trigger] m[j] by {
                assert(part[j] == m[j]);
            }
        }
        if holds_at(s, m, i) {
            assert(part =~= m);
        }
    }
}

proof fn lemma_first_place(s: Seq<char>, m: Seq<char>, i: int) -> (f: int)
    requires
        holds_at(s, m, i),
    ensures
        0 <= f <= i,
        first_stands_at(s, m, f),
    decreases i,
{
    if exists|j: int| 0 <= j < i && stands_at(s, m, j) {
        let j = choose|j: int| 0 <= j < i && stands_at(s, m, j);
        lemma_holds_at(s, m, j);
        lemma_first_place(s, m, j)
    } else {
        lemma_holds_at(s, m, i);
        i
    }
}

proof fn lemma_first_of(s: Seq<char>, m: Seq<char>)
    ensures
        (first_of(s, m) is Some) == holds(s, m),
        first_of(s, m) matches Some(f) ==> holds_at(s, m, f) && forall|j: int|
            0 <= j < f ==> !#[trigger] holds_at(s, m, j),
{
    if holds(s, m) {
        let i = choose|i: int| holds_at(s, m, i);
        let f = lemma_first_place(s, m, i);
        assert(first_stands_at(s, m, f));
    }
    if let Some(f) = first_of(s, m) {
        assert(first_stands_at(s, m, f));
        lemma_holds_at(s, m, f);
        assert forall|j: int| 0 <= j < f implies !#[trigger] holds_at(s, m, j) by {
            assert(!stands_at(s, m, j));
            lemma_holds_at(s, m, j);
        }
    }
}

proof fn lemma_exts(app: AppConfig)
    ensures
        executable_exts(app).len() == app.execute@.len() + 2,
        forall|k: int|
            0 <= k < app.execute@.len() + 2 ==> executable_exts(app)[k] == #[trigger] marks(app, k),
{
    let e = executable_exts(app);
    assert(texts(app.execute@).len() == app.execute@.len());
    assert forall|k: int| 0 <= k < e.len() implies e[k] == #[trigger] marks(app, k) by {
        if k >= 2 {
            assert(e[k] == texts(app.execute@)[k - 2]);
        }
    }
}

proof fn lemma_uncut(path: Seq<char>, exts: Seq<Seq<char>>)
    requires
        forall|k: int| 0 <= k < exts.len() ==> !holds(path, #[trigger] exts[k].push('/')),
    ensures
        cut_after(path, exts) is None,
    decreases exts.len(),
{
    lemma_slash();
    if exts.len() > 0 {
        assert(exts[0] + "/"@ =~= exts[0].push('/'));
        lemma_first_of(path, exts[0].push('/'));
        assert(!holds(path, exts[0].push('/')));
        let more = exts.subrange(1, exts.len() as int);
        assert forall|k: int| 0 <= k < more.len() implies !holds(
            path,
            #[trigger] more[k].push('/'),
        ) by {
            assert(more[k] == exts[k + 1]);
            assert(!holds(path, exts[k + 1].push('/')));
        }
        lemma_uncut(path, more);
    }
}

proof fn lemma_cut(path: Seq<char>, exts: Seq<Seq<char>>, k: int)
    requires
        0 <= k < exts.len(),
        holds(path, exts[k].push('/')),
        forall|j: int| 0 <= j < k ==> !holds(path, #[trigger] exts[j].push('/')),
    ensures
        cut_after(path, exts) matches Some(n) && holds_at(
            path,
            exts[k].push('/'),
            n - exts[k].len(),
        ) && forall|j: int|
            0 <= j < n - exts[k].len() ==> !#[trigger] holds_at(path, exts[k].push('/'), j),
    decreases exts.len(),
{
    lemma_slash();
    assert(exts[0] + "/"@ =~= exts[0].push('/'));
    lemma_first_of(path, exts[0].push('/'));
    if k > 0 {
        assert(!holds(path, exts[0].push('/')));
        let more = exts.subrange(1, exts.len() as int);
        assert forall|j: int| 0 <= j < k - 1 implies !holds(path, #[trigger] more[j].push('/')) by {
            assert(more[j] == exts[j + 1]);
            assert(!holds(path, exts[j + 1].push('/')));
        }
        assert(more[k - 1] == exts[k]);
        lemma_cut(path, more, k - 1);
    }
}

/// Without a front script a path that ends in a slash, and that holds no script's
/// extension with a slash behind it, leads to the index in that directory: to the
/// configured one whatever its name, and to `index.php` only where none is.
pub proof fn a_directory_leads_to_its_index(
    app: &AppConfig,
    bytes: &[u8],
    root: Seq<char>,
    r: Resolution,
)
    requires
        call_ensures(resolve_script, (app, bytes), r),
        valid_utf8(bytes@),
        app.script is None,
        without_end(app.root@, '/', root),
        ({
            let path = decode_utf8(bytes@);
            &&& path.len() > 0
            &&& path[path.len() - 1] == '/'
            &&& unmarked(*app, path)
        }),
    ensures
        ({
            let path = decode_utf8(bytes@);
            let index = match app.index {
                Some(i) => i@,
                None => "index.php"@,
            };
            r@ == Target::Script(
                ScriptModel {
                    filename: root + (path + index),
                    script_name: path + index,
                    path_info: None,
                },
            )
        }),
{
    let path = decode_utf8(bytes@);
    lemma_without_end(app.root@, '/', root);
    lemma_exts(*app);
    let exts = executable_exts(*app);
    assert forall|k: int| 0 <= k < exts.len() implies !holds(path, #[trigger] exts[k].push('/')) by {
        assert(!holds(path, marks(*app, k).push('/')));
    }
    lemma_uncut(path, exts);
    lemma_slash();
    lemma_holds_at(path, "/"@, path.len() - 1);
}

/// A front script takes every path.
pub proof fn a_front_script_takes_every_path(
    app: &AppConfig,
    bytes: &[u8],
    script: String,
    root: Seq<char>,
    name: Seq<char>,
    r: Resolution,
)
    requires
        call_ensures(resolve_script, (app, bytes), r),
        valid_utf8(bytes@),
        app.script == Some(script),
        without_end(app.root@, '/', root),
        without_start(script@, '/', name),
    ensures
        r@ == Target::Script(
            ScriptModel {
                filename: root + (seq!['/'] + name),
                script_name: seq!['/'] + name,
                path_info: None,
            },
        ),
{
    lemma_without_end(app.root@, '/', root);
    lemma_without_start(script@, '/', name);
    lemma_slash();
}

/// Without a front script a path that holds a script's extension with a slash
/// behind it leads to the script that ends there. All the rest, from that slash
/// on, is the path info.
#[verifier::spinoff_prover]
#[verifier::rlimit(50)]
pub proof fn what_follows_a_script_is_path_info(
    app: &AppConfig,
    bytes: &[u8],
    root: Seq<char>,
    k: int,
    r: Resolution,
)
    requires
        call_ensures(resolve_script, (app, bytes), r),
        valid_utf8(bytes@),
        app.script is None,
        without_end(app.root@, '/', root),
        first_marked(*app, decode_utf8(bytes@), k),
    ensures
        ({
            let path = decode_utf8(bytes@);
            let ext = marks(*app, k);
            &&& r@ matches Target::Script(s)
            &&& s.path_info matches Some(info)
            &&& s.script_name + info == path
            &&& s.filename == root + s.script_name
            &&& info.len() > 0 && info[0] == '/'
            &&& holds_at(path, ext, s.script_name.len() - ext.len())
            &&& forall|j: int|
                0 <= j < s.script_name.len() - ext.len() ==> !#[trigger] holds_at(
                    path,
                    ext.push('/'),
                    j,
                )
        }),
{
    let path = decode_utf8(bytes@);
    lemma_without_end(app.root@, '/', root);
    lemma_exts(*app);
    let exts = executable_exts(*app);
    assert(exts[k] == marks(*app, k));
    assert forall|j: int| 0 <= j < k implies !holds(path, #[trigger] exts[j].push('/')) by {
        assert(!holds(path, marks(*app, j).push('/')));
    }
    lemma_cut(path, exts, k);
    let n = cut_after(path, exts)->0;
    let ext = marks(*app, k);
    let at = n - ext.len();
    let whole = ext.push('/');
    assert(path[at + ext.len()] == whole[ext.len() as int]);
    assert forall|j: int| 0 <= j < ext.len() implies path[at + j] == #[trigger] ext[j] by {
        assert(whole[j] == ext[j]);
    }
    assert(path.subrange(0, n) + path.subrange(n, path.len() as int) =~= path);
}

/// Without a front script, and with no script's extension before a slash, a path
/// that ends in such an extension leads to that script. Any other path that does
/// not end in a slash names no script: what is there decides.
#[verifier::spinoff_prover]
#[verifier::rlimit(50)]
pub proof fn a_script_is_named_by_its_extension(
    app: &AppConfig,
    bytes: &[u8],
    root: Seq<char>,
    r: Resolution,
)
    requires
        call_ensures(resolve_script, (app, bytes), r),
        valid_utf8(bytes@),
        app.script is None,
        without_end(app.root@, '/', root),
        ({
            let path = decode_utf8(bytes@);
            &&& path.len() > 0 ==> path[path.len() - 1] != '/'
            &&& unmarked(*app, path)
        }),
    ensures
        ({
            let path = decode_utf8(bytes@);
            if exists|k: int|
                0 <= k < app.execute@.len() + 2 && holds_at(
                    path,
                    #[trigger] marks(*app, k),
                    path.len() - marks(*app, k).len(),
                ) {
                r@ == Target::Script(
                    ScriptModel { filename: root + path, script_name: path, path_info: None },
                )
            } else {
                r@ == Target::Probe(root + path)
            }
        }),
{
    let path = decode_utf8(bytes@);
    lemma_without_end(app.root@, '/', root);
    lemma_exts(*app);
    let exts = executable_exts(*app);
    assert forall|k: int| 0 <= k < exts.len() implies !holds(path, #[trigger] exts[k].push('/')) by {
        assert(!holds(path, marks(*app, k).push('/')));
    }
    lemma_uncut(path, exts);
    lemma_slash();
    lemma_holds_at(path, "/"@, path.len() - 1);
    if path.len() > 0 && holds_at(path, "/"@, path.len() - 1) {
        assert("/"@[0] == '/');
        assert(path[path.len() - 1 + 0] == '/');
    }
    assert forall|k: int| 0 <= k < exts.len() implies stands_at(
        path,
        #[trigger] exts[k],
        path.len() - exts[k].len(),
    ) == holds_at(path, marks(*app, k), path.len() - marks(*app, k).len()) by {
        lemma_holds_at(path, exts[k], path.len() - exts[k].len());
        assert(exts[k] == marks(*app, k));
    }
    if is_executable(path, exts) {
        let k = choose|k: int|
            0 <= k < exts.len() && ends_in(path, #[trigger] exts[k]);
        assert(holds_at(path, marks(*app, k), path.len() - marks(*app, k).len()));
    }
    if exists|k: int|
        0 <= k < app.execute@.len() + 2 && holds_at(
            path,
            #[trigger] marks(*app, k),
            path.len() - marks(*app, k).len(),
        ) {
        let k = choose|k: int|
            0 <= k < app.execute@.len() + 2 && holds_at(
                path,
                #[trigger] marks(*app, k),
                path.len() - marks(*app, k).len(),
            );
        assert(exts[k] == marks(*app, k));
        assert(ends_in(path, exts[k]));
    }
}

/// A path that is no text leads nowhere, and only a script that is a file is run.
pub proof fn only_a_file_is_run(
    app: &AppConfig,
    bytes: &[u8],
    r: Resolution,
    found: OnDisk,
    v: Result<ResolvedScript, u16>,
)
    requires
        call_ensures(resolve_script, (app, bytes), r),
        call_ensures(verdict, (r, found), v),
    ensures
        !valid_utf8(bytes@) ==> v == Err::<ResolvedScript, u16>(400),
        valid_utf8(bytes@) ==> {
            &&& v matches Ok(s) ==> found is File && r == Resolution::Script(s)
            &&& r is Script && found is File ==> v is Ok
            &&& found is Missing ==> v == Err::<ResolvedScript, u16>(404)
            &&& r is Probe && found is Directory ==> v == Err::<ResolvedScript, u16>(301)
            &&& v is Err && !(found is Missing) && !(r is Probe && found is Directory) ==> v
                == Err::<ResolvedScript, u16>(403)
        },
{
}

/// A byte of a header's name as it stands in a variable's: a capital letter, and
/// an underscore for a hyphen.
pub open spec fn capital(b: u8) -> u8 {
    if b == 45 {
        95
    } else if 97 <= b <= 122 {
        (b - 32) as u8
    } else {
        b
    }
}

/// The variable that tells of a header.
pub open spec fn variable_for(name: Seq<u8>) -> Seq<u8> {
    if name == text("content-type") {
        text("CONTENT_TYPE")
    } else if is_ascii(name) {
        text("HTTP_") + Seq::new(name.len(), |i: int| capital(name[i]))
    } else {
        header_var(name)
    }
}

/// The variables about what is asked for, and of which script.
pub open spec fn of_request(
    m: RequestModel,
    app: AppConfig,
    s: ScriptModel,
    name: Seq<u8>,
    value: Seq<u8>,
) -> bool {
    let info = match s.path_info {
        Some(i) => i,
        None => seq![],
    };
    ||| name == text("SERVER_SOFTWARE") && value == text("buran/0.1.0")
    ||| name == text("SERVER_PROTOCOL") && value == m.version
    ||| name == text("REQUEST_METHOD") && value == m.method
    ||| name == text("REQUEST_URI") && value == m.target
    ||| name == text("QUERY_STRING") && value == m.query
    ||| name == text("SCRIPT_FILENAME") && value == encode_utf8(s.filename)
    ||| name == text("SCRIPT_NAME") && value == encode_utf8(s.script_name)
    ||| name == text("DOCUMENT_ROOT") && value == encode_utf8(app.root@)
    ||| name == text("DOCUMENT_URI") && value == encode_utf8(s.script_name)
    ||| name == text("PHP_SELF") && value == encode_utf8(s.script_name + info)
}

/// What stands behind the script in the path, unless one script takes every path.
pub open spec fn of_path(app: AppConfig, s: ScriptModel, name: Seq<u8>, value: Seq<u8>) -> bool {
    let info = match s.path_info {
        Some(i) => i,
        None => seq![],
    };
    name == text("PATH_INFO") && app.script is None && value == encode_utf8(info)
}

/// The variables about the connection and the body.
pub open spec fn of_connection(m: RequestModel, name: Seq<u8>, value: Seq<u8>) -> bool {
    ||| name == text("REMOTE_ADDR") && value == m.remote_addr
    ||| name == text("SERVER_NAME") && value == m.server_name
    ||| name == text("SERVER_PORT") && value == dec(m.server_port as nat)
    ||| name == text("GATEWAY_INTERFACE") && value == text("CGI/1.1")
    ||| name == text("REQUEST_SCHEME") && value == text("http")
    ||| name == text("REDIRECT_STATUS") && value == text("200")
    ||| name == text("CONTENT_LENGTH") && value == if m.content_length > 0 {
        dec(m.content_length as nat)
    } else {
        seq![]
    }
}

/// The content type of a request that has none.
pub open spec fn of_no_type(m: RequestModel, name: Seq<u8>, value: Seq<u8>) -> bool {
    name == text("CONTENT_TYPE") && value == Seq::<u8>::empty() && forall|i: int|
        0 <= i < m.fields.len() ==> (#[trigger] m.fields[i]).0 != text("content-type")
}

/// What a script may learn of its request: every variable that there is, with its
/// value.
pub open spec fn describes(
    m: RequestModel,
    app: AppConfig,
    s: ScriptModel,
    name: Seq<u8>,
    value: Seq<u8>,
) -> bool {
    ||| of_request(m, app, s, name, value)
    ||| of_path(app, s, name, value)
    ||| of_connection(m, name, value)
    ||| tells_of_header(m, name, value)
    ||| of_no_type(m, name, value)
}

/// The variable that tells of one of the headers.
pub open spec fn tells_of_header(m: RequestModel, name: Seq<u8>, value: Seq<u8>) -> bool {
    exists|i: int|
        0 <= i < m.fields.len() && name == variable_for((#[trigger] m.fields[i]).0) && value
            == m.fields[i].1
}

/// A variable as the script finds it: its name, ended by a zero byte, and its
/// value, where its entry says.
pub open spec fn reads(vars: ServerVars, i: int, name: Seq<u8>, value: Seq<u8>) -> bool {
    let e = vars.entries@[i];
    &&& 0 <= i < vars.entries@.len()
    &&& e.0 < e.1 <= e.1 + e.2 <= vars.arena@.len()
    &&& vars.arena@.subrange(e.0 as int, e.1 - 1) == name
    &&& vars.arena@[e.1 - 1] == 0
    &&& vars.arena@.subrange(e.1 as int, e.1 + e.2) == value
}

/// A variable that tells what there is to tell.
pub open spec fn is_described(
    vars: ServerVars,
    i: int,
    m: RequestModel,
    app: AppConfig,
    s: ScriptModel,
) -> bool {
    exists|name: Seq<u8>, value: Seq<u8>|
        #[trigger] reads(vars, i, name, value) && describes(m, app, s, name, value)
}

proof fn lemma_told(items: Seq<Result<Variable, BwpError>>)
    requires
        told(items) is Ok,
    ensures
        ({
            let v = told(items)->Ok_0;
            &&& forall|j: int|
                0 <= j < v.len() ==> items.contains(Ok::<Variable, BwpError>(#[trigger] v[j]))
            &&& forall|k: int|
                0 <= k < items.len() ==> {
                    &&& #[trigger] items[k] is Ok
                    &&& !items[k]->Ok_0.1.contains(0) ==> v.contains(items[k]->Ok_0)
                }
        }),
    decreases items.len(),
{
    if items.len() > 0 {
        let init = items.drop_last();
        lemma_told(init);
        let v = told(items)->Ok_0;
        let w = told(init)->Ok_0;
        assert forall|j: int| 0 <= j < v.len() implies items.contains(
            Ok::<Variable, BwpError>(#[trigger] v[j]),
        ) by {
            if j < w.len() {
                assert(v[j] == w[j]);
                assert(init.contains(Ok::<Variable, BwpError>(w[j])));
                let k = choose|k: int|
                    0 <= k < init.len() && init[k] == Ok::<Variable, BwpError>(w[j]);
                assert(items[k] == init[k]);
            } else {
                assert(items[items.len() - 1] == Ok::<Variable, BwpError>(v[j]));
            }
        }
        assert forall|k: int| 0 <= k < items.len() implies {
            &&& #[trigger] items[k] is Ok
            &&& !items[k]->Ok_0.1.contains(0) ==> v.contains(items[k]->Ok_0)
        } by {
            if k < init.len() {
                assert(items[k] == init[k]);
                if !init[k]->Ok_0.1.contains(0) {
                    let j = choose|j: int| 0 <= j < w.len() && w[j] == init[k]->Ok_0;
                    assert(v[j] == w[j]);
                }
            } else if !items[k]->Ok_0.1.contains(0) {
                assert(v[w.len() as int] == items[k]->Ok_0);
            }
        }
    }
}

proof fn lemma_variable_for(name: Seq<u8>)
    ensures
        header_var(name) == variable_for(name),
{
    if name != text("content-type") && is_ascii(name) {
        reveal_strlit("HTTP_");
        is_ascii_chars_encode_utf8("HTTP_"@);
        let tail = Seq::new(name.len(), |i: int| capital(name[i]));
        let b = text("HTTP_") + tail;
        assert forall|i: int| 0 <= i < b.len() implies #[trigger] b[i] < 128 by {
            if i >= 5 {
                assert(name[i - 5] < 128);
            }
        }
        lemma_ascii(b);
        let c = "HTTP_"@ + Seq::new(name.len(), |i: int| var_char(name[i]));
        assert forall|i: int| 0 <= i < c.len() implies c[i] == chars(b)[i] by {
            if i >= 5 {
                assert(name[i - 5] < 128);
            }
        }
        assert(c =~= chars(b));
    }
}

proof fn lemma_five<T>(a: Seq<T>, b: Seq<T>, c: Seq<T>, d: Seq<T>, e: Seq<T>, x: T)
    ensures
        (a + b + c + d + e).contains(x) == (a.contains(x) || b.contains(x) || c.contains(x)
            || d.contains(x) || e.contains(x)),
{
    lemma_two_parts(a, b, x);
    lemma_two_parts(a + b, c, x);
    lemma_two_parts(a + b + c, d, x);
    lemma_two_parts(a + b + c + d, e, x);
}

proof fn lemma_two_parts<T>(a: Seq<T>, b: Seq<T>, x: T)
    ensures
        (a + b).contains(x) == (a.contains(x) || b.contains(x)),
{
    let s = a + b;
    if a.contains(x) {
        let i = choose|i: int| 0 <= i < a.len() && a[i] == x;
        assert(s[i] == x);
    }
    if b.contains(x) {
        let i = choose|i: int| 0 <= i < b.len() && b[i] == x;
        assert(s[a.len() + i] == x);
    }
    if s.contains(x) {
        let i = choose|i: int| 0 <= i < s.len() && s[i] == x;
        if i < a.len() {
            assert(a[i] == x);
        } else {
            assert(b[i - a.len()] == x);
        }
    }
}

/// Whether a list holds a variable.
spec fn lists(items: Seq<Result<Variable, BwpError>>, name: Seq<u8>, value: Seq<u8>) -> bool {
    items.contains(Ok::<Variable, BwpError>((name, value)))
}

#[verifier::spinoff_prover]
#[verifier::rlimit(50)]
proof fn lemma_request_items(
    p: Seq<u8>,
    app: AppConfig,
    s: ScriptModel,
    m: RequestModel,
    name: Seq<u8>,
    value: Seq<u8>,
)
    requires
        says(p, m),
    ensures
        lists(request_items(p, app, s), name, value) == of_request(m, app, s, name, value),
{
    let a = request_items(p, app, s);
    let it = Ok::<Variable, BwpError>((name, value));
    assert(a.contains(it) == (a[0] == it || a[1] == it || a[2] == it || a[3] == it || a[4] == it
        || a[5] == it || a[6] == it || a[7] == it || a[8] == it || a[9] == it));
}

proof fn lemma_seven<T>(a: T, b: T, c: T, d: T, e: T, f: T, g: T, x: T)
    ensures
        seq![a, b, c, d, e, f, g].contains(x) == (a == x || b == x || c == x || d == x || e == x
            || f == x || g == x),
{
    let s = seq![a, b, c, d, e, f, g];
    assert(s[0] == a && s[1] == b && s[2] == c && s[3] == d && s[4] == e && s[5] == f && s[6]
        == g);
}

#[verifier::spinoff_prover]
#[verifier::rlimit(50)]
proof fn lemma_connection_items(p: Seq<u8>, m: RequestModel, name: Seq<u8>, value: Seq<u8>)
    requires
        says(p, m),
    ensures
        lists(connection_items(p), name, value) == of_connection(m, name, value),
{
    let it = Ok::<Variable, BwpError>((name, value));
    let port = u32_at(p, 72);
    let length = u64_at(p, 60);
    assert(port == m.server_port && length == m.content_length);
    assert(port % 65536 == m.server_port) by (nonlinear_arith)
        requires
            port == m.server_port,
    ;
    lemma_seven(
        item(text("REMOTE_ADDR"), entry(p, 44)),
        item(text("SERVER_NAME"), entry(p, 52)),
        Ok::<Variable, BwpError>((text("SERVER_PORT"), dec((port % 65536) as nat))),
        Ok::<Variable, BwpError>((text("GATEWAY_INTERFACE"), text("CGI/1.1"))),
        Ok::<Variable, BwpError>((text("REQUEST_SCHEME"), text("http"))),
        Ok::<Variable, BwpError>((text("REDIRECT_STATUS"), text("200"))),
        Ok::<Variable, BwpError>(
            (
                text("CONTENT_LENGTH"),
                if length > 0 {
                    dec(length as nat)
                } else {
                    seq![]
                },
            ),
        ),
        it,
    );
}

proof fn lemma_path_items(app: AppConfig, s: ScriptModel, name: Seq<u8>, value: Seq<u8>)
    ensures
        lists(path_items(app, s), name, value) == of_path(app, s, name, value),
{
    let b = path_items(app, s);
    let it = Ok::<Variable, BwpError>((name, value));
    if app.script is None {
        assert(b.contains(it) == (b[0] == it));
    }
}

#[verifier::spinoff_prover]
#[verifier::rlimit(50)]
proof fn lemma_header_items(p: Seq<u8>, m: RequestModel, name: Seq<u8>, value: Seq<u8>)
    requires
        says(p, m),
    ensures
        lists(header_items(p), name, value) == tells_of_header(m, name, value),
{
    let d = header_items(p);
    let it = Ok::<Variable, BwpError>((name, value));
    assert forall|k: int| 0 <= k < m.fields.len() implies #[trigger] d[k] == Ok::<
        Variable,
        BwpError,
    >((variable_for(m.fields[k].0), m.fields[k].1)) by {
        lemma_field(p, m, k);
        lemma_variable_for(m.fields[k].0);
    }
    if d.contains(it) {
        let k = choose|k: int| 0 <= k < d.len() && d[k] == it;
        assert(name == variable_for(m.fields[k].0) && value == m.fields[k].1);
    }
    if tells_of_header(m, name, value) {
        let k = choose|k: int|
            0 <= k < m.fields.len() && name == variable_for((#[trigger] m.fields[k]).0) && value
                == m.fields[k].1;
        assert(d[k] == it);
    }
}

proof fn lemma_field(p: Seq<u8>, m: RequestModel, k: int)
    requires
        says(p, m),
        0 <= k < m.fields.len(),
    ensures
        entry(p, 80 + 16 * k) == Ok::<Seq<u8>, BwpError>(m.fields[k].0),
        entry(p, 80 + 16 * k + 8) == Ok::<Seq<u8>, BwpError>(m.fields[k].1),
{
    let f = m.fields[k];
}

proof fn lemma_type_items(p: Seq<u8>, m: RequestModel, name: Seq<u8>, value: Seq<u8>)
    requires
        says(p, m),
    ensures
        lists(type_items(p), name, value) == of_no_type(m, name, value),
{
    let n = m.fields.len() as int;
    let e = type_items(p);
    let it = Ok::<Variable, BwpError>((name, value));
    if types_content(p, n) {
        let k = choose|k: int|
            0 <= k < n && #[trigger] entry(p, 80 + 16 * k) == Ok::<Seq<u8>, BwpError>(
                text("content-type"),
            );
        lemma_field(p, m, k);
        assert(m.fields[k].0 == text("content-type"));
    } else {
        assert forall|k: int| 0 <= k < n implies (#[trigger] m.fields[k]).0 != text(
            "content-type",
        ) by {
            lemma_field(p, m, k);
        }
        assert(e.contains(it) == (e[0] == it));
    }
}

proof fn lemma_all_items(
    p: Seq<u8>,
    app: AppConfig,
    s: ScriptModel,
    m: RequestModel,
    name: Seq<u8>,
    value: Seq<u8>,
)
    requires
        says(p, m),
    ensures
        lists(server_items(p, app, s), name, value) == describes(m, app, s, name, value),
{
    lemma_five(
        request_items(p, app, s),
        path_items(app, s),
        connection_items(p),
        header_items(p),
        type_items(p),
        Ok::<Variable, BwpError>((name, value)),
    );
    lemma_request_items(p, app, s, m, name, value);
    lemma_path_items(app, s, name, value);
    lemma_connection_items(p, m, name, value);
    lemma_header_items(p, m, name, value);
    lemma_type_items(p, m, name, value);
}

/// A script finds in its variables what its request says, each value under its own
/// name, and nothing else. Only a value that holds a zero byte is left out.
#[verifier::spinoff_prover]
#[verifier::rlimit(50)]
pub proof fn a_script_learns_what_its_request_says(
    req: &RequestView<'_>,
    app: &AppConfig,
    script: &ResolvedScript,
    m: RequestModel,
    vars: ServerVars,
)
    requires
        call_ensures(
            build_server_vars,
            (req, app, script),
            Ok::<ServerVars, BwpError>(vars),
        ),
        says(req.payload(), m),
    ensures
        forall|i: int|
            0 <= i < vars.entries@.len() ==> #[trigger] is_described(vars, i, m, *app, script@),
        forall|name: Seq<u8>, value: Seq<u8>| #[trigger]
            describes(m, *app, script@, name, value) && !value.contains(0) ==> exists|i: int|
                reads(vars, i, name, value),
{
    let p = req.payload();
    let items = server_items(p, *app, script@);
    let v = told(items)->Ok_0;
    lemma_told(items);
    assert forall|i: int| 0 <= i < vars.entries@.len() implies #[trigger] is_described(
        vars,
        i,
        m,
        *app,
        script@,
    ) by {
        variables_lie_where_their_entries_say(vars, v, i);
        assert(items.contains(Ok::<Variable, BwpError>(v[i])));
        lemma_all_items(p, *app, script@, m, v[i].0, v[i].1);
        assert(reads(vars, i, v[i].0, v[i].1));
    }
    assert forall|name: Seq<u8>, value: Seq<u8>| #[trigger]
        describes(m, *app, script@, name, value) && !value.contains(0) implies exists|i: int|
        reads(vars, i, name, value) by {
        lemma_all_items(p, *app, script@, m, name, value);
        let it = Ok::<Variable, BwpError>((name, value));
        let k = choose|k: int| 0 <= k < items.len() && items[k] == it;
        assert(items[k]->Ok_0 == (name, value));
        assert(v.contains((name, value)));
        let i = choose|i: int| 0 <= i < v.len() && v[i] == (name, value);
        variables_lie_where_their_entries_say(vars, v, i);
        assert(reads(vars, i, name, value));
    }
}

/// The last of a request's headers that has a name.
pub open spec fn last_field(m: RequestModel, name: Seq<u8>, n: int, k: int) -> bool {
    &&& 0 <= k < n
    &&& m.fields[k].0 == name
    &&& forall|j: int| k < j < n ==> (#[trigger] m.fields[j]).0 != name
}

/// What the engine is handed of a header: the last value under its name, unless it
/// holds a zero byte.
pub open spec fn handed(m: RequestModel, name: Seq<u8>, v: Option<Vec<u8>>) -> bool {
    &&& forall|k: int| #[trigger]
        last_field(m, name, m.fields.len() as int, k) ==> if m.fields[k].1.contains(0) {
            v is None
        } else {
            v matches Some(x) && x@ == m.fields[k].1
        }
    &&& (forall|k: int| 0 <= k < m.fields.len() ==> (#[trigger] m.fields[k]).0 != name) ==> v
        is None
}

proof fn lemma_last_header(p: Seq<u8>, m: RequestModel, name: Seq<u8>, n: int)
    requires
        says(p, m),
        0 <= n <= m.fields.len(),
    ensures
        forall|k: int| #[trigger]
            last_field(m, name, n, k) ==> last_header(p, name, n) == if m.fields[k].1.contains(
                0,
            ) {
                None
            } else {
                Some(m.fields[k].1)
            },
        (forall|k: int| 0 <= k < n ==> (#[trigger] m.fields[k]).0 != name) ==> last_header(
            p,
            name,
            n,
        ) is None,
    decreases n,
{
    if n > 0 {
        lemma_last_header(p, m, name, n - 1);
        let f = m.fields[n - 1];
        assert(entry(p, 80 + 16 * (n - 1)) == Ok::<Seq<u8>, BwpError>(f.0));
        assert(entry(p, 80 + 16 * (n - 1) + 8) == Ok::<Seq<u8>, BwpError>(f.1));
        assert forall|k: int| #[trigger] last_field(m, name, n, k) implies last_header(p, name, n)
            == if m.fields[k].1.contains(0) {
            None
        } else {
            Some(m.fields[k].1)
        } by {
            if k < n - 1 {
                assert(m.fields[n - 1].0 != name);
                assert(last_field(m, name, n - 1, k));
            }
        }
        if forall|k: int| 0 <= k < n ==> (#[trigger] m.fields[k]).0 != name {
            assert(m.fields[n - 1].0 != name);
        }
    }
}

/// The engine is handed the request's method, target and query, and of its headers
/// the content type, the cookies and the credentials.
pub proof fn the_engine_is_handed_the_request(
    req: &RequestView<'_>,
    m: RequestModel,
    c: EngineCall,
)
    requires
        call_ensures(engine_call, (req,), Ok::<EngineCall, BwpError>(c)),
        says(req.payload(), m),
    ensures
        !m.method.contains(0) ==> c.method@ == m.method,
        !m.target.contains(0) ==> c.uri@ == m.target,
        m.query.len() > 0 && !m.query.contains(0) ==> (c.query matches Some(q) && q@ == m.query),
        m.query.len() == 0 || m.query.contains(0) ==> c.query is None,
        handed(m, text("content-type"), c.content_type),
        handed(m, text("cookie"), c.cookies),
        handed(m, text("authorization"), c.auth),
{
    let p = req.payload();
    let n = m.fields.len() as int;
    lemma_last_header(p, m, text("content-type"), n);
    lemma_last_header(p, m, text("cookie"), n);
    lemma_last_header(p, m, text("authorization"), n);
}

/// What a script gives goes out as it gives it: its status and its header lines,
/// each ended, before anything else, then each piece of its output. A status out of
/// range is brought into it.
pub proof fn a_scripts_output_goes_out_as_it_comes(
    a: &mut Session,
    b: &mut Session,
    c: &mut Session,
    d: &mut Session,
    status: i32,
    line: &[u8],
    chunk: &[u8],
    r: (usize, bool),
)
    requires
        call_ensures(Session::headers_begin, (a, status), ()),
        old(b)@ == final(a)@,
        call_ensures(Session::header_line, (b, line), ()),
        old(c)@ == final(b)@,
        call_ensures(Session::headers_end, (c,), ()),
        old(d)@ == final(c)@,
        call_ensures(Session::ub_write, (d, chunk), r),
        !old(a)@.released && !old(a)@.broken,
        !old(a)@.progress.headers_sent && !old(a)@.progress.gone && !old(a)@.progress.finished,
        chunk@.len() > 0,
    ensures
        ({
            let s = old(a)@;
            let code = if status < 100 {
                100
            } else if status > 599 {
                599
            } else {
                status as u32
            };
            &&& final(c)@.collected == s.collected + on_wire(
                7,
                s.id,
                code,
                line@ + text("\r\n"),
            )
            &&& final(c)@.progress.headers_sent
            &&& final(d)@.collected == final(c)@.collected + on_wire(8, s.id, 0, chunk@)
            &&& r.0 == chunk@.len()
        }),
{
    let s = old(a)@;
    let code = final(a)@.status as u32;
    assert(Seq::<u8>::empty() + line@ =~= line@);
    lemma_on_wire(FrameKind::ResponseHeaders, s.id, code, line@ + text("\r\n"));
    lemma_on_wire(FrameKind::ResponseBody, s.id, 0, chunk@);
}

/// A script reads the body of its request from the start, each byte once.
pub proof fn a_script_reads_each_byte_once(
    a: &mut Session,
    b: &mut Session,
    n: usize,
    m: usize,
    r: Vec<u8>,
    q: Vec<u8>,
)
    requires
        call_ensures(Session::read_post, (a, n), r),
        old(b)@ == final(a)@,
        call_ensures(Session::read_post, (b, m), q),
    ensures
        r@.len() <= n,
        q@.len() <= m,
        r@ + q@ + final(b)@.unread == old(a)@.unread,
        r@.len() < n ==> final(a)@.unread.len() == 0,
        final(b)@.collected == old(a)@.collected,
{
    assert(r@ + q@ + final(b)@.unread =~= old(a)@.unread);
}

/// A request that the engine fails on is reported as failed.
pub proof fn a_failing_engine_is_reported(s: Session, engine: i32, r: Responder)
    requires
        call_ensures(Session::conclude, (s, engine), r),
        engine < 0,
    ensures
        r.id() == s@.id,
        r.collected() == s@.collected + on_wire(12, s@.id, 0, text("php engine failure")),
        r.state().finished && r.state().failed,
{
    lemma_on_wire(FrameKind::Error, s@.id, 0, text("php engine failure"));
}

/// A directory without a slash is answered with where it is: on the host that was
/// asked, with a slash behind the path, and with the query. Any other page has only
/// its type.
pub proof fn a_page_says_where_to_go(
    req: &RequestView<'_>,
    m: RequestModel,
    path: &[u8],
    status: u16,
    r: Result<Vec<u8>, BwpError>,
)
    requires
        call_ensures(page_headers, (req, path, status), r),
        says(req.payload(), m),
    ensures
        status != 301 ==> (r matches Ok(h) && h@ == text("content-type: text/html\r\n")),
        status == 301 && valid_utf8(m.server_name) && valid_utf8(path@) && valid_utf8(m.query)
            ==> (r matches Ok(h) && h@ == text("content-type: text/html\r\n") + text("location: ")
            + ((if m.server_name.len() == 0 {
            seq![]
        } else {
            text("http://") + m.server_name
        }) + path@ + text("/") + (if m.query.len() == 0 {
            seq![]
        } else {
            text("?") + m.query
        })) + text("\r\n")),
{
}

} // verus!
