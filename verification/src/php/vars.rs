//! What the engine is told of a request: the `$_SERVER` variables.

use vstd::prelude::*;
use vstd::string::*;
use vstd::utf8::encode_utf8;

use crate::bytes::{dec, find_byte, is_text, push_bytes, push_dec, text, u32_at, u64_at};
use crate::ipc::request::entry;
use crate::ipc::{BwpError, RequestView};
use crate::php::script::{ResolvedScript, ScriptModel};
use crate::php::AppConfig;
use crate::router::http1::head::SERVER_FULL;
use crate::text::cat2;

verus! {

/// A variable: its name and its value.
pub type Variable = (Seq<u8>, Seq<u8>);

/// A variable, or the error of the entry that its value comes from.
pub open spec fn item(name: Seq<u8>, v: Result<Seq<u8>, BwpError>) -> Result<Variable, BwpError> {
    match v {
        Ok(v) => Ok((name, v)),
        Err(e) => Err(e),
    }
}

/// The variables that are told: up to the first error, without those whose
/// value holds a zero byte.
pub open spec fn told(items: Seq<Result<Variable, BwpError>>) -> Result<Seq<Variable>, BwpError>
    decreases items.len(),
{
    if items.len() == 0 {
        Ok(seq![])
    } else {
        match told(items.drop_last()) {
            Err(e) => Err(e),
            Ok(v) => match items.last() {
                Err(e) => Err(e),
                Ok(one) => Ok(
                    if one.1.contains(0) {
                        v
                    } else {
                        v.push(one)
                    },
                ),
            },
        }
    }
}

/// What a script is asked for in a request, before `PATH_INFO`.
pub open spec fn request_items(p: Seq<u8>, app: AppConfig, s: ScriptModel) -> Seq<
    Result<Variable, BwpError>,
> {
    let info = match s.path_info {
        Some(i) => i,
        None => seq![],
    };
    let name = encode_utf8(s.script_name);
    seq![
        Ok((text("SERVER_SOFTWARE"), text(SERVER_FULL))),
        item(text("SERVER_PROTOCOL"), entry(p, 36)),
        item(text("REQUEST_METHOD"), entry(p, 4)),
        item(text("REQUEST_URI"), entry(p, 20)),
        item(text("QUERY_STRING"), entry(p, 28)),
        Ok((text("SCRIPT_FILENAME"), encode_utf8(s.filename))),
        Ok((text("SCRIPT_NAME"), name)),
        Ok((text("DOCUMENT_ROOT"), encode_utf8(app.root@))),
        Ok((text("DOCUMENT_URI"), name)),
        Ok((text("PHP_SELF"), encode_utf8(s.script_name + info))),
    ]
}

/// `PATH_INFO`, which only a script found by its path has.
pub open spec fn path_items(app: AppConfig, s: ScriptModel) -> Seq<Result<Variable, BwpError>> {
    if app.script is Some {
        seq![]
    } else {
        seq![
            Ok(
                (
                    text("PATH_INFO"),
                    encode_utf8(
                        match s.path_info {
                            Some(i) => i,
                            None => seq![],
                        },
                    ),
                ),
            ),
        ]
    }
}

/// Who asks, and how.
pub open spec fn connection_items(p: Seq<u8>) -> Seq<Result<Variable, BwpError>> {
    let length = u64_at(p, 60);
    seq![
        item(text("REMOTE_ADDR"), entry(p, 44)),
        item(text("SERVER_NAME"), entry(p, 52)),
        Ok((text("SERVER_PORT"), dec((u32_at(p, 72) % 65536) as nat))),
        Ok((text("GATEWAY_INTERFACE"), text("CGI/1.1"))),
        Ok((text("REQUEST_SCHEME"), text("http"))),
        Ok((text("REDIRECT_STATUS"), text("200"))),
        Ok(
            (
                text("CONTENT_LENGTH"),
                if length > 0 {
                    dec(length as nat)
                } else {
                    seq![]
                },
            ),
        ),
    ]
}

/// A character of a header's name, as its variable has it.
pub open spec fn var_char(b: u8) -> char {
    if b == 45 {
        '_'
    } else if 97 <= b <= 122 {
        (b - 32) as char
    } else {
        b as char
    }
}

/// The variable of a header.
pub open spec fn header_var(name: Seq<u8>) -> Seq<u8> {
    if name == text("content-type") {
        text("CONTENT_TYPE")
    } else {
        encode_utf8("HTTP_"@ + Seq::new(name.len(), |i: int| var_char(name[i])))
    }
}

/// The `i`-th header of a request.
pub open spec fn header_item(p: Seq<u8>, i: int) -> Result<Variable, BwpError> {
    match entry(p, 80 + 16 * i) {
        Err(e) => Err(e),
        Ok(name) => item(header_var(name), entry(p, 80 + 16 * i + 8)),
    }
}

/// The headers of a request.
pub open spec fn header_items(p: Seq<u8>) -> Seq<Result<Variable, BwpError>> {
    Seq::new(u32_at(p, 76) as nat, |i: int| header_item(p, i))
}

/// Whether the first `n` headers hold a content type.
pub open spec fn types_content(p: Seq<u8>, n: int) -> bool {
    exists|i: int| 0 <= i < n && #[trigger] entry(p, 80 + 16 * i) == Ok::<Seq<u8>, BwpError>(
        text("content-type"),
    )
}

/// An empty content type where no header gives one.
pub open spec fn type_items(p: Seq<u8>) -> Seq<Result<Variable, BwpError>> {
    if types_content(p, u32_at(p, 76) as int) {
        seq![]
    } else {
        seq![Ok((text("CONTENT_TYPE"), seq![]))]
    }
}

/// All that is told of a request, in order.
pub open spec fn server_items(p: Seq<u8>, app: AppConfig, s: ScriptModel) -> Seq<
    Result<Variable, BwpError>,
> {
    request_items(p, app, s) + path_items(app, s) + connection_items(p) + header_items(p)
        + type_items(p)
}

/// The variables one after another: name, zero byte, value.
pub open spec fn packed(v: Seq<Variable>) -> Seq<u8>
    decreases v.len(),
{
    if v.len() == 0 {
        seq![]
    } else {
        packed(v.drop_last()) + v.last().0 + seq![0u8] + v.last().1
    }
}

/// Variables in one piece of memory, each with where its name and its value
/// begin and how long its value is.
#[derive(Debug, PartialEq, Eq)]
pub struct ServerVars {
    pub arena: Vec<u8>,
    pub entries: Vec<(usize, usize, usize)>,
}

/// Where the `i`-th variable stands.
pub open spec fn placed(e: (usize, usize, usize), v: Seq<Variable>, i: int) -> bool {
    let from = packed(v.take(i)).len();
    e.0 == from && e.1 == from + v[i].0.len() + 1 && e.2 == v[i].1.len()
}

impl ServerVars {
    /// Whether these are the given variables.
    pub open spec fn holds(self, v: Seq<Variable>) -> bool {
        &&& self.arena@ == packed(v)
        &&& self.entries@.len() == v.len()
        &&& forall|i: int| 0 <= i < v.len() ==> placed(#[trigger] self.entries@[i], v, i)
    }

    fn add(&mut self, name: &[u8], value: &[u8])
        ensures
            forall|v: Seq<Variable>| #[trigger]
                old(self).holds(v) ==> final(self).holds(
                    if value@.contains(0) {
                        v
                    } else {
                        v.push((name@, value@))
                    },
                ),
    {
        if find_byte(0, value).is_some() {
            return;
        }
        let from: usize = self.arena.len();
        push_bytes(&mut self.arena, name);
        self.arena.push(0);
        let at: usize = self.arena.len();
        push_bytes(&mut self.arena, value);
        self.entries.push((from, at, value.len()));
        proof {
            assert forall|v: Seq<Variable>| #[trigger] old(self).holds(v) implies self.holds(
                v.push((name@, value@)),
            ) by {
                let w = v.push((name@, value@));
                assert(w.drop_last() =~= v);
                assert(self.arena@ =~= packed(v) + name@ + seq![0u8] + value@);
                assert forall|i: int| 0 <= i < w.len() implies placed(
                    #[trigger] self.entries@[i],
                    w,
                    i,
                ) by {
                    if i < v.len() {
                        assert(placed(old(self).entries@[i], v, i));
                        assert(w.take(i) =~= v.take(i));
                    } else {
                        assert(w.take(i) =~= v);
                    }
                }
            }
        }
    }
}

/// Whether these are the first `n` of the items.
spec fn reaches(vars: ServerVars, items: Seq<Result<Variable, BwpError>>, n: int) -> bool {
    told(items.take(n)) matches Ok(v) && vars.holds(v)
}

/// An error anywhere is the error of the whole.
proof fn lemma_told_error(items: Seq<Result<Variable, BwpError>>, n: int)
    requires
        0 <= n <= items.len(),
        told(items.take(n)) is Err,
    ensures
        told(items) == told(items.take(n)),
    decreases items.len() - n,
{
    if n < items.len() {
        assert(items.take(n + 1).drop_last() =~= items.take(n));
        lemma_told_error(items, n + 1);
    } else {
        assert(items.take(n) =~= items);
    }
}

impl ServerVars {
    /// Add the item after the first `n`.
    fn put(
        &mut self,
        Ghost(items): Ghost<Seq<Result<Variable, BwpError>>>,
        Ghost(n): Ghost<int>,
        name: &[u8],
        value: Result<&[u8], BwpError>,
    ) -> (r: Result<(), BwpError>)
        requires
            0 <= n < items.len(),
            reaches(*old(self), items, n),
            match value {
                Ok(v) => items[n] == Ok::<Variable, BwpError>((name@, v@)),
                Err(e) => items[n] == Err::<Variable, BwpError>(e),
            },
        ensures
            match r {
                Ok(_) => reaches(*final(self), items, n + 1),
                Err(e) => told(items) == Err::<Seq<Variable>, BwpError>(e),
            },
    {
        proof {
            assert(items.take(n + 1).drop_last() =~= items.take(n));
            assert(items.take(n + 1).last() == items[n]);
        }
        match value {
            Err(e) => {
                proof {
                    lemma_told_error(items, n + 1);
                }
                Err(e)
            },
            Ok(v) => {
                self.add(name, v);
                Ok(())
            },
        }
    }

    /// Add a text as the item after the first `n`.
    fn put_text(
        &mut self,
        Ghost(items): Ghost<Seq<Result<Variable, BwpError>>>,
        Ghost(n): Ghost<int>,
        name: &str,
        value: &[u8],
    )
        requires
            0 <= n < items.len(),
            reaches(*old(self), items, n),
            items[n] == Ok::<Variable, BwpError>((text(name), value@)),
        ensures
            reaches(*final(self), items, n + 1),
    {
        self.add(name.as_bytes(), value);
        proof {
            assert(items.take(n + 1).drop_last() =~= items.take(n));
            assert(items.take(n + 1).last() == items[n]);
        }
    }
}

/// The name of a header's variable.
fn variable_name(name: &[u8]) -> (r: String)
    requires
        name@ != text("content-type"),
    ensures
        encode_utf8(r@) == header_var(name@),
{
    let mut out = "HTTP_".to_owned();
    let ghost chars = Seq::new(name@.len(), |i: int| var_char(name@[i]));
    let mut i: usize = 0;
    assert("HTTP_"@ + chars.take(0) =~= "HTTP_"@);
    while i < name.len()
        invariant
            i <= name@.len(),
            chars == Seq::new(name@.len(), |i: int| var_char(name@[i])),
            out@ == "HTTP_"@ + chars.take(i as int),
        decreases name@.len() - i,
    {
        let b: u8 = name[i];
        let c: char = if b == 45 {
            '_'
        } else if 97 <= b && b <= 122 {
            (b - 32) as char
        } else {
            b as char
        };
        out.push(c);
        assert(chars.take(i + 1) =~= chars.take(i as int).push(c));
        i += 1;
    }
    assert(chars.take(i as int) =~= chars);
    out
}

/// The items of the request itself.
#[verifier::rlimit(30)]
fn put_request(
    vars: &mut ServerVars,
    Ghost(items): Ghost<Seq<Result<Variable, BwpError>>>,
    req: &RequestView<'_>,
    app: &AppConfig,
    script: &ResolvedScript,
) -> (r: Result<(), BwpError>)
    requires
        request_items(req.payload(), *app, script@).len() <= items.len(),
        items.take(10) == request_items(req.payload(), *app, script@),
        reaches(*old(vars), items, 0),
    ensures
        match r {
            Ok(_) => reaches(*final(vars), items, 10),
            Err(e) => told(items) == Err::<Seq<Variable>, BwpError>(e),
        },
{
    let ghost first = request_items(req.payload(), *app, script@);
    assert forall|i: int| 0 <= i < 10 implies #[trigger] items[i] == first[i] by {
        assert(items.take(10)[i] == items[i]);
    }
    let name = script.script_name.as_str();
    let info = match &script.path_info {
        Some(i) => i.as_str(),
        None => "",
    };
    proof {
        reveal_strlit("");
        assert(""@ =~= seq![]);
    }
    let own = cat2(name, info);
    vars.put_text(Ghost(items), Ghost(0), "SERVER_SOFTWARE", SERVER_FULL.as_bytes());
    if let Err(e) = vars.put(Ghost(items), Ghost(1), "SERVER_PROTOCOL".as_bytes(), req.version()) {
        return Err(e);
    }
    if let Err(e) = vars.put(Ghost(items), Ghost(2), "REQUEST_METHOD".as_bytes(), req.method()) {
        return Err(e);
    }
    if let Err(e) = vars.put(Ghost(items), Ghost(3), "REQUEST_URI".as_bytes(), req.target()) {
        return Err(e);
    }
    if let Err(e) = vars.put(Ghost(items), Ghost(4), "QUERY_STRING".as_bytes(), req.query()) {
        return Err(e);
    }
    vars.put_text(
        Ghost(items),
        Ghost(5),
        "SCRIPT_FILENAME",
        script.filename.as_str().as_bytes(),
    );
    vars.put_text(Ghost(items), Ghost(6), "SCRIPT_NAME", name.as_bytes());
    vars.put_text(Ghost(items), Ghost(7), "DOCUMENT_ROOT", app.root.as_str().as_bytes());
    vars.put_text(Ghost(items), Ghost(8), "DOCUMENT_URI", name.as_bytes());
    vars.put_text(Ghost(items), Ghost(9), "PHP_SELF", own.as_str().as_bytes());
    Ok(())
}

/// The items of the connection.
fn put_connection(
    vars: &mut ServerVars,
    Ghost(items): Ghost<Seq<Result<Variable, BwpError>>>,
    Ghost(n): Ghost<int>,
    req: &RequestView<'_>,
) -> (r: Result<(), BwpError>)
    requires
        0 <= n,
        n + 7 <= items.len(),
        items.subrange(n, n + 7) == connection_items(req.payload()),
        reaches(*old(vars), items, n),
    ensures
        match r {
            Ok(_) => reaches(*final(vars), items, n + 7),
            Err(e) => told(items) == Err::<Seq<Variable>, BwpError>(e),
        },
{
    let ghost part = connection_items(req.payload());
    assert forall|i: int| 0 <= i < 7 implies #[trigger] part[i] == items[n + i] by {
        assert(items.subrange(n, n + 7)[i] == items[n + i]);
    }
    let mut port: Vec<u8> = Vec::new();
    push_dec(&mut port, req.server_port() as u64);
    let mut length: Vec<u8> = Vec::new();
    if req.content_length() > 0 {
        push_dec(&mut length, req.content_length());
    }
    proof {
        assert(port@ =~= dec((u32_at(req.payload(), 72) % 65536) as nat));
        assert(length@ =~= if u64_at(req.payload(), 60) > 0 {
            dec(u64_at(req.payload(), 60) as nat)
        } else {
            seq![]
        });
        assert(part[0] == items[n + 0]);
        assert(part[1] == items[n + 1]);
        assert(part[2] == items[n + 2]);
        assert(part[3] == items[n + 3]);
        assert(part[4] == items[n + 4]);
        assert(part[5] == items[n + 5]);
        assert(part[6] == items[n + 6]);
    }
    if let Err(e) = vars.put(Ghost(items), Ghost(n), "REMOTE_ADDR".as_bytes(), req.remote_addr()) {
        return Err(e);
    }
    if let Err(e) = vars.put(
        Ghost(items),
        Ghost(n + 1),
        "SERVER_NAME".as_bytes(),
        req.server_name(),
    ) {
        return Err(e);
    }
    vars.put_text(Ghost(items), Ghost(n + 2), "SERVER_PORT", port.as_slice());
    vars.put_text(Ghost(items), Ghost(n + 3), "GATEWAY_INTERFACE", "CGI/1.1".as_bytes());
    vars.put_text(Ghost(items), Ghost(n + 4), "REQUEST_SCHEME", "http".as_bytes());
    vars.put_text(Ghost(items), Ghost(n + 5), "REDIRECT_STATUS", "200".as_bytes());
    vars.put_text(Ghost(items), Ghost(n + 6), "CONTENT_LENGTH", length.as_slice());
    Ok(())
}

/// The items of the headers; tells whether one gives a content type.
fn put_headers(
    vars: &mut ServerVars,
    Ghost(items): Ghost<Seq<Result<Variable, BwpError>>>,
    Ghost(n): Ghost<int>,
    req: &RequestView<'_>,
) -> (r: Result<bool, BwpError>)
    requires
        0 <= n,
        n + u32_at(req.payload(), 76) <= items.len(),
        items.subrange(n, n + u32_at(req.payload(), 76)) == header_items(req.payload()),
        reaches(*old(vars), items, n),
    ensures
        match r {
            Ok(typed) => reaches(*final(vars), items, n + u32_at(req.payload(), 76)) && typed
                == types_content(req.payload(), u32_at(req.payload(), 76) as int),
            Err(e) => told(items) == Err::<Seq<Variable>, BwpError>(e),
        },
{
    let ghost p = req.payload();
    let count: usize = req.fields_count();
    let mut typed = false;
    let mut i: usize = 0;
    while i < count
        invariant
            i <= count,
            p == req.payload(),
            count == u32_at(p, 76),
            0 <= n,
            n + count <= items.len(),
            items.subrange(n, n + count) == header_items(p),
            reaches(*vars, items, n + i),
            typed == types_content(p, i as int),
        decreases count - i,
    {
        proof {
            assert(items.subrange(n, n + count)[i as int] == items[n + i]);
            assert(items[n + i] == header_item(p, i as int));
        }
        match req.field(i) {
            Err(e) => {
                proof {
                    assert(items.take(n + i + 1).drop_last() =~= items.take(n + i));
                    assert(items.take(n + i + 1).last() == items[n + i]);
                    lemma_told_error(items, n + i + 1);
                }
                return Err(e);
            },
            Ok(f) => {
                let is_type = is_text(f.name, "content-type");
                if is_type {
                    typed = true;
                    vars.put_text(Ghost(items), Ghost(n + i), "CONTENT_TYPE", f.value);
                } else {
                    let name = variable_name(f.name);
                    vars.put_text(Ghost(items), Ghost(n + i), name.as_str(), f.value);
                }
                proof {
                    let k = i as int;
                    if types_content(p, k + 1) && !types_content(p, k) {
                        let j = choose|j: int| 0 <= j < k + 1 && #[trigger] entry(p, 80 + 16 * j)
                            == Ok::<Seq<u8>, BwpError>(text("content-type"));
                        assert(j == k);
                    }
                    if types_content(p, k) {
                        let j = choose|j: int| 0 <= j < k && #[trigger] entry(p, 80 + 16 * j)
                            == Ok::<Seq<u8>, BwpError>(text("content-type"));
                        assert(0 <= j < k + 1);
                    }
                    if is_type {
                        assert(entry(p, 80 + 16 * k) == Ok::<Seq<u8>, BwpError>(
                            text("content-type"),
                        ));
                    }
                }
            },
        }
        i += 1;
    }
    Ok(typed)
}

/// Collect what the engine is told of a request.
pub fn build_server_vars(
    req: &RequestView<'_>,
    app: &AppConfig,
    script: &ResolvedScript,
) -> (r: Result<ServerVars, BwpError>)
    ensures
        match told(server_items(req.payload(), *app, script@)) {
            Ok(v) => r matches Ok(vars) && vars.holds(v),
            Err(e) => r matches Err(x) && x == e,
        },
{
    let ghost p = req.payload();
    let ghost a = request_items(p, *app, script@);
    let ghost b = path_items(*app, script@);
    let ghost c = connection_items(p);
    let ghost d = header_items(p);
    let ghost items = server_items(p, *app, script@);
    let ghost nb = b.len() as int;
    let ghost nd = d.len() as int;
    let mut vars = ServerVars { arena: Vec::new(), entries: Vec::new() };
    proof {
        assert(items.take(0) =~= seq![]);
        assert(vars.arena@ =~= packed(seq![]));
        assert(reaches(vars, items, 0));
        assert(items.take(10) =~= a);
        assert(items.subrange(10 + nb, 10 + nb + 7) =~= c);
        assert(items.subrange(17 + nb, 17 + nb + nd) =~= d);
    }
    if let Err(e) = put_request(&mut vars, Ghost(items), req, app, script) {
        return Err(e);
    }
    if app.script.is_none() {
        let info = match &script.path_info {
            Some(i) => i.as_str(),
            None => "",
        };
        proof {
            reveal_strlit("");
            assert(""@ =~= seq![]);
            assert(items[10] == b[0]);
        }
        vars.put_text(Ghost(items), Ghost(10), "PATH_INFO", info.as_bytes());
    }
    if let Err(e) = put_connection(&mut vars, Ghost(items), Ghost(10 + nb), req) {
        return Err(e);
    }
    match put_headers(&mut vars, Ghost(items), Ghost(17 + nb), req) {
        Err(e) => {
            return Err(e);
        },
        Ok(typed) => {
            if !typed {
                let none: Vec<u8> = Vec::new();
                proof {
                    assert(none@ =~= seq![]);
                    assert(items[17 + nb + nd] == type_items(p)[0]);
                }
                vars.put_text(
                    Ghost(items),
                    Ghost(17 + nb + nd),
                    "CONTENT_TYPE",
                    none.as_slice(),
                );
            }
        },
    }
    assert(items.take(items.len() as int) =~= items);
    Ok(vars)
}

proof fn lemma_packed(v: Seq<Variable>, i: int)
    requires
        0 <= i < v.len(),
    ensures
        ({
            let from = packed(v.take(i)).len() as int;
            let mid = from + v[i].0.len();
            let end = mid + 1 + v[i].1.len();
            &&& end <= packed(v).len()
            &&& packed(v).subrange(from, mid) == v[i].0
            &&& packed(v)[mid] == 0
            &&& packed(v).subrange(mid + 1, end) == v[i].1
        }),
    decreases v.len(),
{
    let w = v.drop_last();
    let from = packed(v.take(i)).len() as int;
    let mid = from + v[i].0.len();
    let end = mid + 1 + v[i].1.len();
    if i < w.len() {
        lemma_packed(w, i);
        assert(w.take(i) =~= v.take(i));
        assert(packed(v).subrange(from, mid) =~= packed(w).subrange(from, mid));
        assert(packed(v).subrange(mid + 1, end) =~= packed(w).subrange(mid + 1, end));
    } else {
        assert(v.take(i) =~= w);
        assert(packed(v).subrange(from, mid) =~= v[i].0);
        assert(packed(v).subrange(mid + 1, end) =~= v[i].1);
    }
}

/// Each variable is found where its entry says: its name, ended by a zero byte,
/// and its value.
pub proof fn variables_lie_where_their_entries_say(vars: ServerVars, v: Seq<Variable>, i: int)
    requires
        vars.holds(v),
        0 <= i < v.len(),
    ensures
        ({
            let e = vars.entries@[i];
            &&& e.0 < e.1 <= e.1 + e.2 <= vars.arena@.len()
            &&& vars.arena@.subrange(e.0 as int, e.1 - 1) == v[i].0
            &&& vars.arena@[e.1 - 1] == 0
            &&& vars.arena@.subrange(e.1 as int, e.1 + e.2) == v[i].1
        }),
{
    lemma_packed(v, i);
    assert(placed(vars.entries@[i], v, i));
}

/// No variable that is told holds a zero byte in its value.
pub proof fn told_values_hold_no_zero(items: Seq<Result<Variable, BwpError>>, i: int)
    ensures
        told(items) matches Ok(v) ==> (0 <= i < v.len() ==> !v[i].1.contains(0)),
    decreases items.len(),
{
    if items.len() > 0 {
        told_values_hold_no_zero(items.drop_last(), i);
    }
}

} // verus!
