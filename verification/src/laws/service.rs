//! What the server says of itself and takes from outside: dates, the log, its
//! status, its configuration's variables, and its command line.

use vstd::prelude::*;
use vstd::string::*;
use vstd::utf8::encode_utf8;

use crate::bytes::{chars, dec, le32, text, two};
use crate::cli::{asked, parse_cli, Asked, Invocation};
use crate::config::cpu::auto_worker_count;
use crate::config::subst::{closing, expand, expanded, opening};
use crate::config::table::Table;
use crate::config::ConfigError;
use crate::control::{encode_command, Children, Command};
use crate::echo::{build_response, ws_step, Inbound, WsStep};
use crate::ipc::request::{says, RequestModel, RequestView};
use crate::laws::pool::{four, lemma_on_wire, on_wire};
use crate::laws::relay::{a_refusal_says_its_status, plainly};
use crate::ipc::FrameKind;
use crate::router::access_log::{escaped, log_line, Exchange};
use crate::router::dispatch::lifecycle::PoolStats;
use crate::router::http1::head::response_bytes;
use crate::router::http1::stage::status_reply;
use crate::router::setup::status_body;
use crate::router::uri::{
    date_of_its_number, day_number, http_date, is_date, month_name, weekday_name,
};
use crate::supervisor::{resolve_ids, yaml_scalar, DropIds, Identity, Lookup};
use crate::config::schema::Yaml;
use crate::text::{text_of, texts};

verus! {

/// A number below a hundred in two digits.
pub open spec fn two_digits(n: int) -> Seq<char> {
    seq![(48 + n / 10) as char, (48 + n % 10) as char]
}

proof fn lemma_two_digits(n: int)
    requires
        0 <= n < 100,
    ensures
        chars(two(n)) == two_digits(n),
{
    assert(chars(two(n)) =~= two_digits(n));
}

/// A time of day.
pub open spec fn time_of(h: int, m: int, s: int) -> Seq<char> {
    two_digits(h) + ":"@ + two_digits(m) + ":"@ + two_digits(s)
}

/// A moment, in seconds since the first of January 1970.
pub open spec fn moment(y: int, mo: int, d: int, h: int, m: int, s: int) -> int {
    day_number(y, mo, d) * 86400 + h * 3600 + m * 60 + s
}

#[verifier::spinoff_prover]
#[verifier::rlimit(50)]
proof fn lemma_moment(y: int, mo: int, d: int, h: int, m: int, s: int)
    requires
        is_date(y, mo, d),
        0 <= h < 24 && 0 <= m < 60 && 0 <= s < 60,
    ensures
        moment(y, mo, d, h, m, s) / 86400 == day_number(y, mo, d),
        moment(y, mo, d, h, m, s) % 86400 == h * 3600 + m * 60 + s,
        (h * 3600 + m * 60 + s) / 3600 == h,
        (h * 3600 + m * 60 + s) % 3600 / 60 == m,
        (h * 3600 + m * 60 + s) % 60 == s,
        1 <= d < 32,
{
    let x = moment(y, mo, d, h, m, s);
    let r = h * 3600 + m * 60 + s;
    vstd::arithmetic::div_mod::lemma_fundamental_div_mod_converse(
        x,
        86400,
        day_number(y, mo, d),
        r,
    );
    vstd::arithmetic::div_mod::lemma_fundamental_div_mod_converse(r, 3600, h, m * 60 + s);
    vstd::arithmetic::div_mod::lemma_fundamental_div_mod_converse(m * 60 + s, 60, m, s);
    vstd::arithmetic::div_mod::lemma_fundamental_div_mod_converse(r, 60, h * 60 + m, s);
}

/// The date of a moment names its weekday, day, month and year, and its time.
pub proof fn a_date_is_that_of_its_moment(
    y: int,
    mo: int,
    d: int,
    h: int,
    m: int,
    s: int,
    at: u64,
    r: String,
)
    requires
        call_ensures(http_date, (at,), r),
        is_date(y, mo, d),
        0 <= h < 24 && 0 <= m < 60 && 0 <= s < 60,
        at == moment(y, mo, d, h, m, s),
    ensures
        r@ == weekday_name(day_number(y, mo, d)) + ", "@ + two_digits(d) + " "@ + month_name(mo)
            + " "@ + chars(dec(y as nat)) + " "@ + time_of(h, m, s) + " GMT"@,
{
    lemma_moment(y, mo, d, h, m, s);
    date_of_its_number(y, mo, d);
    lemma_two_digits(d);
    lemma_two_digits(h);
    lemma_two_digits(m);
    lemma_two_digits(s);
}

/// A line of the log tells who asked, when, for what, and what was answered, each
/// in its place. What the client said is quoted.
#[verifier::spinoff_prover]
#[verifier::rlimit(50)]
pub proof fn a_log_line_tells_of_its_exchange(
    y: int,
    mo: int,
    d: int,
    h: int,
    m: int,
    s: int,
    at: u64,
    e: &Exchange<'_>,
    r: String,
)
    requires
        call_ensures(log_line, (at, e), r),
        is_date(y, mo, d),
        0 <= h < 24 && 0 <= m < 60 && 0 <= s < 60,
        at == moment(y, mo, d, h, m, s),
    ensures
        r@ == e.remote@ + " - - ["@ + (two_digits(d) + "/"@ + month_name(mo) + "/"@ + chars(
            dec(y as nat),
        ) + ":"@ + time_of(h, m, s) + " +0000"@) + "] \""@ + escaped(text_of(e.method@)) + " "@
            + escaped(text_of(e.target@)) + " HTTP/1.1\" "@ + chars(dec(e.status as nat)) + " "@
            + chars(dec(e.bytes as nat)) + " \""@ + (match e.referer {
            Some(b) => escaped(text_of(b@)),
            None => seq![],
        }) + "\" \""@ + (match e.user_agent {
            Some(b) => escaped(text_of(b@)),
            None => seq![],
        }) + "\"\n"@,
{
    lemma_moment(y, mo, d, h, m, s);
    date_of_its_number(y, mo, d);
    lemma_two_digits(d);
    lemma_two_digits(h);
    lemma_two_digits(m);
    lemma_two_digits(s);
}

proof fn lemma_opening(s: Seq<char>, k: int, i: int)
    requires
        0 <= k <= s.len(),
        0 <= i,
    ensures
        opening(s, k + i) == k + opening(s.subrange(k, s.len() as int), i),
    decreases s.len() - i,
{
    let t = s.subrange(k, s.len() as int);
    if i + 1 < t.len() {
        assert(t[i] == s[k + i] && t[i + 1] == s[k + i + 1]);
        lemma_opening(s, k, i + 1);
    }
}

proof fn lemma_closing(s: Seq<char>, k: int, i: int)
    requires
        0 <= k <= s.len(),
        0 <= i,
    ensures
        closing(s, k + i) == k + closing(s.subrange(k, s.len() as int), i),
    decreases s.len() - i,
{
    let t = s.subrange(k, s.len() as int);
    if i < t.len() {
        assert(t[i] == s[k + i]);
        lemma_closing(s, k, i + 1);
    }
}

proof fn lemma_opening_bounds(s: Seq<char>, i: int)
    requires
        0 <= i <= s.len(),
    ensures
        i <= opening(s, i) <= s.len(),
    decreases s.len() - i,
{
    if i + 1 < s.len() {
        lemma_opening_bounds(s, i + 1);
    }
}

proof fn lemma_closing_bounds(s: Seq<char>, i: int)
    requires
        0 <= i,
    ensures
        i < s.len() ==> i <= closing(s, i) <= s.len(),
        i >= s.len() ==> closing(s, i) == s.len(),
    decreases s.len() - i,
{
    if i < s.len() {
        lemma_closing_bounds(s, i + 1);
    }
}

proof fn lemma_expanded(s: Seq<char>, k: int, i: int, env: Table<String>)
    requires
        0 <= k,
        0 <= i,
        k + i <= s.len(),
    ensures
        expanded(s, k + i, env) == expanded(s.subrange(k, s.len() as int), i, env),
    decreases s.len() - i,
{
    let t = s.subrange(k, s.len() as int);
    lemma_opening(s, k, i);
    lemma_opening_bounds(t, i);
    let a = opening(t, i);
    lemma_closing(s, k, a + 2);
    lemma_closing_bounds(t, a + 2);
    let b = closing(t, a + 2);
    assert(t.subrange(i, t.len() as int) =~= s.subrange(k + i, s.len() as int));
    if a < b < t.len() {
        assert(t.subrange(a + 2, b) =~= s.subrange(k + a + 2, k + b));
        assert(t.subrange(i, a) =~= s.subrange(k + i, k + a));
        assert(b >= a + 2);
        lemma_expanded(s, k, b + 1, env);
    }
}

/// In a configuration `${NAME}` stands for the variable of that name, once and
/// wherever it stands, and what is round it for itself. A variable that is not set
/// is an error that names it.
#[verifier::spinoff_prover]
#[verifier::rlimit(50)]
pub proof fn a_variable_of_the_environment_is_put_in(
    input: &str,
    path: &str,
    env: &Table<String>,
    before: Seq<char>,
    name: Seq<char>,
    rest: Seq<char>,
    r: Result<String, ConfigError>,
)
    requires
        call_ensures(expand, (input, path, env), r),
        input@ == before + seq!['$', '{'] + name + seq!['}'] + rest,
        forall|i: int| 0 <= i < before.len() ==> before[i] != '$',
        forall|i: int| 0 <= i < name.len() ==> name[i] != '}',
    ensures
        !env.has(name) ==> (r matches Err(ConfigError::EnvMissing { name: n, .. }) && n@ == name),
        env.has(name) ==> match expanded(rest, 0, *env) {
            Ok(more) => r matches Ok(t) && t@ == before + env.at(name)@ + more,
            Err(n) => r matches Err(ConfigError::EnvMissing { name: m, .. }) && m@ == n,
        },
{
    let s = input@;
    let a = before.len() as int;
    let b = a + 2 + name.len();
    lemma_skips(s, 0, a);
    lemma_reaches(s, a + 2, b);
    assert(s.subrange(a + 2, b) =~= name);
    assert(s.subrange(0, a) =~= before);
    assert(s.subrange(b + 1, s.len() as int) =~= rest);
    lemma_expanded(s, b + 1, 0, *env);
}

proof fn lemma_skips(s: Seq<char>, i: int, a: int)
    requires
        0 <= i <= a,
        a + 1 < s.len(),
        s[a] == '$' && s[a + 1] == '{',
        forall|j: int| i <= j < a ==> s[j] != '$',
    ensures
        opening(s, i) == a,
    decreases a - i,
{
    if i < a {
        lemma_skips(s, i + 1, a);
    }
}

proof fn lemma_reaches(s: Seq<char>, i: int, b: int)
    requires
        0 <= i <= b < s.len(),
        s[b] == '}',
        forall|j: int| i <= j < b ==> s[j] != '}',
    ensures
        closing(s, i) == b,
    decreases b - i,
{
    if i < b {
        lemma_reaches(s, i + 1, b);
    }
}

/// There are as many workers as processors, but no more than the quota pays for,
/// and always one.
pub proof fn workers_keep_to_the_quota(cores: usize, quota: Option<usize>, r: u32)
    requires
        call_ensures(auto_worker_count, (cores, quota), r),
        cores <= u32::MAX,
    ensures
        r >= 1,
        r > 1 ==> r <= cores,
        quota matches Some(q) ==> (r > 1 ==> r <= q),
        quota is None && cores >= 1 ==> r == cores,
        quota matches Some(q) ==> (1 <= q <= cores ==> r == q),
        quota matches Some(q) ==> (q > cores && cores >= 1 ==> r == cores),
{
}

/// A command is a byte for what is to be done and eight for whom, the lower four
/// first.
pub proof fn a_command_names_what_and_whom(token: u64, spawn: Vec<u8>, kill: Vec<u8>)
    requires
        call_ensures(encode_command, (Command::Spawn(token),), spawn),
        call_ensures(encode_command, (Command::Kill(token),), kill),
    ensures
        ({
            let whom = four((token % 0x100000000) as u32) + four((token / 0x100000000) as u32);
            spawn@ == seq![1u8] + whom && kill@ == seq![2u8] + whom
        }),
{
    let lo = (token % 0x100000000) as u32;
    let hi = (token / 0x100000000) as u32;
    assert(le32(lo) =~= four(lo));
    assert(le32(hi) =~= four(hi));
}

/// A worker is found by its token from its start until it is reaped, whoever else
/// comes and goes.
pub proof fn a_child_is_known_until_it_is_reaped(
    a: &mut Children,
    b: &mut Children,
    token: u64,
    other: u64,
    pid: i32,
    reaped: i32,
    found: Option<i32>,
    after: Option<i32>,
    before: Option<i32>,
    still: Option<i32>,
    last: &Children,
    first: &Children,
    start: &Children,
)
    requires
        call_ensures(Children::forked, (a, token, pid), ()),
        old(b)@ == final(a)@,
        call_ensures(Children::reaped, (b, reaped), ()),
        start@ == old(a)@,
        first@ == final(a)@,
        last@ == final(b)@,
        call_ensures(Children::pid_of, (first, token), found),
        call_ensures(Children::pid_of, (last, token), after),
        call_ensures(Children::pid_of, (start, other), before),
        call_ensures(Children::pid_of, (first, other), still),
    ensures
        found == Some(pid),
        reaped == pid ==> after is None,
        reaped != pid ==> after == Some(pid),
        other != token ==> still == before,
{
}

/// Options of the command line are read one by one: each does its own thing and
/// leaves the others to be read. The first that is wrong, or that asks for help or
/// the version, is answered.
#[verifier::spinoff_prover]
#[verifier::rlimit(50)]
pub proof fn options_are_read_one_by_one(
    rest: Seq<Seq<char>>,
    path: Seq<char>,
    word: Seq<char>,
    config: Seq<char>,
    check: bool,
    modules: bool,
)
    ensures
        asked(seq![], config, check, modules) == (Asked::Run { config, check, modules }),
        asked(seq!["--config"@, path] + rest, config, check, modules) == asked(
            rest,
            path,
            check,
            modules,
        ),
        asked(seq!["-c"@, path] + rest, config, check, modules) == asked(
            rest,
            path,
            check,
            modules,
        ),
        asked(seq!["--check-config"@] + rest, config, check, modules) == asked(
            rest,
            config,
            true,
            modules,
        ),
        asked(seq!["--modules"@] + rest, config, check, modules) == asked(
            rest,
            config,
            check,
            true,
        ),
        asked(seq!["--version"@] + rest, config, check, modules) is Version,
        asked(seq!["-V"@] + rest, config, check, modules) is Version,
        asked(seq!["--help"@] + rest, config, check, modules) is Help,
        asked(seq!["-h"@] + rest, config, check, modules) is Help,
        asked(seq!["--config"@], config, check, modules) is Wrong,
        ({
            &&& word != "--config"@ && word != "-c"@ && word != "--check-config"@
            &&& word != "--modules"@ && word != "--version"@ && word != "-V"@
            &&& word != "--help"@ && word != "-h"@
        }) ==> asked(seq![word] + rest, config, check, modules) is Wrong,
{
    reveal_strlit("--config");
    reveal_strlit("-c");
    reveal_strlit("--check-config");
    reveal_strlit("--modules");
    reveal_strlit("--version");
    reveal_strlit("-V");
    reveal_strlit("--help");
    reveal_strlit("-h");
    assert("-c"@[1] != "-V"@[1] && "-c"@[1] != "-h"@[1] && "-V"@[1] != "-h"@[1]);
    assert("--config"@.len() == 8 && "--check-config"@.len() == 14 && "--modules"@.len() == 9);
    assert("--version"@.len() == 9 && "--help"@.len() == 6);
    assert("--modules"@[2] != "--version"@[2]);
    lemma_rest(seq!["--config"@, path], rest);
    lemma_rest(seq!["-c"@, path], rest);
    lemma_rest(seq!["--check-config"@], rest);
    lemma_rest(seq!["--modules"@], rest);
    lemma_rest(seq!["--version"@], rest);
    lemma_rest(seq!["-V"@], rest);
    lemma_rest(seq!["--help"@], rest);
    lemma_rest(seq!["-h"@], rest);
    lemma_rest(seq![word], rest);
}

proof fn lemma_rest(a: Seq<Seq<char>>, rest: Seq<Seq<char>>)
    requires
        1 <= a.len() <= 2,
    ensures
        (a + rest)[0] == a[0],
        a.len() == 1 ==> (a + rest).subrange(1, (a + rest).len() as int) == rest,
        a.len() == 2 ==> ({
            let t = (a + rest).subrange(1, (a + rest).len() as int);
            t.len() > 0 && t[0] == a[1] && t.subrange(1, t.len() as int) == rest
        }),
{
    let s = a + rest;
    let t = s.subrange(1, s.len() as int);
    if a.len() == 1 {
        assert(t =~= rest);
    } else {
        assert(t.subrange(1, t.len() as int) =~= rest);
    }
}

/// Without options the server runs with the configuration at its usual place.
pub proof fn without_options_the_server_runs(
    args: &Vec<String>,
    r: Result<Invocation, String>,
)
    requires
        call_ensures(parse_cli, (args,), r),
        args@.len() == 0,
    ensures
        r matches Ok(Invocation::Run(c)) && c.config@ == "/etc/buran/buran.yaml"@ && !c.check
            && !c.modules,
{
    assert(texts(args@).len() == 0);
}

/// The echo tells what it was asked and how much came along, and gives that back.
pub proof fn an_echo_gives_back_what_it_got(
    view: &RequestView<'_>,
    m: RequestModel,
    body: &[u8],
    r: Result<Vec<u8>, String>,
)
    requires
        call_ensures(build_response, (view, body), r),
        says(view.payload(), m),
    ensures
        r matches Ok(v) && v@ == m.method + text(" ") + m.target + text("\n") + text(
            "body-length: ",
        ) + dec(body@.len()) + text("\n") + body@,
{
}

/// A message that the echo gets over a WebSocket comes back with its kind and its
/// payload. Its end ends the exchange.
pub proof fn an_echo_answers_in_kind(id: u32, inbound: &Option<Inbound>, r: WsStep)
    requires
        call_ensures(ws_step, (id, inbound), r),
    ensures
        match *inbound {
            Some(Inbound::Ws(op, payload)) => if op == 1 || op == 2 {
                r matches WsStep::Send(v) && v@ == on_wire(17, id, op, payload@)
            } else if op == 8 {
                r matches WsStep::Finish(v) && v@ == on_wire(10, id, 0, seq![]) + on_wire(
                    11,
                    id,
                    0,
                    seq![],
                )
            } else {
                r is Nothing
            },
            Some(Inbound::Body(_)) => r is Nothing,
            None => r matches WsStep::Finish(v) && v@ == on_wire(10, id, 0, seq![]) + on_wire(
                11,
                id,
                0,
                seq![],
            ),
        },
{
    if let Some(Inbound::Ws(op, payload)) = *inbound {
        lemma_on_wire(FrameKind::WsMessage, id, op, payload@);
    }
    lemma_on_wire(FrameKind::End, id, 0, seq![]);
    lemma_on_wire(FrameKind::Done, id, 0, seq![]);
}

/// What is told of one application.
pub open spec fn figures(name: Seq<char>, s: PoolStats) -> Seq<char> {
    "\""@ + name + "\":{\"workers\":"@ + chars(dec(s.workers as nat)) + ",\"idle\":"@ + chars(
        dec(s.idle as nat),
    ) + ",\"queued\":"@ + chars(dec(s.queued as nat)) + "}"@
}

/// Asked for its health the server says that it is well; asked for its applications
/// it gives the figures of each. Nothing else is told.
#[verifier::spinoff_prover]
#[verifier::rlimit(50)]
pub proof fn the_status_is_told_on_two_paths(
    path: &[u8],
    apps: &Vec<(String, PoolStats)>,
    server: &str,
    keep_alive: bool,
    body: Option<String>,
    r: (u16, Vec<u8>),
)
    requires
        call_ensures(status_body, (path, apps), body),
        call_ensures(status_reply, (path, apps, server, keep_alive), r),
    ensures
        path@ == text("/health") ==> (body matches Some(b) && b@ == "{\"status\":\"ok\"}\n"@),
        path@ == text("/health/applications") && path@ != text("/health") && apps@.len() == 0 ==> (
        body matches Some(b) && b@ == "{\"status\":\"ok\",\"applications\":{"@ + seq![] + "}}\n"@),
        path@ == text("/health/applications") && path@ != text("/health") && apps@.len() == 1 ==> (
        body matches Some(b) && b@ == "{\"status\":\"ok\",\"applications\":{"@ + figures(
            apps@[0].0@,
            apps@[0].1,
        ) + "}}\n"@),
        path@ != text("/health") && path@ != text("/health/applications") ==> {
            &&& body is None
            &&& r.0 == 404
            &&& r.1@ == plainly(text(server), 404, text("Not Found"), keep_alive)
        },
        body matches Some(b) ==> {
            &&& r.0 == 200
            &&& r.1@ == response_bytes(
                text(server),
                200,
                text("application/json"),
                encode_utf8(b@),
                seq![],
                keep_alive,
            )
        },
{
    a_refusal_says_its_status(text(server), 404, text("Not Found"), keep_alive);
}

/// A worker runs as the user that is named and in the group that is named, or else
/// in the user's own. None of this is possible for one who is not root.
pub proof fn a_worker_runs_as_whom_it_is_told(
    i: Identity<'_>,
    is_root: bool,
    r: Result<DropIds, String>,
)
    requires
        call_ensures(resolve_ids, (i, is_root), r),
    ensures
        i.user is None && i.group is None ==> (r matches Ok(ids) && ids.uid is None && ids.gid
            is None && ids.user_name is None),
        (i.user matches Some((_, l)) && !(l is Found)) ==> r is Err,
        (i.group matches Some((_, l)) && !(l is Found)) ==> r is Err,
        !is_root && (i.user is Some || i.group is Some) ==> r is Err,
        is_root ==> (i.user matches Some((_, Lookup::Found(u))) ==> (i.group is None ==> (
        r matches Ok(ids) && ids.uid == Some(u.uid) && ids.gid == Some(u.gid) && ids.user_name
            == Some(u.name)))),
        is_root ==> (i.user matches Some((_, Lookup::Found(u))) ==> (
        i.group matches Some((_, Lookup::Found(g))) ==> (r matches Ok(ids) && ids.uid == Some(
            u.uid,
        ) && ids.gid == Some(g) && ids.user_name == Some(u.name)))),
        is_root && i.user is None ==> (i.group matches Some((_, Lookup::Found(g))) ==> (
        r matches Ok(ids) && ids.uid is None && ids.gid == Some(g))),
{
}

/// A value of the engine's settings is given as it is written; yes and no are one
/// and zero.
pub proof fn a_setting_is_given_as_written(v: &Yaml, r: Option<String>)
    requires
        call_ensures(yaml_scalar, (v,), r),
    ensures
        *v matches Yaml::Text(s) ==> (r matches Some(x) && x@ == s@),
        *v matches Yaml::Number(s) ==> (r matches Some(x) && x@ == s@),
        *v == Yaml::Bool(true) ==> (r matches Some(x) && x@ == "1"@),
        *v == Yaml::Bool(false) ==> (r matches Some(x) && x@ == "0"@),
        *v is List || *v is Mapping ==> r is None,
{
}

} // verus!
