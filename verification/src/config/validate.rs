//! Checks across the sections of a configuration, and the extraction of
//! inline applications.

use vstd::prelude::*;
use vstd::string::*;
use vstd::utf8::*;

use crate::bytes::{chars, dec, number, parse_number};
use crate::config::schema::{
    Action, Application, ApplicationRef, Config, HttpSettings, Listener, Processes, RouteStep,
    Share,
};
use crate::config::copy::{copy_applications, same_applications};
use crate::config::table::{ascending, lemma_before_total, lists, map_of, name_before, Table};
use crate::config::ConfigError;
use crate::router::addr::{v4, v6, address, Addr};
use crate::router::routes::opt_str;
use crate::text::{cat2, cat3, cat5, decimal, same};

verus! {

/// A fully checked configuration. `applications` holds the named ones and the
/// inline ones under generated names; actions refer to all of them by name.
#[derive(Debug)]
pub struct Validated {
    pub config: Config,
    pub applications: Table<Application>,
}

/// The text of an error message.
pub enum Message {
    Text(Seq<char>),
    /// A text followed by the names that would have done.
    Names { head: Seq<char>, known: Set<Seq<char>> },
}

/// Where a configuration is wrong, and what is said about it.
pub struct Fault {
    pub path: Seq<char>,
    pub message: Message,
}

pub open spec fn says(m: Seq<char>, msg: Message) -> bool {
    match msg {
        Message::Text(t) => m == t,
        Message::Names { head, known } => exists|t: Seq<char>|
            #[trigger] lists(t, known) && m == head + t,
    }
}

pub open spec fn reports(e: ConfigError, f: Fault) -> bool {
    e matches ConfigError::Invalid { path, message } && path@ == f.path && says(
        message@,
        f.message,
    )
}

/// The outcome of a check: nothing, or the fault that it found.
pub open spec fn checked(r: Result<(), ConfigError>, f: Option<Fault>) -> bool {
    match f {
        None => r is Ok,
        Some(f) => r matches Err(e) && reports(e, f),
    }
}

pub open spec fn fault(path: Seq<char>, message: Seq<char>) -> Option<Fault> {
    Some(Fault { path, message: Message::Text(message) })
}

// Listener addresses.
pub open spec fn last_at(s: Seq<char>, c: char, i: int) -> bool {
    0 <= i < s.len() && s[i] == c && forall|j: int| i < j < s.len() ==> s[j] != c
}

/// The address that a host part names: `*` is every IPv4 interface, an IPv6
/// address stands in brackets.
pub open spec fn host_octets(host: Seq<char>) -> Option<(bool, Seq<u8>)> {
    let h = encode_utf8(host);
    if host == "*"@ {
        Some((true, seq![0u8, 0, 0, 0]))
    } else if h.len() >= 2 && h[0] == 91 && h.last() == 93 {
        match v6(h.subrange(1, h.len() - 1)) {
            Some(o) => Some((false, o)),
            None => None,
        }
    } else {
        match v4(h) {
            Some(o) => Some((true, o)),
            None => None,
        }
    }
}

/// What a listener binds to: family, address and port; or what is wrong.
pub open spec fn listener_target(addr: Seq<char>) -> Result<(bool, Seq<u8>, u16), Seq<char>> {
    if !addr.contains(':') {
        Err("listener address must be \"host:port\" or \"*:port\""@)
    } else {
        let i = choose|i: int| last_at(addr, ':', i);
        let host = addr.subrange(0, i);
        let port = addr.subrange(i + 1, addr.len() as int);
        if host.len() == 0 {
            Err("listener host must not be empty (use \"*\" for any)"@)
        } else {
            match number(encode_utf8(port), 65535) {
                None => Err("\""@ + port + "\" is not a valid port"@),
                Some(n) => match host_octets(host) {
                    None => Err("\""@ + host + "\" is not an IP address or \"*\""@),
                    Some((v4, o)) => Ok((v4, o, n as u16)),
                },
            }
        }
    }
}

proof fn lemma_last_unique(s: Seq<char>, c: char, i: int)
    requires
        last_at(s, c, i),
    ensures
        forall|j: int| last_at(s, c, j) ==> j == i,
{
    assert forall|j: int| last_at(s, c, j) implies j == i by {
        if j < i {
            assert(s[i] != c);
        }
        if i < j {
            assert(s[j] != c);
        }
    }
}

fn rfind(s: &str, c: char) -> (r: Option<usize>)
    ensures
        match r {
            Some(i) => last_at(s@, c, i as int),
            None => !s@.contains(c),
        },
{
    let n: usize = s.unicode_len();
    let mut i: usize = n;
    while i > 0
        invariant
            i <= n,
            n == s@.len(),
            forall|j: int| i <= j < n ==> s@[j] != c,
        decreases i,
    {
        i -= 1;
        if s.get_char(i) == c {
            return Some(i);
        }
    }
    None
}

fn parse_host(host: &str) -> (r: Option<Addr>)
    ensures
        match host_octets(host@) {
            Some((true, o)) => r matches Some(Addr::V4(a)) && a@ == o,
            Some((false, o)) => r matches Some(Addr::V6(a)) && a@ == o,
            None => r is None,
        },
{
    if same(host, "*") {
        let a = [0u8, 0, 0, 0];
        assert(a@ =~= seq![0u8, 0, 0, 0]);
        return Some(Addr::V4(a));
    }
    let h = host.as_bytes();
    if h.len() >= 2 && h[0] == 91 && h[h.len() - 1] == 93 {
        crate::router::addr::parse_v6_addr(&h[1..h.len() - 1])
    } else {
        crate::router::addr::parse_v4_addr(h)
    }
}

/// The address and port that a listener binds to, or what is wrong with it.
pub fn parse_listener_addr(addr: &str) -> (r: Result<(Addr, u16), String>)
    ensures
        match listener_target(addr@) {
            Ok((v4, o, port)) => r matches Ok((a, p)) && p == port && a.octets() == o && (a is V4)
                == v4,
            Err(m) => r matches Err(e) && e@ == m,
        },
{
    let i: usize = match rfind(addr, ':') {
        Some(i) => i,
        None => {
            return Err("listener address must be \"host:port\" or \"*:port\"".to_owned());
        },
    };
    proof {
        lemma_last_unique(addr@, ':', i as int);
    }
    let n: usize = addr.unicode_len();
    let host = addr.substring_char(0, i);
    let port = addr.substring_char(i + 1, n);
    if host.is_empty() {
        return Err("listener host must not be empty (use \"*\" for any)".to_owned());
    }
    let p: u64 = match parse_number(port.as_bytes(), 65535) {
        Some(n) => n,
        None => {
            return Err(cat3("\"", port, "\" is not a valid port"));
        },
    };
    match parse_host(host) {
        Some(a) => Ok((a, p as u16)),
        None => Err(cat3("\"", host, "\" is not an IP address or \"*\"")),
    }
}

fn validate_listener_addr(addr: &str, path: &str) -> (r: Result<(), ConfigError>)
    ensures
        checked(
            r,
            match listener_target(addr@) {
                Ok(_) => None,
                Err(m) => fault(path@, m),
            },
        ),
{
    match parse_listener_addr(addr) {
        Ok(_) => Ok(()),
        Err(m) => Err(ConfigError::invalid(path.to_owned(), m)),
    }
}

// Applications.
pub open spec fn is_module_byte(b: u8) -> bool {
    97 <= b <= 122 || 48 <= b <= 57 || b == 45 || b == 95
}

pub open spec fn is_module_name(m: Seq<char>) -> bool {
    let b = encode_utf8(m);
    b.len() > 0 && forall|i: int| 0 <= i < b.len() ==> is_module_byte(#[trigger] b[i])
}

/// A dot and at least one more byte.
pub open spec fn is_extension(e: Seq<char>) -> bool {
    e.len() > 0 && e[0] == '.' && encode_utf8(e).len() >= 2
}

/// The first entry that is no extension.
pub open spec fn execute_fault(exts: Seq<String>, path: Seq<char>) -> Option<Fault>
    decreases exts.len(),
{
    if exts.len() == 0 {
        None
    } else {
        match execute_fault(exts.drop_last(), path) {
            Some(f) => Some(f),
            None => if is_extension(exts.last()@) {
                None
            } else {
                fault(
                    path + ".execute"@,
                    "extension \""@ + exts.last()@ + "\" must look like \".html\""@,
                )
            },
        }
    }
}

pub open spec fn processes_fault(p: Processes, path: Seq<char>) -> Option<Fault> {
    match p {
        Processes::Fixed(n) => if n == 0 {
            fault(path + ".processes"@, "must be >= 1"@)
        } else {
            None
        },
        Processes::Dynamic { max, spare, .. } => if max == 0 {
            fault(path + ".processes.max"@, "must be >= 1"@)
        } else if spare > max {
            fault(
                path + ".processes.spare"@,
                "spare ("@ + chars(dec(spare as nat)) + ") must not exceed max ("@ + chars(
                    dec(max as nat),
                ) + ")"@,
            )
        } else {
            None
        },
        Processes::Auto => None,
    }
}

/// What is wrong with an application; the first fault counts.
pub open spec fn application_fault(app: Application, path: Seq<char>) -> Option<Fault> {
    if !is_module_name(app.module@) {
        fault(
            path + ".module"@,
            "module name \""@ + app.module@ + "\" must be non-empty [a-z0-9_-]"@,
        )
    } else if processes_fault(app.processes, path) is Some {
        processes_fault(app.processes, path)
    } else if app.concurrency == Some(0u32) {
        fault(path + ".concurrency"@, "must be >= 1"@)
    } else if app.queue.max == 0 {
        fault(path + ".queue.max"@, "must be >= 1"@)
    } else if app.limits.task_timeout < app.limits.response_timeout {
        fault(path + ".limits.task_timeout"@, "must be >= limits.response_timeout"@)
    } else {
        execute_fault(app.execute@, path)
    }
}

fn invalid(path: &str, suffix: &str, message: &str) -> (r: Result<(), ConfigError>)
    ensures
        checked(r, fault(path@ + suffix@, message@)),
{
    Err(ConfigError::invalid(cat2(path, suffix), message.to_owned()))
}

fn check_module_name(m: &str) -> (r: bool)
    ensures
        r == is_module_name(m@),
{
    let b = m.as_bytes();
    let mut i: usize = 0;
    while i < b.len()
        invariant
            i <= b@.len(),
            b@ == encode_utf8(m@),
            forall|j: int| 0 <= j < i ==> is_module_byte(#[trigger] b@[j]),
        decreases b@.len() - i,
    {
        let c: u8 = b[i];
        if !(97 <= c && c <= 122 || 48 <= c && c <= 57 || c == 45 || c == 95) {
            assert(!is_module_byte(b@[i as int]));
            return false;
        }
        i += 1;
    }
    b.len() > 0
}

fn check_execute(exts: &Vec<String>, path: &str) -> (r: Result<(), ConfigError>)
    ensures
        checked(r, execute_fault(exts@, path@)),
{
    let mut i: usize = 0;
    assert(exts@.take(0).len() == 0);
    while i < exts.len()
        invariant
            i <= exts@.len(),
            execute_fault(exts@.take(i as int), path@) is None,
        decreases exts@.len() - i,
    {
        let e = exts[i].as_str();
        proof {
            assert(exts@.take(i + 1).drop_last() =~= exts@.take(i as int));
            assert(exts@.take(i + 1).last() == exts@[i as int]);
        }
        if e.is_empty() || e.get_char(0) != '.' || e.as_bytes().len() < 2 {
            proof {
                lemma_execute_prefix(exts@, i + 1, path@);
            }
            let m = cat3("extension \"", e, "\" must look like \".html\"");
            return invalid(path, ".execute", m.as_str());
        }
        i += 1;
    }
    assert(exts@.take(i as int) =~= exts@);
    Ok(())
}

proof fn lemma_execute_prefix(exts: Seq<String>, n: int, path: Seq<char>)
    requires
        0 <= n <= exts.len(),
        execute_fault(exts.take(n), path) is Some,
    ensures
        execute_fault(exts, path) == execute_fault(exts.take(n), path),
    decreases exts.len(),
{
    if n == exts.len() {
        assert(exts.take(n) =~= exts);
    } else {
        assert(exts.drop_last().take(n) =~= exts.take(n));
        lemma_execute_prefix(exts.drop_last(), n, path);
    }
}

pub fn validate_application(app: &Application, path: &str) -> (r: Result<(), ConfigError>)
    ensures
        checked(r, application_fault(*app, path@)),
{
    if !check_module_name(app.module.as_str()) {
        let m = cat3(
            "module name \"",
            app.module.as_str(),
            "\" must be non-empty [a-z0-9_-]",
        );
        return invalid(path, ".module", m.as_str());
    }
    match app.processes {
        Processes::Fixed(n) => {
            if n == 0 {
                return invalid(path, ".processes", "must be >= 1");
            }
        },
        Processes::Dynamic { max, spare, .. } => {
            if max == 0 {
                return invalid(path, ".processes.max", "must be >= 1");
            }
            if spare > max {
                let a = decimal(spare as u64);
                let b = decimal(max as u64);
                let m = cat5("spare (", a.as_str(), ") must not exceed max (", b.as_str(), ")");
                return invalid(path, ".processes.spare", m.as_str());
            }
        },
        Processes::Auto => {},
    }
    if let Some(n) = app.concurrency {
        if n == 0 {
            return invalid(path, ".concurrency", "must be >= 1");
        }
    }
    if app.queue.max == 0 {
        return invalid(path, ".queue.max", "must be >= 1");
    }
    if app.limits.task_timeout < app.limits.response_timeout {
        return invalid(path, ".limits.task_timeout", "must be >= limits.response_timeout");
    }
    check_execute(&app.execute, path)
}

// Actions.
/// An application that is looked for: the one of this name, or any.
pub open spec fn sought(r: ApplicationRef, to: Option<Seq<char>>) -> bool {
    match to {
        Some(n) => r matches ApplicationRef::Name(name) && name@ == n,
        None => true,
    }
}

/// Whether an action can hand a request to an application that is looked for,
/// where `reach` says it of every route: itself, by a jump, or by its fallback.
pub open spec fn reaches(
    a: Action,
    to: Option<Seq<char>>,
    keys: Seq<Seq<char>>,
    reach: Seq<bool>,
) -> bool
    decreases a,
{
    ||| a.application matches Some(r) && sought(r, to)
    ||| a.route matches Some(r) && exists|i: int|
        0 <= i < keys.len() && #[trigger] keys[i] == r@ && reach[i]
    ||| a.fallback matches Some(f) && reaches(*f, to, keys, reach)
}

/// Whether some step of a route can hand a request to an application that is
/// looked for.
pub open spec fn steps_reach(
    steps: Seq<RouteStep>,
    to: Option<Seq<char>>,
    keys: Seq<Seq<char>>,
    reach: Seq<bool>,
) -> bool {
    exists|j: int| 0 <= j < steps.len() && reaches(
        (#[trigger] steps[j]).action,
        to,
        keys,
        reach,
    )
}

/// For every route, whether it can hand a request to an application that is
/// looked for with at most `n` jumps.
pub open spec fn reach_within(
    routes: Table<Vec<RouteStep>>,
    to: Option<Seq<char>>,
    n: nat,
) -> Seq<bool>
    decreases n,
{
    let count = routes.entries().len();
    if n == 0 {
        Seq::new(count, |i: int| false)
    } else {
        let before = reach_within(routes, to, (n - 1) as nat);
        Seq::new(count, |i: int| steps_reach(routes.val(i)@, to, routes.keys(), before))
    }
}

/// A share that opts out of source protection, in front of an application.
pub open spec fn leaks_sources(a: Action, keys: Seq<Seq<char>>, reach: Seq<bool>) -> bool {
    &&& a.share matches Some(Share::Full(o)) && !(o.serve_sources is Off)
    &&& a.fallback matches Some(f) && reaches(*f, None, keys, reach)
}

pub open spec fn terminals(a: Action) -> int {
    (if a.application is Some {
        1int
    } else {
        0
    }) + (if a.route is Some {
        1int
    } else {
        0
    }) + (if a.share is Some {
        1int
    } else {
        0
    }) + (if a.return_ is Some {
        1int
    } else {
        0
    })
}

pub open spec fn return_fault(a: Action, path: Seq<char>) -> Option<Fault> {
    match a.return_ {
        Some(code) => if !(100 <= code <= 599) {
            fault(
                path + ".return"@,
                "status code "@ + chars(dec(code as nat)) + " is out of range 100..=599"@,
            )
        } else if a.location is Some && !(300 <= code <= 399) {
            fault(path + ".location"@, "\"location\" requires a 3xx \"return\" code"@)
        } else {
            None
        },
        None => if a.location is Some {
            fault(path + ".location"@, "\"location\" is only valid together with \"return\""@)
        } else {
            None
        },
    }
}

/// What is wrong with an action; the first fault counts, the fallback last.
pub open spec fn action_fault(
    a: Action,
    path: Seq<char>,
    keys: Seq<Seq<char>>,
    reach: Seq<bool>,
    apps: Set<Seq<char>>,
) -> Option<Fault>
    decreases a,
{
    if terminals(a) != 1 {
        fault(
            path,
            "exactly one of \"application\", \"route\", \"share\", \"return\" is required"@,
        )
    } else if a.application matches Some(ApplicationRef::Name(n)) && !apps.contains(n@) {
        Some(
            Fault {
                path: path + ".application"@,
                message: Message::Names {
                    head: "unknown application \""@ + a.application->0->Name_0@
                        + "\"; available: "@,
                    known: apps,
                },
            },
        )
    } else if a.route matches Some(r) && !keys.contains(r@) {
        Some(
            Fault {
                path: path + ".route"@,
                message: Message::Names {
                    head: "unknown route \""@ + a.route->0@ + "\"; available: "@,
                    known: keys.to_set(),
                },
            },
        )
    } else if return_fault(a, path) is Some {
        return_fault(a, path)
    } else if a.share matches Some(Share::Full(o)) && o.share.items().len() != 1 {
        fault(
            path + ".share"@,
            "\"share\" takes exactly one path; a list of candidate paths is not supported"@,
        )
    } else if a.fallback is Some && a.share is None {
        fault(path + ".fallback"@, "\"fallback\" is only valid together with \"share\""@)
    } else if leaks_sources(a, keys, reach) {
        fault(
            path + ".share.serve_sources"@,
            "not allowed together with a \"fallback\" that reaches an application"@,
        )
    } else {
        match a.fallback {
            Some(f) => action_fault(*f, path + ".fallback"@, keys, reach, apps),
            None => None,
        }
    }
}

fn is_sought(r: &ApplicationRef, to: Option<&str>) -> (b: bool)
    ensures
        b == sought(*r, opt_str(to)),
{
    match to {
        Some(n) => match r {
            ApplicationRef::Name(name) => same(name.as_str(), n),
            _ => false,
        },
        None => true,
    }
}

/// Whether an action can hand a request to an application that is looked for.
pub fn action_reaches(
    a: &Action,
    to: Option<&str>,
    routes: &Table<Vec<RouteStep>>,
    reach: &Vec<bool>,
) -> (r: bool)
    requires
        reach@.len() == routes.entries().len(),
    ensures
        r == reaches(*a, opt_str(to), routes.keys(), reach@),
    decreases *a,
{
    proof {
        routes.lemma_keys();
    }
    if let Some(r) = &a.application {
        if is_sought(r, to) {
            return true;
        }
    }
    if let Some(name) = &a.route {
        match routes.position(name.as_str()) {
            Some(i) => {
                assert(routes.keys()[i as int] == routes.key(i as int));
                if reach[i] {
                    return true;
                }
                assert forall|k: int|
                    0 <= k < routes.keys().len() && #[trigger] routes.keys()[k]
                        == name@ implies !reach@[k] by {
                    assert(routes.key(k) == name@);
                }
            },
            None => {
                assert forall|k: int|
                    0 <= k < routes.keys().len() implies #[trigger] routes.keys()[k] != name@ by {
                    if routes.keys()[k] == name@ {
                        assert(routes.key(k) == name@);
                    }
                }
            },
        }
    }
    match &a.fallback {
        Some(f) => action_reaches(f, to, routes, reach),
        None => false,
    }
}

/// For every route, whether it can hand a request to an application that is
/// looked for.
pub fn route_reach(routes: &Table<Vec<RouteStep>>, to: Option<&str>) -> (r: Vec<bool>)
    ensures
        r@ == reach_within(*routes, opt_str(to), routes.entries().len()),
{
    let n: usize = routes.len();
    let mut reach: Vec<bool> = Vec::new();
    let mut i: usize = 0;
    while i < n
        invariant
            i <= n,
            reach@.len() == i,
            forall|k: int| 0 <= k < i ==> reach@[k] == false,
        decreases n - i,
    {
        reach.push(false);
        i += 1;
    }
    assert(reach@ =~= reach_within(*routes, opt_str(to), 0));
    let mut round: usize = 0;
    while round < n
        invariant
            round <= n,
            n == routes.entries().len(),
            reach@ == reach_within(*routes, opt_str(to), round as nat),
        decreases n - round,
    {
        let ghost before = reach@;
        assert(before.len() == n);
        let mut next: Vec<bool> = Vec::new();
        let mut k: usize = 0;
        while k < n
            invariant
                k <= n,
                n == routes.entries().len(),
                reach@ == before,
                before.len() == n,
                next@.len() == k,
                forall|m: int|
                    0 <= m < k ==> #[trigger] next@[m] == steps_reach(
                        routes.val(m)@,
                        opt_str(to),
                        routes.keys(),
                        before,
                    ),
            decreases n - k,
        {
            let steps = routes.value(k);
            let mut hit = false;
            let mut j: usize = 0;
            while j < steps.len()
                invariant
                    j <= steps@.len(),
                    reach@ == before,
                    before.len() == routes.entries().len(),
                    hit == exists|m: int|
                        0 <= m < j && reaches(
                            (#[trigger] steps@[m]).action,
                            opt_str(to),
                            routes.keys(),
                            before,
                        ),
                decreases steps@.len() - j,
            {
                let one = action_reaches(&steps[j].action, to, routes, &reach);
                if one {
                    assert(reaches(
                        steps@[j as int].action,
                        opt_str(to),
                        routes.keys(),
                        before,
                    ));
                    hit = true;
                }
                j += 1;
            }
            assert(routes.val(k as int) == *steps);
            next.push(hit);
            k += 1;
        }
        proof {
            assert(next@ =~= reach_within(*routes, opt_str(to), (round + 1) as nat));
        }
        reach = next;
        round += 1;
    }
    reach
}

fn validate_return(action: &Action, path: &str) -> (r: Result<(), ConfigError>)
    ensures
        checked(r, return_fault(*action, path@)),
{
    match action.return_ {
        Some(code) => {
            if code < 100 || code > 599 {
                let d = decimal(code as u64);
                let m = cat3("status code ", d.as_str(), " is out of range 100..=599");
                return invalid(path, ".return", m.as_str());
            }
            if action.location.is_some() && (code < 300 || code > 399) {
                return invalid(
                    path,
                    ".location",
                    "\"location\" requires a 3xx \"return\" code",
                );
            }
            Ok(())
        },
        None => {
            if action.location.is_some() {
                return invalid(
                    path,
                    ".location",
                    "\"location\" is only valid together with \"return\"",
                );
            }
            Ok(())
        },
    }
}

proof fn lemma_names_said(m: Seq<char>, head: Seq<char>, list: Seq<char>, known: Set<Seq<char>>)
    requires
        lists(list, known),
        m == head + list,
    ensures
        says(m, Message::Names { head, known }),
{
    let msg = Message::Names { head, known };
    assert(lists(list, msg->known) && m == msg->head + list);
}

fn unknown_name<T>(
    path: &str,
    suffix: &str,
    head: &str,
    name: &str,
    known: &Table<T>,
) -> (r: Result<(), ConfigError>)
    ensures
        checked(
            r,
            Some(
                Fault {
                    path: path@ + suffix@,
                    message: Message::Names {
                        head: head@ + name@ + "\"; available: "@,
                        known: known.map().dom(),
                    },
                },
            ),
        ),
{
    let list = known.available();
    let front = cat3(head, name, "\"; available: ");
    let m = cat2(front.as_str(), list.as_str());
    proof {
        let h = head@ + name@ + "\"; available: "@;
        let known = known.map().dom();
        assert(lists(list@, known));
        assert(m@ == h + list@);
        lemma_names_said(m@, h, list@, known);
    }
    Err(ConfigError::invalid(cat2(path, suffix), m))
}

fn count(b: bool) -> (r: u8)
    ensures
        r == (if b {
            1int
        } else {
            0
        }),
{
    if b {
        1
    } else {
        0
    }
}

fn validate_action(
    action: &Action,
    path: &str,
    routes: &Table<Vec<RouteStep>>,
    reach: &Vec<bool>,
    applications: &Table<Application>,
) -> (r: Result<(), ConfigError>)
    requires
        reach@.len() == routes.entries().len(),
    ensures
        checked(
            r,
            action_fault(
                *action,
                path@,
                routes.keys(),
                reach@,
                applications.map().dom(),
            ),
        ),
    decreases *action,
{
    proof {
        routes.lemma_keys();
        applications.lemma_keys();
    }
    let n: u8 = count(action.application.is_some()) + count(action.route.is_some()) + count(
        action.share.is_some(),
    ) + count(action.return_.is_some());
    if n != 1 {
        let r = invalid(
            path,
            "",
            "exactly one of \"application\", \"route\", \"share\", \"return\" is required",
        );
        proof {
            reveal_strlit("");
            assert(path@ + ""@ =~= path@);
        }
        return r;
    }
    if let Some(ApplicationRef::Name(name)) = &action.application {
        if !applications.contains(name.as_str()) {
            return unknown_name(
                path,
                ".application",
                "unknown application \"",
                name.as_str(),
                applications,
            );
        }
    }
    if let Some(route) = &action.route {
        if !routes.contains(route.as_str()) {
            return unknown_name(path, ".route", "unknown route \"", route.as_str(), routes);
        }
    }
    match validate_return(action, path) {
        Ok(()) => {},
        Err(e) => {
            return Err(e);
        },
    }
    if let Some(Share::Full(opts)) = &action.share {
        if opts.share.len() != 1 {
            return invalid(
                path,
                ".share",
                "\"share\" takes exactly one path; a list of candidate paths is not supported",
            );
        }
    }
    if action.fallback.is_some() && action.share.is_none() {
        return invalid(
            path,
            ".fallback",
            "\"fallback\" is only valid together with \"share\"",
        );
    }
    if let Some(Share::Full(opts)) = &action.share {
        if opts.serve_sources.is_enabled() {
            if let Some(f) = &action.fallback {
                if action_reaches(f, None, routes, reach) {
                    return invalid(
                        path,
                        ".share.serve_sources",
                        "not allowed together with a \"fallback\" that reaches an application",
                    );
                }
            }
        }
    }
    match &action.fallback {
        Some(f) => {
            let p = cat2(path, ".fallback");
            validate_action(f, p.as_str(), routes, reach, applications)
        },
        None => Ok(()),
    }
}

// Inline applications.
pub open spec fn resolved_processes(p: Processes, auto_workers: u32) -> Processes {
    if p == Processes::Auto {
        Processes::Fixed(auto_workers)
    } else {
        p
    }
}

/// An application whose process count is settled.
pub open spec fn settled(app: Application, auto_workers: u32) -> Application {
    Application { processes: resolved_processes(app.processes, auto_workers), ..app }
}

/// The name of the application that stands inline at a step.
pub open spec fn generated_name(route: Seq<char>, i: int) -> Seq<char> {
    route + "["@ + chars(dec(i as nat)) + "]"@
}

pub open spec fn action_path(route: Seq<char>, i: int) -> Seq<char> {
    "routes."@ + generated_name(route, i) + ".action"@
}

/// The applications once those of an action, its fallbacks included, are moved
/// in under generated names; a name that is taken already is a fault.
pub open spec fn extracted(
    a: Action,
    path: Seq<char>,
    name: Seq<char>,
    apps: Map<Seq<char>, Application>,
    auto: u32,
) -> Result<Map<Seq<char>, Application>, Fault>
    decreases a,
{
    let own = match a.application {
        Some(ApplicationRef::Inline(app)) => if apps.dom().contains(name) {
            Err(
                Fault {
                    path: path + ".application"@,
                    message: Message::Text(
                        "generated name \""@ + name + "\" collides with a named application"@,
                    ),
                },
            )
        } else {
            Ok(apps.insert(name, settled(*app, auto)))
        },
        _ => Ok(apps),
    };
    match own {
        Err(f) => Err(f),
        Ok(m) => match a.fallback {
            Some(f) => extracted(*f, path + ".fallback"@, name + ".fallback"@, m, auto),
            None => Ok(m),
        },
    }
}

pub open spec fn extracted_steps(
    steps: Seq<RouteStep>,
    route: Seq<char>,
    apps: Map<Seq<char>, Application>,
    auto: u32,
) -> Result<Map<Seq<char>, Application>, Fault>
    decreases steps.len(),
{
    if steps.len() == 0 {
        Ok(apps)
    } else {
        let i = steps.len() - 1;
        match extracted_steps(steps.drop_last(), route, apps, auto) {
            Err(f) => Err(f),
            Ok(m) => extracted(
                steps.last().action,
                action_path(route, i),
                generated_name(route, i),
                m,
                auto,
            ),
        }
    }
}

pub open spec fn extracted_routes(
    routes: Seq<(String, Vec<RouteStep>)>,
    apps: Map<Seq<char>, Application>,
    auto: u32,
) -> Result<Map<Seq<char>, Application>, Fault>
    decreases routes.len(),
{
    if routes.len() == 0 {
        Ok(apps)
    } else {
        match extracted_routes(routes.drop_last(), apps, auto) {
            Err(f) => Err(f),
            Ok(m) => extracted_steps(routes.last().1@, routes.last().0@, m, auto),
        }
    }
}

/// `b` is `a` with every inline application replaced by its generated name.
pub open spec fn named(a: Action, b: Action, name: Seq<char>) -> bool
    decreases a,
{
    &&& match a.application {
        Some(ApplicationRef::Inline(_)) => b.application matches Some(ApplicationRef::Name(n))
            && n@ == name,
        _ => b.application == a.application,
    }
    &&& b.route == a.route
    &&& b.share == a.share
    &&& b.return_ == a.return_
    &&& b.location == a.location
    &&& b.rewrite == a.rewrite
    &&& b.response_headers == a.response_headers
    &&& match (a.fallback, b.fallback) {
        (None, None) => true,
        (Some(x), Some(y)) => named(*x, *y, name + ".fallback"@),
        _ => false,
    }
}

pub open spec fn named_steps(a: Seq<RouteStep>, b: Seq<RouteStep>, route: Seq<char>) -> bool {
    &&& a.len() == b.len()
    &&& forall|j: int|
        0 <= j < a.len() ==> {
            &&& (#[trigger] b[j]).match_ == a[j].match_
            &&& named(a[j].action, b[j].action, generated_name(route, j))
        }
}

/// The generated names of an action are names of applications.
spec fn gens_in(a: Action, name: Seq<char>, apps: Set<Seq<char>>) -> bool
    decreases a,
{
    &&& a.application matches Some(ApplicationRef::Inline(_)) ==> apps.contains(name)
    &&& a.fallback matches Some(f) ==> gens_in(*f, name + ".fallback"@, apps)
}

proof fn lemma_gens_grow(a: Action, name: Seq<char>, small: Set<Seq<char>>, large: Set<Seq<char>>)
    requires
        gens_in(a, name, small),
        small.subset_of(large),
    ensures
        gens_in(a, name, large),
    decreases a,
{
    if let Some(f) = a.fallback {
        lemma_gens_grow(*f, name + ".fallback"@, small, large);
    }
}

/// Naming the inline applications of an action changes nothing that the check
/// of the action looks at.
proof fn lemma_named_fault(
    a: Action,
    b: Action,
    name: Seq<char>,
    path: Seq<char>,
    keys: Seq<Seq<char>>,
    reach: Seq<bool>,
    apps: Set<Seq<char>>,
)
    requires
        named(a, b, name),
        gens_in(a, name, apps),
    ensures
        action_fault(a, path, keys, reach, apps) == action_fault(b, path, keys, reach, apps),
    decreases a,
{
    lemma_named_reaches(a, b, name, keys, reach);
    if let Some(f) = a.fallback {
        let g = b.fallback->0;
        lemma_named_reaches(*f, *g, name + ".fallback"@, keys, reach);
        lemma_named_fault(*f, *g, name + ".fallback"@, path + ".fallback"@, keys, reach, apps);
    }
}

proof fn lemma_named_reaches(
    a: Action,
    b: Action,
    name: Seq<char>,
    keys: Seq<Seq<char>>,
    reach: Seq<bool>,
)
    requires
        named(a, b, name),
    ensures
        reaches(a, None, keys, reach) == reaches(b, None, keys, reach),
    decreases a,
{
    if let Some(f) = a.fallback {
        lemma_named_reaches(*f, *b.fallback->0, name + ".fallback"@, keys, reach);
    }
}

fn settle(app: Application, auto_workers: u32) -> (r: Application)
    ensures
        r == settled(app, auto_workers),
{
    let mut app = app;
    if let Processes::Auto = app.processes {
        app.processes = Processes::Fixed(auto_workers);
    }
    app
}

/// Replace the inline applications of an action by generated names and move
/// their definitions into the global map.
fn extract_inline_apps(
    action: Action,
    path: &str,
    name: &str,
    applications: &mut Table<Application>,
    auto_workers: u32,
) -> (r: Result<Action, ConfigError>)
    ensures
        match extracted(action, path@, name@, old(applications).map(), auto_workers) {
            Ok(m) => {
                &&& r matches Ok(b) && named(action, b, name@)
                &&& final(applications).map() == m
                &&& old(applications).map().dom().subset_of(m.dom())
                &&& gens_in(action, name@, m.dom())
            },
            Err(f) => r matches Err(e) && reports(e, f),
        },
    decreases action,
{
    let Action {
        application,
        route,
        share,
        return_,
        location,
        rewrite,
        response_headers,
        fallback,
    } = action;
    let application = match application {
        Some(ApplicationRef::Inline(app)) => {
            if applications.contains(name) {
                let m = cat3(
                    "generated name \"",
                    name,
                    "\" collides with a named application",
                );
                return Err(ConfigError::invalid(cat2(path, ".application"), m));
            }
            applications.insert(name.to_owned(), settle(*app, auto_workers));
            Some(ApplicationRef::Name(name.to_owned()))
        },
        other => other,
    };
    let ghost mid = applications.map();
    let fallback = match fallback {
        Some(f) => {
            let p = cat2(path, ".fallback");
            let n = cat2(name, ".fallback");
            match extract_inline_apps(*f, p.as_str(), n.as_str(), applications, auto_workers) {
                Ok(b) => Some(Box::new(b)),
                Err(e) => {
                    return Err(e);
                },
            }
        },
        None => None,
    };
    Ok(
        Action {
            application,
            route,
            share,
            return_,
            location,
            rewrite,
            response_headers,
            fallback,
        },
    )
}

proof fn lemma_extracted_steps_prefix(
    steps: Seq<RouteStep>,
    n: int,
    route: Seq<char>,
    apps: Map<Seq<char>, Application>,
    auto: u32,
)
    requires
        0 <= n <= steps.len(),
        extracted_steps(steps.take(n), route, apps, auto) is Err,
    ensures
        extracted_steps(steps, route, apps, auto) == extracted_steps(
            steps.take(n),
            route,
            apps,
            auto,
        ),
    decreases steps.len(),
{
    if n == steps.len() {
        assert(steps.take(n) =~= steps);
    } else {
        assert(steps.drop_last().take(n) =~= steps.take(n));
        lemma_extracted_steps_prefix(steps.drop_last(), n, route, apps, auto);
    }
}

proof fn lemma_extracted_routes_prefix(
    routes: Seq<(String, Vec<RouteStep>)>,
    n: int,
    apps: Map<Seq<char>, Application>,
    auto: u32,
)
    requires
        0 <= n <= routes.len(),
        extracted_routes(routes.take(n), apps, auto) is Err,
    ensures
        extracted_routes(routes, apps, auto) == extracted_routes(routes.take(n), apps, auto),
    decreases routes.len(),
{
    if n == routes.len() {
        assert(routes.take(n) =~= routes);
    } else {
        assert(routes.drop_last().take(n) =~= routes.take(n));
        lemma_extracted_routes_prefix(routes.drop_last(), n, apps, auto);
    }
}

fn step_name(route: &str, i: usize) -> (r: String)
    ensures
        r@ == generated_name(route@, i as int),
{
    let d = decimal(i as u64);
    let front = cat2(route, "[");
    cat3(front.as_str(), d.as_str(), "]")
}

fn step_path(route: &str, i: usize) -> (r: String)
    ensures
        r@ == action_path(route@, i as int),
{
    let n = step_name(route, i);
    cat3("routes.", n.as_str(), ".action")
}

spec fn steps_gens_in(steps: Seq<RouteStep>, route: Seq<char>, apps: Set<Seq<char>>) -> bool {
    forall|j: int|
        0 <= j < steps.len() ==> gens_in(
            (#[trigger] steps[j]).action,
            generated_name(route, j),
            apps,
        )
}

proof fn lemma_steps_gens_grow(
    steps: Seq<RouteStep>,
    route: Seq<char>,
    small: Set<Seq<char>>,
    large: Set<Seq<char>>,
)
    requires
        steps_gens_in(steps, route, small),
        small.subset_of(large),
    ensures
        steps_gens_in(steps, route, large),
{
    assert forall|j: int| 0 <= j < steps.len() implies gens_in(
        (#[trigger] steps[j]).action,
        generated_name(route, j),
        large,
    ) by {
        lemma_gens_grow(steps[j].action, generated_name(route, j), small, large);
    }
}

fn extract_steps(
    steps: Vec<RouteStep>,
    route: &str,
    applications: &mut Table<Application>,
    auto_workers: u32,
) -> (r: Result<Vec<RouteStep>, ConfigError>)
    ensures
        match extracted_steps(steps@, route@, old(applications).map(), auto_workers) {
            Ok(m) => {
                &&& r matches Ok(b) && named_steps(steps@, b@, route@)
                &&& final(applications).map() == m
                &&& old(applications).map().dom().subset_of(m.dom())
                &&& steps_gens_in(steps@, route@, m.dom())
            },
            Err(f) => r matches Err(e) && reports(e, f),
        },
{
    let ghost all = steps@;
    let ghost first = applications.map();
    let mut rest: Vec<RouteStep> = steps;
    let mut out: Vec<RouteStep> = Vec::new();
    let mut i: usize = 0;
    assert(all.take(0).len() == 0);
    assert(all.skip(0) =~= all);
    while rest.len() > 0
        invariant
            all == steps@,
            i + rest@.len() == all.len(),
            i + rest.len() <= usize::MAX,
            rest@ == all.skip(i as int),
            out@.len() == i,
            first == old(applications).map(),
            extracted_steps(all.take(i as int), route@, first, auto_workers) == Ok::<
                Map<Seq<char>, Application>,
                Fault,
            >(applications.map()),
            first.dom().subset_of(applications.map().dom()),
            named_steps(all.take(i as int), out@, route@),
            steps_gens_in(all.take(i as int), route@, applications.map().dom()),
        decreases rest@.len(),
    {
        let ghost before = applications.map();
        let ghost had = out@;
        let step = rest.remove(0);
        proof {
            assert(step == all[i as int]);
            assert(rest@ =~= all.skip(i + 1));
            assert(all.take(i + 1).drop_last() =~= all.take(i as int));
        }
        let RouteStep { match_, action } = step;
        let p = step_path(route, i);
        let n = step_name(route, i);
        match extract_inline_apps(action, p.as_str(), n.as_str(), applications, auto_workers) {
            Ok(b) => {
                out.push(RouteStep { match_, action: b });
                proof {
                    let up = all.take(i + 1);
                    let dom = applications.map().dom();
                    assert forall|j: int| 0 <= j < up.len() implies gens_in(
                        (#[trigger] up[j]).action,
                        generated_name(route@, j),
                        dom,
                    ) by {
                        if j < i {
                            assert(up[j] == all.take(i as int)[j]);
                            lemma_gens_grow(
                                up[j].action,
                                generated_name(route@, j),
                                before.dom(),
                                dom,
                            );
                        }
                    }
                    assert forall|j: int| 0 <= j < up.len() implies {
                        &&& (#[trigger] out@[j]).match_ == up[j].match_
                        &&& named(up[j].action, out@[j].action, generated_name(route@, j))
                    } by {
                        if j < i {
                            assert(out@[j] == had[j]);
                            assert(up[j] == all.take(i as int)[j]);
                        }
                    }
                }
            },
            Err(e) => {
                proof {
                    lemma_extracted_steps_prefix(all, i + 1, route@, first, auto_workers);
                }
                return Err(e);
            },
        }
        i += 1;
    }
    assert(all.take(i as int) =~= all);
    Ok(out)
}

/// Routes with every inline application replaced by its generated name.
pub open spec fn named_routes(
    a: Seq<(String, Vec<RouteStep>)>,
    b: Seq<(String, Vec<RouteStep>)>,
) -> bool {
    &&& a.len() == b.len()
    &&& forall|i: int|
        0 <= i < a.len() ==> {
            &&& (#[trigger] b[i]).0 == a[i].0
            &&& named_steps(a[i].1@, b[i].1@, a[i].0@)
        }
}

spec fn routes_gens_in(routes: Seq<(String, Vec<RouteStep>)>, apps: Set<Seq<char>>) -> bool {
    forall|i: int|
        0 <= i < routes.len() ==> steps_gens_in((#[trigger] routes[i]).1@, routes[i].0@, apps)
}

fn extract_routes(
    routes: &mut Table<Vec<RouteStep>>,
    applications: &mut Table<Application>,
    auto_workers: u32,
) -> (r: Result<(), ConfigError>)
    ensures
        match extracted_routes(old(routes).entries(), old(applications).map(), auto_workers) {
            Ok(m) => {
                &&& r is Ok
                &&& final(applications).map() == m
                &&& named_routes(old(routes).entries(), final(routes).entries())
                &&& routes_gens_in(old(routes).entries(), m.dom())
            },
            Err(f) => r matches Err(e) && reports(e, f),
        },
{
    let ghost all = routes.entries();
    let ghost first = applications.map();
    let n: usize = routes.len();
    let mut i: usize = 0;
    assert(all.take(0).len() == 0);
    while i < n
        invariant
            i <= n,
            n == all.len(),
            all == old(routes).entries(),
            first == old(applications).map(),
            routes.entries().len() == n,
            forall|k: int| i <= k < n ==> #[trigger] routes.entries()[k] == all[k],
            named_routes(all.take(i as int), routes.entries().take(i as int)),
            extracted_routes(all.take(i as int), first, auto_workers) == Ok::<
                Map<Seq<char>, Application>,
                Fault,
            >(applications.map()),
            routes_gens_in(all.take(i as int), applications.map().dom()),
        decreases n - i,
    {
        let ghost before = applications.map();
        let ghost had = routes.entries();
        let name: String = routes.name(i).clone();
        let mut steps: Vec<RouteStep> = Vec::new();
        routes.swap_value(i, &mut steps);
        proof {
            assert(steps == all[i as int].1);
            assert(all.take(i + 1).drop_last() =~= all.take(i as int));
        }
        match extract_steps(steps, name.as_str(), applications, auto_workers) {
            Ok(b) => {
                let mut b = b;
                let ghost done = b@;
                routes.swap_value(i, &mut b);
                proof {
                    let up = all.take(i + 1);
                    let now = routes.entries().take(i + 1);
                    let dom = applications.map().dom();
                    assert forall|k: int| 0 <= k < up.len() implies {
                        &&& (#[trigger] now[k]).0 == up[k].0
                        &&& named_steps(up[k].1@, now[k].1@, up[k].0@)
                    } by {
                        if k < i {
                            assert(now[k] == had.take(i as int)[k]);
                            assert(up[k] == all.take(i as int)[k]);
                        }
                    }
                    assert forall|k: int| 0 <= k < up.len() implies steps_gens_in(
                        (#[trigger] up[k]).1@,
                        up[k].0@,
                        dom,
                    ) by {
                        if k < i {
                            assert(up[k] == all.take(i as int)[k]);
                            lemma_steps_gens_grow(up[k].1@, up[k].0@, before.dom(), dom);
                        }
                    }
                }
            },
            Err(e) => {
                proof {
                    lemma_extracted_routes_prefix(all, i + 1, first, auto_workers);
                }
                return Err(e);
            },
        }
        i += 1;
    }
    assert(all.take(i as int) =~= all);
    assert(routes.entries().take(i as int) =~= routes.entries());
    Ok(())
}

// The whole configuration.
pub open spec fn http_fault(h: HttpSettings) -> Option<Fault> {
    if h.header_read_timeout == 0 {
        fault("settings.http.header_read_timeout"@, "must be >= 1"@)
    } else if h.body_read_timeout == 0 {
        fault("settings.http.body_read_timeout"@, "must be >= 1"@)
    } else if h.send_timeout == 0 {
        fault("settings.http.send_timeout"@, "must be >= 1"@)
    } else if h.idle_timeout == 0 {
        fault("settings.http.idle_timeout"@, "must be >= 1"@)
    } else if h.websocket.idle_timeout == 0 {
        fault("settings.http.websocket.idle_timeout"@, "must be >= 1"@)
    } else if h.websocket.max_message_size == 0 {
        fault("settings.http.websocket.max_message_size"@, "must be >= 1"@)
    } else {
        None
    }
}

pub open spec fn listener_path(addr: Seq<char>) -> Seq<char> {
    "listeners.\""@ + addr + "\""@
}

pub open spec fn listener_fault(
    addr: Seq<char>,
    l: Listener,
    keys: Seq<Seq<char>>,
) -> Option<Fault> {
    let path = listener_path(addr);
    match listener_target(addr) {
        Err(m) => fault(path, m),
        Ok(_) => match l.route {
            Some(route) => if l.status {
                fault(path, "\"route\" and \"status\" are mutually exclusive"@)
            } else if !keys.contains(route@) {
                Some(
                    Fault {
                        path: path + ".route"@,
                        message: Message::Names {
                            head: "unknown route \""@ + route@ + "\"; available: "@,
                            known: keys.to_set(),
                        },
                    },
                )
            } else {
                None
            },
            None => if l.status {
                None
            } else {
                fault(path, "either \"route\" or \"status: true\" is required"@)
            },
        },
    }
}

pub open spec fn listeners_fault(
    ls: Seq<(String, Listener)>,
    keys: Seq<Seq<char>>,
) -> Option<Fault>
    decreases ls.len(),
{
    if ls.len() == 0 {
        None
    } else {
        match listeners_fault(ls.drop_last(), keys) {
            Some(f) => Some(f),
            None => listener_fault(ls.last().0@, ls.last().1, keys),
        }
    }
}

pub open spec fn steps_fault(
    steps: Seq<RouteStep>,
    route: Seq<char>,
    keys: Seq<Seq<char>>,
    reach: Seq<bool>,
    apps: Set<Seq<char>>,
) -> Option<Fault>
    decreases steps.len(),
{
    if steps.len() == 0 {
        None
    } else {
        match steps_fault(steps.drop_last(), route, keys, reach, apps) {
            Some(f) => Some(f),
            None => action_fault(
                steps.last().action,
                action_path(route, steps.len() - 1),
                keys,
                reach,
                apps,
            ),
        }
    }
}

pub open spec fn route_fault(
    route: Seq<char>,
    steps: Seq<RouteStep>,
    keys: Seq<Seq<char>>,
    reach: Seq<bool>,
    apps: Set<Seq<char>>,
) -> Option<Fault> {
    if steps.len() == 0 {
        fault("routes."@ + route, "route has no steps"@)
    } else {
        steps_fault(steps, route, keys, reach, apps)
    }
}

pub open spec fn routes_fault(
    routes: Seq<(String, Vec<RouteStep>)>,
    keys: Seq<Seq<char>>,
    reach: Seq<bool>,
    apps: Set<Seq<char>>,
) -> Option<Fault>
    decreases routes.len(),
{
    if routes.len() == 0 {
        None
    } else {
        match routes_fault(routes.drop_last(), keys, reach, apps) {
            Some(f) => Some(f),
            None => route_fault(routes.last().0@, routes.last().1@, keys, reach, apps),
        }
    }
}

/// All applications, the inline ones among them, or the name that collides.
pub open spec fn all_applications(
    c: Config,
    auto: u32,
) -> Result<Map<Seq<char>, Application>, Fault> {
    extracted_routes(
        c.routes.entries(),
        c.applications.map().map_values(|a: Application| settled(a, auto)),
        auto,
    )
}

/// The first fault before the applications themselves are looked at.
pub open spec fn early_fault(c: Config, auto: u32) -> Option<Fault> {
    if http_fault(c.settings.http) is Some {
        http_fault(c.settings.http)
    } else {
        match all_applications(c, auto) {
            Err(f) => Some(f),
            Ok(apps) => {
                let keys = c.routes.keys();
                let reach = reach_within(c.routes, None, c.routes.entries().len());
                if c.listeners.entries().len() == 0 {
                    fault("listeners"@, "at least one listener is required"@)
                } else if listeners_fault(c.listeners.entries(), keys) is Some {
                    listeners_fault(c.listeners.entries(), keys)
                } else {
                    routes_fault(c.routes.entries(), keys, reach, apps.dom())
                }
            },
        }
    }
}

pub open spec fn application_path(name: Seq<char>) -> Seq<char> {
    "applications."@ + name
}

/// Whether a configuration is refused with an error: the first fault of the
/// general part, or that of the first faulty application in name order.
pub open spec fn refused(c: Config, auto: u32, e: ConfigError) -> bool {
    match early_fault(c, auto) {
        Some(f) => reports(e, f),
        None => {
            let apps = all_applications(c, auto)->Ok_0;
            exists|n: Seq<char>|
                {
                    &&& #[trigger] apps.dom().contains(n)
                    &&& application_fault(apps[n], application_path(n)) is Some
                    &&& reports(e, application_fault(apps[n], application_path(n))->0)
                    &&& forall|k: Seq<char>|
                        #[trigger] apps.dom().contains(k) && name_before(k, n)
                            ==> application_fault(apps[k], application_path(k)) is None
                }
        },
    }
}

/// Whether a configuration is accepted.
pub open spec fn accepted(c: Config, auto: u32) -> bool {
    early_fault(c, auto) is None && forall|n: Seq<char>|
        #[trigger] all_applications(c, auto)->Ok_0.dom().contains(n) ==> application_fault(
            all_applications(c, auto)->Ok_0[n],
            application_path(n),
        ) is None
}

fn validate_http(http: &HttpSettings) -> (r: Result<(), ConfigError>)
    ensures
        checked(r, http_fault(*http)),
{
    let name: &str = if http.header_read_timeout == 0 {
        "settings.http.header_read_timeout"
    } else if http.body_read_timeout == 0 {
        "settings.http.body_read_timeout"
    } else if http.send_timeout == 0 {
        "settings.http.send_timeout"
    } else if http.idle_timeout == 0 {
        "settings.http.idle_timeout"
    } else if http.websocket.idle_timeout == 0 {
        "settings.http.websocket.idle_timeout"
    } else if http.websocket.max_message_size == 0 {
        "settings.http.websocket.max_message_size"
    } else {
        return Ok(());
    };
    Err(ConfigError::invalid(name.to_owned(), "must be >= 1".to_owned()))
}

fn validate_listener(
    addr: &str,
    listener: &Listener,
    routes: &Table<Vec<RouteStep>>,
) -> (r: Result<(), ConfigError>)
    ensures
        checked(r, listener_fault(addr@, *listener, routes.keys())),
{
    proof {
        routes.lemma_keys();
    }
    let path = cat3("listeners.\"", addr, "\"");
    match validate_listener_addr(addr, path.as_str()) {
        Ok(()) => {},
        Err(e) => {
            return Err(e);
        },
    }
    match &listener.route {
        Some(route) => {
            if listener.status {
                return Err(
                    ConfigError::invalid(
                        path,
                        "\"route\" and \"status\" are mutually exclusive".to_owned(),
                    ),
                );
            }
            if !routes.contains(route.as_str()) {
                return unknown_name(
                    path.as_str(),
                    ".route",
                    "unknown route \"",
                    route.as_str(),
                    routes,
                );
            }
            Ok(())
        },
        None => {
            if !listener.status {
                return Err(
                    ConfigError::invalid(
                        path,
                        "either \"route\" or \"status: true\" is required".to_owned(),
                    ),
                );
            }
            Ok(())
        },
    }
}

proof fn lemma_listeners_prefix(ls: Seq<(String, Listener)>, n: int, keys: Seq<Seq<char>>)
    requires
        0 <= n <= ls.len(),
        listeners_fault(ls.take(n), keys) is Some,
    ensures
        listeners_fault(ls, keys) == listeners_fault(ls.take(n), keys),
    decreases ls.len(),
{
    if n == ls.len() {
        assert(ls.take(n) =~= ls);
    } else {
        assert(ls.drop_last().take(n) =~= ls.take(n));
        lemma_listeners_prefix(ls.drop_last(), n, keys);
    }
}

fn validate_listeners(
    listeners: &Table<Listener>,
    routes: &Table<Vec<RouteStep>>,
) -> (r: Result<(), ConfigError>)
    ensures
        checked(r, listeners_fault(listeners.entries(), routes.keys())),
{
    let ghost all = listeners.entries();
    let mut i: usize = 0;
    assert(all.take(0).len() == 0);
    while i < listeners.len()
        invariant
            i <= all.len(),
            all == listeners.entries(),
            listeners_fault(all.take(i as int), routes.keys()) is None,
        decreases all.len() - i,
    {
        assert(all.take(i + 1).drop_last() =~= all.take(i as int));
        match validate_listener(listeners.name(i).as_str(), listeners.value(i), routes) {
            Ok(()) => {},
            Err(e) => {
                proof {
                    lemma_listeners_prefix(all, i + 1, routes.keys());
                }
                return Err(e);
            },
        }
        i += 1;
    }
    assert(all.take(i as int) =~= all);
    Ok(())
}

proof fn lemma_steps_prefix(
    steps: Seq<RouteStep>,
    n: int,
    route: Seq<char>,
    keys: Seq<Seq<char>>,
    reach: Seq<bool>,
    apps: Set<Seq<char>>,
)
    requires
        0 <= n <= steps.len(),
        steps_fault(steps.take(n), route, keys, reach, apps) is Some,
    ensures
        steps_fault(steps, route, keys, reach, apps) == steps_fault(
            steps.take(n),
            route,
            keys,
            reach,
            apps,
        ),
    decreases steps.len(),
{
    if n == steps.len() {
        assert(steps.take(n) =~= steps);
    } else {
        assert(steps.drop_last().take(n) =~= steps.take(n));
        lemma_steps_prefix(steps.drop_last(), n, route, keys, reach, apps);
    }
}

fn validate_steps(
    route: &str,
    steps: &Vec<RouteStep>,
    routes: &Table<Vec<RouteStep>>,
    reach: &Vec<bool>,
    applications: &Table<Application>,
) -> (r: Result<(), ConfigError>)
    requires
        reach@.len() == routes.entries().len(),
    ensures
        checked(
            r,
            route_fault(
                route@,
                steps@,
                routes.keys(),
                reach@,
                applications.map().dom(),
            ),
        ),
{
    if steps.len() == 0 {
        return Err(
            ConfigError::invalid(cat2("routes.", route), "route has no steps".to_owned()),
        );
    }
    let ghost apps = applications.map().dom();
    let ghost keys = routes.keys();
    let mut i: usize = 0;
    assert(steps@.take(0).len() == 0);
    while i < steps.len()
        invariant
            i <= steps@.len(),
            steps@.len() > 0,
            reach@.len() == routes.entries().len(),
            apps == applications.map().dom(),
            keys == routes.keys(),
            steps_fault(steps@.take(i as int), route@, keys, reach@, apps) is None,
        decreases steps@.len() - i,
    {
        proof {
            assert(steps@.take(i + 1).drop_last() =~= steps@.take(i as int));
            assert(steps@.take(i + 1).last() == steps@[i as int]);
        }
        let p = step_path(route, i);
        match validate_action(&steps[i].action, p.as_str(), routes, reach, applications) {
            Ok(()) => {},
            Err(e) => {
                proof {
                    lemma_steps_prefix(steps@, i + 1, route@, keys, reach@, apps);
                }
                return Err(e);
            },
        }
        i += 1;
    }
    assert(steps@.take(i as int) =~= steps@);
    Ok(())
}

proof fn lemma_routes_prefix(
    routes: Seq<(String, Vec<RouteStep>)>,
    n: int,
    keys: Seq<Seq<char>>,
    reach: Seq<bool>,
    apps: Set<Seq<char>>,
)
    requires
        0 <= n <= routes.len(),
        routes_fault(routes.take(n), keys, reach, apps) is Some,
    ensures
        routes_fault(routes, keys, reach, apps) == routes_fault(
            routes.take(n),
            keys,
            reach,
            apps,
        ),
    decreases routes.len(),
{
    if n == routes.len() {
        assert(routes.take(n) =~= routes);
    } else {
        assert(routes.drop_last().take(n) =~= routes.take(n));
        lemma_routes_prefix(routes.drop_last(), n, keys, reach, apps);
    }
}

fn validate_routes(
    routes: &Table<Vec<RouteStep>>,
    reach: &Vec<bool>,
    applications: &Table<Application>,
) -> (r: Result<(), ConfigError>)
    requires
        reach@.len() == routes.entries().len(),
    ensures
        checked(
            r,
            routes_fault(
                routes.entries(),
                routes.keys(),
                reach@,
                applications.map().dom(),
            ),
        ),
{
    let ghost all = routes.entries();
    let ghost apps = applications.map().dom();
    let ghost keys = routes.keys();
    let mut i: usize = 0;
    assert(all.take(0).len() == 0);
    while i < routes.len()
        invariant
            i <= all.len(),
            all == routes.entries(),
            reach@.len() == routes.entries().len(),
            apps == applications.map().dom(),
            keys == routes.keys(),
            routes_fault(all.take(i as int), keys, reach@, apps) is None,
        decreases all.len() - i,
    {
        assert(all.take(i + 1).drop_last() =~= all.take(i as int));
        match validate_steps(
            routes.name(i).as_str(),
            routes.value(i),
            routes,
            reach,
            applications,
        ) {
            Ok(()) => {},
            Err(e) => {
                proof {
                    lemma_routes_prefix(all, i + 1, keys, reach@, apps);
                }
                return Err(e);
            },
        }
        i += 1;
    }
    assert(all.take(i as int) =~= all);
    Ok(())
}

proof fn lemma_named_steps_fault(
    a: Seq<RouteStep>,
    b: Seq<RouteStep>,
    route: Seq<char>,
    keys: Seq<Seq<char>>,
    reach: Seq<bool>,
    apps: Set<Seq<char>>,
)
    requires
        named_steps(a, b, route),
        steps_gens_in(a, route, apps),
    ensures
        steps_fault(a, route, keys, reach, apps) == steps_fault(b, route, keys, reach, apps),
    decreases a.len(),
{
    if a.len() > 0 {
        let n = a.len() - 1;
        let x = a.drop_last();
        let y = b.drop_last();
        assert forall|j: int| 0 <= j < x.len() implies {
            &&& (#[trigger] y[j]).match_ == x[j].match_
            &&& named(x[j].action, y[j].action, generated_name(route, j))
        } by {
            assert(y[j] == b[j]);
        }
        assert forall|j: int| 0 <= j < x.len() implies gens_in(
            (#[trigger] x[j]).action,
            generated_name(route, j),
            apps,
        ) by {
            assert(x[j] == a[j]);
        }
        lemma_named_steps_fault(x, y, route, keys, reach, apps);
        assert(b[n].match_ == a[n].match_);
        lemma_named_fault(
            a[n].action,
            b[n].action,
            generated_name(route, n),
            action_path(route, n),
            keys,
            reach,
            apps,
        );
    }
}

proof fn lemma_named_routes_fault(
    a: Seq<(String, Vec<RouteStep>)>,
    b: Seq<(String, Vec<RouteStep>)>,
    keys: Seq<Seq<char>>,
    reach: Seq<bool>,
    apps: Set<Seq<char>>,
)
    requires
        named_routes(a, b),
        routes_gens_in(a, apps),
    ensures
        routes_fault(a, keys, reach, apps) == routes_fault(b, keys, reach, apps),
    decreases a.len(),
{
    if a.len() > 0 {
        let n = a.len() - 1;
        let x = a.drop_last();
        let y = b.drop_last();
        assert forall|i: int| 0 <= i < x.len() implies {
            &&& (#[trigger] y[i]).0 == x[i].0
            &&& named_steps(x[i].1@, y[i].1@, x[i].0@)
        } by {
            assert(y[i] == b[i]);
        }
        assert forall|i: int| 0 <= i < x.len() implies steps_gens_in(
            (#[trigger] x[i]).1@,
            x[i].0@,
            apps,
        ) by {
            assert(x[i] == a[i]);
        }
        lemma_named_routes_fault(x, y, keys, reach, apps);
        assert(b[n].0 == a[n].0);
        assert(steps_gens_in(a[n].1@, a[n].0@, apps));
        lemma_named_steps_fault(a[n].1@, b[n].1@, a[n].0@, keys, reach, apps);
    }
}

/// Settle the process count of every application.
fn settle_all(applications: Table<Application>, auto_workers: u32) -> (r: Table<Application>)
    ensures
        r.map() == applications.map().map_values(|a: Application| settled(a, auto_workers)),
{
    let ghost f = |a: Application| settled(a, auto_workers);
    let mut rest = applications.into_entries();
    let ghost all = rest@;
    let mut out: Table<Application> = Table::new();
    let ghost mut i: int = 0;
    proof {
        assert(all.take(0).len() == 0);
        assert(all.skip(0) =~= all);
        assert(out.map() =~= map_of(all.take(0)).map_values(f));
    }
    while rest.len() > 0
        invariant
            0 <= i,
            i + rest@.len() == all.len(),
            rest@ == all.skip(i),
            f == (|a: Application| settled(a, auto_workers)),
            out.map() == map_of(all.take(i)).map_values(f),
        decreases rest@.len(),
    {
        let (name, app) = rest.remove(0);
        let ghost given = name@;
        let ghost before = map_of(all.take(i));
        proof {
            assert(all[i].0@ == given && all[i].1 == app);
            assert(rest@ =~= all.skip(i + 1));
            assert(all.take(i + 1).drop_last() =~= all.take(i));
            assert(before.insert(given, app).map_values(f) =~= before.map_values(f).insert(
                given,
                settled(app, auto_workers),
            ));
            i = i + 1;
        }
        out.insert(name, settle(app, auto_workers));
    }
    assert(all.take(i) =~= all);
    out
}

fn validate_applications(applications: &Table<Application>) -> (r: Result<(), ConfigError>)
    ensures
        match r {
            Ok(()) => forall|n: Seq<char>| #[trigger]
                applications.map().dom().contains(n) ==> application_fault(
                    applications.map()[n],
                    application_path(n),
                ) is None,
            Err(e) => exists|n: Seq<char>|
                {
                    &&& #[trigger] applications.map().dom().contains(n)
                    &&& application_fault(applications.map()[n], application_path(n)) is Some
                    &&& reports(
                        e,
                        application_fault(applications.map()[n], application_path(n))->0,
                    )
                    &&& forall|k: Seq<char>|
                        #[trigger] applications.map().dom().contains(k) && name_before(k, n)
                            ==> application_fault(
                            applications.map()[k],
                            application_path(k),
                        ) is None
                },
        },
{
    let ghost m = applications.map();
    let ghost keys = applications.keys();
    applications.ordered();
    proof {
        applications.lemma_keys();
    }
    let mut i: usize = 0;
    while i < applications.len()
        invariant
            i <= applications.entries().len(),
            m == applications.map(),
            keys == applications.keys(),
            ascending(keys),
            forall|k: Seq<char>| #[trigger] applications.has(k) <==> keys.contains(k),
            forall|j: int|
                0 <= j < i ==> application_fault(
                    m[#[trigger] keys[j]],
                    application_path(keys[j]),
                ) is None,
        decreases applications.entries().len() - i,
    {
        let name = applications.name(i).as_str();
        assert(keys[i as int] == name@);
        let app = match applications.get(name) {
            Some(a) => a,
            None => {
                assert(keys.contains(name@));
                return Ok(());
            },
        };
        assert(m[keys[i as int]] == *app);
        let p = cat2("applications.", name);
        match validate_application(app, p.as_str()) {
            Ok(()) => {},
            Err(e) => {
                proof {
                    let n = name@;
                    assert(keys.contains(n));
                    assert(applications.has(n));
                    assert(m.dom().contains(n));
                    assert forall|k: Seq<char>| #[trigger]
                        m.dom().contains(k) && name_before(k, n) implies application_fault(
                        m[k],
                        application_path(k),
                    ) is None by {
                        assert(applications.has(k));
                        let j = choose|j: int| 0 <= j < keys.len() && keys[j] == k;
                        if j >= i {
                            lemma_order(keys, i as int, j);
                        }
                    }
                }
                return Err(e);
            },
        }
        i += 1;
    }
    proof {
        assert forall|n: Seq<char>| #[trigger] m.dom().contains(n) implies application_fault(
            m[n],
            application_path(n),
        ) is None by {
            assert(applications.has(n));
            let j = choose|j: int| 0 <= j < keys.len() && keys[j] == n;
            assert(application_fault(m[keys[j]], application_path(keys[j])) is None);
        }
    }
    Ok(())
}

proof fn lemma_order(keys: Seq<Seq<char>>, i: int, j: int)
    requires
        ascending(keys),
        0 <= i <= j < keys.len(),
    ensures
        !name_before(keys[j], keys[i]),
{
    lemma_before_total(encode_utf8(keys[i]), encode_utf8(keys[j]));
}

/// Check a configuration and name its inline applications. `auto_workers` is
/// the process count of the applications that leave it open.
pub fn validate(config: Config, auto_workers: u32) -> (r: Result<Validated, ConfigError>)
    ensures
        match r {
            Ok(v) => {
                &&& accepted(config, auto_workers)
                &&& v.applications.map() == all_applications(config, auto_workers)->Ok_0
                &&& v.config.settings == config.settings
                &&& v.config.listeners == config.listeners
                &&& v.config.access_log == config.access_log
                &&& v.config.error_log == config.error_log
                &&& same_applications(config.applications, v.config.applications)
                &&& named_routes(config.routes.entries(), v.config.routes.entries())
            },
            Err(e) => refused(config, auto_workers, e) && !accepted(config, auto_workers),
        },
{
    match validate_http(&config.settings.http) {
        Ok(()) => {},
        Err(e) => {
            return Err(e);
        },
    }
    let Config { settings, listeners, routes, applications, access_log, error_log } = config;
    let ghost original = routes;
    let reach = route_reach(&routes, None);
    let given = copy_applications(&applications);
    let mut applications = settle_all(applications, auto_workers);
    let mut routes = routes;
    match extract_routes(&mut routes, &mut applications, auto_workers) {
        Ok(()) => {},
        Err(e) => {
            return Err(e);
        },
    }
    proof {
        assert(routes.keys() =~= original.keys()) by {
            assert forall|i: int| 0 <= i < routes.keys().len() implies routes.keys()[i]
                == original.keys()[i] by {
                assert(routes.entries()[i].0 == original.entries()[i].0);
            }
        }
        lemma_named_routes_fault(
            original.entries(),
            routes.entries(),
            original.keys(),
            reach@,
            applications.map().dom(),
        );
    }
    if listeners.is_empty() {
        return Err(
            ConfigError::invalid(
                "listeners".to_owned(),
                "at least one listener is required".to_owned(),
            ),
        );
    }
    match validate_listeners(&listeners, &routes) {
        Ok(()) => {},
        Err(e) => {
            return Err(e);
        },
    }
    match validate_routes(&routes, &reach, &applications) {
        Ok(()) => {},
        Err(e) => {
            return Err(e);
        },
    }
    match validate_applications(&applications) {
        Ok(()) => {},
        Err(e) => {
            return Err(e);
        },
    }
    Ok(
        Validated {
            config: Config {
                settings,
                listeners,
                routes,
                applications: given,
                access_log,
                error_log,
            },
            applications,
        },
    )
}

} // verus!
