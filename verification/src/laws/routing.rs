//! Which action serves a request, by what the request says.

use vstd::prelude::*;
use vstd::string::*;
use vstd::utf8::encode_utf8;

use crate::bytes::{lowered, text, until};
use crate::config::schema::{
    Action as ConfAction, Application, ApplicationRef, Match, OneOrMany, RouteStep, ServeSources,
    Share,
};
use crate::config::validate::Validated;
use crate::config::table::Table;
use crate::router::addr::Addr;
use crate::router::args::{args, named, named_from, pairs, value_of};
use crate::router::compile::{
    compile, configured_ops, match_holds, name_bytes, names, step_for, RouteError,
};
use crate::router::http1::conn::{examine, meta_of, Admission, Admitted, ListenerKind, PoolCaps};
use crate::router::http1::parse::{target_parts, Parsed};
use crate::router::matching::{blocks_hit, set_hits};
use crate::router::routes::{
    find_step, op_views, opt_text, ops_of, rewrite_target, start, taken, values, walk,
    CompiledRoutes, Decision, Step, Walk, MAX_HOPS,
};
use crate::router::template::{parts_of, rendered, PartModel, TemplateFault, Values};
use crate::router::uri::normalized;

verus! {

/// The first of the pairs that has this name.
pub open spec fn first_named(ps: Seq<(Seq<u8>, Seq<u8>)>, name: Seq<u8>, i: int) -> bool {
    &&& 0 <= i < ps.len()
    &&& ps[i].0 == name
    &&& forall|j: int| 0 <= j < i ==> (#[trigger] ps[j]).0 != name
}

/// The value under a name: that of the first pair which has it, or nothing.
pub open spec fn under(ps: Seq<(Seq<u8>, Seq<u8>)>, name: Seq<u8>) -> Seq<u8> {
    if exists|i: int| first_named(ps, name, i) {
        ps[choose|i: int| first_named(ps, name, i)].1
    } else {
        seq![]
    }
}

proof fn lemma_named_from(ps: Seq<(Seq<u8>, Seq<u8>)>, name: Seq<u8>, i: int)
    requires
        0 <= i <= ps.len(),
        forall|j: int| 0 <= j < i ==> (#[trigger] ps[j]).0 != name,
    ensures
        match named_from(ps, name, i) {
            Some(v) => exists|k: int| #[trigger] first_named(ps, name, k) && ps[k].1 == v,
            None => forall|k: int| !first_named(ps, name, k),
        },
    decreases ps.len() - i,
{
    if i < ps.len() {
        if ps[i].0 == name {
            assert(first_named(ps, name, i));
        } else {
            lemma_named_from(ps, name, i + 1);
        }
    }
}

pub proof fn lemma_first_named(ps: Seq<(Seq<u8>, Seq<u8>)>, name: Seq<u8>, i: int)
    ensures
        first_named(ps, name, i) ==> named(ps, name) == Some(ps[i].1),
        (forall|k: int| !first_named(ps, name, k)) == (named(ps, name) is None),
{
    lemma_named_from(ps, name, 0);
    assert forall|k: int| first_named(ps, name, i) && first_named(ps, name, k) implies i == k by {
        if i < k {
            assert(ps[i].0 != name);
        }
        if k < i {
            assert(ps[k].0 != name);
        }
    }
}

pub proof fn lemma_under(ps: Seq<(Seq<u8>, Seq<u8>)>, name: Seq<u8>)
    ensures
        value_of(ps, name) == under(ps, name),
{
    lemma_named_from(ps, name, 0);
    assert forall|i: int, k: int| first_named(ps, name, i) && first_named(ps, name, k) implies i
        == k by {
        if i < k {
            assert(ps[i].0 != name);
        }
        if k < i {
            assert(ps[k].0 != name);
        }
    }
}

/// A value that a list of patterns lets through; without a list all are.
pub open spec fn lets(p: Option<OneOrMany<String>>, ci: bool, value: Seq<u8>) -> bool {
    p matches Some(x) ==> set_hits(names(x.items()), ci, value)
}

/// What stands behind the first question mark.
pub open spec fn behind_mark(s: Seq<u8>) -> Seq<u8> {
    if s.contains(63) {
        s.subrange(until(s, 63).len() as int + 1, s.len() as int)
    } else {
        seq![]
    }
}

/// Whether a request that works on this path and query meets all conditions:
/// its method, the name part of its `Host` without the case of letters, the
/// path, the query, each header and each argument that is asked for, and the
/// address that it comes from.
pub open spec fn meets(m: Match, p: Parsed, remote: Addr, path: Seq<u8>, query: Seq<u8>) -> bool {
    let headers = pairs(p.headers@);
    &&& lets(m.method, false, p.method@)
    &&& lets(m.host, true, lowered(until(under(headers, text("host")), 58)))
    &&& lets(m.uri, false, path)
    &&& lets(m.query, false, query)
    &&& m.headers matches Some(t) ==> forall|i: int|
        0 <= i < t.entries().len() ==> set_hits(
            names((#[trigger] t.entries()[i]).1.items()),
            true,
            lowered(under(headers, lowered(encode_utf8(t.entries()[i].0@)))),
        )
    &&& m.arguments matches Some(t) ==> forall|i: int|
        0 <= i < t.entries().len() ==> set_hits(
            names((#[trigger] t.entries()[i]).1.items()),
            false,
            under(args(query), encode_utf8(t.entries()[i].0@)),
        )
    &&& m.source matches Some(s) ==> blocks_hit(
        name_bytes(s.items()),
        remote is V4,
        remote.octets(),
    )
}

/// A step without conditions takes every request.
pub open spec fn takes(
    c: RouteStep,
    p: Parsed,
    remote: Addr,
    path: Seq<u8>,
    query: Seq<u8>,
) -> bool {
    c.match_ matches Some(m) ==> meets(m, p, remote, path, query)
}

/// The first step that takes a request.
pub open spec fn first_to_take(
    steps: Seq<RouteStep>,
    k: int,
    p: Parsed,
    remote: Addr,
    path: Seq<u8>,
    query: Seq<u8>,
) -> bool {
    &&& 0 <= k < steps.len()
    &&& takes(steps[k], p, remote, path, query)
    &&& forall|j: int| 0 <= j < k ==> !takes(#[trigger] steps[j], p, remote, path, query)
}

#[verifier::spinoff_prover]
#[verifier::rlimit(50)]
proof fn lemma_meets(
    m: Match,
    p: Parsed,
    remote: Addr,
    remote_text: Seq<u8>,
    path: Seq<u8>,
    query: Seq<u8>,
)
    ensures
        match_holds(m, meta_of(p, remote, remote_text), path, query) == meets(
            m,
            p,
            remote,
            path,
            query,
        ),
{
    let headers = pairs(p.headers@);
    lemma_under(headers, text("host"));
    if let Some(t) = m.headers {
        assert forall|i: int| 0 <= i < t.entries().len() implies value_of(
            headers,
            lowered(encode_utf8((#[trigger] t.entries()[i]).0@)),
        ) == under(headers, lowered(encode_utf8(t.entries()[i].0@))) by {
            lemma_under(headers, lowered(encode_utf8(t.entries()[i].0@)));
        }
    }
    if let Some(t) = m.arguments {
        assert forall|i: int| 0 <= i < t.entries().len() implies value_of(
            args(query),
            encode_utf8((#[trigger] t.entries()[i]).0@),
        ) == under(args(query), encode_utf8(t.entries()[i].0@)) by {
            lemma_under(args(query), encode_utf8(t.entries()[i].0@));
        }
    }
}

proof fn lemma_first(
    steps: Seq<Step>,
    conf: Seq<RouteStep>,
    apps: Map<Seq<char>, Application>,
    routes: Table<Vec<RouteStep>>,
    p: Parsed,
    remote: Addr,
    remote_text: Seq<u8>,
    path: Seq<u8>,
    query: Seq<u8>,
    k: int,
    i: int,
)
    requires
        steps.len() == conf.len(),
        forall|j: int| 0 <= j < steps.len() ==> step_for(#[trigger] steps[j], conf[j], apps, routes),
        first_to_take(conf, k, p, remote, path, query),
        0 <= i <= k,
    ensures
        find_step(steps, meta_of(p, remote, remote_text), path, query, i) == k,
    decreases k - i,
{
    let meta = meta_of(p, remote, remote_text);
    assert(step_for(steps[i], conf[i], apps, routes));
    if let Some(m) = conf[i].match_ {
        lemma_meets(m, p, remote, remote_text, path, query);
    }
    assert(steps[i].hits(meta, path, query) == takes(conf[i], p, remote, path, query));
    if i < k {
        assert(!takes(conf[i], p, remote, path, query));
        lemma_first(
            steps,
            conf,
            apps,
            routes,
            p,
            remote,
            remote_text,
            path,
            query,
            k,
            i + 1,
        );
    }
}

proof fn lemma_none(
    steps: Seq<Step>,
    conf: Seq<RouteStep>,
    apps: Map<Seq<char>, Application>,
    routes: Table<Vec<RouteStep>>,
    p: Parsed,
    remote: Addr,
    remote_text: Seq<u8>,
    path: Seq<u8>,
    query: Seq<u8>,
    i: int,
)
    requires
        steps.len() == conf.len(),
        forall|j: int| 0 <= j < steps.len() ==> step_for(#[trigger] steps[j], conf[j], apps, routes),
        forall|j: int|
            0 <= j < conf.len() ==> !takes(#[trigger] conf[j], p, remote, path, query),
        0 <= i <= steps.len(),
    ensures
        find_step(steps, meta_of(p, remote, remote_text), path, query, i) == steps.len(),
    decreases steps.len() - i,
{
    let meta = meta_of(p, remote, remote_text);
    if i < steps.len() {
        assert(step_for(steps[i], conf[i], apps, routes));
        if let Some(m) = conf[i].match_ {
            lemma_meets(m, p, remote, remote_text, path, query);
        }
        assert(!takes(conf[i], p, remote, path, query));
        lemma_none(
            steps,
            conf,
            apps,
            routes,
            p,
            remote,
            remote_text,
            path,
            query,
            i + 1,
        );
    }
}

/// What the variables of a template stand for in a request that works on this
/// path and query.
pub open spec fn known(p: Parsed, remote_text: Seq<u8>, path: Seq<u8>, query: Seq<u8>) -> Values {
    Values {
        uri: path,
        args: query,
        host: under(pairs(p.headers@), text("host")),
        method: p.method@,
        remote_addr: remote_text,
    }
}

/// The path and query that a rewrite leaves.
pub open spec fn rewritten_by(
    rewrite: Option<String>,
    p: Parsed,
    remote_text: Seq<u8>,
    path: Seq<u8>,
    query: Seq<u8>,
) -> (Seq<u8>, Seq<u8>) {
    match rewrite {
        Some(t) => {
            let target = rendered(
                parts_of(encode_utf8(t@))->Ok_0,
                known(p, remote_text, path, query),
            );
            (normalized(until(target, 63)), behind_mark(target))
        },
        None => (path, query),
    }
}

/// The headers that an action changes, in the order of their names.
pub open spec fn changes_of(c: ConfAction) -> Seq<(Seq<char>, Option<Seq<char>>)> {
    match c.response_headers {
        Some(t) => Seq::new(
            t.entries().len(),
            |i: int|
                (
                    t.entries()[i].0@,
                    match t.entries()[i].1 {
                        Some(v) => Some(v@),
                        None => None,
                    },
                ),
        ),
        None => seq![],
    }
}

/// What a share serves: the first of its paths, its index, and only the types that
/// it names, with or without sources and links.
pub open spec fn shares(d: Decision<'_>, s: Share) -> bool {
    &&& d matches Decision::Share {
        template,
        index,
        types,
        serve_sources,
        follow_symlinks,
        ..
    }
    &&& match s {
        Share::Path(t) => {
            &&& template@ == t@
            &&& index@ == "index.html"@
            &&& types is None
            &&& *serve_sources is Off
            &&& follow_symlinks
        },
        Share::Full(o) => {
            &&& o.share.items().len() > 0 ==> template@ == o.share.items()[0]@
            &&& match o.index {
                Some(i) => index@ == i@,
                None => index@ == "index.html"@,
            }
            &&& match o.types {
                Some(t) => types matches Some(x) && forall|v: Seq<u8>| #[trigger]
                    x.hits(v) == set_hits(names(t.items()), true, v),
                None => types is None,
            }
            &&& match o.serve_sources {
                ServeSources::Off => *serve_sources is Off,
                ServeSources::All => *serve_sources is All,
                ServeSources::Only(v) => *serve_sources matches ServeSources::Only(w) && names(
                    w@,
                ) == names(v@),
            }
            &&& follow_symlinks == (o.follow_symlinks != Some(false))
        },
    }
}

/// A decision that carries out an action: the application, the files or the
/// status that it names, and where it sends the client to.
pub open spec fn carries_out(d: Decision<'_>, c: ConfAction) -> bool {
    if c.application is Some {
        d matches Decision::Application(n) && (c.application matches Some(ApplicationRef::Name(m))
            && n@ == m@)
    } else if c.share is Some {
        &&& shares(d, c.share->0)
        &&& d matches Decision::Share { fallback, .. } && (fallback is Some) == (c.fallback is Some)
    } else {
        &&& d matches Decision::Return { status, location }
        &&& c.return_ == Some(status)
        &&& match c.location {
            Some(t) => location matches Some(x) && parts_of(encode_utf8(t@)) == Ok::<
                Seq<PartModel>,
                TemplateFault,
            >(x.parts()),
            None => location is None,
        }
    }
}

pub proof fn lemma_mark(s: Seq<u8>)
    ensures
        target_parts(s) == (until(s, 63), behind_mark(s)),
        rewrite_target(s) == (normalized(until(s, 63)), behind_mark(s)),
{
    if s.contains(63) {
        crate::bytes::lemma_find_some(s, 63);
    }
}

#[verifier::spinoff_prover]
#[verifier::rlimit(50)]
proof fn lemma_taken(
    s: Step,
    c: RouteStep,
    apps: Map<Seq<char>, Application>,
    routes: Table<Vec<RouteStep>>,
    w: Walk,
    p: Parsed,
    remote: Addr,
    remote_text: Seq<u8>,
)
    requires
        step_for(s, c, apps, routes),
    ensures
        ({
            let next = taken(s, w, meta_of(p, remote, remote_text));
            &&& (next.path, next.query) == rewritten_by(
                c.action.rewrite,
                p,
                remote_text,
                w.path,
                w.query,
            )
            &&& next.rewritten == (w.rewritten || c.action.rewrite is Some)
            &&& next.ops == w.ops + changes_of(c.action)
        }),
{
    let meta = meta_of(p, remote, remote_text);
    lemma_under(pairs(p.headers@), text("host"));
    assert(values(meta, w.path, w.query) == known(p, remote_text, w.path, w.query));
    if let Some(t) = s.rewrites() {
        lemma_mark(rendered(t.parts(), values(meta, w.path, w.query)));
    }
    assert(configured_ops(c.action.response_headers) =~= changes_of(c.action)) by {
        if let Some(t) = c.action.response_headers {
            assert forall|i: int| 0 <= i < t.entries().len() implies ops_of(t.entries())[i]
                == changes_of(c.action)[i] by {
                assert(ops_of(t.entries())[i] == (t.entries()[i].0@, opt_text(t.entries()[i].1)));
            }
        }
    }
}

/// A request that is accepted goes to the first step of its route that takes it,
/// by what the request itself says, and to that step's action: with the path and
/// query that the step's rewrite leaves, and with its changes to the headers.
/// Where no step takes it, nothing is found.
#[verifier::spinoff_prover]
#[verifier::rlimit(50)]
pub proof fn the_first_step_that_takes_a_request_serves_it(
    a: Admitted<'_>,
    p: Parsed,
    arrived: usize,
    kind: &ListenerKind,
    entry: Seq<char>,
    compiled: CompiledRoutes,
    pools: &Table<PoolCaps>,
    max_body: u64,
    remote: Addr,
    peer: &str,
    validated: &Validated,
    at: int,
    k: int,
)
    requires
        call_ensures(
            examine,
            (p, arrived, kind, &compiled, pools, max_body, remote, peer),
            Admission::Accepted(a),
        ),
        *kind matches ListenerKind::Route(name) && name@ == entry,
        call_ensures(compile, (validated,), Ok::<CompiledRoutes, RouteError>(compiled)),
        0 <= at < validated.config.routes.entries().len(),
        validated.config.routes.entries()[at].0@ == entry,
    ensures
        ({
            let steps = validated.config.routes.entries()[at].1@;
            let path = normalized(until(p.target@, 63));
            let query = behind_mark(p.target@);
            &&& a.path@ == path
            &&& a.query@ == query
            &&& a.outcome matches Some(o)
            &&& first_to_take(steps, k, p, remote, path, query) && steps[k].action.route is None
                ==> {
                let c = steps[k].action;
                &&& carries_out(o.decision, c)
                &&& op_views(o.response_headers@) == changes_of(c)
                &&& match o.rewritten {
                    Some((x, y)) => c.rewrite is Some && (x@, y@) == rewritten_by(
                        c.rewrite,
                        p,
                        text(peer),
                        path,
                        query,
                    ),
                    None => c.rewrite is None,
                }
            }
            &&& (forall|j: int|
                0 <= j < steps.len() ==> !takes(#[trigger] steps[j], p, remote, path, query))
                ==> o.decision is NotFound
        }),
{
    let remote_text = text(peer);
    let routes = validated.config.routes;
    let apps = validated.applications.map();
    let meta = meta_of(p, remote, remote_text);
    lemma_mark(p.target@);
    let path = meta.path;
    let query = meta.query;
    let steps = compiled.routes()[entry]@;
    let conf = routes.entries()[at].1@;
    let w = start(meta);
    assert(compiled.routes().dom().contains(entry));
    let none = forall|j: int|
        0 <= j < conf.len() ==> !takes(#[trigger] conf[j], p, remote, path, query);
    if none {
        lemma_none(steps, conf, apps, routes, p, remote, remote_text, path, query, 0);
    }
    if first_to_take(conf, k, p, remote, path, query) && conf[k].action.route is None {
        lemma_first(steps, conf, apps, routes, p, remote, remote_text, path, query, k, 0);
        assert(step_for(steps[k], conf[k], apps, routes));
        lemma_taken(steps[k], conf[k], apps, routes, w, p, remote, remote_text);
        assert(walk(compiled.routes(), entry, w, meta, MAX_HOPS as nat) == (
            Some(steps[k].acts()),
            taken(steps[k], w, meta),
        ));
        assert(w.ops + changes_of(conf[k].action) =~= changes_of(conf[k].action));
    }
}

/// A request whose route has a condition on the host alone in its first step goes
/// to that step exactly where the patterns hit the name in its `Host` header,
/// whatever it asks for.
pub proof fn the_host_is_what_the_host_header_names(
    m: Match,
    p: Parsed,
    remote: Addr,
    path: Seq<u8>,
    query: Seq<u8>,
    patterns: OneOrMany<String>,
    at: int,
)
    requires
        m.host == Some(patterns),
        m.method is None && m.uri is None && m.query is None && m.headers is None && m.arguments
            is None && m.source is None,
        first_named(pairs(p.headers@), text("host"), at),
    ensures
        meets(m, p, remote, path, query) == set_hits(
            names(patterns.items()),
            true,
            lowered(until(p.headers@[at].1@, 58)),
        ),
{
    let headers = pairs(p.headers@);
    let i = choose|i: int| first_named(headers, text("host"), i);
    if i < at {
        assert(headers[i].0 != text("host"));
    }
    if at < i {
        assert(headers[at].0 != text("host"));
    }
    assert(headers[at].1 == p.headers@[at].1@);
}

/// Where the first step of a route has a condition on the host alone and the
/// second has none, the name in the request's `Host` header, in small letters and
/// without what follows its first colon, decides between them, whatever the
/// request asks for.
pub proof fn a_host_condition_reads_the_host_header(
    a: Admitted<'_>,
    p: Parsed,
    arrived: usize,
    kind: &ListenerKind,
    entry: Seq<char>,
    compiled: CompiledRoutes,
    pools: &Table<PoolCaps>,
    max_body: u64,
    remote: Addr,
    peer: &str,
    validated: &Validated,
    at: int,
    m: Match,
    patterns: OneOrMany<String>,
    host: int,
)
    requires
        call_ensures(
            examine,
            (p, arrived, kind, &compiled, pools, max_body, remote, peer),
            Admission::Accepted(a),
        ),
        *kind matches ListenerKind::Route(name) && name@ == entry,
        call_ensures(compile, (validated,), Ok::<CompiledRoutes, RouteError>(compiled)),
        0 <= at < validated.config.routes.entries().len(),
        validated.config.routes.entries()[at].0@ == entry,
        first_named(pairs(p.headers@), text("host"), host),
        m.host == Some(patterns),
        m.method is None && m.uri is None && m.query is None && m.headers is None && m.arguments
            is None && m.source is None,
        ({
            let steps = validated.config.routes.entries()[at].1@;
            &&& steps.len() >= 2
            &&& steps[0].match_ == Some(m) && steps[0].action.route is None
            &&& steps[1].match_ is None && steps[1].action.route is None
        }),
    ensures
        ({
            let steps = validated.config.routes.entries()[at].1@;
            let hit = set_hits(
                names(patterns.items()),
                true,
                lowered(until(p.headers@[host].1@, 58)),
            );
            &&& a.outcome matches Some(o)
            &&& hit ==> carries_out(o.decision, steps[0].action)
            &&& !hit ==> carries_out(o.decision, steps[1].action)
        }),
{
    let path = normalized(until(p.target@, 63));
    let query = behind_mark(p.target@);
    let routes = validated.config.routes;
    let steps = routes.entries()[at].1@;
    the_host_is_what_the_host_header_names(m, p, remote, path, query, patterns, host);
    let k: int = if meets(m, p, remote, path, query) {
        0
    } else {
        1
    };
    assert(first_to_take(steps, k, p, remote, path, query));
    the_first_step_that_takes_a_request_serves_it(
        a,
        p,
        arrived,
        kind,
        entry,
        compiled,
        pools,
        max_body,
        remote,
        peer,
        validated,
        at,
        k,
    );
}

/// A jump goes on in the route that it names, with what the step before it has
/// done: there the first step that takes the request serves it.
#[verifier::spinoff_prover]
#[verifier::rlimit(50)]
pub proof fn a_jump_goes_on_in_the_route_that_it_names(
    a: Admitted<'_>,
    p: Parsed,
    arrived: usize,
    kind: &ListenerKind,
    entry: Seq<char>,
    compiled: CompiledRoutes,
    pools: &Table<PoolCaps>,
    max_body: u64,
    remote: Addr,
    peer: &str,
    validated: &Validated,
    at: int,
    k: int,
    to: int,
    l: int,
)
    requires
        call_ensures(
            examine,
            (p, arrived, kind, &compiled, pools, max_body, remote, peer),
            Admission::Accepted(a),
        ),
        *kind matches ListenerKind::Route(name) && name@ == entry,
        call_ensures(compile, (validated,), Ok::<CompiledRoutes, RouteError>(compiled)),
        0 <= at < validated.config.routes.entries().len(),
        validated.config.routes.entries()[at].0@ == entry,
        0 <= to < validated.config.routes.entries().len(),
        ({
            let steps = validated.config.routes.entries()[at].1@;
            let c = steps[k].action;
            let (path, query) = rewritten_by(
                c.rewrite,
                p,
                text(peer),
                normalized(until(p.target@, 63)),
                behind_mark(p.target@),
            );
            let more = validated.config.routes.entries()[to].1@;
            &&& first_to_take(
                steps,
                k,
                p,
                remote,
                normalized(until(p.target@, 63)),
                behind_mark(p.target@),
            )
            &&& c.application is None
            &&& c.route matches Some(name) && name@ == validated.config.routes.entries()[to].0@
            &&& first_to_take(more, l, p, remote, path, query)
            &&& more[l].action.route is None
        }),
    ensures
        ({
            let c = validated.config.routes.entries()[at].1@[k].action;
            let d = validated.config.routes.entries()[to].1@[l].action;
            &&& a.outcome matches Some(o)
            &&& carries_out(o.decision, d)
            &&& op_views(o.response_headers@) == changes_of(c) + changes_of(d)
        }),
{
    let remote_text = text(peer);
    let routes = validated.config.routes;
    let apps = validated.applications.map();
    let meta = meta_of(p, remote, remote_text);
    lemma_mark(p.target@);
    let steps = compiled.routes()[entry]@;
    let conf = routes.entries()[at].1@;
    let w = start(meta);
    assert(compiled.routes().dom().contains(entry));
    lemma_first(steps, conf, apps, routes, p, remote, remote_text, w.path, w.query, k, 0);
    assert(step_for(steps[k], conf[k], apps, routes));
    lemma_taken(steps[k], conf[k], apps, routes, w, p, remote, remote_text);
    let v = taken(steps[k], w, meta);
    let name = routes.entries()[to].0@;
    let more = compiled.routes()[name]@;
    let next = routes.entries()[to].1@;
    assert(compiled.routes().dom().contains(name));
    lemma_first(more, next, apps, routes, p, remote, remote_text, v.path, v.query, l, 0);
    assert(step_for(more[l], next[l], apps, routes));
    lemma_taken(more[l], next[l], apps, routes, v, p, remote, remote_text);
    assert(walk(compiled.routes(), name, v, meta, 15) == (
        Some(more[l].acts()),
        taken(more[l], v, meta),
    ));
    assert(walk(compiled.routes(), entry, w, meta, MAX_HOPS as nat) == walk(
        compiled.routes(),
        name,
        v,
        meta,
        15,
    ));
    assert(w.ops + changes_of(conf[k].action) =~= changes_of(conf[k].action));
}

} // verus!
