//! A request on its way through its actions: what answers it at once, and what
//! follows a share that serves nothing.

use vstd::prelude::*;
use vstd::string::*;
use vstd::utf8::encode_utf8;

use crate::bytes::text;
use crate::config::table::Table;
use crate::router::addr::Addr;
use crate::router::args::{pairs, value_of};
use crate::router::dispatch::lifecycle::PoolStats;
use crate::router::http1::conn::{after_miss, fall_back, host_of, PoolCaps};
use crate::router::http1::head::{
    response_bytes, return_bytes, simple_bytes, write_response, write_return, write_simple,
};
use crate::router::http1::parse::Parsed;
use crate::router::routes::{
    op_views, Action, CompiledRoutes, Decision, Fallback, MetaModel, RequestMeta, RouteOutcome,
    MAX_HOPS,
};
use crate::router::setup::{status_body, status_text};
use crate::router::template::{rendered, Values, Vars};

verus! {

/// A request, the action that is to serve it, and what that action works on.
pub struct Stage<'r> {
    pub decision: Decision<'r>,
    pub path: Vec<u8>,
    pub query: Vec<u8>,
    /// What is done to the response's headers.
    pub ops: Vec<(&'r str, Option<&'r str>)>,
    /// How many shares have served nothing.
    pub misses: usize,
}

/// The fallback of a decision.
pub open spec fn fallback_of<'r>(d: Decision<'r>) -> Option<&'r Fallback> {
    match d {
        Decision::Share { fallback, .. } => fallback,
        _ => None,
    }
}

/// The action at work on a path and a query, after a rewrite if there was one.
pub open spec fn works_on(
    s: Stage<'_>,
    rewritten: Option<(Vec<u8>, Vec<u8>)>,
    path: Seq<u8>,
    query: Seq<u8>,
) -> bool {
    match rewritten {
        Some((p, q)) => s.path@ == p@ && s.query@ == q@,
        None => s.path@ == path && s.query@ == query,
    }
}

/// What routing knows of a request that works on this path and query.
pub open spec fn meta_at(s: Stage<'_>, p: Parsed, remote: Addr, remote_text: Seq<u8>) -> MetaModel {
    MetaModel {
        method: p.method@,
        host: value_of(pairs(p.headers@), text("host")),
        path: s.path@,
        query: s.query@,
        headers: pairs(p.headers@),
        remote,
        remote_text,
    }
}

/// The stage after a miss: that of the fallback, which goes on with the path and
/// query of the share, unless it rewrites them, and adds to what is done to the
/// headers.
pub open spec fn follows(
    after: Stage<'_>,
    before: Stage<'_>,
    next: RouteOutcome<'_>,
    routes: CompiledRoutes,
    meta: MetaModel,
) -> bool {
    &&& after_miss(next, fallback_of(before.decision), routes, meta, before.misses)
    &&& after.decision == next.decision
    &&& works_on(after, next.rewritten, before.path@, before.query@)
    &&& op_views(after.ops@) == op_views(before.ops@) + op_views(next.response_headers@)
    &&& after.misses == if before.misses < MAX_HOPS {
        before.misses + 1
    } else {
        before.misses as int
    }
}

/// The variables of templates.
pub open spec fn values_at(s: Stage<'_>, p: Parsed, remote_text: Seq<u8>) -> Values {
    Values {
        uri: s.path@,
        args: s.query@,
        host: value_of(pairs(p.headers@), text("host")),
        method: p.method@,
        remote_addr: remote_text,
    }
}

/// The answer of an action that needs neither a file nor a worker.
pub open spec fn plain_answer(
    s: Stage<'_>,
    p: Parsed,
    remote_text: Seq<u8>,
    server: Seq<u8>,
) -> Option<(u16, Seq<u8>)> {
    match s.decision {
        Decision::Return { status, location } => Some(
            (
                status,
                return_bytes(
                    server,
                    status,
                    match location {
                        Some(t) => Some(rendered(t.parts(), values_at(s, p, remote_text))),
                        None => None,
                    },
                    op_views(s.ops@),
                    p.keep_alive,
                ),
            ),
        ),
        Decision::NotFound => Some(
            (
                404,
                response_bytes(
                    server,
                    404,
                    text("text/plain"),
                    text("404 Not Found\n"),
                    op_views(s.ops@),
                    p.keep_alive,
                ),
            ),
        ),
        _ => None,
    }
}

impl<'r> Stage<'r> {
    /// Begin with what routing decided.
    pub fn begin(outcome: RouteOutcome<'r>, path: Vec<u8>, query: Vec<u8>) -> (r: Self)
        ensures
            r.decision == outcome.decision,
            works_on(r, outcome.rewritten, path@, query@),
            r.ops == outcome.response_headers,
            r.misses == 0,
    {
        let RouteOutcome { decision, rewritten, response_headers } = outcome;
        let (path, query) = match rewritten {
            Some(t) => t,
            None => (path, query),
        };
        Stage { decision, path, query, ops: response_headers, misses: 0 }
    }

    /// Whether the request becomes a WebSocket upgrade: it offers one, and the
    /// workers of the application that it was routed to take them. A fallback
    /// gets a plain request.
    pub fn upgrades(&self, ws_key: &Option<Vec<u8>>, pools: &Table<PoolCaps>) -> (r: bool)
        ensures
            r == (self.misses == 0 && *ws_key is Some && (
            self.decision matches Decision::Application(name) && pools.has(name@) && pools.at(
                name@,
            ).websocket)),
    {
        if self.misses > 0 || ws_key.is_none() {
            return false;
        }
        if let Decision::Application(name) = &self.decision {
            if let Some(caps) = pools.get(name) {
                return caps.websocket;
            }
        }
        false
    }

    /// The status and bytes of an answer that needs neither a file nor a
    /// worker.
    pub fn plain_reply(&self, p: &Parsed, remote_text: &str, server: &str) -> (r: Option<
        (u16, Vec<u8>),
    >)
        ensures
            match plain_answer(*self, *p, text(remote_text), text(server)) {
                Some((status, bytes)) => r matches Some((s, b)) && s == status && b@ == bytes,
                None => r is None,
            },
    {
        let mut out: Vec<u8> = Vec::new();
        match &self.decision {
            Decision::Return { status, location } => {
                let vars = Vars {
                    uri: self.path.as_slice(),
                    args: self.query.as_slice(),
                    host: host_of(p),
                    method: p.method.as_slice(),
                    remote_addr: remote_text,
                };
                assert(vars@ == values_at(*self, *p, text(remote_text)));
                match location {
                    Some(t) => {
                        let to = t.render(&vars);
                        write_return(
                            &mut out,
                            server,
                            *status,
                            Some(to.as_slice()),
                            self.ops.as_slice(),
                            p.keep_alive,
                        );
                    },
                    None => {
                        write_return(
                            &mut out,
                            server,
                            *status,
                            None,
                            self.ops.as_slice(),
                            p.keep_alive,
                        );
                    },
                }
                Some((*status, out))
            },
            Decision::NotFound => {
                write_response(
                    &mut out,
                    server,
                    404,
                    "text/plain",
                    "404 Not Found\n".as_bytes(),
                    self.ops.as_slice(),
                    p.keep_alive,
                );
                Some((404, out))
            },
            _ => None,
        }
    }

    /// The share served nothing: go on with its fallback.
    pub fn missed(
        self,
        routes: &'r CompiledRoutes,
        p: &Parsed,
        remote: Addr,
        remote_text: &str,
    ) -> (r: Self)
        ensures
            exists|next: RouteOutcome<'r>| #[trigger]
                follows(r, self, next, *routes, meta_at(self, *p, remote, text(remote_text))),
    {
        let fallback: Option<&'r Fallback> = match &self.decision {
            Decision::Share { fallback, .. } => *fallback,
            _ => None,
        };
        let next = {
            let meta = RequestMeta {
                method: p.method.as_slice(),
                host: host_of(p),
                path: self.path.as_slice(),
                query: self.query.as_slice(),
                headers: p.headers.as_slice(),
                remote,
                remote_text,
            };
            assert(meta@ == meta_at(self, *p, remote, text(remote_text)));
            fall_back(fallback, routes, &meta, self.misses)
        };
        let ghost before = self;
        let ghost outcome = next;
        let RouteOutcome { decision, rewritten, response_headers } = next;
        let Stage { decision: _, path, query, ops, misses } = self;
        let (path, query) = match rewritten {
            Some(t) => t,
            None => (path, query),
        };
        let mut ops = ops;
        let mut more = response_headers;
        ops.append(&mut more);
        let misses: usize = if misses < MAX_HOPS {
            misses + 1
        } else {
            misses
        };
        let after = Stage { decision, path, query, ops, misses };
        assert(op_views(after.ops@) =~= op_views(before.ops@) + op_views(
            outcome.response_headers@,
        ));
        assert(follows(after, before, outcome, *routes, meta_at(before, *p, remote, text(remote_text))));
        after
    }
}

/// How many fallbacks stand behind an action.
pub open spec fn depth(a: Action) -> nat
    decreases a,
{
    match a {
        Action::Share { fallback: Some(b), .. } => 1 + depth(b.action),
        _ => 0,
    }
}

/// How many fallbacks are left.
pub open spec fn left(fallback: Option<&Fallback>) -> nat {
    match fallback {
        Some(f) => 1 + depth(f.action),
        None => 0,
    }
}

/// Misses come to an end: once routing is not entered any more, each miss leaves
/// fewer fallbacks, and where none is left nothing is found.
pub proof fn misses_come_to_an_end(
    after: Stage<'_>,
    before: Stage<'_>,
    next: RouteOutcome<'_>,
    routes: CompiledRoutes,
    meta: MetaModel,
)
    requires
        follows(after, before, next, routes, meta),
        before.misses >= MAX_HOPS,
    ensures
        left(fallback_of(before.decision)) > 0 ==> left(fallback_of(after.decision)) < left(
            fallback_of(before.decision),
        ),
        left(fallback_of(before.decision)) == 0 ==> after.decision is NotFound,
        after.misses >= MAX_HOPS,
{
}

/// What the status endpoint answers.
pub open spec fn status_answer(
    path: Seq<u8>,
    apps: Seq<(String, PoolStats)>,
    server: Seq<u8>,
    keep_alive: bool,
) -> (u16, Seq<u8>) {
    match status_text(path, apps) {
        Some(body) => (
            200,
            response_bytes(
                server,
                200,
                text("application/json"),
                encode_utf8(body),
                seq![],
                keep_alive,
            ),
        ),
        None => (404, simple_bytes(server, 404, text("Not Found"), keep_alive)),
    }
}

/// Answer a request to the status endpoint.
pub fn status_reply(
    path: &[u8],
    apps: &Vec<(String, PoolStats)>,
    server: &str,
    keep_alive: bool,
) -> (r: (u16, Vec<u8>))
    ensures
        (r.0, r.1@) == status_answer(path@, apps@, text(server), keep_alive),
{
    let mut out: Vec<u8> = Vec::new();
    match status_body(path, apps) {
        Some(body) => {
            let none: Vec<(&str, Option<&str>)> = Vec::new();
            write_response(
                &mut out,
                server,
                200,
                "application/json",
                body.as_str().as_bytes(),
                none.as_slice(),
                keep_alive,
            );
            assert(op_views(none@) =~= seq![]);
            (200, out)
        },
        None => {
            write_simple(&mut out, server, 404, "Not Found", keep_alive);
            (404, out)
        },
    }
}

} // verus!
