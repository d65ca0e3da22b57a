//! Routes: compiled steps and the walk from a request to a decision.

use vstd::prelude::*;
use vstd::string::*;

use crate::bytes::{cut, find_byte, lowered, text, to_vec, until};
use crate::config::schema::ServeSources;
use crate::config::table::Table;
use crate::router::addr::Addr;
use crate::router::args::{args, lookup, pairs, parse_args, value_of};
use crate::router::matching::{is_v4, CidrSet, PatternSet};
use crate::router::template::{rendered, Template, Values, Vars};
use crate::router::uri::{normalize_path, normalized};

verus! {

/// How many steps a walk takes before it is given up.
pub const MAX_HOPS: usize = 16;

pub struct CompiledRoutes {
    pub(crate) routes: Table<Vec<Step>>,
}

/// One step of a route.
pub struct Step {
    pub(crate) matcher: Option<Matcher>,
    pub(crate) rewrite: Option<Template>,
    pub(crate) response_headers: Vec<(String, Option<String>)>,
    pub action: Action,
}

pub struct Matcher {
    pub(crate) method: Option<PatternSet>,
    pub(crate) host: Option<PatternSet>,
    pub(crate) uri: Option<PatternSet>,
    pub(crate) query: Option<PatternSet>,
    pub(crate) headers: Vec<(Vec<u8>, PatternSet)>,
    pub(crate) arguments: Vec<(Vec<u8>, PatternSet)>,
    pub(crate) source: Option<CidrSet>,
}

pub enum Action {
    Application { name: String },
    Route { name: String },
    Share {
        template: String,
        index: String,
        /// A file is served only if its name is hit, such as by `*.html`.
        types: Option<PatternSet>,
        /// Opt-out of the protection of module sources.
        serve_sources: ServeSources,
        follow_symlinks: bool,
        /// The `execute` extensions of the applications that the fallback can
        /// hand a request to, in lower case and without the dot: this share
        /// does not serve them.
        extra_source_exts: Vec<String>,
        fallback: Option<Box<Fallback>>,
    },
    Return { status: u16, location: Option<Template> },
}

/// What follows a share that serves nothing: an action with a rewrite and header
/// operations of its own.
pub struct Fallback {
    pub rewrite: Option<Template>,
    pub response_headers: Vec<(String, Option<String>)>,
    pub action: Action,
}

/// Where a walk ends.
pub enum Decision<'r> {
    Application(&'r str),
    Share {
        template: &'r str,
        index: &'r str,
        types: Option<&'r PatternSet>,
        serve_sources: &'r ServeSources,
        follow_symlinks: bool,
        extra_source_exts: &'r [String],
        fallback: Option<&'r Fallback>,
    },
    Return { status: u16, location: Option<&'r Template> },
    NotFound,
}

/// A decision with what the steps on the way have done.
pub struct RouteOutcome<'r> {
    pub decision: Decision<'r>,
    /// The path and query of the last rewrite.
    pub rewritten: Option<(Vec<u8>, Vec<u8>)>,
    /// Response header operations in order; no value means that the header is
    /// removed.
    pub response_headers: Vec<(&'r str, Option<&'r str>)>,
}

pub struct RequestMeta<'a> {
    pub method: &'a [u8],
    pub host: &'a [u8],
    pub path: &'a [u8],
    pub query: &'a [u8],
    /// Header names are in lower case.
    pub headers: &'a [(Vec<u8>, Vec<u8>)],
    pub remote: Addr,
    /// The text form of `remote`.
    pub remote_text: &'a str,
}

/// What routing knows of a request.
pub struct MetaModel {
    pub method: Seq<u8>,
    pub host: Seq<u8>,
    pub path: Seq<u8>,
    pub query: Seq<u8>,
    pub headers: Seq<(Seq<u8>, Seq<u8>)>,
    pub remote: Addr,
    pub remote_text: Seq<u8>,
}

impl<'a> View for RequestMeta<'a> {
    type V = MetaModel;

    open spec fn view(&self) -> MetaModel {
        MetaModel {
            method: self.method@,
            host: self.host@,
            path: self.path@,
            query: self.query@,
            headers: pairs(self.headers@),
            remote: self.remote,
            remote_text: text(self.remote_text),
        }
    }
}

/// A condition that is not there always holds.
pub open spec fn set_allows(set: Option<PatternSet>, value: Seq<u8>) -> bool {
    set matches Some(s) ==> s.hits(value)
}

/// Each named value is hit by its set.
pub open spec fn all_allow(
    sets: Seq<(Vec<u8>, PatternSet)>,
    ps: Seq<(Seq<u8>, Seq<u8>)>,
    ci: bool,
) -> bool {
    forall|i: int|
        0 <= i < sets.len() ==> (#[trigger] sets[i]).1.hits(
            if ci {
                lowered(value_of(ps, sets[i].0@))
            } else {
                value_of(ps, sets[i].0@)
            },
        )
}

impl Matcher {
    /// Whether all conditions hold, of a request whose path and query are
    /// currently the given ones.
    pub closed spec fn hits(self, meta: MetaModel, path: Seq<u8>, query: Seq<u8>) -> bool {
        &&& set_allows(self.method, meta.method)
        &&& set_allows(self.host, lowered(until(meta.host, 58)))
        &&& set_allows(self.uri, path)
        &&& set_allows(self.query, query)
        &&& all_allow(self.headers@, meta.headers, true)
        &&& all_allow(self.arguments@, args(query), false)
        &&& self.source matches Some(c) ==> c.hits(is_v4(meta.remote), meta.remote.octets())
    }

    pub(crate) proof fn lemma_hits(self, meta: MetaModel, path: Seq<u8>, query: Seq<u8>)
        ensures
            self.hits(meta, path, query) == {
                &&& set_allows(self.method, meta.method)
                &&& set_allows(self.host, lowered(until(meta.host, 58)))
                &&& set_allows(self.uri, path)
                &&& set_allows(self.query, query)
                &&& all_allow(self.headers@, meta.headers, true)
                &&& all_allow(self.arguments@, args(query), false)
                &&& self.source matches Some(c) ==> c.hits(
                    is_v4(meta.remote),
                    meta.remote.octets(),
                )
            },
    {
    }
}

/// Whether the value of each name is hit by its set.
fn values_match(sets: &Vec<(Vec<u8>, PatternSet)>, values: &[(Vec<u8>, Vec<u8>)], ci: bool) -> (r:
    bool)
    ensures
        r == all_allow(sets@, pairs(values@), ci),
{
    let ghost ps = pairs(values@);
    let mut i: usize = 0;
    while i < sets.len()
        invariant
            i <= sets@.len(),
            ps == pairs(values@),
            forall|j: int|
                0 <= j < i ==> (#[trigger] sets@[j]).1.hits(
                    if ci {
                        lowered(value_of(ps, sets@[j].0@))
                    } else {
                        value_of(ps, sets@[j].0@)
                    },
                ),
        decreases sets@.len() - i,
    {
        let hit = match lookup(values, sets[i].0.as_slice()) {
            Some(v) => sets[i].1.matches(v, ci),
            None => {
                let nothing: Vec<u8> = Vec::new();
                proof {
                    assert(nothing@ =~= Seq::<u8>::empty());
                    assert(lowered(nothing@) =~= nothing@);
                }
                sets[i].1.matches(nothing.as_slice(), ci)
            },
        };
        if !hit {
            assert(!sets@[i as int].1.hits(
                if ci {
                    lowered(value_of(ps, sets@[i as int].0@))
                } else {
                    value_of(ps, sets@[i as int].0@)
                },
            ));
            return false;
        }
        i += 1;
    }
    true
}

fn set_matches(set: &Option<PatternSet>, value: &[u8], ci: bool) -> (r: bool)
    ensures
        r == set_allows(
            *set,
            if ci {
                lowered(value@)
            } else {
                value@
            },
        ),
{
    match set {
        Some(s) => s.matches(value, ci),
        None => true,
    }
}

impl Step {
    /// Whether the step takes a request whose path and query are currently
    /// the given ones.
    pub closed spec fn hits(self, meta: MetaModel, path: Seq<u8>, query: Seq<u8>) -> bool {
        self.matcher matches Some(m) ==> m.hits(meta, path, query)
    }

    pub closed spec fn rewrites(self) -> Option<Template> {
        self.rewrite
    }

    pub closed spec fn acts(self) -> Action {
        self.action
    }

    /// The header operations of the step.
    pub closed spec fn header_ops(self) -> Seq<(Seq<char>, Option<Seq<char>>)> {
        ops_of(self.response_headers@)
    }

    pub(crate) proof fn lemma_hits(self, meta: MetaModel, path: Seq<u8>, query: Seq<u8>)
        ensures
            self.hits(meta, path, query) == (self.matcher matches Some(m) ==> m.hits(
                meta,
                path,
                query,
            )),
    {
    }

    pub(crate) proof fn lemma_parts(self)
        ensures
            self.rewrites() == self.rewrite,
            self.acts() == self.action,
            self.header_ops() == ops_of(self.response_headers@),
    {
    }

    pub fn matches(&self, meta: &RequestMeta<'_>, path: &[u8], query: &[u8]) -> (r: bool)
        ensures
            r == self.hits(meta@, path@, query@),
    {
        let m = match &self.matcher {
            Some(m) => m,
            None => {
                return true;
            },
        };
        if !set_matches(&m.method, meta.method, false) {
            return false;
        }
        let host: &[u8] = match find_byte(58, meta.host) {
            Some(pos) => &meta.host[0..pos],
            None => meta.host,
        };
        if !set_matches(&m.host, host, true) {
            return false;
        }
        if !set_matches(&m.uri, path, false) {
            return false;
        }
        if !set_matches(&m.query, query, false) {
            return false;
        }
        if !values_match(&m.headers, meta.headers, true) {
            return false;
        }
        if m.arguments.len() > 0 {
            let args = parse_args(query);
            if !values_match(&m.arguments, args.as_slice(), false) {
                return false;
            }
        }
        if let Some(cidr) = &m.source {
            if !cidr.matches(&meta.remote) {
                return false;
            }
        }
        true
    }
}

pub open spec fn ops_of(v: Seq<(String, Option<String>)>) -> Seq<(Seq<char>, Option<Seq<char>>)> {
    v.map_values(|p: (String, Option<String>)| (p.0@, opt_text(p.1)))
}

pub open spec fn opt_text(o: Option<String>) -> Option<Seq<char>> {
    match o {
        Some(s) => Some(s@),
        None => None,
    }
}

pub open spec fn opt_str(o: Option<&str>) -> Option<Seq<char>> {
    match o {
        Some(s) => Some(s@),
        None => None,
    }
}

pub open spec fn op_views(v: Seq<(&str, Option<&str>)>) -> Seq<(Seq<char>, Option<Seq<char>>)> {
    v.map_values(|p: (&str, Option<&str>)| (p.0@, opt_str(p.1)))
}

/// The first step from `i` on that takes a request; the number of steps where
/// there is none.
pub open spec fn find_step(
    steps: Seq<Step>,
    meta: MetaModel,
    path: Seq<u8>,
    query: Seq<u8>,
    i: int,
) -> int
    decreases steps.len() - i,
{
    if i < 0 || i >= steps.len() {
        steps.len() as int
    } else if steps[i].hits(meta, path, query) {
        i
    } else {
        find_step(steps, meta, path, query, i + 1)
    }
}

/// Path and query of a rewrite's target.
pub open spec fn rewrite_target(target: Seq<u8>) -> (Seq<u8>, Seq<u8>) {
    match cut(target, 63) {
        Some((path, query)) => (normalized(path), query),
        None => (normalized(target), seq![]),
    }
}

/// What the template variables stand for, in a request whose path and query
/// are currently the given ones.
pub open spec fn values(meta: MetaModel, path: Seq<u8>, query: Seq<u8>) -> Values {
    Values {
        uri: path,
        args: query,
        host: meta.host,
        method: meta.method,
        remote_addr: meta.remote_text,
    }
}

/// How far a walk has come.
pub struct Walk {
    pub path: Seq<u8>,
    pub query: Seq<u8>,
    pub rewritten: bool,
    pub ops: Seq<(Seq<char>, Option<Seq<char>>)>,
}

/// A walk after header operations and, where there is one, a rewrite.
pub open spec fn changed(
    rewrite: Option<Template>,
    more: Seq<(Seq<char>, Option<Seq<char>>)>,
    w: Walk,
    meta: MetaModel,
) -> Walk {
    let ops = w.ops + more;
    match rewrite {
        Some(t) => {
            let (path, query) = rewrite_target(
                rendered(t.parts(), values(meta, w.path, w.query)),
            );
            Walk { path, query, rewritten: true, ops }
        },
        None => Walk { ops, ..w },
    }
}

/// What a step that is taken does before its action.
pub open spec fn taken(step: Step, w: Walk, meta: MetaModel) -> Walk {
    changed(step.rewrites(), step.header_ops(), w, meta)
}

/// A walk that has not begun.
pub open spec fn start(meta: MetaModel) -> Walk {
    Walk { path: meta.path, query: meta.query, rewritten: false, ops: seq![] }
}

/// The walk from a route: the action that ends it, if one does within the
/// given number of steps, and what was done on the way.
pub open spec fn walk(
    routes: Map<Seq<char>, Vec<Step>>,
    route: Seq<char>,
    w: Walk,
    meta: MetaModel,
    hops: nat,
) -> (Option<Action>, Walk)
    decreases hops,
{
    if hops == 0 || !routes.dom().contains(route) {
        (None, w)
    } else {
        let steps = routes[route]@;
        let i = find_step(steps, meta, w.path, w.query, 0);
        if i >= steps.len() {
            (None, w)
        } else {
            let next = taken(steps[i], w, meta);
            match steps[i].acts() {
                Action::Route { name } => walk(routes, name@, next, meta, (hops - 1) as nat),
                action => (Some(action), next),
            }
        }
    }
}

/// The decision that an action makes.
pub open spec fn decides(d: Decision<'_>, a: Option<Action>) -> bool {
    match a {
        Some(Action::Application { name }) => d matches Decision::Application(n) && n@ == name@,
        Some(
            Action::Share {
                template,
                index,
                types,
                serve_sources,
                follow_symlinks,
                extra_source_exts,
                fallback,
            },
        ) => {
            &&& d matches Decision::Share {
                template: t,
                index: i,
                types: ty,
                serve_sources: s,
                follow_symlinks: l,
                extra_source_exts: e,
                fallback: f,
            }
            &&& t@ == template@
            &&& i@ == index@
            &&& refers(ty, types)
            &&& *s == serve_sources
            &&& l == follow_symlinks
            &&& e@ == extra_source_exts@
            &&& match fallback {
                Some(b) => f matches Some(x) && *x == *b,
                None => f is None,
            }
        },
        Some(Action::Return { status, location }) => d matches Decision::Return {
            status: s,
            location: l,
        } && s == status && refers(l, location),
        _ => d is NotFound,
    }
}

/// A reference to what an option holds.
pub open spec fn refers<T>(r: Option<&T>, o: Option<T>) -> bool {
    match o {
        Some(v) => r matches Some(x) && *x == v,
        None => r is None,
    }
}

fn opt_as_ref<T>(o: &Option<T>) -> (r: Option<&T>)
    ensures
        refers(r, *o),
{
    match o {
        Some(v) => Some(v),
        None => None,
    }
}

impl Action {
    /// The decision that an action makes; a jump makes none.
    pub fn decision(&self) -> (r: Decision<'_>)
        ensures
            decides(r, Some(*self)),
    {
        match self {
            Action::Application { name } => Decision::Application(name.as_str()),
            Action::Route { .. } => Decision::NotFound,
            Action::Share {
                template,
                index,
                types,
                serve_sources,
                follow_symlinks,
                extra_source_exts,
                fallback,
            } => Decision::Share {
                template: template.as_str(),
                index: index.as_str(),
                types: opt_as_ref(types),
                serve_sources,
                follow_symlinks: *follow_symlinks,
                extra_source_exts: extra_source_exts.as_slice(),
                fallback: match fallback {
                    Some(f) => Some(&**f),
                    None => None,
                },
            },
            Action::Return { status, location } => Decision::Return {
                status: *status,
                location: opt_as_ref(location),
            },
        }
    }
}

/// The outcome of a walk from a route.
pub open spec fn decided(
    r: RouteOutcome<'_>,
    routes: Map<Seq<char>, Vec<Step>>,
    route: Seq<char>,
    meta: MetaModel,
) -> bool {
    decided_from(r, routes, route, start(meta), meta)
}

/// The outcome of a walk that has come this far and goes on from a route.
pub open spec fn decided_from(
    r: RouteOutcome<'_>,
    routes: Map<Seq<char>, Vec<Step>>,
    route: Seq<char>,
    from: Walk,
    meta: MetaModel,
) -> bool {
    let (action, w) = walk(routes, route, from, meta, MAX_HOPS as nat);
    ends_with(r, action, w)
}

/// A walk that ends with this action, if any.
pub open spec fn ends_with(r: RouteOutcome<'_>, action: Option<Action>, w: Walk) -> bool {
    &&& decides(r.decision, action)
    &&& rewritten_to(r.rewritten, w)
    &&& op_views(r.response_headers@) == w.ops
}

/// Path and query as a walk leaves them, where it has rewritten them.
pub open spec fn rewritten_to(r: Option<(Vec<u8>, Vec<u8>)>, w: Walk) -> bool {
    match r {
        Some((path, query)) => w.rewritten && path@ == w.path && query@ == w.query,
        None => !w.rewritten,
    }
}

fn push_ops<'r>(
    out: &mut Vec<(&'r str, Option<&'r str>)>,
    ops: &'r Vec<(String, Option<String>)>,
)
    ensures
        op_views(final(out)@) == op_views(old(out)@) + ops_of(ops@),
{
    let ghost was = op_views(out@);
    let mut i: usize = 0;
    assert(op_views(out@) =~= was + ops_of(ops@).take(0));
    while i < ops.len()
        invariant
            i <= ops@.len(),
            op_views(out@) == was + ops_of(ops@).take(i as int),
        decreases ops@.len() - i,
    {
        let ghost before = op_views(out@);
        let value: Option<&'r str> = match &ops[i].1 {
            Some(v) => Some(v.as_str()),
            None => None,
        };
        out.push((ops[i].0.as_str(), value));
        proof {
            let all = ops_of(ops@);
            assert(op_views(out@) =~= before.push(all[i as int]));
            assert(all.take(i + 1) =~= all.take(i as int).push(all[i as int]));
            assert(op_views(out@) =~= was + all.take(i + 1));
        }
        i += 1;
    }
    assert(ops_of(ops@).take(i as int) =~= ops_of(ops@));
}

/// A walk under way.
pub(crate) struct Trail<'r> {
    path: Vec<u8>,
    query: Vec<u8>,
    rewritten: bool,
    ops: Vec<(&'r str, Option<&'r str>)>,
}

impl<'r> View for Trail<'r> {
    type V = Walk;

    closed spec fn view(&self) -> Walk {
        Walk {
            path: self.path@,
            query: self.query@,
            rewritten: self.rewritten,
            ops: op_views(self.ops@),
        }
    }
}

impl<'r> Trail<'r> {
    pub(crate) fn new(meta: &RequestMeta<'_>) -> (r: Self)
        ensures
            r@ == start(meta@),
    {
        let ops: Vec<(&'r str, Option<&'r str>)> = Vec::new();
        assert(op_views(ops@) =~= Seq::<(Seq<char>, Option<Seq<char>>)>::empty());
        Trail { path: to_vec(meta.path), query: to_vec(meta.query), rewritten: false, ops }
    }

    /// Note header operations, and apply a rewrite where there is one.
    pub(crate) fn change(
        &mut self,
        rewrite: &Option<Template>,
        ops: &'r Vec<(String, Option<String>)>,
        meta: &RequestMeta<'_>,
    )
        ensures
            final(self)@ == changed(*rewrite, ops_of(ops@), old(self)@, meta@),
    {
        push_ops(&mut self.ops, ops);
        if let Some(t) = rewrite {
            let target = t.render(
                &Vars {
                    uri: self.path.as_slice(),
                    args: self.query.as_slice(),
                    host: meta.host,
                    method: meta.method,
                    remote_addr: meta.remote_text,
                },
            );
            let whole = target.as_slice();
            let (path, query) = match find_byte(63, whole) {
                Some(pos) => (
                    normalize_path(&whole[0..pos]),
                    to_vec(&whole[pos + 1..whole.len()]),
                ),
                None => (normalize_path(whole), Vec::new()),
            };
            assert(query@ =~= rewrite_target(whole@).1);
            self.path = path;
            self.query = query;
            self.rewritten = true;
        }
    }

    pub(crate) fn end(self, decision: Decision<'r>) -> (r: RouteOutcome<'r>)
        ensures
            r.decision == decision,
            rewritten_to(r.rewritten, self@),
            op_views(r.response_headers@) == self@.ops,
    {
        RouteOutcome {
            decision,
            rewritten: if self.rewritten {
                Some((self.path, self.query))
            } else {
                None
            },
            response_headers: self.ops,
        }
    }
}

impl CompiledRoutes {
    pub closed spec fn routes(self) -> Map<Seq<char>, Vec<Step>> {
        self.routes.map()
    }

    pub(crate) proof fn lemma_routes(self)
        ensures
            self.routes() == self.routes.map(),
    {
    }

    /// Walk from a route to a decision. The first step that takes the request
    /// counts: its header operations are noted, its rewrite is applied, and
    /// its action is taken; a jump goes on in another route. A walk of more
    /// than `MAX_HOPS` steps finds nothing.
    pub fn decide<'r>(&'r self, route: &str, meta: &RequestMeta<'_>) -> (r: RouteOutcome<'r>)
        ensures
            decided(r, self.routes(), route@, meta@),
    {
        self.decide_from(route, Trail::new(meta), meta)
    }

    /// Go on from a route with a walk that has come this far.
    pub(crate) fn decide_from<'r>(
        &'r self,
        route: &str,
        from: Trail<'r>,
        meta: &RequestMeta<'_>,
    ) -> (r: RouteOutcome<'r>)
        ensures
            decided_from(r, self.routes(), route@, from@, meta@),
    {
        let mut route: String = route.to_owned();
        let mut trail = from;
        let mut decision: Decision<'r> = Decision::NotFound;
        let ghost end = walk(self.routes(), route@, from@, meta@, MAX_HOPS as nat);
        let mut hop: usize = 0;
        while hop < MAX_HOPS
            invariant_except_break
                hop <= MAX_HOPS,
                decision is NotFound,
                end == walk(
                    self.routes(),
                    route@,
                    trail@,
                    meta@,
                    (MAX_HOPS - hop) as nat,
                ),
            ensures
                decides(decision, end.0),
                end.1 == trail@,
            decreases MAX_HOPS - hop,
        {
            let steps: &'r Vec<Step> = match self.routes.get(route.as_str()) {
                Some(s) => s,
                None => {
                    break;
                },
            };
            let i: usize = first_step(
                steps,
                meta,
                trail.path.as_slice(),
                trail.query.as_slice(),
            );
            if i == steps.len() {
                break;
            }
            let step: &'r Step = &steps[i];
            trail.change(&step.rewrite, &step.response_headers, meta);
            if let Action::Route { name } = &step.action {
                route = name.clone();
                hop += 1;
                continue;
            }
            decision = step.action.decision();
            break;
        }
        trail.end(decision)
    }
}

fn first_step(steps: &Vec<Step>, meta: &RequestMeta<'_>, path: &[u8], query: &[u8]) -> (r: usize)
    ensures
        r <= steps@.len(),
        r == find_step(steps@, meta@, path@, query@, 0),
{
    let mut i: usize = 0;
    while i < steps.len()
        invariant
            i <= steps@.len(),
            find_step(steps@, meta@, path@, query@, 0) == find_step(
                steps@,
                meta@,
                path@,
                query@,
                i as int,
            ),
        decreases steps@.len() - i,
    {
        if steps[i].matches(meta, path, query) {
            return i;
        }
        i += 1;
    }
    i
}

proof fn lemma_find_step(
    steps: Seq<Step>,
    meta: MetaModel,
    path: Seq<u8>,
    query: Seq<u8>,
    i: int,
)
    requires
        0 <= i <= steps.len(),
    ensures
        i <= find_step(steps, meta, path, query, i) <= steps.len(),
        forall|j: int|
            i <= j < find_step(steps, meta, path, query, i) ==> !(#[trigger] steps[j]).hits(
                meta,
                path,
                query,
            ),
        find_step(steps, meta, path, query, i) < steps.len() ==> steps[find_step(
            steps,
            meta,
            path,
            query,
            i,
        )].hits(meta, path, query),
    decreases steps.len() - i,
{
    if i < steps.len() && !steps[i].hits(meta, path, query) {
        lemma_find_step(steps, meta, path, query, i + 1);
    }
}

/// The step that a walk takes in a route is the first that takes the request;
/// none is taken exactly where none takes it.
pub proof fn first_step_wins(
    steps: Seq<Step>,
    meta: MetaModel,
    path: Seq<u8>,
    query: Seq<u8>,
)
    ensures
        ({
            let i = find_step(steps, meta, path, query, 0);
            &&& 0 <= i <= steps.len()
            &&& forall|j: int| 0 <= j < i ==> !(#[trigger] steps[j]).hits(meta, path, query)
            &&& i < steps.len() ==> steps[i].hits(meta, path, query)
        }),
{
    lemma_find_step(steps, meta, path, query, 0);
}

/// A walk that has not rewritten anything leaves path and query as they were,
/// and a walk never takes back a header operation.
pub proof fn walk_keeps_what_it_has(
    routes: Map<Seq<char>, Vec<Step>>,
    route: Seq<char>,
    w: Walk,
    meta: MetaModel,
    hops: nat,
)
    ensures
        ({
            let end = walk(routes, route, w, meta, hops).1;
            &&& !end.rewritten ==> !w.rewritten && end.path == w.path && end.query == w.query
            &&& w.ops.len() <= end.ops.len()
            &&& end.ops.subrange(0, w.ops.len() as int) == w.ops
        }),
    decreases hops,
{
    assert(w.ops.subrange(0, w.ops.len() as int) =~= w.ops);
    if hops > 0 && routes.dom().contains(route) {
        let steps = routes[route]@;
        let i = find_step(steps, meta, w.path, w.query, 0);
        if i < steps.len() {
            let next = taken(steps[i], w, meta);
            assert(next.ops.subrange(0, w.ops.len() as int) =~= w.ops);
            if let Action::Route { name } = steps[i].acts() {
                walk_keeps_what_it_has(routes, name@, next, meta, (hops - 1) as nat);
                let end = walk(routes, name@, next, meta, (hops - 1) as nat).1;
                assert(end.ops.subrange(0, next.ops.len() as int).subrange(
                    0,
                    w.ops.len() as int,
                ) =~= end.ops.subrange(0, w.ops.len() as int));
            }
        }
    }
}

/// A route whose first matching step jumps back to it, without a rewrite, is
/// given up: the walk ends without an action however many steps it may take.
pub proof fn endless_jump_finds_nothing(
    routes: Map<Seq<char>, Vec<Step>>,
    route: Seq<char>,
    w: Walk,
    meta: MetaModel,
    hops: nat,
)
    requires
        routes.dom().contains(route),
        ({
            let steps = routes[route]@;
            let i = find_step(steps, meta, w.path, w.query, 0);
            &&& i < steps.len()
            &&& steps[i].rewrites() is None
            &&& steps[i].acts() matches Action::Route { name } && name@ == route
        }),
    ensures
        walk(routes, route, w, meta, hops).0 is None,
    decreases hops,
{
    if hops > 0 {
        let steps = routes[route]@;
        let i = find_step(steps, meta, w.path, w.query, 0);
        endless_jump_finds_nothing(
            routes,
            route,
            taken(steps[i], w, meta),
            meta,
            (hops - 1) as nat,
        );
    }
}

} // verus!
