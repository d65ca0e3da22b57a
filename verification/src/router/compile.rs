//! From configured routes to compiled ones.

use vstd::prelude::*;
use vstd::string::*;
use vstd::utf8::encode_utf8;

use crate::bytes::{lowered, to_lower, to_vec, until};
use crate::config::schema::{
    Action as ConfAction, Application, ApplicationRef, Config, Match, OneOrMany, RouteStep,
    ServeSources, Share,
};
use crate::config::table::{ascending, lemma_before_total, name_before, Table};
use crate::config::soundness::{actions_are_sound, sound};
use crate::config::validate::{
    accepted, action_reaches, all_applications, generated_name, named, named_routes, named_steps,
    reach_within, reaches, route_reach, Validated,
};
use crate::router::args::{args, value_of};
use crate::router::matching::{
    block_of, blocks_hit, compiles, entry_body, fault_at, is_v4, lower_str, lowered_chars,
    set_hits, strs, texts, CidrSet, MatchError, PatternSet,
};
use crate::router::routes::{
    all_allow, ops_of, opt_text, Action, CompiledRoutes, Fallback, Matcher, MetaModel, Step,
};
use crate::router::template::{parts_of, PartModel, Template, TemplateError, TemplateFault};
use crate::text::{trim_start, trimmed};

verus! {

/// A route that cannot be compiled.
#[derive(Debug)]
pub enum RouteError {
    Match(MatchError),
    Template(TemplateError),
}

pub enum RouteFault {
    Match(MatchError),
    Template(TemplateFault),
}

impl View for RouteError {
    type V = RouteFault;

    open spec fn view(&self) -> RouteFault {
        match self {
            RouteError::Match(e) => RouteFault::Match(*e),
            RouteError::Template(e) => RouteFault::Template(e@),
        }
    }
}

pub open spec fn names(v: Seq<String>) -> Seq<Seq<char>> {
    v.map_values(|s: String| s@)
}

/// The bytes of a list of texts.
pub open spec fn name_bytes(v: Seq<String>) -> Seq<Seq<u8>> {
    v.map_values(|s: String| encode_utf8(s@))
}

/// The first pattern of a list that does not compile.
pub open spec fn set_fault(raws: Seq<Seq<char>>, ci: bool) -> Option<MatchError>
    decreases raws.len(),
{
    if raws.len() == 0 {
        None
    } else {
        match set_fault(raws.drop_last(), ci) {
            Some(e) => Some(e),
            None => if compiles(entry_body(raws.last()), ci) {
                None
            } else {
                Some(MatchError::BadRegex((raws.len() - 1) as usize))
            },
        }
    }
}

proof fn lemma_set_fine(raws: Seq<Seq<char>>, ci: bool)
    requires
        forall|i: int| 0 <= i < raws.len() ==> compiles(entry_body(#[trigger] raws[i]), ci),
    ensures
        set_fault(raws, ci) is None,
    decreases raws.len(),
{
    if raws.len() > 0 {
        assert forall|i: int| 0 <= i < raws.drop_last().len() implies compiles(
            entry_body(#[trigger] raws.drop_last()[i]),
            ci,
        ) by {
            assert(raws.drop_last()[i] == raws[i]);
        }
        lemma_set_fine(raws.drop_last(), ci);
    }
}

proof fn lemma_set_fault(raws: Seq<Seq<char>>, ci: bool, k: int)
    requires
        0 <= k < raws.len(),
        !compiles(entry_body(raws[k]), ci),
        forall|i: int| 0 <= i < k ==> compiles(entry_body(#[trigger] raws[i]), ci),
    ensures
        set_fault(raws, ci) == Some(MatchError::BadRegex(k as usize)),
    decreases raws.len(),
{
    let init = raws.drop_last();
    if k == init.len() {
        assert forall|i: int| 0 <= i < init.len() implies compiles(
            entry_body(#[trigger] init[i]),
            ci,
        ) by {
            assert(init[i] == raws[i]);
        }
        lemma_set_fine(init, ci);
    } else {
        assert forall|i: int| 0 <= i < k implies compiles(entry_body(#[trigger] init[i]), ci) by {
            assert(init[i] == raws[i]);
        }
        lemma_set_fault(init, ci, k);
    }
}

/// The first entry of an address list that is none.
pub open spec fn source_fault(raws: Seq<Seq<u8>>) -> Option<MatchError>
    decreases raws.len(),
{
    if raws.len() == 0 {
        None
    } else {
        match source_fault(raws.drop_last()) {
            Some(e) => Some(e),
            None => match block_of(raws.last()) {
                Ok(_) => None,
                Err(f) => Some(fault_at(f, (raws.len() - 1) as usize)),
            },
        }
    }
}

proof fn lemma_source_fine(raws: Seq<Seq<u8>>)
    requires
        forall|i: int| 0 <= i < raws.len() ==> block_of(#[trigger] raws[i]) is Ok,
    ensures
        source_fault(raws) is None,
    decreases raws.len(),
{
    if raws.len() > 0 {
        assert forall|i: int| 0 <= i < raws.drop_last().len() implies block_of(
            #[trigger] raws.drop_last()[i],
        ) is Ok by {
            assert(raws.drop_last()[i] == raws[i]);
        }
        lemma_source_fine(raws.drop_last());
    }
}

proof fn lemma_source_fault(raws: Seq<Seq<u8>>, k: int)
    requires
        0 <= k < raws.len(),
        block_of(raws[k]) is Err,
        forall|i: int| 0 <= i < k ==> block_of(#[trigger] raws[i]) is Ok,
    ensures
        source_fault(raws) == Some(fault_at(block_of(raws[k])->Err_0, k as usize)),
    decreases raws.len(),
{
    let init = raws.drop_last();
    if k == init.len() {
        assert forall|i: int| 0 <= i < init.len() implies block_of(#[trigger] init[i]) is Ok by {
            assert(init[i] == raws[i]);
        }
        lemma_source_fine(init);
    } else {
        assert forall|i: int| 0 <= i < k implies block_of(#[trigger] init[i]) is Ok by {
            assert(init[i] == raws[i]);
        }
        lemma_source_fault(init, k);
    }
}

/// A compiled set that hits what the configured patterns hit.
pub open spec fn stands_for(set: PatternSet, raws: Seq<Seq<char>>, ci: bool) -> bool {
    forall|v: Seq<u8>| #[trigger] set.hits(v) == set_hits(raws, ci, v)
}

fn str_refs(items: &OneOrMany<String>) -> (r: Vec<&str>)
    ensures
        strs(r@) == names(items.items()),
        texts(r@) == name_bytes(items.items()),
{
    let all = items.iter();
    let mut out: Vec<&str> = Vec::new();
    let mut i: usize = 0;
    while i < all.len()
        invariant
            i <= all@.len(),
            out@.len() == i,
            forall|j: int| 0 <= j < i ==> #[trigger] out@[j]@ == all@[j]@,
        decreases all@.len() - i,
    {
        out.push(all[i].as_str());
        i += 1;
    }
    proof {
        assert(strs(out@) =~= names(items.items())) by {
            assert forall|j: int| 0 <= j < out@.len() implies strs(out@)[j] == names(
                items.items(),
            )[j] by {
                assert(out@[j]@ == all@[j]@);
            }
        }
        assert(texts(out@) =~= name_bytes(items.items())) by {
            assert forall|j: int| 0 <= j < out@.len() implies texts(out@)[j] == name_bytes(
                items.items(),
            )[j] by {
                assert(out@[j]@ == all@[j]@);
            }
        }
    }
    out
}

fn compile_set(items: &OneOrMany<String>, ci: bool) -> (r: Result<PatternSet, MatchError>)
    ensures
        match set_fault(names(items.items()), ci) {
            None => r matches Ok(set) && stands_for(set, names(items.items()), ci),
            Some(e) => r == Err::<PatternSet, MatchError>(e),
        },
{
    let refs = str_refs(items);
    let r = PatternSet::compile(refs.as_slice(), ci);
    proof {
        let raws = names(items.items());
        match r {
            Ok(_) => lemma_set_fine(raws, ci),
            Err(MatchError::BadRegex(k)) => lemma_set_fault(raws, ci, k as int),
            _ => {},
        }
    }
    r
}

/// The fault of a condition that may be absent.
pub open spec fn opt_set_fault(p: Option<OneOrMany<String>>, ci: bool) -> Option<MatchError> {
    match p {
        Some(x) => set_fault(names(x.items()), ci),
        None => None,
    }
}

/// A compiled condition for a configured one.
pub open spec fn opt_stands_for(
    set: Option<PatternSet>,
    p: Option<OneOrMany<String>>,
    ci: bool,
) -> bool {
    match p {
        Some(x) => set matches Some(s) && stands_for(s, names(x.items()), ci),
        None => set is None,
    }
}

fn compile_opt(p: &Option<OneOrMany<String>>, ci: bool) -> (r: Result<
    Option<PatternSet>,
    MatchError,
>)
    ensures
        match opt_set_fault(*p, ci) {
            None => r matches Ok(set) && opt_stands_for(set, *p, ci),
            Some(e) => r == Err::<Option<PatternSet>, MatchError>(e),
        },
{
    match p {
        Some(x) => match compile_set(x, ci) {
            Ok(set) => Ok(Some(set)),
            Err(e) => Err(e),
        },
        None => Ok(None),
    }
}

/// The first fault of named conditions.
pub open spec fn named_fault(
    entries: Seq<(String, OneOrMany<String>)>,
    ci: bool,
) -> Option<MatchError>
    decreases entries.len(),
{
    if entries.len() == 0 {
        None
    } else {
        match named_fault(entries.drop_last(), ci) {
            Some(e) => Some(e),
            None => set_fault(names(entries.last().1.items()), ci),
        }
    }
}

proof fn lemma_named_prefix(entries: Seq<(String, OneOrMany<String>)>, n: int, ci: bool)
    requires
        0 <= n <= entries.len(),
        named_fault(entries.take(n), ci) is Some,
    ensures
        named_fault(entries, ci) == named_fault(entries.take(n), ci),
    decreases entries.len(),
{
    if n == entries.len() {
        assert(entries.take(n) =~= entries);
    } else {
        assert(entries.drop_last().take(n) =~= entries.take(n));
        lemma_named_prefix(entries.drop_last(), n, ci);
    }
}

/// The name under which a value is looked up: that of a header in lower case,
/// that of an argument as it is written.
pub open spec fn key_bytes(name: Seq<char>, ci: bool) -> Seq<u8> {
    if ci {
        lowered(encode_utf8(name))
    } else {
        encode_utf8(name)
    }
}

/// Compiled named conditions for configured ones.
pub open spec fn named_stand_for(
    sets: Seq<(Vec<u8>, PatternSet)>,
    entries: Seq<(String, OneOrMany<String>)>,
    ci: bool,
) -> bool {
    &&& sets.len() == entries.len()
    &&& forall|i: int|
        0 <= i < sets.len() ==> {
            &&& (#[trigger] sets[i]).0@ == key_bytes(entries[i].0@, ci)
            &&& stands_for(sets[i].1, names(entries[i].1.items()), ci)
        }
}

pub open spec fn opt_entries(t: Option<Table<OneOrMany<String>>>) -> Seq<
    (String, OneOrMany<String>),
> {
    match t {
        Some(x) => x.entries(),
        None => seq![],
    }
}

fn compile_named(t: &Option<Table<OneOrMany<String>>>, ci: bool) -> (r: Result<
    Vec<(Vec<u8>, PatternSet)>,
    MatchError,
>)
    ensures
        match named_fault(opt_entries(*t), ci) {
            None => r matches Ok(sets) && named_stand_for(sets@, opt_entries(*t), ci),
            Some(e) => r == Err::<Vec<(Vec<u8>, PatternSet)>, MatchError>(e),
        },
{
    let mut out: Vec<(Vec<u8>, PatternSet)> = Vec::new();
    let table = match t {
        Some(x) => x,
        None => {
            return Ok(out);
        },
    };
    let ghost all = table.entries();
    let mut i: usize = 0;
    assert(all.take(0).len() == 0);
    while i < table.len()
        invariant
            i <= all.len(),
            all == table.entries(),
            all == opt_entries(*t),
            named_fault(all.take(i as int), ci) is None,
            named_stand_for(out@, all.take(i as int), ci),
        decreases all.len() - i,
    {
        proof {
            assert(all.take(i + 1).drop_last() =~= all.take(i as int));
            assert(all.take(i + 1).last() == all[i as int]);
        }
        match compile_set(table.value(i), ci) {
            Ok(set) => {
                let raw = table.name(i).as_str().as_bytes();
                let name = if ci {
                    to_lower(raw)
                } else {
                    to_vec(raw)
                };
                out.push((name, set));
            },
            Err(e) => {
                proof {
                    lemma_named_prefix(all, i + 1, ci);
                }
                return Err(e);
            },
        }
        i += 1;
    }
    assert(all.take(i as int) =~= all);
    Ok(out)
}

/// The first fault of a match block.
pub open spec fn match_fault(m: Match) -> Option<MatchError> {
    if opt_set_fault(m.method, false) is Some {
        opt_set_fault(m.method, false)
    } else if opt_set_fault(m.host, true) is Some {
        opt_set_fault(m.host, true)
    } else if opt_set_fault(m.uri, false) is Some {
        opt_set_fault(m.uri, false)
    } else if opt_set_fault(m.query, false) is Some {
        opt_set_fault(m.query, false)
    } else if named_fault(opt_entries(m.headers), true) is Some {
        named_fault(opt_entries(m.headers), true)
    } else if named_fault(opt_entries(m.arguments), false) is Some {
        named_fault(opt_entries(m.arguments), false)
    } else {
        match m.source {
            Some(s) => source_fault(name_bytes(s.items())),
            None => None,
        }
    }
}

/// A configured condition on a value; one that is absent always holds.
pub open spec fn wants(p: Option<OneOrMany<String>>, ci: bool, value: Seq<u8>) -> bool {
    p matches Some(x) ==> set_hits(names(x.items()), ci, value)
}

/// Configured conditions on named values.
pub open spec fn all_want(
    entries: Seq<(String, OneOrMany<String>)>,
    ps: Seq<(Seq<u8>, Seq<u8>)>,
    ci: bool,
) -> bool {
    forall|i: int|
        0 <= i < entries.len() ==> set_hits(
            names((#[trigger] entries[i]).1.items()),
            ci,
            if ci {
                lowered(value_of(ps, key_bytes(entries[i].0@, ci)))
            } else {
                value_of(ps, key_bytes(entries[i].0@, ci))
            },
        )
}

/// Whether all conditions of a match block hold, of a request whose path and
/// query are currently the given ones. The host is compared without its port
/// and in lower case, header values in lower case.
pub open spec fn match_holds(
    m: Match,
    meta: MetaModel,
    path: Seq<u8>,
    query: Seq<u8>,
) -> bool {
    &&& wants(m.method, false, meta.method)
    &&& wants(m.host, true, lowered(until(meta.host, 58)))
    &&& wants(m.uri, false, path)
    &&& wants(m.query, false, query)
    &&& all_want(opt_entries(m.headers), meta.headers, true)
    &&& all_want(opt_entries(m.arguments), args(query), false)
    &&& m.source matches Some(s) ==> blocks_hit(
        name_bytes(s.items()),
        is_v4(meta.remote),
        meta.remote.octets(),
    )
}

proof fn lemma_all_want(
    sets: Seq<(Vec<u8>, PatternSet)>,
    entries: Seq<(String, OneOrMany<String>)>,
    ps: Seq<(Seq<u8>, Seq<u8>)>,
    ci: bool,
)
    requires
        named_stand_for(sets, entries, ci),
    ensures
        all_allow(sets, ps, ci) == all_want(entries, ps, ci),
{
    if all_allow(sets, ps, ci) {
        assert forall|i: int| 0 <= i < entries.len() implies set_hits(
            names((#[trigger] entries[i]).1.items()),
            ci,
            if ci {
                lowered(value_of(ps, key_bytes(entries[i].0@, ci)))
            } else {
                value_of(ps, key_bytes(entries[i].0@, ci))
            },
        ) by {
            assert(sets[i].0@ == key_bytes(entries[i].0@, ci));
        }
    }
    if all_want(entries, ps, ci) {
        assert forall|i: int| 0 <= i < sets.len() implies (#[trigger] sets[i]).1.hits(
            if ci {
                lowered(value_of(ps, sets[i].0@))
            } else {
                value_of(ps, sets[i].0@)
            },
        ) by {
            assert(entries[i].0@ == entries[i].0@);
        }
    }
}

fn compile_match(m: &Match) -> (r: Result<Matcher, MatchError>)
    ensures
        match match_fault(*m) {
            None => {
                &&& r matches Ok(x)
                &&& forall|meta: MetaModel, path: Seq<u8>, query: Seq<u8>| #[trigger]
                    x.hits(meta, path, query) == match_holds(*m, meta, path, query)
            },
            Some(e) => r == Err::<Matcher, MatchError>(e),
        },
{
    let method = match compile_opt(&m.method, false) {
        Ok(s) => s,
        Err(e) => {
            return Err(e);
        },
    };
    let host = match compile_opt(&m.host, true) {
        Ok(s) => s,
        Err(e) => {
            return Err(e);
        },
    };
    let uri = match compile_opt(&m.uri, false) {
        Ok(s) => s,
        Err(e) => {
            return Err(e);
        },
    };
    let query = match compile_opt(&m.query, false) {
        Ok(s) => s,
        Err(e) => {
            return Err(e);
        },
    };
    let headers = match compile_named(&m.headers, true) {
        Ok(s) => s,
        Err(e) => {
            return Err(e);
        },
    };
    let arguments = match compile_named(&m.arguments, false) {
        Ok(s) => s,
        Err(e) => {
            return Err(e);
        },
    };
    let source = match &m.source {
        Some(s) => {
            let refs = str_refs(s);
            let c = CidrSet::compile(refs.as_slice());
            proof {
                let raws = name_bytes(s.items());
                match c {
                    Ok(_) => lemma_source_fine(raws),
                    Err(e) => {
                        let k = choose|k: int|
                            {
                                &&& 0 <= k < raws.len()
                                &&& #[trigger] block_of(raws[k]) is Err
                                &&& e == fault_at(block_of(raws[k])->Err_0, k as usize)
                                &&& forall|i: int|
                                    0 <= i < k ==> block_of(#[trigger] raws[i]) is Ok
                            };
                        lemma_source_fault(raws, k);
                    },
                }
            }
            match c {
                Ok(c) => Some(c),
                Err(e) => {
                    return Err(e);
                },
            }
        },
        None => None,
    };
    let x = Matcher { method, host, uri, query, headers, arguments, source };
    proof {
        assert forall|meta: MetaModel, path: Seq<u8>, query: Seq<u8>| #[trigger]
            x.hits(meta, path, query) == match_holds(*m, meta, path, query) by {
            lemma_all_want(
                x.headers@,
                opt_entries(m.headers),
                meta.headers,
                true,
            );
            lemma_all_want(x.arguments@, opt_entries(m.arguments), args(query), false);
            x.lemma_hits(meta, path, query);
        }
    }
    Ok(x)
}

/// Extensions in lower case, without the dots before them.
pub open spec fn extensions(v: Seq<String>) -> Seq<Seq<char>> {
    v.map_values(|s: String| lowered_chars(trimmed(s@, '.')))
}

fn compile_extensions(v: &Vec<String>) -> (r: Vec<String>)
    ensures
        names(r@) == extensions(v@),
{
    let mut out: Vec<String> = Vec::new();
    let mut i: usize = 0;
    while i < v.len()
        invariant
            i <= v@.len(),
            out@.len() == i,
            forall|j: int| 0 <= j < i ==> #[trigger] out@[j]@ == extensions(v@)[j],
        decreases v@.len() - i,
    {
        out.push(lower_str(trim_start(v[i].as_str(), '.')));
        i += 1;
    }
    assert(names(out@) =~= extensions(v@)) by {
        assert forall|j: int| 0 <= j < out@.len() implies names(out@)[j] == extensions(v@)[j] by {
            assert(out@[j]@ == extensions(v@)[j]);
        }
    }
    out
}

fn copy_names(v: &Vec<String>) -> (r: Vec<String>)
    ensures
        names(r@) == names(v@),
{
    let mut out: Vec<String> = Vec::new();
    let mut i: usize = 0;
    while i < v.len()
        invariant
            i <= v@.len(),
            out@.len() == i,
            forall|j: int| 0 <= j < i ==> #[trigger] out@[j]@ == v@[j]@,
        decreases v@.len() - i,
    {
        out.push(v[i].clone());
        i += 1;
    }
    assert(names(out@) =~= names(v@)) by {
        assert forall|j: int| 0 <= j < out@.len() implies names(out@)[j] == names(v@)[j] by {
            assert(out@[j]@ == v@[j]@);
        }
    }
    out
}

/// A compiled opt-out for a configured one.
pub open spec fn sources_for(s: ServeSources, c: ServeSources) -> bool {
    match c {
        ServeSources::Off => s is Off,
        ServeSources::All => s is All,
        ServeSources::Only(v) => s matches ServeSources::Only(w) && names(w@) == names(v@),
    }
}

fn compile_sources(c: &ServeSources) -> (r: ServeSources)
    ensures
        sources_for(r, *c),
{
    match c {
        ServeSources::Off => ServeSources::Off,
        ServeSources::All => ServeSources::All,
        ServeSources::Only(v) => ServeSources::Only(copy_names(v)),
    }
}

/// The parts of a template, or its fault.
pub open spec fn template_fault(t: Option<String>) -> Option<RouteFault> {
    match t {
        Some(s) => match parts_of(encode_utf8(s@)) {
            Ok(_) => None,
            Err(e) => Some(RouteFault::Template(e)),
        },
        None => None,
    }
}

/// A compiled template for a configured one.
pub open spec fn template_for(t: Option<Template>, s: Option<String>) -> bool {
    match s {
        Some(s) => t matches Some(x) && parts_of(encode_utf8(s@)) == Ok::<
            Seq<PartModel>,
            TemplateFault,
        >(x.parts()),
        None => t is None,
    }
}

fn compile_template(t: &Option<String>) -> (r: Result<Option<Template>, RouteError>)
    ensures
        match template_fault(*t) {
            None => r matches Ok(x) && template_for(x, *t),
            Some(e) => r matches Err(x) && x@ == e,
        },
{
    match t {
        Some(s) => match Template::compile(s.as_str()) {
            Ok(x) => Ok(Some(x)),
            Err(e) => Err(RouteError::Template(e)),
        },
        None => Ok(None),
    }
}

/// An action that names at least one terminal, and applications by name only.
pub open spec fn routable(a: ConfAction) -> bool
    decreases a,
{
    &&& a.application matches Some(r) ==> r is Name
    &&& a.application is Some || a.route is Some || a.share is Some || a.return_ is Some
    &&& a.fallback matches Some(f) ==> routable(*f)
}

/// The first fault of an action.
pub open spec fn action_fault(a: ConfAction) -> Option<RouteFault>
    decreases a,
{
    if a.application is Some || a.route is Some {
        None
    } else if a.share is Some {
        let types = match a.share->0 {
            Share::Path(_) => None,
            Share::Full(o) => opt_set_fault(o.types, true),
        };
        match types {
            Some(e) => Some(RouteFault::Match(e)),
            None => match a.fallback {
                Some(f) => match template_fault(f.rewrite) {
                    Some(e) => Some(e),
                    None => action_fault(*f),
                },
                None => None,
            },
        }
    } else {
        template_fault(a.location)
    }
}

/// The path template of a share.
pub open spec fn share_template(s: Share) -> Seq<char> {
    match s {
        Share::Path(p) => p@,
        Share::Full(o) => if o.share.items().len() > 0 {
            o.share.items()[0]@
        } else {
            seq![]
        },
    }
}

/// The file that stands for a directory.
pub open spec fn share_index(s: Share) -> Seq<char> {
    match s {
        Share::Full(o) => match o.index {
            Some(i) => i@,
            None => "index.html"@,
        },
        _ => "index.html"@,
    }
}

/// Whether a fallback can hand a request to an application of this name: itself,
/// by jumps, or by its own fallback.
pub open spec fn falls_back_to(
    f: Option<Box<ConfAction>>,
    app: Seq<char>,
    routes: Table<Vec<RouteStep>>,
) -> bool {
    f matches Some(a) && reaches(
        *a,
        Some(app),
        routes.keys(),
        reach_within(routes, Some(app), routes.entries().len()),
    )
}

/// Whether a share with this fallback keeps files of an extension back: an
/// application that it falls back to executes them.
pub open spec fn kept_back(
    ext: Seq<char>,
    f: Option<Box<ConfAction>>,
    apps: Map<Seq<char>, Application>,
    routes: Table<Vec<RouteStep>>,
) -> bool {
    exists|app: Seq<char>| #[trigger]
        apps.dom().contains(app) && falls_back_to(f, app, routes) && extensions(
            apps[app].execute@,
        ).contains(ext)
}

/// A compiled action for a configured one: the first of application, route,
/// share and return that is given.
pub open spec fn action_for(
    a: Action,
    c: ConfAction,
    apps: Map<Seq<char>, Application>,
    routes: Table<Vec<RouteStep>>,
) -> bool
    decreases c,
{
    if c.application is Some {
        a matches Action::Application { name } && c.application->0 is Name && name@
            == c.application->0->Name_0@
    } else if c.route is Some {
        a matches Action::Route { name } && name@ == c.route->0@
    } else if c.share is Some {
        let s = c.share->0;
        &&& a matches Action::Share {
            template,
            index,
            types,
            serve_sources,
            follow_symlinks,
            extra_source_exts,
            fallback,
        }
        &&& template@ == share_template(s)
        &&& index@ == share_index(s)
        &&& match s {
            Share::Path(_) => types is None && serve_sources is Off && follow_symlinks,
            Share::Full(o) => {
                &&& opt_stands_for(types, o.types, true)
                &&& sources_for(serve_sources, o.serve_sources)
                &&& follow_symlinks == (o.follow_symlinks != Some(false))
            },
        }
        &&& forall|e: Seq<char>| #[trigger]
            names(extra_source_exts@).contains(e) == kept_back(e, c.fallback, apps, routes)
        &&& match c.fallback {
            Some(f) => fallback matches Some(g) && template_for(g.rewrite, f.rewrite) && ops_of(
                g.response_headers@,
            ) == configured_ops(f.response_headers) && action_for(g.action, *f, apps, routes),
            None => fallback is None,
        }
    } else {
        a matches Action::Return { status, location } && Some(status) == c.return_ && template_for(
            location,
            c.location,
        )
    }
}

fn first_item(v: &OneOrMany<String>) -> (r: String)
    ensures
        r@ == if v.items().len() > 0 {
            v.items()[0]@
        } else {
            seq![]
        },
{
    let all = v.iter();
    if all.len() > 0 {
        all[0].clone()
    } else {
        let r = String::new();
        assert(r@ =~= Seq::<char>::empty());
        r
    }
}

/// For each application, from which routes it can be reached.
spec fn spread_over(
    spread: Seq<Vec<bool>>,
    apps: Table<Application>,
    routes: Table<Vec<RouteStep>>,
) -> bool {
    &&& spread.len() == apps.entries().len()
    &&& forall|k: int|
        0 <= k < spread.len() ==> (#[trigger] spread[k])@ == reach_within(
            routes,
            Some(apps.entries()[k].0@),
            routes.entries().len(),
        )
}

fn spread_of(apps: &Table<Application>, routes: &Table<Vec<RouteStep>>) -> (r: Vec<Vec<bool>>)
    ensures
        spread_over(r@, *apps, *routes),
{
    let mut out: Vec<Vec<bool>> = Vec::new();
    let mut k: usize = 0;
    while k < apps.len()
        invariant
            k <= apps.entries().len(),
            out@.len() == k,
            forall|j: int|
                0 <= j < k ==> (#[trigger] out@[j])@ == reach_within(
                    *routes,
                    Some(apps.entries()[j].0@),
                    routes.entries().len(),
                ),
        decreases apps.entries().len() - k,
    {
        out.push(route_reach(routes, Some(apps.name(k).as_str())));
        k += 1;
    }
    out
}

fn fallback_extensions(
    f: &Option<Box<ConfAction>>,
    apps: &Table<Application>,
    routes: &Table<Vec<RouteStep>>,
    spread: &Vec<Vec<bool>>,
) -> (r: Vec<String>)
    requires
        spread_over(spread@, *apps, *routes),
    ensures
        forall|e: Seq<char>| #[trigger]
            names(r@).contains(e) == kept_back(e, *f, apps.map(), *routes),
{
    let mut out: Vec<String> = Vec::new();
    let mut k: usize = 0;
    while k < apps.len()
        invariant
            k <= apps.entries().len(),
            spread_over(spread@, *apps, *routes),
            forall|e: Seq<char>| #[trigger]
                names(out@).contains(e) == kept_by_first(e, k as int, *f, *apps, *routes),
        decreases apps.entries().len() - k,
    {
        let ghost was = out@;
        let back = match f {
            Some(a) => action_reaches(a, Some(apps.name(k).as_str()), routes, &spread[k]),
            None => false,
        };
        assert(back == falls_back_to(*f, apps.entries()[k as int].0@, *routes));
        if back {
            let mut more = compile_extensions(&apps.value(k).execute);
            let ghost added = more@;
            out.append(&mut more);
            proof {
                assert(names(out@) =~= names(was) + names(added));
                assert forall|e: Seq<char>| #[trigger]
                    names(out@).contains(e) == kept_by_first(e, k + 1, *f, *apps, *routes) by {
                    lemma_either(names(was), names(added), e);
                    assert(names(was).contains(e) == kept_by_first(
                        e,
                        k as int,
                        *f,
                        *apps,
                        *routes,
                    ));
                    lemma_one_more(e, k as int, *f, *apps, *routes);
                }
            }
        } else {
            assert forall|e: Seq<char>| #[trigger]
                names(out@).contains(e) == kept_by_first(e, k + 1, *f, *apps, *routes) by {
                lemma_one_more(e, k as int, *f, *apps, *routes);
            }
        }
        k += 1;
    }
    apps.ordered();
    proof {
        assert forall|e: Seq<char>| #[trigger]
            names(out@).contains(e) == kept_back(e, *f, apps.map(), *routes) by {
            lemma_all_apps(e, *f, *apps, *routes);
        }
    }
    out
}

/// Whether one of the first `n` applications keeps an extension back.
spec fn kept_by_first(
    ext: Seq<char>,
    n: int,
    f: Option<Box<ConfAction>>,
    apps: Table<Application>,
    routes: Table<Vec<RouteStep>>,
) -> bool {
    exists|k: int|
        0 <= k < n && falls_back_to(f, (#[trigger] apps.entries()[k]).0@, routes) && extensions(
            apps.entries()[k].1.execute@,
        ).contains(ext)
}

proof fn lemma_either(a: Seq<Seq<char>>, b: Seq<Seq<char>>, e: Seq<char>)
    ensures
        (a + b).contains(e) == (a.contains(e) || b.contains(e)),
{
    if a.contains(e) {
        let i = choose|i: int| 0 <= i < a.len() && a[i] == e;
        assert((a + b)[i] == e);
    }
    if b.contains(e) {
        let i = choose|i: int| 0 <= i < b.len() && b[i] == e;
        assert((a + b)[a.len() + i] == e);
    }
}

proof fn lemma_one_more(
    e: Seq<char>,
    k: int,
    f: Option<Box<ConfAction>>,
    apps: Table<Application>,
    routes: Table<Vec<RouteStep>>,
)
    requires
        0 <= k < apps.entries().len(),
    ensures
        kept_by_first(e, k + 1, f, apps, routes) == (kept_by_first(e, k, f, apps, routes) || (
        falls_back_to(f, apps.entries()[k].0@, routes) && extensions(
            apps.entries()[k].1.execute@,
        ).contains(e))),
{
    let x = apps.entries()[k];
}

proof fn lemma_all_apps(
    e: Seq<char>,
    f: Option<Box<ConfAction>>,
    apps: Table<Application>,
    routes: Table<Vec<RouteStep>>,
)
    requires
        ascending(apps.keys()),
    ensures
        kept_by_first(e, apps.entries().len() as int, f, apps, routes) == kept_back(
            e,
            f,
            apps.map(),
            routes,
        ),
{
    let all = apps.entries();
    assert forall|k: int| 0 <= k < all.len() implies apps.has((#[trigger] all[k]).0@) && apps.at(
        all[k].0@,
    ) == all[k].1 by {
        let name = all[k].0@;
        assert(apps.key(k) == name);
        let j = choose|j: int| 0 <= j < all.len() && #[trigger] apps.key(j) == name;
        assert(apps.keys()[j] == name && apps.keys()[k] == name);
        lemma_before_total(encode_utf8(name), encode_utf8(name));
        if j < k {
            assert(name_before(apps.keys()[j], apps.keys()[k]));
        }
        if k < j {
            assert(name_before(apps.keys()[k], apps.keys()[j]));
        }
    }
    if kept_by_first(e, all.len() as int, f, apps, routes) {
        let k = choose|k: int|
            0 <= k < all.len() && falls_back_to(f, (#[trigger] all[k]).0@, routes) && extensions(
                all[k].1.execute@,
            ).contains(e);
        assert(apps.map().dom().contains(all[k].0@));
    }
    if kept_back(e, f, apps.map(), routes) {
        let app = choose|app: Seq<char>| #[trigger]
            apps.map().dom().contains(app) && falls_back_to(f, app, routes) && extensions(
                apps.map()[app].execute@,
            ).contains(e);
        let k = choose|k: int| 0 <= k < all.len() && #[trigger] apps.key(k) == app;
        assert(all[k].0@ == app);
    }
}

fn compile_action(
    action: &ConfAction,
    apps: &Table<Application>,
    routes: &Table<Vec<RouteStep>>,
    spread: &Vec<Vec<bool>>,
) -> (r: Result<Action, RouteError>)
    requires
        routable(*action),
        spread_over(spread@, *apps, *routes),
    ensures
        match action_fault(*action) {
            None => r matches Ok(a) && action_for(a, *action, apps.map(), *routes),
            Some(e) => r matches Err(x) && x@ == e,
        },
    decreases *action,
{
    if let Some(ApplicationRef::Name(name)) = &action.application {
        return Ok(Action::Application { name: name.clone() });
    }
    if let Some(route) = &action.route {
        return Ok(Action::Route { name: route.clone() });
    }
    if let Some(share) = &action.share {
        let (template, index, types, serve_sources, follow_symlinks) = match share {
            Share::Path(p) => (
                p.clone(),
                "index.html".to_owned(),
                None,
                ServeSources::Off,
                true,
            ),
            Share::Full(o) => {
                let index = match &o.index {
                    Some(i) => i.clone(),
                    None => "index.html".to_owned(),
                };
                let types = match compile_opt(&o.types, true) {
                    Ok(t) => t,
                    Err(e) => {
                        return Err(RouteError::Match(e));
                    },
                };
                let follow = match o.follow_symlinks {
                    Some(f) => f,
                    None => true,
                };
                (first_item(&o.share), index, types, compile_sources(&o.serve_sources), follow)
            },
        };
        let fallback = match &action.fallback {
            Some(f) => {
                let rewrite = match compile_template(&f.rewrite) {
                    Ok(t) => t,
                    Err(e) => {
                        return Err(e);
                    },
                };
                let response_headers = copy_ops(&f.response_headers);
                match compile_action(&**f, apps, routes, spread) {
                    Ok(action) => Some(Box::new(Fallback { rewrite, response_headers, action })),
                    Err(e) => {
                        return Err(e);
                    },
                }
            },
            None => None,
        };
        let extra_source_exts = fallback_extensions(&action.fallback, apps, routes, spread);
        return Ok(
            Action::Share {
                template,
                index,
                types,
                serve_sources,
                follow_symlinks,
                extra_source_exts,
                fallback,
            },
        );
    }
    let location = match compile_template(&action.location) {
        Ok(l) => l,
        Err(e) => {
            return Err(e);
        },
    };
    let status: u16 = match action.return_ {
        Some(s) => s,
        None => 0,
    };
    Ok(Action::Return { status, location })
}

/// The first fault of a step: its match block, its rewrite, its action.
pub open spec fn step_fault(c: RouteStep) -> Option<RouteFault> {
    let m = match c.match_ {
        Some(m) => match_fault(m),
        None => None,
    };
    match m {
        Some(e) => Some(RouteFault::Match(e)),
        None => match template_fault(c.action.rewrite) {
            Some(e) => Some(e),
            None => action_fault(c.action),
        },
    }
}

/// The header operations of a configured action, in the order of their names.
pub open spec fn configured_ops(t: Option<Table<Option<String>>>) -> Seq<
    (Seq<char>, Option<Seq<char>>),
> {
    match t {
        Some(x) => ops_of(x.entries()),
        None => seq![],
    }
}

/// A compiled step for a configured one: it takes the same requests, rewrites
/// and sets headers alike, and acts alike.
pub open spec fn step_for(
    s: Step,
    c: RouteStep,
    apps: Map<Seq<char>, Application>,
    routes: Table<Vec<RouteStep>>,
) -> bool {
    &&& forall|meta: MetaModel, path: Seq<u8>, query: Seq<u8>| #[trigger]
        s.hits(meta, path, query) == (c.match_ matches Some(m) ==> match_holds(
            m,
            meta,
            path,
            query,
        ))
    &&& template_for(s.rewrites(), c.action.rewrite)
    &&& s.header_ops() == configured_ops(c.action.response_headers)
    &&& action_for(s.acts(), c.action, apps, routes)
}

fn copy_ops(t: &Option<Table<Option<String>>>) -> (r: Vec<(String, Option<String>)>)
    ensures
        ops_of(r@) == configured_ops(*t),
{
    let mut out: Vec<(String, Option<String>)> = Vec::new();
    if let Some(x) = t {
        let ghost all = ops_of(x.entries());
        let mut i: usize = 0;
        while i < x.len()
            invariant
                i <= x.entries().len(),
                all == ops_of(x.entries()),
                out@.len() == i,
                forall|j: int|
                    0 <= j < i ==> ((#[trigger] out@[j]).0@, opt_text(out@[j].1)) == all[j],
            decreases x.entries().len() - i,
        {
            let value: Option<String> = match x.value(i) {
                Some(v) => Some(v.clone()),
                None => None,
            };
            out.push((x.name(i).clone(), value));
            i += 1;
        }
        assert(ops_of(out@) =~= all) by {
            assert forall|j: int| 0 <= j < out@.len() implies ops_of(out@)[j] == all[j] by {
                assert((out@[j].0@, opt_text(out@[j].1)) == all[j]);
            }
        }
    } else {
        assert(ops_of(out@) =~= Seq::<(Seq<char>, Option<Seq<char>>)>::empty());
    }
    out
}

fn compile_step(
    c: &RouteStep,
    apps: &Table<Application>,
    routes: &Table<Vec<RouteStep>>,
    spread: &Vec<Vec<bool>>,
) -> (r: Result<Step, RouteError>)
    requires
        routable(c.action),
        spread_over(spread@, *apps, *routes),
    ensures
        match step_fault(*c) {
            None => r matches Ok(s) && step_for(s, *c, apps.map(), *routes),
            Some(e) => r matches Err(x) && x@ == e,
        },
{
    let matcher = match &c.match_ {
        Some(m) => match compile_match(m) {
            Ok(x) => Some(x),
            Err(e) => {
                return Err(RouteError::Match(e));
            },
        },
        None => None,
    };
    let rewrite = match compile_template(&c.action.rewrite) {
        Ok(t) => t,
        Err(e) => {
            return Err(e);
        },
    };
    let response_headers = copy_ops(&c.action.response_headers);
    let action = match compile_action(&c.action, apps, routes, spread) {
        Ok(a) => a,
        Err(e) => {
            return Err(e);
        },
    };
    let s = Step { matcher, rewrite, response_headers, action };
    proof {
        s.lemma_parts();
        assert forall|meta: MetaModel, path: Seq<u8>, query: Seq<u8>| #[trigger]
            s.hits(meta, path, query) == (c.match_ matches Some(m) ==> match_holds(
                m,
                meta,
                path,
                query,
            )) by {
            s.lemma_hits(meta, path, query);
        }
    }
    Ok(s)
}

/// The first fault of a route's steps.
pub open spec fn steps_fault(steps: Seq<RouteStep>) -> Option<RouteFault>
    decreases steps.len(),
{
    if steps.len() == 0 {
        None
    } else {
        match steps_fault(steps.drop_last()) {
            Some(e) => Some(e),
            None => step_fault(steps.last()),
        }
    }
}

/// The first fault of the routes, in the order of their names.
pub open spec fn routes_fault(routes: Seq<(String, Vec<RouteStep>)>) -> Option<RouteFault>
    decreases routes.len(),
{
    if routes.len() == 0 {
        None
    } else {
        match routes_fault(routes.drop_last()) {
            Some(e) => Some(e),
            None => steps_fault(routes.last().1@),
        }
    }
}

proof fn lemma_steps_prefix(steps: Seq<RouteStep>, n: int)
    requires
        0 <= n <= steps.len(),
        steps_fault(steps.take(n)) is Some,
    ensures
        steps_fault(steps) == steps_fault(steps.take(n)),
    decreases steps.len(),
{
    if n == steps.len() {
        assert(steps.take(n) =~= steps);
    } else {
        assert(steps.drop_last().take(n) =~= steps.take(n));
        lemma_steps_prefix(steps.drop_last(), n);
    }
}

proof fn lemma_routes_prefix(routes: Seq<(String, Vec<RouteStep>)>, n: int)
    requires
        0 <= n <= routes.len(),
        routes_fault(routes.take(n)) is Some,
    ensures
        routes_fault(routes) == routes_fault(routes.take(n)),
    decreases routes.len(),
{
    if n == routes.len() {
        assert(routes.take(n) =~= routes);
    } else {
        assert(routes.drop_last().take(n) =~= routes.take(n));
        lemma_routes_prefix(routes.drop_last(), n);
    }
}

/// Compiled steps for configured ones.
pub open spec fn steps_for(
    s: Seq<Step>,
    c: Seq<RouteStep>,
    apps: Map<Seq<char>, Application>,
    routes: Table<Vec<RouteStep>>,
) -> bool {
    &&& s.len() == c.len()
    &&& forall|i: int| 0 <= i < s.len() ==> step_for(#[trigger] s[i], c[i], apps, routes)
}

pub open spec fn routable_steps(steps: Seq<RouteStep>) -> bool {
    forall|i: int| 0 <= i < steps.len() ==> routable((#[trigger] steps[i]).action)
}

fn compile_steps(
    steps: &Vec<RouteStep>,
    apps: &Table<Application>,
    routes: &Table<Vec<RouteStep>>,
    spread: &Vec<Vec<bool>>,
) -> (r: Result<Vec<Step>, RouteError>)
    requires
        routable_steps(steps@),
        spread_over(spread@, *apps, *routes),
    ensures
        match steps_fault(steps@) {
            None => r matches Ok(s) && steps_for(s@, steps@, apps.map(), *routes),
            Some(e) => r matches Err(x) && x@ == e,
        },
{
    let ghost all = steps@;
    let mut out: Vec<Step> = Vec::new();
    let mut i: usize = 0;
    assert(all.take(0).len() == 0);
    while i < steps.len()
        invariant
            i <= steps@.len(),
            all == steps@,
            routable_steps(all),
            spread_over(spread@, *apps, *routes),
            steps_fault(all.take(i as int)) is None,
            out@.len() == i,
            forall|j: int|
                0 <= j < i ==> step_for(#[trigger] out@[j], all[j], apps.map(), *routes),
        decreases steps@.len() - i,
    {
        proof {
            assert(all.take(i + 1).drop_last() =~= all.take(i as int));
            assert(all.take(i + 1).last() == all[i as int]);
        }
        match compile_step(&steps[i], apps, routes, spread) {
            Ok(s) => out.push(s),
            Err(e) => {
                proof {
                    lemma_steps_prefix(all, i + 1);
                }
                return Err(e);
            },
        }
        i += 1;
    }
    assert(all.take(i as int) =~= all);
    Ok(out)
}

/// The compiled routes have the configured names, and under each the compiled
/// steps.
pub open spec fn routes_for(
    r: Map<Seq<char>, Vec<Step>>,
    routes: Table<Vec<RouteStep>>,
    apps: Map<Seq<char>, Application>,
) -> bool {
    let c = routes.entries();
    &&& forall|k: Seq<char>| #[trigger]
        r.dom().contains(k) ==> exists|i: int| 0 <= i < c.len() && (#[trigger] c[i]).0@ == k
    &&& forall|i: int|
        0 <= i < c.len() ==> r.dom().contains((#[trigger] c[i]).0@) && steps_for(
            r[c[i].0@]@,
            c[i].1@,
            apps,
            routes,
        )
}

/// Compile the routes of a checked configuration.
pub fn compile(validated: &Validated) -> (r: Result<CompiledRoutes, RouteError>)
    requires
        forall|i: int|
            0 <= i < validated.config.routes.entries().len() ==> routable_steps(
                (#[trigger] validated.config.routes.entries()[i]).1@,
            ),
    ensures
        match routes_fault(validated.config.routes.entries()) {
            None => r matches Ok(c) && routes_for(
                c.routes(),
                validated.config.routes,
                validated.applications.map(),
            ),
            Some(e) => r matches Err(x) && x@ == e,
        },
{
    let table = &validated.config.routes;
    let apps = &validated.applications;
    table.ordered();
    let ghost all = table.entries();
    let spread = spread_of(apps, table);
    let mut out: Table<Vec<Step>> = Table::new();
    let mut i: usize = 0;
    assert(all.take(0).len() == 0);
    while i < table.len()
        invariant
            i <= all.len(),
            all == table.entries(),
            ascending(table.keys()),
            forall|j: int| 0 <= j < all.len() ==> routable_steps((#[trigger] all[j]).1@),
            routes_fault(all.take(i as int)) is None,
            forall|k: Seq<char>| #[trigger]
                out.map().dom().contains(k) ==> exists|j: int|
                    0 <= j < i && (#[trigger] all[j]).0@ == k,
            forall|j: int|
                0 <= j < i ==> out.map().dom().contains((#[trigger] all[j]).0@) && steps_for(
                    out.map()[all[j].0@]@,
                    all[j].1@,
                    apps.map(),
                    *table,
                ),
            spread_over(spread@, *apps, *table),
            *table == validated.config.routes,
            all == validated.config.routes.entries(),
            *apps == validated.applications,
        decreases all.len() - i,
    {
        proof {
            assert(all.take(i + 1).drop_last() =~= all.take(i as int));
            assert(all.take(i + 1).last() == all[i as int]);
        }
        match compile_steps(table.value(i), apps, table, &spread) {
            Ok(s) => {
                let ghost was = out.map();
                let ghost name = all[i as int].0@;
                out.insert(table.name(i).clone(), s);
                proof {
                    assert forall|j: int| 0 <= j < i implies out.map().dom().contains(
                        (#[trigger] all[j]).0@,
                    ) && steps_for(out.map()[all[j].0@]@, all[j].1@, apps.map(), *table) by {
                        assert(table.keys()[j] == all[j].0@);
                        assert(table.keys()[i as int] == name);
                        lemma_before_total(encode_utf8(all[j].0@), encode_utf8(name));
                    }
                    assert forall|k: Seq<char>| #[trigger]
                        out.map().dom().contains(k) implies exists|j: int|
                        0 <= j < i + 1 && (#[trigger] all[j]).0@ == k by {
                        if k == name {
                            assert(all[i as int].0@ == k);
                        } else {
                            assert(was.dom().contains(k));
                        }
                    }
                }
            },
            Err(e) => {
                proof {
                    lemma_routes_prefix(all, i + 1);
                }
                return Err(e);
            },
        }
        i += 1;
    }
    assert(all.take(i as int) =~= all);
    let c = CompiledRoutes { routes: out };
    proof {
        c.lemma_routes();
    }
    Ok(c)
}

proof fn lemma_named_routable(
    a: ConfAction,
    b: ConfAction,
    name: Seq<char>,
    routes: Seq<Seq<char>>,
    apps: Set<Seq<char>>,
)
    requires
        sound(a, routes, apps),
        named(a, b, name),
    ensures
        routable(b),
    decreases a,
{
    if a.fallback is Some {
        lemma_named_routable(
            *(a.fallback->0),
            *(b.fallback->0),
            name + ".fallback"@,
            routes,
            apps,
        );
    }
}

/// What validation hands out can be given to `compile`.
pub proof fn validated_routes_are_routable(c: Config, auto: u32, v: Validated)
    requires
        accepted(c, auto),
        named_routes(c.routes.entries(), v.config.routes.entries()),
    ensures
        forall|i: int|
            0 <= i < v.config.routes.entries().len() ==> routable_steps(
                (#[trigger] v.config.routes.entries()[i]).1@,
            ),
{
    let all = v.config.routes.entries();
    assert forall|i: int| 0 <= i < all.len() implies routable_steps((#[trigger] all[i]).1@) by {
        let steps = all[i].1@;
        let from = c.routes.entries()[i].1@;
        let route = c.routes.entries()[i].0@;
        assert(named_steps(from, steps, route));
        assert forall|j: int| 0 <= j < steps.len() implies routable(
            (#[trigger] steps[j]).action,
        ) by {
            actions_are_sound(c, auto, i, j);
            lemma_named_routable(
                from[j].action,
                steps[j].action,
                generated_name(route, j),
                c.routes.keys(),
                all_applications(c, auto)->Ok_0.dom(),
            );
        }
    }
}

} // verus!
