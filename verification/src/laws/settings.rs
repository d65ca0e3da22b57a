//! Which configurations are accepted, and what addresses stand for.

use vstd::prelude::*;
use vstd::string::*;
use vstd::utf8::encode_utf8;

use crate::bytes::{
    dec, digits_spell_their_number, first_at, is_digit, lemma_find, lemma_find_none, number,
};
use crate::config::schema::{
    Action, Application, ApplicationRef, Config, Listener, Processes, RouteStep, Share,
};
use crate::config::validate::{
    action_fault, action_path, all_applications, application_fault, application_path, execute_fault,
    extracted, extracted_routes, extracted_steps, leaks_sources, listener_target, listeners_fault,
    reach_within, routes_fault, settled, steps_fault, validate, validate_application, Validated,
};
use crate::config::ConfigError;
use crate::laws::lines::{apart, lemma_pieces_of_parts};
use crate::router::addr::{parse_v4_addr, v4, v4_part, Addr};
use crate::router::matching::{bit, block_of, full_prefix_is_equality, in_block, Block, BlockFault};

verus! {

/// An application that can be run: a module with a plain name, a worker at least,
/// room for a request, tasks that may last as long as answers, and extensions that
/// look like some.
pub open spec fn good_application(app: Application) -> bool {
    let name = encode_utf8(app.module@);
    &&& name.len() > 0
    &&& forall|i: int|
        0 <= i < name.len() ==> 97 <= #[trigger] name[i] <= 122 || 48 <= name[i] <= 57 || name[i]
            == 45 || name[i] == 95
    &&& match app.processes {
        Processes::Fixed(n) => n >= 1,
        Processes::Auto => true,
        Processes::Dynamic { max, spare, .. } => max >= 1 && spare <= max,
    }
    &&& app.concurrency != Some(0u32)
    &&& app.queue.max >= 1
    &&& app.limits.task_timeout >= app.limits.response_timeout
    &&& forall|i: int|
        0 <= i < app.execute@.len() ==> {
            &&& (#[trigger] app.execute@[i])@.len() > 0
            &&& app.execute@[i]@[0] == '.'
            &&& encode_utf8(app.execute@[i]@).len() >= 2
        }
}

proof fn lemma_execute(exts: Seq<String>, path: Seq<char>)
    ensures
        (execute_fault(exts, path) is None) == forall|i: int|
            0 <= i < exts.len() ==> {
                &&& (#[trigger] exts[i])@.len() > 0
                &&& exts[i]@[0] == '.'
                &&& encode_utf8(exts[i]@).len() >= 2
            },
    decreases exts.len(),
{
    if exts.len() > 0 {
        let init = exts.drop_last();
        lemma_execute(init, path);
        assert forall|i: int| 0 <= i < init.len() implies #[trigger] init[i] == exts[i] by {}
        if execute_fault(init, path) is Some {
            let i = choose|i: int|
                0 <= i < init.len() && !{
                    &&& (#[trigger] init[i])@.len() > 0
                    &&& init[i]@[0] == '.'
                    &&& encode_utf8(init[i]@).len() >= 2
                };
            assert(exts[i] == init[i]);
        } else {
            assert forall|i: int| 0 <= i < init.len() implies {
                &&& (#[trigger] exts[i])@.len() > 0
                &&& exts[i]@[0] == '.'
                &&& encode_utf8(exts[i]@).len() >= 2
            } by {
                assert(init[i] == exts[i]);
            }
            assert(exts[exts.len() - 1] == exts.last());
        }
    }
}

proof fn lemma_application(app: Application, path: Seq<char>)
    ensures
        (application_fault(app, path) is None) == good_application(app),
{
    lemma_execute(app.execute@, path);
    let name = encode_utf8(app.module@);
    if crate::config::validate::is_module_name(app.module@) {
        assert forall|i: int| 0 <= i < name.len() implies 97 <= #[trigger] name[i] <= 122 || 48
            <= name[i] <= 57 || name[i] == 45 || name[i] == 95 by {
            assert(crate::config::validate::is_module_byte(name[i]));
        }
    }
}

/// An application is accepted exactly where it can be run.
pub proof fn an_application_must_be_runnable(
    app: &Application,
    path: &str,
    r: Result<(), ConfigError>,
)
    requires
        call_ensures(validate_application, (app, path), r),
    ensures
        (r is Ok) == good_application(*app),
{
    lemma_application(*app, path@);
}

/// How many things an action does at once.
pub open spec fn deeds(a: Action) -> int {
    let one = |b: bool|
        if b {
            1int
        } else {
            0int
        };
    one(a.application is Some) + one(a.route is Some) + one(a.share is Some) + one(
        a.return_ is Some,
    )
}

/// An action that can be carried out: it does one thing, what it names is there, a
/// status is one, only a redirect has a target, a share has one path, and only a
/// share has a fallback, which is such an action too. Sources are not served where
/// the fallback leads to an application.
pub open spec fn good_action(
    a: Action,
    routes: Seq<Seq<char>>,
    apps: Set<Seq<char>>,
    reach: Seq<bool>,
) -> bool
    decreases a,
{
    &&& deeds(a) == 1
    &&& a.application matches Some(ApplicationRef::Name(n)) ==> apps.contains(n@)
    &&& a.route matches Some(r) ==> routes.contains(r@)
    &&& a.return_ matches Some(code) ==> 100 <= code <= 599
    &&& a.location is Some ==> (a.return_ matches Some(code) && 300 <= code <= 399)
    &&& a.share matches Some(Share::Full(o)) ==> o.share.items().len() == 1
    &&& !leaks_sources(a, routes, reach)
    &&& match a.fallback {
        Some(f) => a.share is Some && good_action(*f, routes, apps, reach),
        None => true,
    }
}

proof fn lemma_action(
    a: Action,
    path: Seq<char>,
    keys: Seq<Seq<char>>,
    reach: Seq<bool>,
    apps: Set<Seq<char>>,
)
    ensures
        (action_fault(a, path, keys, reach, apps) is None) == good_action(a, keys, apps, reach),
    decreases a,
{
    if let Some(f) = a.fallback {
        lemma_action(*f, path + ".fallback"@, keys, reach, apps);
    }
}

proof fn lemma_steps(
    steps: Seq<RouteStep>,
    route: Seq<char>,
    keys: Seq<Seq<char>>,
    reach: Seq<bool>,
    apps: Set<Seq<char>>,
)
    ensures
        (steps_fault(steps, route, keys, reach, apps) is None) == forall|i: int|
            0 <= i < steps.len() ==> good_action(
                (#[trigger] steps[i]).action,
                keys,
                apps,
                reach,
            ),
    decreases steps.len(),
{
    if steps.len() > 0 {
        let init = steps.drop_last();
        lemma_steps(init, route, keys, reach, apps);
        lemma_action(
            steps.last().action,
            action_path(route, steps.len() - 1),
            keys,
            reach,
            apps,
        );
        assert(steps[steps.len() - 1] == steps.last());
        if steps_fault(init, route, keys, reach, apps) is Some {
            let i = choose|i: int|
                0 <= i < init.len() && !good_action(
                    (#[trigger] init[i]).action,
                    keys,
                    apps,
                    reach,
                );
            assert(steps[i] == init[i]);
        } else {
            assert forall|i: int| 0 <= i < init.len() implies good_action(
                (#[trigger] steps[i]).action,
                keys,
                apps,
                reach,
            ) by {
                assert(init[i] == steps[i]);
            }
        }
    }
}

/// A route that has steps, all of which can be carried out.
pub open spec fn good_route(
    steps: Seq<RouteStep>,
    routes: Seq<Seq<char>>,
    apps: Set<Seq<char>>,
    reach: Seq<bool>,
) -> bool {
    steps.len() > 0 && forall|i: int|
        0 <= i < steps.len() ==> good_action((#[trigger] steps[i]).action, routes, apps, reach)
}

proof fn lemma_routes(
    routes: Seq<(String, Vec<RouteStep>)>,
    keys: Seq<Seq<char>>,
    reach: Seq<bool>,
    apps: Set<Seq<char>>,
)
    ensures
        (routes_fault(routes, keys, reach, apps) is None) == forall|i: int|
            0 <= i < routes.len() ==> good_route((#[trigger] routes[i]).1@, keys, apps, reach),
    decreases routes.len(),
{
    if routes.len() > 0 {
        let init = routes.drop_last();
        lemma_routes(init, keys, reach, apps);
        lemma_steps(routes.last().1@, routes.last().0@, keys, reach, apps);
        assert(routes[routes.len() - 1] == routes.last());
        if routes_fault(init, keys, reach, apps) is Some {
            let i = choose|i: int|
                0 <= i < init.len() && !good_route((#[trigger] init[i]).1@, keys, apps, reach);
            assert(routes[i] == init[i]);
        } else {
            assert forall|i: int| 0 <= i < init.len() implies good_route(
                (#[trigger] routes[i]).1@,
                keys,
                apps,
                reach,
            ) by {
                assert(init[i] == routes[i]);
            }
        }
    }
}

/// A listener that can be bound and leads to a route that is there, or to the
/// status, but not to both.
pub open spec fn good_listener(addr: Seq<char>, l: Listener, routes: Seq<Seq<char>>) -> bool {
    &&& listener_target(addr) is Ok
    &&& l.status != (l.route is Some)
    &&& l.route matches Some(r) ==> routes.contains(r@)
}

proof fn lemma_listeners(ls: Seq<(String, Listener)>, keys: Seq<Seq<char>>)
    ensures
        (listeners_fault(ls, keys) is None) == forall|i: int|
            0 <= i < ls.len() ==> good_listener((#[trigger] ls[i]).0@, ls[i].1, keys),
    decreases ls.len(),
{
    if ls.len() > 0 {
        let init = ls.drop_last();
        lemma_listeners(init, keys);
        assert(ls[ls.len() - 1] == ls.last());
        if listeners_fault(init, keys) is Some {
            let i = choose|i: int|
                0 <= i < init.len() && !good_listener((#[trigger] init[i]).0@, init[i].1, keys);
            assert(ls[i] == init[i]);
        } else {
            assert forall|i: int| 0 <= i < init.len() implies good_listener(
                (#[trigger] ls[i]).0@,
                ls[i].1,
                keys,
            ) by {
                assert(init[i] == ls[i]);
            }
        }
    }
}

/// A configuration that the server can run on.
pub open spec fn good_config(c: Config, apps: Map<Seq<char>, Application>) -> bool {
    let h = c.settings.http;
    let routes = c.routes.keys();
    let reach = reach_within(c.routes, None, c.routes.entries().len());
    &&& h.header_read_timeout >= 1 && h.body_read_timeout >= 1 && h.send_timeout >= 1
    &&& h.idle_timeout >= 1 && h.websocket.idle_timeout >= 1 && h.websocket.max_message_size >= 1
    &&& c.listeners.entries().len() > 0
    &&& forall|i: int|
        0 <= i < c.listeners.entries().len() ==> good_listener(
            (#[trigger] c.listeners.entries()[i]).0@,
            c.listeners.entries()[i].1,
            routes,
        )
    &&& forall|i: int|
        0 <= i < c.routes.entries().len() ==> good_route(
            (#[trigger] c.routes.entries()[i]).1@,
            routes,
            apps.dom(),
            reach,
        )
    &&& forall|n: Seq<char>| #[trigger] apps.dom().contains(n) ==> good_application(apps[n])
}

/// A configuration is accepted exactly where the server can run on it and no two of
/// its applications would have one name. What is accepted keeps its settings, its
/// listeners and its applications; one with as many workers as there are processors
/// gets that number.
#[verifier::spinoff_prover]
#[verifier::rlimit(50)]
pub proof fn a_configuration_must_be_runnable(
    c: Config,
    auto: u32,
    n: Seq<char>,
    r: Result<Validated, ConfigError>,
)
    requires
        call_ensures(validate, (c, auto), r),
    ensures
        (r is Ok) == (all_applications(c, auto) matches Ok(apps) && good_config(c, apps)),
        r matches Ok(v) ==> {
            &&& v.config.settings == c.settings
            &&& v.config.listeners == c.listeners
            &&& c.applications.map().dom().contains(n) ==> {
                let before = c.applications.map()[n];
                let after = v.applications.map()[n];
                &&& v.applications.map().dom().contains(n)
                &&& before.processes is Auto ==> after.processes == Processes::Fixed(auto)
                &&& !(before.processes is Auto) ==> after == before
                &&& after.module == before.module && after.limits == before.limits && after.queue
                    == before.queue && after.root == before.root && after.script == before.script
                    && after.index == before.index && after.execute == before.execute
                    && after.options == before.options && after.user == before.user && after.group
                    == before.group && after.concurrency == before.concurrency
            }
        },
{
    let first = c.applications.map().map_values(|a: Application| settled(a, auto));
    if let Ok(apps) = all_applications(c, auto) {
        let reach = reach_within(c.routes, None, c.routes.entries().len());
        lemma_listeners(c.listeners.entries(), c.routes.keys());
        lemma_routes(c.routes.entries(), c.routes.keys(), reach, apps.dom());
        assert forall|k: Seq<char>| #[trigger] apps.dom().contains(k) implies (application_fault(
            apps[k],
            application_path(k),
        ) is None) == good_application(apps[k]) by {
            lemma_application(apps[k], application_path(k));
        }
        if c.applications.map().dom().contains(n) {
            assert(first.dom().contains(n));
            lemma_kept_routes(c.routes.entries(), first, auto, n);
        }
    }
}

proof fn lemma_kept(
    a: Action,
    path: Seq<char>,
    name: Seq<char>,
    apps: Map<Seq<char>, Application>,
    auto: u32,
    n: Seq<char>,
)
    requires
        apps.dom().contains(n),
    ensures
        extracted(a, path, name, apps, auto) matches Ok(m) ==> m.dom().contains(n) && m[n]
            == apps[n],
    decreases a,
{
    let own = match a.application {
        Some(ApplicationRef::Inline(app)) => apps.insert(name, settled(*app, auto)),
        _ => apps,
    };
    if let Some(f) = a.fallback {
        lemma_kept(*f, path + ".fallback"@, name + ".fallback"@, own, auto, n);
    }
}

proof fn lemma_kept_steps(
    steps: Seq<RouteStep>,
    route: Seq<char>,
    apps: Map<Seq<char>, Application>,
    auto: u32,
    n: Seq<char>,
)
    requires
        apps.dom().contains(n),
    ensures
        extracted_steps(steps, route, apps, auto) matches Ok(m) ==> m.dom().contains(n) && m[n]
            == apps[n],
    decreases steps.len(),
{
    if steps.len() > 0 {
        lemma_kept_steps(steps.drop_last(), route, apps, auto, n);
        if let Ok(m) = extracted_steps(steps.drop_last(), route, apps, auto) {
            let i = steps.len() - 1;
            lemma_kept(
                steps.last().action,
                action_path(route, i),
                crate::config::validate::generated_name(route, i),
                m,
                auto,
                n,
            );
        }
    }
}

proof fn lemma_kept_routes(
    routes: Seq<(String, Vec<RouteStep>)>,
    apps: Map<Seq<char>, Application>,
    auto: u32,
    n: Seq<char>,
)
    requires
        apps.dom().contains(n),
    ensures
        extracted_routes(routes, apps, auto) matches Ok(m) ==> m.dom().contains(n) && m[n]
            == apps[n],
    decreases routes.len(),
{
    if routes.len() > 0 {
        lemma_kept_routes(routes.drop_last(), apps, auto, n);
        if let Ok(m) = extracted_routes(routes.drop_last(), apps, auto) {
            lemma_kept_steps(routes.last().1@, routes.last().0@, m, auto, n);
        }
    }
}

/// An address in its usual form: four numbers with dots between them.
pub open spec fn dotted(a: u8, b: u8, c: u8, d: u8) -> Seq<u8> {
    apart(seq![dec(a as nat), dec(b as nat), dec(c as nat), dec(d as nat)], 46)
}

proof fn lemma_part(n: u8)
    ensures
        v4_part(dec(n as nat)) == Some(n),
        !dec(n as nat).contains(46),
        !dec(n as nat).contains(47),
{
    let x = n as nat;
    digits_spell_their_number(x);
    reveal_with_fuel(dec, 4);
    let s = dec(x);
    assert forall|i: int| 0 <= i < s.len() implies s[i] != 46 && s[i] != 47 by {
        assert(is_digit(s[i]));
    }
    if x < 10 {
        assert(s.len() == 1);
    } else if x < 100 {
        assert(s.len() == 2);
        assert(s[0] == 48 + x / 10);
    } else {
        assert(s.len() == 3);
        assert(s[0] == 48 + x / 10 / 10);
    }
}

/// An address is read as the four numbers that it shows.
pub proof fn an_address_is_its_four_numbers(
    a: u8,
    b: u8,
    c: u8,
    d: u8,
    s: &[u8],
    r: Option<Addr>,
)
    requires
        call_ensures(parse_v4_addr, (s,), r),
        s@ == dotted(a, b, c, d),
    ensures
        r matches Some(Addr::V4(o)) && o@ == seq![a, b, c, d],
{
    lemma_dotted(a, b, c, d);
}

#[verifier::spinoff_prover]
#[verifier::rlimit(50)]
proof fn lemma_dotted(a: u8, b: u8, c: u8, d: u8)
    ensures
        v4(dotted(a, b, c, d)) == Some(seq![a, b, c, d]),
        !dotted(a, b, c, d).contains(47),
        dotted(a, b, c, d).len() > 0,
        dotted(a, b, c, d)[0] != 33,
{
    lemma_part(a);
    lemma_part(b);
    lemma_part(c);
    lemma_part(d);
    let parts = seq![dec(a as nat), dec(b as nat), dec(c as nat), dec(d as nat)];
    assert forall|i: int| 0 <= i < parts.len() implies !(#[trigger] parts[i]).contains(46) by {}
    lemma_pieces_of_parts(parts, 46);
    let three = parts.drop_last();
    let two = three.drop_last();
    let one = two.drop_last();
    assert(one =~= seq![dec(a as nat)]);
    assert(apart(one, 46) == dec(a as nat));
    let x = dec(a as nat).push(46) + dec(b as nat);
    assert(apart(two, 46) == x);
    let y = x.push(46) + dec(c as nat);
    assert(apart(three, 46) == y);
    let z = y.push(46) + dec(d as nat);
    assert(apart(parts, 46) == z);
    lemma_joined_free(dec(a as nat), dec(b as nat));
    lemma_joined_free(x, dec(c as nat));
    lemma_joined_free(y, dec(d as nat));
    digits_spell_their_number(a as nat);
    assert(is_digit(dec(a as nat)[0]));
    assert(z[0] == dec(a as nat)[0]);
}

proof fn lemma_joined_free(a: Seq<u8>, b: Seq<u8>)
    requires
        !a.contains(47),
        !b.contains(47),
    ensures
        !(a.push(46) + b).contains(47),
{
    let s = a.push(46) + b;
    assert forall|i: int| 0 <= i < s.len() implies s[i] != 47 by {
        if i < a.len() {
            assert(a[i] == s[i]);
        } else if i > a.len() {
            assert(b[i - a.len() - 1] == s[i]);
        }
    }
}

/// A block of addresses is an address and the number of its bits that count: with
/// whole bytes, those that begin with the same numbers. Without a number it is that
/// one address, and more bits than there are is an error.
#[verifier::spinoff_prover]
#[verifier::rlimit(50)]
pub proof fn a_block_holds_what_begins_alike(
    a: u8,
    b: u8,
    c: u8,
    d: u8,
    n: u8,
    k: int,
    o: Seq<u8>,
)
    requires
        o.len() == 4,
        0 <= k <= 4,
    ensures
        ({
            let net = seq![a, b, c, d];
            let host = block_of(dotted(a, b, c, d));
            let sized = block_of(dotted(a, b, c, d).push(47) + dec(n as nat));
            &&& host matches Ok(x) && in_block(x, true, o) == (o == net) && !in_block(x, false, o)
            &&& n > 32 ==> sized == Err::<Block, BlockFault>(BlockFault::Range)
            &&& n == 8 * k ==> (sized matches Ok(x) && in_block(x, true, o) == (o.subrange(0, k)
                == net.subrange(0, k)))
        }),
{
    let net = seq![a, b, c, d];
    let s = dotted(a, b, c, d);
    lemma_dotted(a, b, c, d);
    lemma_find_none(s, 47);
    let whole = Block { v4: true, net, prefix: 32 };
    full_prefix_is_equality(whole, o);
    let t = s.push(47) + dec(n as nat);
    let at = s.len() as int;
    assert forall|j: int| 0 <= j < at implies t[j] != 47 by {
        assert(s[j] == t[j]);
    }
    assert(first_at(t, 47, at));
    lemma_find(t, 47, at);
    assert(t.subrange(0, at) =~= s);
    assert(t.subrange(at + 1, t.len() as int) =~= dec(n as nat));
    digits_spell_their_number(n as nat);
    assert(is_digit(dec(n as nat)[0]));
    assert(number(dec(n as nat), 255) == Some(n as nat));
    assert(t[0] == s[0]);
    if n == 8 * k {
        let x = Block { v4: true, net, prefix: n as int };
        let y = Block { v4: true, net: net.subrange(0, k), prefix: n as int };
        let p = o.subrange(0, k);
        full_prefix_is_equality(y, p);
        assert forall|i: int| 0 <= i < n implies bit(net, i) == bit(y.net, i) && bit(o, i) == bit(
            p,
            i,
        ) by {
            assert(y.net[i / 8] == net[i / 8]);
            assert(p[i / 8] == o[i / 8]);
        }
        if in_block(x, true, o) {
            assert forall|i: int| 0 <= i < y.prefix implies #[trigger] bit(y.net, i) == bit(
                p,
                i,
            ) by {
                assert(bit(x.net, i) == bit(o, i));
            }
        }
        if in_block(y, true, p) {
            assert forall|i: int| 0 <= i < x.prefix implies #[trigger] bit(x.net, i) == bit(
                o,
                i,
            ) by {
                assert(bit(y.net, i) == bit(p, i));
            }
        }
    }
}

} // verus!
