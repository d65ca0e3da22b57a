//! What the router makes of its configuration, and its status endpoint.

use vstd::prelude::*;
use vstd::string::*;

use crate::bytes::{chars, dec, is_text, text};
use crate::config::schema::{Listener, StaticSettings};
use crate::config::table::{text_map, Table};
use crate::config::validate::{listener_target, parse_listener_addr};
use crate::router::addr::Addr;
use crate::router::dispatch::lifecycle::PoolStats;
use crate::router::http1::conn::ListenerKind;
use crate::router::matching::{is_v4, lower_str, lowered_chars};
use crate::router::uri::append_dec;
use crate::text::{trim_start, trimmed};

verus! {

/// What a listener is for: its route, or the status endpoint.
pub open spec fn kind_for(k: ListenerKind, l: Listener) -> bool {
    match l.route {
        Some(route) => k matches ListenerKind::Route(r) && r@ == route@,
        None => k is Status,
    }
}

/// A listener to bind.
#[derive(Debug)]
pub struct Endpoint {
    pub addr: Addr,
    pub port: u16,
    pub kind: ListenerKind,
}

pub open spec fn endpoint_for(e: Endpoint, addr: Seq<char>, l: Listener) -> bool {
    &&& listener_target(addr) == Ok::<(bool, Seq<u8>, u16), Seq<char>>(
        (is_v4(e.addr), e.addr.octets(), e.port),
    )
    &&& kind_for(e.kind, l)
}

/// The listeners of a configuration, in the order of their addresses; or what
/// is wrong with the first address that cannot be bound.
pub fn endpoints(listeners: &Table<Listener>) -> (r: Result<Vec<Endpoint>, String>)
    requires
        forall|i: int|
            0 <= i < listeners.entries().len() ==> (#[trigger] listeners.entries()[i]).1.route
                is Some || listeners.entries()[i].1.status,
    ensures
        match r {
            Ok(v) => {
                &&& v@.len() == listeners.entries().len()
                &&& forall|i: int|
                    0 <= i < v@.len() ==> endpoint_for(
                        #[trigger] v@[i],
                        listeners.key(i),
                        listeners.val(i),
                    )
            },
            Err(e) => exists|i: int|
                {
                    &&& 0 <= i < listeners.entries().len()
                    &&& #[trigger] listener_target(listeners.key(i)) == Err::<
                        (bool, Seq<u8>, u16),
                        Seq<char>,
                    >(e@)
                    &&& forall|j: int|
                        0 <= j < i ==> #[trigger] listener_target(listeners.key(j)) is Ok
                },
        },
{
    let mut out: Vec<Endpoint> = Vec::new();
    let mut i: usize = 0;
    while i < listeners.len()
        invariant
            i <= listeners.entries().len(),
            out@.len() == i,
            forall|j: int|
                0 <= j < i ==> endpoint_for(
                    #[trigger] out@[j],
                    listeners.key(j),
                    listeners.val(j),
                ),
            forall|j: int| 0 <= j < i ==> #[trigger] listener_target(listeners.key(j)) is Ok,
        decreases listeners.entries().len() - i,
    {
        let (addr, port) = match parse_listener_addr(listeners.name(i).as_str()) {
            Ok(t) => t,
            Err(e) => {
                assert(listener_target(listeners.key(i as int)) is Err);
                return Err(e);
            },
        };
        let kind = match &listeners.value(i).route {
            Some(route) => ListenerKind::Route(route.clone()),
            None => ListenerKind::Status,
        };
        out.push(Endpoint { addr, port, kind });
        i += 1;
    }
    Ok(out)
}

/// A MIME type's extensions, entered into a map from extensions to types.
pub open spec fn with_type(
    m: Map<Seq<char>, Seq<char>>,
    mime: Seq<char>,
    exts: Seq<String>,
) -> Map<Seq<char>, Seq<char>>
    decreases exts.len(),
{
    if exts.len() == 0 {
        m
    } else {
        with_type(m, mime, exts.drop_last()).insert(
            lowered_chars(trimmed(exts.last()@, '.')),
            mime,
        )
    }
}

/// Extension to MIME type, where the configuration lists the extensions of
/// each type. Of two types with the same extension the later one counts.
pub open spec fn inverted(entries: Seq<(String, Vec<String>)>) -> Map<Seq<char>, Seq<char>>
    decreases entries.len(),
{
    if entries.len() == 0 {
        Map::empty()
    } else {
        with_type(inverted(entries.drop_last()), entries.last().0@, entries.last().1@)
    }
}

fn enter_type(t: &mut Table<String>, mime: &String, exts: &Vec<String>)
    ensures
        text_map(*final(t)) == with_type(text_map(*old(t)), mime@, exts@),
{
    let ghost was = text_map(*t);
    let ghost all = exts@;
    let mut i: usize = 0;
    assert(with_type(was, mime@, all.take(0)) == was);
    while i < exts.len()
        invariant
            i <= exts@.len(),
            all == exts@,
            text_map(*t) == with_type(was, mime@, all.take(i as int)),
        decreases exts@.len() - i,
    {
        let ghost before = t.map();
        let key = lower_str(trim_start(exts[i].as_str(), '.'));
        let value = mime.clone();
        t.insert(key, value);
        proof {
            assert(all.take(i + 1).drop_last() =~= all.take(i as int));
            assert(all.take(i + 1).last() == all[i as int]);
            assert(text_map(*t) =~= before.map_values(|s: String| s@).insert(key@, mime@));
        }
        i += 1;
    }
    assert(all.take(i as int) =~= all);
}

/// The MIME types that the configuration adds, by extension.
pub fn mime_overrides(settings: &Option<StaticSettings>) -> (r: Table<String>)
    ensures
        text_map(r) == match *settings {
            Some(s) => inverted(s.mime_types.entries()),
            None => Map::empty(),
        },
{
    let mut out: Table<String> = Table::new();
    proof {
        assert forall|k: Seq<char>| !#[trigger] out.has(k) by {}
        assert(text_map(out) =~= Map::<Seq<char>, Seq<char>>::empty());
    }
    if let Some(s) = settings {
        let ghost all = s.mime_types.entries();
        let mut i: usize = 0;
        assert(all.take(0).len() == 0);
        while i < s.mime_types.len()
            invariant
                i <= all.len(),
                all == s.mime_types.entries(),
                text_map(out) == inverted(all.take(i as int)),
            decreases all.len() - i,
        {
            proof {
                assert(all.take(i + 1).drop_last() =~= all.take(i as int));
                assert(all.take(i + 1).last() == all[i as int]);
            }
            enter_type(&mut out, s.mime_types.name(i), s.mime_types.value(i));
            i += 1;
        }
        assert(all.take(i as int) =~= all);
    }
    out
}

/// One application's entry in the metrics.
pub open spec fn metrics_entry(name: Seq<char>, s: PoolStats) -> Seq<char> {
    "\""@ + name + "\":{\"workers\":"@ + chars(dec(s.workers as nat)) + ",\"idle\":"@ + chars(
        dec(s.idle as nat),
    ) + ",\"queued\":"@ + chars(dec(s.queued as nat)) + "}"@
}

pub open spec fn metrics_entries(apps: Seq<(String, PoolStats)>) -> Seq<char>
    decreases apps.len(),
{
    if apps.len() == 0 {
        seq![]
    } else if apps.len() == 1 {
        metrics_entry(apps[0].0@, apps[0].1)
    } else {
        metrics_entries(apps.drop_last()) + ","@ + metrics_entry(apps.last().0@, apps.last().1)
    }
}

/// The metrics of all applications.
pub open spec fn metrics(apps: Seq<(String, PoolStats)>) -> Seq<char> {
    "{\"status\":\"ok\",\"applications\":{"@ + metrics_entries(apps) + "}}\n"@
}

/// What the status endpoint answers on a path; nothing where the path is none
/// of its own.
pub open spec fn status_text(path: Seq<u8>, apps: Seq<(String, PoolStats)>) -> Option<Seq<char>> {
    if path == text("/health") {
        Some("{\"status\":\"ok\"}\n"@)
    } else if path == text("/health/applications") {
        Some(metrics(apps))
    } else {
        None
    }
}

fn append_metrics(out: &mut String, name: &String, s: &PoolStats)
    ensures
        final(out)@ == old(out)@ + metrics_entry(name@, *s),
{
    let mut one = "\"".to_owned();
    one.append(name.as_str());
    one.append("\":{\"workers\":");
    append_dec(&mut one, s.workers as u64);
    one.append(",\"idle\":");
    append_dec(&mut one, s.idle);
    one.append(",\"queued\":");
    append_dec(&mut one, s.queued as u64);
    one.append("}");
    out.append(one.as_str());
}

/// The status endpoint: a liveness probe, and the metrics of all applications.
pub fn status_body(path: &[u8], apps: &Vec<(String, PoolStats)>) -> (r: Option<String>)
    ensures
        match status_text(path@, apps@) {
            Some(t) => r matches Some(s) && s@ == t,
            None => r is None,
        },
{
    if is_text(path, "/health") {
        return Some("{\"status\":\"ok\"}\n".to_owned());
    }
    if !is_text(path, "/health/applications") {
        return None;
    }
    let mut entries = String::new();
    let ghost all = apps@;
    let mut i: usize = 0;
    assert(entries@ =~= metrics_entries(all.take(0)));
    while i < apps.len()
        invariant
            i <= apps@.len(),
            all == apps@,
            entries@ == metrics_entries(all.take(i as int)),
        decreases apps@.len() - i,
    {
        proof {
            assert(all.take(i + 1).drop_last() =~= all.take(i as int));
            assert(all.take(i + 1).last() == all[i as int]);
        }
        let ghost was = entries@;
        if i > 0 {
            entries.append(",");
        }
        append_metrics(&mut entries, &apps[i].0, &apps[i].1);
        proof {
            if i == 0 {
                assert(was.len() == 0);
                assert(entries@ =~= metrics_entry(all[0].0@, all[0].1));
                assert(all.take(1)[0] == all[0]);
            }
        }
        i += 1;
    }
    assert(all.take(i as int) =~= all);
    let mut out = "{\"status\":\"ok\",\"applications\":{".to_owned();
    out.append(entries.as_str());
    out.append("}}\n");
    Some(out)
}

} // verus!
