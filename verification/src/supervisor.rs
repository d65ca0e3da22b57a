//! What the supervisor tells a module about its application.

use vstd::prelude::*;
use vstd::string::*;
use vstd::utf8::encode_utf8;

use crate::bytes::{chars, dec};
use crate::config::schema::{Application, Yaml};
use crate::config::table::{ascending, lemma_before_total, name_before, text_map, Table};
use crate::json::{json_list, json_members, json_option, json_text, quote, quote_option};
use crate::text::{cat2, cat5, decimal, option_text, same, texts};

verus! {

/// The identity that an application's workers take on.
#[derive(Debug, PartialEq, Eq)]
pub struct DropIds {
    pub uid: Option<u32>,
    pub gid: Option<u32>,
    /// Name of the user, whose groups the workers take on too.
    pub user_name: Option<String>,
}

/// A user of the system.
#[derive(Debug, PartialEq, Eq)]
pub struct UserEntry {
    pub uid: u32,
    /// The primary group.
    pub gid: u32,
    pub name: String,
}

/// What the system's database says of a name.
#[derive(Debug, PartialEq, Eq)]
pub enum Lookup<T> {
    Found(T),
    Unknown,
    /// It could not be asked; what the system says about it.
    Failed(String),
}

/// The message about a name that is not found.
pub open spec fn lookup_fault<T>(what: Seq<char>, name: Seq<char>, l: Lookup<T>) -> Option<
    Seq<char>,
> {
    match l {
        Lookup::Found(_) => None,
        Lookup::Unknown => Some("unknown "@ + what + " \""@ + name + "\""@),
        Lookup::Failed(e) => Some(
            "looking up "@ + what + " \""@ + name + ("\": "@ + e@),
        ),
    }
}

fn unknown(what: &str, name: &str) -> (r: String)
    ensures
        r@ == "unknown "@ + what@ + " \""@ + name@ + "\""@,
{
    cat5("unknown ", what, " \"", name, "\"")
}

fn failed(what: &str, name: &str, e: &str) -> (r: String)
    ensures
        r@ == "looking up "@ + what@ + " \""@ + name@ + ("\": "@ + e@),
{
    let tail = cat2("\": ", e);
    cat5("looking up ", what, " \"", name, tail.as_str())
}

/// The names that an application sets, with what the system says of them.
pub struct Identity<'a> {
    pub user: Option<(&'a str, Lookup<UserEntry>)>,
    pub group: Option<(&'a str, Lookup<u32>)>,
}

pub open spec fn identity_fault(i: Identity<'_>) -> Option<Seq<char>> {
    let user = match i.user {
        Some((name, l)) => lookup_fault("user"@, name@, l),
        None => None,
    };
    match user {
        Some(m) => Some(m),
        None => match i.group {
            Some((name, l)) => lookup_fault("group"@, name@, l),
            None => None,
        },
    }
}

/// The user that was found.
pub open spec fn found_user(i: Identity<'_>) -> Option<UserEntry> {
    match i.user {
        Some((_, Lookup::Found(u))) => Some(u),
        _ => None,
    }
}

/// The group to take on: the one that is set, or else the user's own.
pub open spec fn found_group(i: Identity<'_>) -> Option<u32> {
    match i.group {
        Some((_, Lookup::Found(g))) => Some(g),
        _ => match found_user(i) {
            Some(u) => Some(u.gid),
            None => None,
        },
    }
}

/// The identity that an application's workers take on: an error where a name is
/// not found, or where a name is set and the server does not run as root.
pub fn resolve_ids(identity: Identity<'_>, is_root: bool) -> (r: Result<DropIds, String>)
    ensures
        match identity_fault(identity) {
            Some(m) => r matches Err(e) && e@ == m,
            None => {
                let set = found_user(identity) is Some || found_group(identity) is Some;
                if set && !is_root {
                    r matches Err(e) && e@
                        == "application user/group is set but buran is not running as root"@
                } else {
                    &&& r matches Ok(ids)
                    &&& ids.gid == found_group(identity)
                    &&& match found_user(identity) {
                        Some(u) => ids.uid == Some(u.uid) && ids.user_name == Some(u.name),
                        None => ids.uid is None && ids.user_name is None,
                    }
                }
            },
        },
{
    let mut uid: Option<u32> = None;
    let mut own: Option<u32> = None;
    let mut user_name: Option<String> = None;
    match identity.user {
        None => {},
        Some((name, Lookup::Unknown)) => {
            return Err(unknown("user", name));
        },
        Some((name, Lookup::Failed(e))) => {
            return Err(failed("user", name, e.as_str()));
        },
        Some((_, Lookup::Found(u))) => {
            uid = Some(u.uid);
            own = Some(u.gid);
            user_name = Some(u.name);
        },
    }
    let gid = match identity.group {
        None => own,
        Some((name, Lookup::Unknown)) => {
            return Err(unknown("group", name));
        },
        Some((name, Lookup::Failed(e))) => {
            return Err(failed("group", name, e.as_str()));
        },
        Some((_, Lookup::Found(g))) => Some(g),
    };
    if (uid.is_some() || gid.is_some()) && !is_root {
        return Err("application user/group is set but buran is not running as root".to_owned());
    }
    Ok(DropIds { uid, gid, user_name })
}

/// The text of a scalar: truth is written as a digit.
pub open spec fn scalar_text(v: Yaml) -> Option<Seq<char>> {
    match v {
        Yaml::Text(s) => Some(s@),
        Yaml::Number(s) => Some(s@),
        Yaml::Bool(true) => Some("1"@),
        Yaml::Bool(false) => Some("0"@),
        _ => None,
    }
}

/// The text of a scalar, as a directive holds it.
pub fn yaml_scalar(value: &Yaml) -> (r: Option<String>)
    ensures
        option_text(r) == scalar_text(*value),
{
    match value {
        Yaml::Text(s) => Some(s.clone()),
        Yaml::Number(s) => Some(s.clone()),
        Yaml::Bool(b) => Some(
            if *b {
                "1".to_owned()
            } else {
                "0".to_owned()
            },
        ),
        _ => None,
    }
}

/// Whether a value is a text.
pub open spec fn is_named(v: Yaml, name: Seq<char>) -> bool {
    v matches Yaml::Text(s) && s@ == name
}

/// The value under a name in a mapping.
pub open spec fn under(pairs: Seq<(Yaml, Yaml)>, name: Seq<char>) -> Option<Yaml>
    decreases pairs.len(),
{
    if pairs.len() == 0 {
        None
    } else if is_named(pairs[0].0, name) {
        Some(pairs[0].1)
    } else {
        under(pairs.subrange(1, pairs.len() as int), name)
    }
}

/// An option of the module.
pub open spec fn module_option(options: Option<Yaml>, name: Seq<char>) -> Option<Yaml> {
    match options {
        Some(Yaml::Mapping(pairs)) => under(pairs@, name),
        _ => None,
    }
}

fn find_option<'a>(options: &'a Option<Yaml>, name: &str) -> (r: Option<&'a Yaml>)
    ensures
        match r {
            Some(v) => module_option(*options, name@) == Some(*v),
            None => module_option(*options, name@) is None,
        },
{
    let pairs = match options {
        Some(Yaml::Mapping(pairs)) => pairs,
        _ => {
            return None;
        },
    };
    let ghost all = pairs@;
    let mut i: usize = 0;
    assert(all.subrange(0, all.len() as int) =~= all);
    while i < pairs.len()
        invariant
            i <= pairs@.len(),
            all == pairs@,
            under(all, name@) == under(all.subrange(i as int, all.len() as int), name@),
            module_option(*options, name@) == under(all, name@),
        decreases pairs@.len() - i,
    {
        proof {
            let here = all.subrange(i as int, all.len() as int);
            assert(here[0] == all[i as int]);
            assert(here.subrange(1, here.len() as int) =~= all.subrange(i + 1, all.len() as int));
        }
        if let Yaml::Text(s) = &pairs[i].0 {
            if same(s.as_str(), name) {
                return Some(&pairs[i].1);
            }
        }
        i += 1;
    }
    None
}

/// The directives that pairs of a mapping give: those whose name is a text and
/// whose value is a scalar.
pub open spec fn scalars(pairs: Seq<(Yaml, Yaml)>) -> Map<Seq<char>, Seq<char>>
    decreases pairs.len(),
{
    if pairs.len() == 0 {
        Map::empty()
    } else {
        let m = scalars(pairs.drop_last());
        match (pairs.last().0, scalar_text(pairs.last().1)) {
            (Yaml::Text(name), Some(value)) => m.insert(name@, value),
            _ => m,
        }
    }
}

/// The directives under an option of the module.
pub open spec fn ini(options: Option<Yaml>, name: Seq<char>) -> Map<Seq<char>, Seq<char>> {
    match module_option(options, name) {
        Some(Yaml::Mapping(pairs)) => scalars(pairs@),
        _ => Map::empty(),
    }
}

fn ini_map(options: &Option<Yaml>, name: &str) -> (r: Table<String>)
    ensures
        text_map(r) == ini(*options, name@),
{
    let mut out: Table<String> = Table::new();
    proof {
        assert forall|k: Seq<char>| !#[trigger] out.has(k) by {}
        assert(text_map(out) =~= Map::<Seq<char>, Seq<char>>::empty());
    }
    let pairs = match find_option(options, name) {
        Some(Yaml::Mapping(pairs)) => pairs,
        _ => {
            return out;
        },
    };
    let ghost all = pairs@;
    let mut i: usize = 0;
    assert(scalars(all.take(0)) =~= Map::<Seq<char>, Seq<char>>::empty());
    while i < pairs.len()
        invariant
            i <= pairs@.len(),
            all == pairs@,
            text_map(out) == scalars(all.take(i as int)),
        decreases pairs@.len() - i,
    {
        proof {
            assert(all.take(i + 1).drop_last() =~= all.take(i as int));
            assert(all.take(i + 1).last() == all[i as int]);
        }
        if let Yaml::Text(key) = &pairs[i].0 {
            if let Some(value) = yaml_scalar(&pairs[i].1) {
                let ghost before = out.map();
                let ghost v = value@;
                out.insert(key.clone(), value);
                assert(text_map(out) =~= before.map_values(|s: String| s@).insert(key@, v));
            }
        }
        i += 1;
    }
    assert(all.take(i as int) =~= all);
    out
}

/// The pairs of a map in the order of their names.
pub open spec fn in_order(
    pairs: Seq<(Seq<char>, Seq<char>)>,
    m: Map<Seq<char>, Seq<char>>,
) -> bool {
    &&& ascending(pairs.map_values(|p: (Seq<char>, Seq<char>)| p.0))
    &&& forall|k: Seq<char>| #[trigger]
        m.dom().contains(k) <==> exists|i: int| 0 <= i < pairs.len() && (#[trigger] pairs[i]).0 == k
    &&& forall|i: int| 0 <= i < pairs.len() ==> m[(#[trigger] pairs[i]).0] == pairs[i].1
}

/// The pairs of a table.
pub open spec fn pair_texts(t: Table<String>) -> Seq<(Seq<char>, Seq<char>)> {
    t.entries().map_values(|e: (String, String)| (e.0@, e.1@))
}

/// The members of an object that holds a table.
fn members(t: &Table<String>) -> (r: String)
    ensures
        r@ == json_members(pair_texts(*t)),
        in_order(pair_texts(*t), text_map(*t)),
{
    t.ordered();
    let ghost all = pair_texts(*t);
    let mut out = String::new();
    let mut i: usize = 0;
    assert(out@ =~= json_members(all.take(0)));
    while i < t.len()
        invariant
            i <= t.entries().len(),
            all == pair_texts(*t),
            out@ == json_members(all.take(i as int)),
        decreases t.entries().len() - i,
    {
        proof {
            assert(all.take(i + 1).drop_last() =~= all.take(i as int));
            assert(all.take(i + 1).last() == all[i as int]);
        }
        let ghost was = out@;
        if i > 0 {
            out.push(',');
            assert(out@ =~= was + seq![',']);
        }
        let mut one = quote(t.name(i).as_str());
        let ghost name = one@;
        one.push(':');
        assert(one@ =~= name + seq![':']);
        one.append(quote(t.value(i).as_str()).as_str());
        out.append(one.as_str());
        proof {
            if i == 0 {
                assert(was.len() == 0);
                assert(out@ =~= one@);
            }
        }
        i += 1;
    }
    proof {
        assert(all.take(i as int) =~= all);
        lemma_in_order(*t);
    }
    out
}

proof fn lemma_in_order(t: Table<String>)
    requires
        ascending(t.keys()),
    ensures
        in_order(pair_texts(t), text_map(t)),
{
    let pairs = pair_texts(t);
    let m = text_map(t);
    assert(pairs.map_values(|p: (Seq<char>, Seq<char>)| p.0) =~= t.keys());
    assert forall|k: Seq<char>| #[trigger] m.dom().contains(k) <==> exists|i: int|
        0 <= i < pairs.len() && (#[trigger] pairs[i]).0 == k by {
        if t.has(k) {
            let i = choose|i: int| 0 <= i < t.entries().len() && #[trigger] t.key(i) == k;
            assert(pairs[i].0 == k);
        }
        if exists|i: int| 0 <= i < pairs.len() && (#[trigger] pairs[i]).0 == k {
            let i = choose|i: int| 0 <= i < pairs.len() && (#[trigger] pairs[i]).0 == k;
            assert(t.key(i) == k);
        }
    }
    assert forall|i: int| 0 <= i < pairs.len() implies m[(#[trigger] pairs[i]).0] == pairs[i].1 by {
        let k = pairs[i].0;
        assert(t.key(i) == k);
        let j = choose|j: int| 0 <= j < t.entries().len() && #[trigger] t.key(j) == k;
        assert(0 <= j < t.entries().len() && t.key(j) == k);
        if i != j {
            assert(t.keys()[i] == k && t.keys()[j] == k);
            if i < j {
                assert(name_before(t.keys()[i], t.keys()[j]));
            } else {
                assert(name_before(t.keys()[j], t.keys()[i]));
            }
            lemma_before_total(encode_utf8(k), encode_utf8(k));
        }
    }
}

/// A number, or null.
pub open spec fn json_id(n: Option<u32>) -> Seq<char> {
    match n {
        Some(n) => chars(dec(n as nat)),
        None => "null"@,
    }
}

fn id_text(n: Option<u32>) -> (r: String)
    ensures
        r@ == json_id(n),
{
    match n {
        Some(n) => decimal(n as u64),
        None => "null".to_owned(),
    }
}

/// The file of directives that the options name.
pub open spec fn ini_file(options: Option<Yaml>) -> Option<Seq<char>> {
    match module_option(options, "file"@) {
        Some(Yaml::Text(s)) => Some(s@),
        _ => None,
    }
}

/// What a module is told of its application, as a JSON object. The directives
/// are given in the order of their names.
pub open spec fn app_config_text(
    app: Application,
    ids: DropIds,
    root: Seq<char>,
    admin: Seq<(Seq<char>, Seq<char>)>,
    user: Seq<(Seq<char>, Seq<char>)>,
) -> Seq<char> {
    "{\"admin\":{"@ + json_members(admin) + "},\"execute\":["@ + json_list(texts(app.execute@))
        + "],\"group_id\":"@ + json_id(ids.gid) + ",\"index\":"@ + json_option(
        option_text(app.index),
    ) + ",\"ini_file\":"@ + json_option(ini_file(app.options)) + ",\"max_requests\":"@ + chars(
        dec(app.limits.requests as nat),
    ) + ",\"root\":"@ + json_text(root) + ",\"script\":"@ + json_option(option_text(app.script))
        + ",\"user\":{"@ + json_members(user) + "},\"user_id\":"@ + json_id(ids.uid)
        + ",\"user_name\":"@ + json_option(option_text(ids.user_name)) + "}"@
}

/// JSON strings, separated by commas.
fn list(items: &Vec<String>) -> (r: String)
    ensures
        r@ == json_list(texts(items@)),
{
    let ghost all = texts(items@);
    let mut out = String::new();
    let mut i: usize = 0;
    assert(out@ =~= json_list(all.take(0)));
    while i < items.len()
        invariant
            i <= items@.len(),
            all == texts(items@),
            out@ == json_list(all.take(i as int)),
        decreases items@.len() - i,
    {
        proof {
            assert(all.take(i + 1).drop_last() =~= all.take(i as int));
            assert(all.take(i + 1).last() == all[i as int]);
        }
        let ghost was = out@;
        if i > 0 {
            out.push(',');
            assert(out@ =~= was + seq![',']);
        }
        let one = quote(items[i].as_str());
        out.append(one.as_str());
        proof {
            if i == 0 {
                assert(was.len() == 0);
                assert(out@ =~= one@);
                assert(all.take(1)[0] == all[0]);
            }
        }
        i += 1;
    }
    assert(all.take(i as int) =~= all);
    out
}

/// What a module is told of its application; `root` is the application's root
/// as an absolute path, or empty.
pub fn module_app_config(app: &Application, ids: &DropIds, root: &str) -> (r: String)
    ensures
        exists|admin: Seq<(Seq<char>, Seq<char>)>, user: Seq<(Seq<char>, Seq<char>)>|
            #![trigger
                in_order(admin, ini(app.options, "admin"@)),
                in_order(user, ini(app.options, "user"@))
            ]
            in_order(admin, ini(app.options, "admin"@)) && in_order(
                user,
                ini(app.options, "user"@),
            ) && r@ == app_config_text(*app, *ids, root@, admin, user),
{
    let admin = ini_map(&app.options, "admin");
    let user = ini_map(&app.options, "user");
    let file = match find_option(&app.options, "file") {
        Some(Yaml::Text(s)) => Some(s.clone()),
        _ => None,
    };
    let mut out = "{\"admin\":{".to_owned();
    out.append(members(&admin).as_str());
    out.append("},\"execute\":[");
    out.append(list(&app.execute).as_str());
    out.append("],\"group_id\":");
    out.append(id_text(ids.gid).as_str());
    out.append(",\"index\":");
    out.append(quote_option(&app.index).as_str());
    out.append(",\"ini_file\":");
    out.append(quote_option(&file).as_str());
    out.append(",\"max_requests\":");
    out.append(decimal(app.limits.requests).as_str());
    out.append(",\"root\":");
    out.append(quote(root).as_str());
    out.append(",\"script\":");
    out.append(quote_option(&app.script).as_str());
    out.append(",\"user\":{");
    out.append(members(&user).as_str());
    out.append("},\"user_id\":");
    out.append(id_text(ids.uid).as_str());
    out.append(",\"user_name\":");
    out.append(quote_option(&ids.user_name).as_str());
    out.append("}");
    proof {
        assert(in_order(pair_texts(admin), ini(app.options, "admin"@)));
        assert(in_order(pair_texts(user), ini(app.options, "user"@)));
        assert(out@ == app_config_text(*app, *ids, root@, pair_texts(admin), pair_texts(user)));
    }
    out
}

} // verus!
