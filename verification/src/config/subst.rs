//! `${NAME}` substitution over the text scalars of a parsed document. Only a
//! full `${NAME}` is expanded; `$NAME` stands for itself.

use vstd::prelude::*;
use vstd::string::*;

use crate::bytes::{chars, dec};
use crate::config::schema::Yaml;
use crate::config::table::Table;
use crate::config::ConfigError;
use crate::text::{cat2, cat3, decimal, to_chars, trim_start, trimmed};

verus! {

/// Where the first `${` from `from` on begins; the length where there is none.
pub open spec fn opening(s: Seq<char>, from: int) -> int
    decreases s.len() - from,
{
    if from < 0 || from + 1 >= s.len() {
        s.len() as int
    } else if s[from] == '$' && s[from + 1] == '{' {
        from
    } else {
        opening(s, from + 1)
    }
}

/// Where the first `}` from `from` on stands; the length where there is none.
pub open spec fn closing(s: Seq<char>, from: int) -> int
    decreases s.len() - from,
{
    if from < 0 || from >= s.len() {
        s.len() as int
    } else if s[from] == '}' {
        from
    } else {
        closing(s, from + 1)
    }
}

/// A text from `from` on with each `${NAME}` replaced by the variable's value,
/// or the first name that has none. A `${` that nothing closes stands for
/// itself, and so does all that follows it.
pub open spec fn expanded(s: Seq<char>, from: int, env: Table<String>) -> Result<
    Seq<char>,
    Seq<char>,
>
    decreases s.len() - from,
{
    let i = opening(s, from);
    let j = closing(s, i + 2);
    if !(0 <= from <= i < j < s.len()) {
        Ok(s.subrange(from, s.len() as int))
    } else {
        let name = s.subrange(i + 2, j);
        if !env.has(name) {
            Err(name)
        } else {
            match expanded(s, j + 1, env) {
                Ok(rest) => Ok(s.subrange(from, i) + env.at(name)@ + rest),
                Err(missing) => Err(missing),
            }
        }
    }
}

fn find_opening(s: &Vec<char>, from: usize) -> (r: usize)
    requires
        from <= s@.len(),
    ensures
        from <= r <= s@.len(),
        r == opening(s@, from as int),
        r < s@.len() ==> r + 1 < s@.len() && s@[r as int] == '$' && s@[r + 1] == '{',
{
    let mut i: usize = from;
    while i < s.len() && s.len() - i >= 2
        invariant
            from <= i <= s@.len(),
            opening(s@, from as int) == opening(s@, i as int),
        decreases s@.len() - i,
    {
        if s[i] == '$' && s[i + 1] == '{' {
            return i;
        }
        i += 1;
    }
    s.len()
}

fn find_closing(s: &Vec<char>, from: usize) -> (r: usize)
    requires
        from <= s@.len(),
    ensures
        from <= r <= s@.len(),
        r == closing(s@, from as int),
{
    let mut i: usize = from;
    while i < s.len()
        invariant
            from <= i <= s@.len(),
            closing(s@, from as int) == closing(s@, i as int),
        decreases s@.len() - i,
    {
        if s[i] == '}' {
            return i;
        }
        i += 1;
    }
    i
}

/// The path of a value as an error shows it.
pub open spec fn shown_path(path: Seq<char>) -> Seq<char> {
    trimmed(trimmed(path, '$'), '.')
}

/// Expand a text; the variables' values are `env`.
pub fn expand(input: &str, path: &str, env: &Table<String>) -> (r: Result<String, ConfigError>)
    ensures
        match r {
            Ok(t) => expanded(input@, 0, *env) == Ok::<Seq<char>, Seq<char>>(t@),
            Err(e) => e matches ConfigError::EnvMissing { name, path: shown } && expanded(
                input@,
                0,
                *env,
            ) == Err::<Seq<char>, Seq<char>>(name@) && shown@ == shown_path(path@),
        },
{
    let s = to_chars(input);
    let ghost all = input@;
    let mut out = String::new();
    let mut from: usize = 0;
    while from < s.len()
        invariant
            from <= s@.len(),
            s@ == all,
            all == input@,
            match expanded(all, from as int, *env) {
                Ok(rest) => expanded(all, 0, *env) == Ok::<Seq<char>, Seq<char>>(out@ + rest),
                Err(name) => expanded(all, 0, *env) == Err::<Seq<char>, Seq<char>>(name),
            },
        ensures
            expanded(all, from as int, *env) == Ok::<Seq<char>, Seq<char>>(
                all.subrange(from as int, all.len() as int),
            ),
        decreases s@.len() - from,
    {
        let i: usize = find_opening(&s, from);
        if i == s.len() {
            break;
        }
        let j: usize = find_closing(&s, i + 2);
        if j == s.len() {
            break;
        }
        let name = input.substring_char(i + 2, j);
        let ghost was = out@;
        match env.get(name) {
            None => {
                let shown = trim_start(trim_start(path, '$'), '.');
                return Err(
                    ConfigError::EnvMissing { name: name.to_owned(), path: shown.to_owned() },
                );
            },
            Some(value) => {
                out.append(input.substring_char(from, i));
                out.append(value.as_str());
                proof {
                    let rest = expanded(all, j + 1, *env);
                    if rest is Ok {
                        assert(out@ + rest->Ok_0 =~= was + (all.subrange(from as int, i as int)
                            + value@ + rest->Ok_0));
                    }
                }
            },
        }
        from = j + 1;
    }
    out.append(input.substring_char(from, s.len()));
    Ok(out)
}

/// A text without `${` is kept as it is, whatever the variables are.
pub proof fn plain_text_is_kept(s: Seq<char>, env: Table<String>)
    requires
        opening(s, 0) == s.len(),
    ensures
        expanded(s, 0, env) == Ok::<Seq<char>, Seq<char>>(s),
{
    assert(s.subrange(0, s.len() as int) =~= s);
}

/// The path of the `i`-th item of a list.
pub open spec fn item_path(path: Seq<char>, i: int) -> Seq<char> {
    path + "["@ + chars(dec(i as nat)) + "]"@
}

/// The path of the value under a key; a key that is no text shows as `?`.
pub open spec fn entry_path(path: Seq<char>, key: Yaml) -> Seq<char> {
    path + "."@ + match key {
        Yaml::Text(k) => k@,
        _ => "?"@,
    }
}

/// The first name without a value, in the order of the document, with the path
/// of the text that refers to it.
pub open spec fn missing(v: Yaml, path: Seq<char>, env: Table<String>) -> Option<
    (Seq<char>, Seq<char>),
>
    decreases v, 1int, 0int,
{
    match v {
        Yaml::Text(s) => match expanded(s@, 0, env) {
            Ok(_) => None,
            Err(name) => Some((name, shown_path(path))),
        },
        Yaml::List(items) => missing_item(v, 0, path, env),
        Yaml::Mapping(entries) => missing_entry(v, 0, path, env),
        _ => None,
    }
}

/// The same of a list's items from the `i`-th on.
pub open spec fn missing_item(v: Yaml, i: int, path: Seq<char>, env: Table<String>) -> Option<
    (Seq<char>, Seq<char>),
>
    decreases v, 0int, (v->List_0)@.len() - i,
{
    if !(v is List) || i < 0 || i >= (v->List_0)@.len() {
        None
    } else {
        match missing((v->List_0)@[i], item_path(path, i), env) {
            Some(m) => Some(m),
            None => missing_item(v, i + 1, path, env),
        }
    }
}

/// The same of a mapping's entries from the `i`-th on.
pub open spec fn missing_entry(v: Yaml, i: int, path: Seq<char>, env: Table<String>) -> Option<
    (Seq<char>, Seq<char>),
>
    decreases v, 0int, (v->Mapping_0)@.len() - i,
{
    if !(v is Mapping) || i < 0 || i >= (v->Mapping_0)@.len() {
        None
    } else {
        let e = (v->Mapping_0)@[i];
        match missing(e.1, entry_path(path, e.0), env) {
            Some(m) => Some(m),
            None => missing_entry(v, i + 1, path, env),
        }
    }
}

/// What a walk over a document makes of it: each text is expanded, up to the
/// first name without a value; that text and all behind it stay as they were.
pub open spec fn walked(before: Yaml, after: Yaml, path: Seq<char>, env: Table<String>) -> bool
    decreases before,
{
    match (before, after) {
        (Yaml::Text(s), Yaml::Text(t)) => match expanded(s@, 0, env) {
            Ok(e) => t@ == e,
            Err(_) => t@ == s@,
        },
        (Yaml::List(a), Yaml::List(b)) => {
            &&& a@.len() == b@.len()
            &&& forall|i: int|
                0 <= i < a@.len() ==> if item_reached(before, i, path, env) {
                    walked(#[trigger] a@[i], b@[i], item_path(path, i), env)
                } else {
                    b@[i] == a@[i]
                }
        },
        (Yaml::Mapping(a), Yaml::Mapping(b)) => {
            &&& a@.len() == b@.len()
            &&& forall|i: int|
                0 <= i < a@.len() ==> (#[trigger] a@[i]).0 == b@[i].0 && if entry_reached(
                    before,
                    i,
                    path,
                    env,
                ) {
                    walked(a@[i].1, b@[i].1, entry_path(path, a@[i].0), env)
                } else {
                    b@[i].1 == a@[i].1
                }
        },
        _ => before == after,
    }
}

/// No item of the list before the `i`-th misses a name.
pub open spec fn item_reached(v: Yaml, i: int, path: Seq<char>, env: Table<String>) -> bool {
    forall|j: int|
        0 <= j < i ==> missing(#[trigger] (v->List_0)@[j], item_path(path, j), env) is None
}

pub open spec fn entry_reached(v: Yaml, i: int, path: Seq<char>, env: Table<String>) -> bool {
    forall|j: int|
        0 <= j < i ==> missing(
            (#[trigger] (v->Mapping_0)@[j]).1,
            entry_path(path, (v->Mapping_0)@[j].0),
            env,
        ) is None
}

/// Expand the texts of a document. `path` is where the document stands; the
/// whole of one stands at `$`.
pub fn substitute_env(value: &mut Yaml, path: &str, env: &Table<String>) -> (r: Result<
    (),
    ConfigError,
>)
    ensures
        match r {
            Ok(()) => missing(*old(value), path@, *env) is None,
            Err(e) => e matches ConfigError::EnvMissing { name, path: shown } && missing(
                *old(value),
                path@,
                *env,
            ) == Some((name@, shown@)),
        },
        walked(*old(value), *final(value), path@, *env),
    decreases *old(value),
{
    let ghost before = *value;
    let mut taken = Yaml::Null;
    std::mem::swap(&mut taken, value);
    match taken {
        Yaml::Text(s) => {
            match expand(s.as_str(), path, env) {
                Ok(t) => {
                    *value = Yaml::Text(t);
                    Ok(())
                },
                Err(e) => {
                    *value = Yaml::Text(s);
                    Err(e)
                },
            }
        },
        Yaml::List(mut items) => {
            let ghost was = items@;
            let mut i: usize = 0;
            while i < items.len()
                invariant
                    i <= items@.len(),
                    items@.len() == was.len(),
                    before == *old(value),
                    before is List,
                    (before->List_0)@ == was,
                    missing(before, path@, *env) == missing_item(before, i as int, path@, *env),
                    item_reached(before, i as int, path@, *env),
                    forall|j: int|
                        0 <= j < i ==> walked(
                            #[trigger] was[j],
                            items@[j],
                            item_path(path@, j),
                            *env,
                        ),
                    forall|j: int| i <= j < was.len() ==> #[trigger] items@[j] == was[j],
                decreases was.len() - i,
            {
                let at = cat2(cat3(path, "[", decimal(i as u64).as_str()).as_str(), "]");
                assert(items@[i as int] == was[i as int]);
                assert((before->List_0)@[i as int] == was[i as int]);
                let r = substitute_env(&mut items[i], at.as_str(), env);
                if let Err(e) = r {
                    assert(forall|k: int|
                        i < k < was.len() ==> !item_reached(before, k, path@, *env));
                    *value = Yaml::List(items);
                    return Err(e);
                }
                i += 1;
            }
            *value = Yaml::List(items);
            Ok(())
        },
        Yaml::Mapping(mut entries) => {
            let ghost was = entries@;
            let mut i: usize = 0;
            while i < entries.len()
                invariant
                    i <= entries@.len(),
                    entries@.len() == was.len(),
                    before == *old(value),
                    before is Mapping,
                    (before->Mapping_0)@ == was,
                    missing(before, path@, *env) == missing_entry(before, i as int, path@, *env),
                    entry_reached(before, i as int, path@, *env),
                    forall|j: int|
                        0 <= j < i ==> (#[trigger] was[j]).0 == entries@[j].0 && walked(
                            was[j].1,
                            entries@[j].1,
                            entry_path(path@, was[j].0),
                            *env,
                        ),
                    forall|j: int| i <= j < was.len() ==> #[trigger] entries@[j] == was[j],
                decreases was.len() - i,
            {
                let at = match &entries[i].0 {
                    Yaml::Text(k) => cat3(path, ".", k.as_str()),
                    _ => cat3(path, ".", "?"),
                };
                assert(entries@[i as int] == was[i as int]);
                assert((before->Mapping_0)@[i as int] == was[i as int]);
                let r = substitute_env(&mut entries[i].1, at.as_str(), env);
                if let Err(e) = r {
                    assert(forall|k: int|
                        i < k < was.len() ==> !entry_reached(before, k, path@, *env));
                    *value = Yaml::Mapping(entries);
                    return Err(e);
                }
                i += 1;
            }
            *value = Yaml::Mapping(entries);
            Ok(())
        },
        other => {
            *value = other;
            Ok(())
        },
    }
}

} // verus!
