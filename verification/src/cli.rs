//! The command line, and the modules that a configuration refers to.

use serde_json::Value;
use vstd::prelude::*;
use vstd::string::*;

use crate::ipc::{shown, BWP_VERSION};
use crate::json::{
    as_items, as_number, as_string, json_items, json_member, json_number, json_of, json_string,
    member, read_json,
};
use crate::router::matching::{lower_str, lowered_chars};
use crate::text::{
    cat2, cat3, decimal, same, stands_at, starts_with_text, texts, to_chars, trim_start, trimmed,
};

verus! {

pub const DEFAULT_CONFIG: &'static str = "/etc/buran/buran.yaml";

pub const USAGE: &'static str =
    "Buran Application Server\n\nUsage:\n  buran [--config <path>]     run the server\n  buran --check-config [--config <path>]   validate config and modules, then exit\n  buran --modules [--config <path>]        list runtime modules found in modules dir\n  buran --version\n  buran --help\n";

/// What a run of the server is to do.
#[derive(Debug, PartialEq, Eq)]
pub struct Cli {
    pub config: String,
    /// Only check the configuration and its modules.
    pub check: bool,
    /// Only list the modules.
    pub modules: bool,
}

/// What the command line asks for.
#[derive(Debug, PartialEq, Eq)]
pub enum Invocation {
    Run(Cli),
    Version,
    Help,
}

/// What the command line asks for, or what is wrong with it.
pub enum Asked {
    Run { config: Seq<char>, check: bool, modules: bool },
    Version,
    Help,
    Wrong(Seq<char>),
}

/// What the rest of a command line asks for, given what came before.
pub open spec fn asked(args: Seq<Seq<char>>, config: Seq<char>, check: bool, modules: bool) -> Asked
    decreases args.len(),
{
    if args.len() == 0 {
        Asked::Run { config, check, modules }
    } else {
        let rest = args.subrange(1, args.len() as int);
        if args[0] == "--config"@ || args[0] == "-c"@ {
            if rest.len() == 0 {
                Asked::Wrong("--config requires a path"@)
            } else {
                asked(rest.subrange(1, rest.len() as int), rest[0], check, modules)
            }
        } else if args[0] == "--check-config"@ {
            asked(rest, config, true, modules)
        } else if args[0] == "--modules"@ {
            asked(rest, config, check, true)
        } else if args[0] == "--version"@ || args[0] == "-V"@ {
            Asked::Version
        } else if args[0] == "--help"@ || args[0] == "-h"@ {
            Asked::Help
        } else {
            Asked::Wrong("unknown argument \""@ + args[0] + ("\"\n\n"@ + USAGE@))
        }
    }
}

/// Whether an answer says what was asked.
pub open spec fn answers(r: Result<Invocation, String>, a: Asked) -> bool {
    match a {
        Asked::Run { config, check, modules } => r matches Ok(Invocation::Run(c)) && c.config@
            == config && c.check == check && c.modules == modules,
        Asked::Version => r matches Ok(Invocation::Version),
        Asked::Help => r matches Ok(Invocation::Help),
        Asked::Wrong(m) => r matches Err(e) && e@ == m,
    }
}

/// Read the command line, without the program's name.
pub fn parse_cli(args: &Vec<String>) -> (r: Result<Invocation, String>)
    ensures
        answers(r, asked(texts(args@), DEFAULT_CONFIG@, false, false)),
{
    let ghost all = texts(args@);
    let mut config = DEFAULT_CONFIG.to_owned();
    let mut check = false;
    let mut modules = false;
    let mut i: usize = 0;
    assert(all.subrange(0, all.len() as int) =~= all);
    while i < args.len()
        invariant
            i <= args@.len(),
            all == texts(args@),
            asked(all, DEFAULT_CONFIG@, false, false) == asked(
                all.subrange(i as int, all.len() as int),
                config@,
                check,
                modules,
            ),
        decreases args@.len() - i,
    {
        let arg = args[i].as_str();
        proof {
            let here = all.subrange(i as int, all.len() as int);
            assert(here[0] == arg@);
            let rest = here.subrange(1, here.len() as int);
            assert(rest =~= all.subrange(i + 1, all.len() as int));
            if rest.len() > 0 {
                assert(rest[0] == args@[i + 1]@);
                assert(rest.subrange(1, rest.len() as int) =~= all.subrange(
                    i + 2,
                    all.len() as int,
                ));
            }
        }
        if same(arg, "--config") || same(arg, "-c") {
            if i + 1 >= args.len() {
                return Err("--config requires a path".to_owned());
            }
            config = args[i + 1].clone();
            i += 2;
        } else if same(arg, "--check-config") {
            check = true;
            i += 1;
        } else if same(arg, "--modules") {
            modules = true;
            i += 1;
        } else if same(arg, "--version") || same(arg, "-V") {
            return Ok(Invocation::Version);
        } else if same(arg, "--help") || same(arg, "-h") {
            return Ok(Invocation::Help);
        } else {
            let tail = cat2("\"\n\n", USAGE);
            return Err(cat3("unknown argument \"", arg, tail.as_str()));
        }
    }
    Ok(Invocation::Run(Cli { config, check, modules }))
}

/// The modules among the names in a directory: those with the prefix of a
/// module's binary, without it.
pub open spec fn module_names(names: Seq<Seq<char>>) -> Seq<Seq<char>>
    decreases names.len(),
{
    if names.len() == 0 {
        seq![]
    } else {
        let before = module_names(names.drop_last());
        let n = names.last();
        if stands_at(n, "buran-"@, 0) {
            before.push(n.subrange("buran-"@.len() as int, n.len() as int))
        } else {
            before
        }
    }
}

/// Texts, separated by a comma and a space.
pub open spec fn joined(items: Seq<Seq<char>>) -> Seq<char>
    decreases items.len(),
{
    if items.len() == 0 {
        seq![]
    } else if items.len() == 1 {
        items[0]
    } else {
        joined(items.drop_last()) + ", "@ + items.last()
    }
}

/// The modules that are installed, in words.
pub open spec fn available_text(names: Option<Seq<Seq<char>>>) -> Seq<char> {
    match names {
        None => "(modules directory does not exist)"@,
        Some(names) => if module_names(names).len() == 0 {
            "(none)"@
        } else {
            joined(module_names(names))
        },
    }
}

/// The modules that are installed, given the names in the modules directory, if
/// it exists.
pub fn available_modules(names: &Option<Vec<String>>) -> (r: String)
    ensures
        r@ == available_text(
            match *names {
                Some(v) => Some(texts(v@)),
                None => None,
            },
        ),
{
    let names = match names {
        Some(names) => names,
        None => {
            return "(modules directory does not exist)".to_owned();
        },
    };
    let ghost all = texts(names@);
    let skip: usize = to_chars("buran-").len();
    let mut out = String::new();
    let mut count: usize = 0;
    let mut i: usize = 0;
    assert(module_names(all.take(0)) =~= seq![]);
    while i < names.len()
        invariant
            i <= names@.len(),
            all == texts(names@),
            skip == "buran-"@.len(),
            count <= i,
            count == module_names(all.take(i as int)).len(),
            out@ == joined(module_names(all.take(i as int))),
        decreases names@.len() - i,
    {
        proof {
            assert(all.take(i + 1).drop_last() =~= all.take(i as int));
            assert(all.take(i + 1).last() == all[i as int]);
        }
        let name = names[i].as_str();
        if starts_with_text(name, "buran-") {
            let ghost before = module_names(all.take(i as int));
            let ghost was = out@;
            let len: usize = to_chars(name).len();
            let rest = name.substring_char(skip, len);
            if count > 0 {
                out.append(", ");
            }
            out.append(rest);
            proof {
                let after = before.push(rest@);
                assert(after.drop_last() =~= before);
                assert(module_names(all.take(i + 1)) == after);
                if count == 0 {
                    assert(was.len() == 0);
                    assert(out@ =~= rest@);
                    assert(after[0] == rest@);
                }
            }
            count += 1;
        }
        i += 1;
    }
    assert(all.take(i as int) =~= all);
    if count == 0 {
        return "(none)".to_owned();
    }
    out
}

/// The complaint about an application whose module is not installed.
pub open spec fn missing_text(
    app: Seq<char>,
    module: Seq<char>,
    dir: Seq<char>,
    available: Seq<char>,
) -> Seq<char> {
    "applications."@ + app + ".module: module \""@ + module + "\" not found in "@ + dir
        + "; available: "@ + available
}

/// The complaint about an application whose module is not installed.
pub fn missing_module(app: &str, module: &str, dir: &str, available: &str) -> (r: String)
    ensures
        r@ == missing_text(app@, module@, dir@, available@),
{
    let mut out = "applications.".to_owned();
    out.append(app);
    out.append(".module: module \"");
    out.append(module);
    out.append("\" not found in ");
    out.append(dir);
    out.append("; available: ");
    out.append(available);
    out
}

/// An extension as the router compares it: lower case, without dots in front.
pub open spec fn plain_ext(e: Seq<char>) -> Seq<char> {
    lowered_chars(trimmed(e, '.'))
}

/// Take in what a module says of itself: its source extensions where it speaks
/// this protocol.
pub fn accept_module(module: &str, bwp: u64, extensions: &Vec<String>) -> (r: Result<
    Vec<String>,
    String,
>)
    ensures
        if bwp == BWP_VERSION {
            &&& r matches Ok(v)
            &&& v@.len() == extensions@.len()
            &&& forall|i: int| 0 <= i < v@.len() ==> (#[trigger] v@[i])@ == plain_ext(
                extensions@[i]@,
            )
        } else {
            r matches Err(m) && m@ == "module \""@ + module@ + "\" speaks BWP v"@ + shown(
                bwp as int,
            ) + ", this buran speaks v"@ + shown(BWP_VERSION as int)
        },
{
    if bwp != BWP_VERSION as u64 {
        let mut m = "module \"".to_owned();
        m.append(module);
        m.append("\" speaks BWP v");
        m.append(decimal(bwp).as_str());
        m.append(", this buran speaks v");
        m.append(decimal(BWP_VERSION as u64).as_str());
        return Err(m);
    }
    let mut out: Vec<String> = Vec::new();
    let mut i: usize = 0;
    while i < extensions.len()
        invariant
            i <= extensions@.len(),
            out@.len() == i,
            forall|j: int| 0 <= j < i ==> (#[trigger] out@[j])@ == plain_ext(extensions@[j]@),
        decreases extensions@.len() - i,
    {
        out.push(lower_str(trim_start(extensions[i].as_str(), '.')));
        i += 1;
    }
    Ok(out)
}

/// The protocol version that a description gives, zero where it gives none.
pub open spec fn described_version(v: Value) -> u64 {
    match json_member(v, "bwp"@) {
        Some(n) => match json_number(n) {
            Some(n) => n,
            None => 0,
        },
        None => 0,
    }
}

/// The strings among values.
pub open spec fn strings(items: Seq<Value>) -> Seq<Seq<char>>
    decreases items.len(),
{
    if items.len() == 0 {
        seq![]
    } else {
        let before = strings(items.drop_last());
        match json_string(items.last()) {
            Some(s) => before.push(s),
            None => before,
        }
    }
}

/// The source extensions that a description gives.
pub open spec fn described_exts(v: Value) -> Seq<Seq<char>> {
    match json_member(v, "source_extensions"@) {
        Some(list) => match json_items(list) {
            Some(items) => strings(items),
            None => seq![],
        },
        None => seq![],
    }
}

/// Why a module is refused.
#[derive(Debug, PartialEq, Eq)]
pub enum DescribeError {
    /// What it printed is not JSON.
    BadJson,
    /// It speaks another protocol; the complaint about it.
    Incompatible(String),
}

fn read_strings(items: &Vec<Value>) -> (r: Vec<String>)
    ensures
        texts(r@) == strings(items@),
{
    let ghost all = items@;
    let mut out: Vec<String> = Vec::new();
    let mut i: usize = 0;
    assert(texts(out@) =~= strings(all.take(0)));
    while i < items.len()
        invariant
            i <= items@.len(),
            all == items@,
            texts(out@) == strings(all.take(i as int)),
        decreases items@.len() - i,
    {
        proof {
            assert(all.take(i + 1).drop_last() =~= all.take(i as int));
            assert(all.take(i + 1).last() == all[i as int]);
        }
        let ghost was = out@;
        if let Some(s) = as_string(&items[i]) {
            out.push(s.to_owned());
            assert(texts(out@) =~= texts(was).push(s@));
        }
        i += 1;
    }
    assert(all.take(i as int) =~= all);
    out
}

/// What a module's description comes to.
pub open spec fn is_described(
    r: Result<Vec<String>, DescribeError>,
    module: Seq<char>,
    output: Seq<u8>,
) -> bool {
    match json_of(output) {
        None => r == Err::<Vec<String>, DescribeError>(DescribeError::BadJson),
        Some(v) => {
            let bwp = described_version(v);
            let exts = described_exts(v);
            if bwp == BWP_VERSION {
                &&& r matches Ok(out)
                &&& out@.len() == exts.len()
                &&& forall|i: int| 0 <= i < out@.len() ==> (#[trigger] out@[i])@ == plain_ext(
                    exts[i],
                )
            } else {
                r matches Err(DescribeError::Incompatible(m)) && m@ == "module \""@ + module
                    + "\" speaks BWP v"@ + shown(bwp as int) + ", this buran speaks v"@ + shown(
                    BWP_VERSION as int,
                )
            }
        },
    }
}

/// Take in what a module printed of itself: its source extensions, or why it is
/// refused.
pub fn check_describe(module: &str, output: &[u8]) -> (r: Result<Vec<String>, DescribeError>)
    ensures
        is_described(r, module@, output@),
{
    let v = match read_json(output) {
        Ok(v) => v,
        Err(_) => {
            return Err(DescribeError::BadJson);
        },
    };
    let bwp: u64 = match member(&v, "bwp") {
        Some(n) => match as_number(n) {
            Some(n) => n,
            None => 0,
        },
        None => 0,
    };
    let mut exts: Vec<String> = Vec::new();
    assert(texts(exts@) =~= seq![]);
    if let Some(list) = member(&v, "source_extensions") {
        if let Some(items) = as_items(list) {
            exts = read_strings(items);
        }
    }
    proof {
        assert(bwp == described_version(v));
        assert(texts(exts@) == described_exts(v));
        assert forall|i: int| 0 <= i < exts@.len() implies #[trigger] exts@[i]@ == described_exts(
            v,
        )[i] by {
            assert(texts(exts@)[i] == exts@[i]@);
        }
    }
    match accept_module(module, bwp, &exts) {
        Ok(out) => Ok(out),
        Err(m) => Err(DescribeError::Incompatible(m)),
    }
}

/// The word after an option's name.
pub open spec fn value_after(args: Seq<Seq<char>>, name: Seq<char>) -> Option<Seq<char>>
    decreases args.len(),
{
    if args.len() == 0 {
        None
    } else if args[0] == name {
        if args.len() > 1 {
            Some(args[1])
        } else {
            None
        }
    } else {
        value_after(args.subrange(1, args.len() as int), name)
    }
}

/// The word after the first place of an option in a module's command line.
pub fn arg_value<'a>(args: &'a Vec<String>, name: &str) -> (r: Option<&'a String>)
    ensures
        match r {
            Some(s) => value_after(texts(args@), name@) == Some(s@),
            None => value_after(texts(args@), name@) is None,
        },
{
    let ghost all = texts(args@);
    let mut i: usize = 0;
    assert(all.subrange(0, all.len() as int) =~= all);
    while i < args.len()
        invariant
            i <= args@.len(),
            all == texts(args@),
            value_after(all, name@) == value_after(
                all.subrange(i as int, all.len() as int),
                name@,
            ),
        decreases args@.len() - i,
    {
        proof {
            let here = all.subrange(i as int, all.len() as int);
            assert(here[0] == args@[i as int]@);
            assert(here.subrange(1, here.len() as int) =~= all.subrange(i + 1, all.len() as int));
            if here.len() > 1 {
                assert(here[1] == args@[i + 1]@);
            }
        }
        if same(args[i].as_str(), name) {
            if i + 1 < args.len() {
                return Some(&args[i + 1]);
            }
            return None;
        }
        i += 1;
    }
    None
}

} // verus!
