//! Which script serves a request.

use vstd::prelude::*;
use vstd::string::*;
use vstd::utf8::{decode_utf8, valid_utf8};

use crate::bytes::utf8;
use crate::php::AppConfig;
use crate::text::{
    cat2, ends_in, ends_with_text, find_text, first_of, first_stands_at, option_text, texts, to_chars,
    trim_end, trim_start, trimmed, trimmed_end,
};

verus! {

/// A script and how it was found.
#[derive(Debug, PartialEq, Eq)]
pub struct ResolvedScript {
    pub filename: String,
    pub script_name: String,
    /// What follows the script in the path, if the path was cut there.
    pub path_info: Option<String>,
}

pub struct ScriptModel {
    pub filename: Seq<char>,
    pub script_name: Seq<char>,
    pub path_info: Option<Seq<char>>,
}

impl View for ResolvedScript {
    type V = ScriptModel;

    open spec fn view(&self) -> ScriptModel {
        ScriptModel {
            filename: self.filename@,
            script_name: self.script_name@,
            path_info: option_text(self.path_info),
        }
    }
}

/// What a path leads to.
#[derive(Debug, PartialEq, Eq)]
pub enum Resolution {
    Script(ResolvedScript),
    /// No script: what stands under this name on disk decides the answer.
    Probe(String),
    /// A path that is no text.
    BadPath,
}

pub enum Target {
    Script(ScriptModel),
    Probe(Seq<char>),
    BadPath,
}

impl View for Resolution {
    type V = Target;

    open spec fn view(&self) -> Target {
        match *self {
            Resolution::Script(s) => Target::Script(s@),
            Resolution::Probe(s) => Target::Probe(s@),
            Resolution::BadPath => Target::BadPath,
        }
    }
}

/// The executable extensions: the module's own, then the application's.
pub open spec fn executable_exts(app: AppConfig) -> Seq<Seq<char>> {
    seq![".php"@, ".phtml"@] + texts(app.execute@)
}

/// Where a path is cut after a script: behind the first place of the first
/// extension that a slash follows.
pub open spec fn cut_after(path: Seq<char>, exts: Seq<Seq<char>>) -> Option<int>
    decreases exts.len(),
{
    if exts.len() == 0 {
        None
    } else {
        match first_of(path, exts[0] + "/"@) {
            Some(i) => Some(i + exts[0].len()),
            None => cut_after(path, exts.subrange(1, exts.len() as int)),
        }
    }
}

/// Whether a path ends in one of the extensions.
pub open spec fn is_executable(path: Seq<char>, exts: Seq<Seq<char>>) -> bool {
    exists|i: int| 0 <= i < exts.len() && ends_in(path, #[trigger] exts[i])
}

/// What a path leads to.
pub open spec fn resolved(app: AppConfig, path: Seq<char>) -> Target {
    let root = trimmed_end(app.root@, '/');
    match app.script {
        Some(script) => {
            let name = "/"@ + trimmed(script@, '/');
            Target::Script(
                ScriptModel { filename: root + name, script_name: name, path_info: None },
            )
        },
        None => match cut_after(path, executable_exts(app)) {
            Some(n) => Target::Script(
                ScriptModel {
                    filename: root + path.subrange(0, n),
                    script_name: path.subrange(0, n),
                    path_info: Some(path.subrange(n, path.len() as int)),
                },
            ),
            None => if ends_in(path, "/"@) {
                let name = path + match app.index {
                    Some(index) => index@,
                    None => "index.php"@,
                };
                Target::Script(
                    ScriptModel { filename: root + name, script_name: name, path_info: None },
                )
            } else if is_executable(path, executable_exts(app)) {
                Target::Script(
                    ScriptModel { filename: root + path, script_name: path, path_info: None },
                )
            } else {
                Target::Probe(root + path)
            },
        },
    }
}

/// The `i`-th executable extension.
fn ext_at(app: &AppConfig, i: usize) -> (r: &str)
    requires
        i < executable_exts(*app).len(),
        executable_exts(*app).len() <= usize::MAX,
    ensures
        r@ == executable_exts(*app)[i as int],
{
    if i == 0 {
        ".php"
    } else if i == 1 {
        ".phtml"
    } else {
        app.execute[i - 2].as_str()
    }
}

/// How many executable extensions there are.
fn ext_count(app: &AppConfig) -> (r: usize)
    requires
        app.execute@.len() + 2 <= usize::MAX,
    ensures
        r == executable_exts(*app).len(),
{
    app.execute.len() + 2
}

fn cut(app: &AppConfig, path: &str) -> (r: Option<usize>)
    requires
        app.execute@.len() + 2 <= usize::MAX,
    ensures
        match r {
            Some(n) => cut_after(path@, executable_exts(*app)) == Some(n as int) && n <= path@.len(),
            None => cut_after(path@, executable_exts(*app)) is None,
        },
{
    let ghost exts = executable_exts(*app);
    let n: usize = ext_count(app);
    let mut i: usize = 0;
    assert(exts.subrange(0, n as int) =~= exts);
    while i < n
        invariant
            i <= n,
            n == exts.len(),
            exts == executable_exts(*app),
            cut_after(path@, exts) == cut_after(path@, exts.subrange(i as int, n as int)),
        decreases n - i,
    {
        let ext = ext_at(app, i);
        let marker = cat2(ext, "/");
        proof {
            let here = exts.subrange(i as int, n as int);
            assert(here[0] == exts[i as int]);
            assert(here.subrange(1, here.len() as int) =~= exts.subrange(i + 1, n as int));
        }
        if let Some(pos) = find_text(path, marker.as_str()) {
            let len: usize = to_chars(ext).len();
            return Some(pos + len);
        }
        i += 1;
    }
    None
}

fn executable(app: &AppConfig, path: &str) -> (r: bool)
    requires
        app.execute@.len() + 2 <= usize::MAX,
    ensures
        r == is_executable(path@, executable_exts(*app)),
{
    let ghost exts = executable_exts(*app);
    let n: usize = ext_count(app);
    let mut i: usize = 0;
    while i < n
        invariant
            i <= n,
            n == exts.len(),
            exts == executable_exts(*app),
            forall|j: int| 0 <= j < i ==> !ends_in(path@, #[trigger] exts[j]),
        decreases n - i,
    {
        if ends_with_text(path, ext_at(app, i)) {
            assert(ends_in(path@, exts[i as int]));
            return true;
        }
        i += 1;
    }
    false
}

/// Find the script that serves a path.
pub fn resolve_script(app: &AppConfig, path: &[u8]) -> (r: Resolution)
    requires
        app.execute@.len() + 2 <= usize::MAX,
    ensures
        r@ == if valid_utf8(path@) {
            resolved(*app, decode_utf8(path@))
        } else {
            Target::BadPath
        },
{
    let path = match utf8(path) {
        Some(s) => s,
        None => {
            return Resolution::BadPath;
        },
    };
    let root = trim_end(app.root.as_str(), '/');
    if let Some(script) = &app.script {
        let name = cat2("/", trim_start(script.as_str(), '/'));
        return Resolution::Script(
            ResolvedScript {
                filename: cat2(root, name.as_str()),
                script_name: name,
                path_info: None,
            },
        );
    }
    if let Some(n) = cut(app, path) {
        let len: usize = to_chars(path).len();
        let part = path.substring_char(0, n);
        let extra = path.substring_char(n, len);
        return Resolution::Script(
            ResolvedScript {
                filename: cat2(root, part),
                script_name: part.to_owned(),
                path_info: Some(extra.to_owned()),
            },
        );
    }
    if ends_with_text(path, "/") {
        let index = match &app.index {
            Some(s) => s.as_str(),
            None => "index.php",
        };
        let name = cat2(path, index);
        return Resolution::Script(
            ResolvedScript {
                filename: cat2(root, name.as_str()),
                script_name: name,
                path_info: None,
            },
        );
    }
    if executable(app, path) {
        return Resolution::Script(
            ResolvedScript {
                filename: cat2(root, path),
                script_name: path.to_owned(),
                path_info: None,
            },
        );
    }
    Resolution::Probe(cat2(root, path))
}

/// What stands under a name on disk.
#[derive(Debug, Clone, Copy, PartialEq, Eq, Structural)]
pub enum OnDisk {
    File,
    Directory,
    Other,
    Denied,
    Missing,
}

/// The status that answers a path without a script.
pub fn probe_status(found: OnDisk) -> (r: u16)
    ensures
        r == match found {
            OnDisk::Directory => 301u16,
            OnDisk::Missing => 404u16,
            _ => 403u16,
        },
{
    match found {
        OnDisk::Directory => 301,
        OnDisk::Missing => 404,
        _ => 403,
    }
}

/// The status that answers for a script which cannot be run; `None` where it
/// can.
pub fn script_status(found: OnDisk) -> (r: Option<u16>)
    ensures
        r == match found {
            OnDisk::File => None::<u16>,
            OnDisk::Missing => Some(404u16),
            _ => Some(403u16),
        },
{
    match found {
        OnDisk::File => None,
        OnDisk::Missing => Some(404),
        _ => Some(403),
    }
}

/// What a path comes to once it is known what stands on disk: under the script's
/// file name, or under the name that is looked at instead.
pub fn verdict(resolution: Resolution, found: OnDisk) -> (r: Result<ResolvedScript, u16>)
    ensures
        match resolution {
            Resolution::Script(script) => r == match found {
                OnDisk::File => Ok::<ResolvedScript, u16>(script),
                OnDisk::Missing => Err(404u16),
                _ => Err(403u16),
            },
            Resolution::Probe(_) => r == Err::<ResolvedScript, u16>(
                match found {
                    OnDisk::Directory => 301u16,
                    OnDisk::Missing => 404u16,
                    _ => 403u16,
                },
            ),
            Resolution::BadPath => r == Err::<ResolvedScript, u16>(400),
        },
{
    match resolution {
        Resolution::Script(script) => match script_status(found) {
            None => Ok(script),
            Some(status) => Err(status),
        },
        Resolution::Probe(_) => Err(probe_status(found)),
        Resolution::BadPath => Err(400),
    }
}

proof fn lemma_cut(path: Seq<char>, exts: Seq<Seq<char>>)
    ensures
        cut_after(path, exts) matches Some(n) ==> 0 <= n <= path.len(),
    decreases exts.len(),
{
    if exts.len() > 0 {
        let marker = exts[0] + "/"@;
        match first_of(path, marker) {
            Some(i) => {
                let k = choose|k: int| first_stands_at(path, marker, k);
                assert(first_stands_at(path, marker, k));
            },
            None => {
                lemma_cut(path, exts.subrange(1, exts.len() as int));
            },
        }
    }
}

/// A script is looked up under the root by its name, whatever was asked for.
pub proof fn script_lies_under_the_root(app: AppConfig, path: Seq<char>)
    ensures
        resolved(app, path) matches Target::Script(s) ==> s.filename == trimmed_end(app.root@, '/')
            + s.script_name,
{
}

/// Where a path is cut, the script's name and what follows it are the path.
pub proof fn path_info_completes_the_script(app: AppConfig, path: Seq<char>)
    ensures
        resolved(app, path) matches Target::Script(s) ==> (s.path_info matches Some(extra)
            ==> s.script_name + extra == path),
{
    lemma_cut(path, executable_exts(app));
    if let Target::Script(s) = resolved(app, path) {
        if let Some(extra) = s.path_info {
            assert(s.script_name + extra =~= path);
        }
    }
}

} // verus!
