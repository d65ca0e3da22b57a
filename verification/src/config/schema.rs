//! Typed configuration schema.

use vstd::prelude::*;
use vstd::string::*;

use crate::bytes::{chars, dec};
use crate::config::table::Table;
use crate::text::{cat2, cat3, decimal, same};

verus! {

/// A parsed document: what an application's module-specific options hold.
#[derive(Debug)]
pub enum Yaml {
    Null,
    Bool(bool),
    /// A number, in its decimal text form.
    Number(String),
    Text(String),
    List(Vec<Yaml>),
    Mapping(Vec<(Yaml, Yaml)>),
}

/// One-or-many pattern value: `uri: "*.php"` or `uri: ["/a/*", "!/a/b"]`.
#[derive(Debug)]
pub enum OneOrMany<T> {
    One(T),
    Many(Vec<T>),
}

impl<T> OneOrMany<T> {
    /// The values in order.
    pub open spec fn items(self) -> Seq<T> {
        match self {
            OneOrMany::One(v) => seq![v],
            OneOrMany::Many(v) => v@,
        }
    }

    pub fn iter(&self) -> (r: Vec<&T>)
        ensures
            r@.len() == self.items().len(),
            forall|i: int| 0 <= i < r@.len() ==> *(#[trigger] r@[i]) == self.items()[i],
    {
        let mut out: Vec<&T> = Vec::new();
        match self {
            OneOrMany::One(v) => {
                out.push(v);
            },
            OneOrMany::Many(v) => {
                let mut i: usize = 0;
                while i < v.len()
                    invariant
                        i <= v@.len(),
                        out@.len() == i,
                        forall|j: int| 0 <= j < i ==> *(#[trigger] out@[j]) == v@[j],
                    decreases v@.len() - i,
                {
                    out.push(&v[i]);
                    i += 1;
                }
            },
        }
        out
    }

    pub fn len(&self) -> (r: usize)
        ensures
            r == self.items().len(),
    {
        match self {
            OneOrMany::One(_) => 1,
            OneOrMany::Many(v) => v.len(),
        }
    }

    pub fn is_empty(&self) -> (r: bool)
        ensures
            r == (self.items().len() == 0),
    {
        self.len() == 0
    }
}

#[derive(Debug)]
pub struct Config {
    pub settings: Settings,
    pub listeners: Table<Listener>,
    pub routes: Table<Vec<RouteStep>>,
    pub applications: Table<Application>,
    pub access_log: Option<String>,
    /// Diagnostic log destination; absent means standard error.
    pub error_log: Option<String>,
}

impl Default for Config {
    fn default() -> (r: Self)
        ensures
            r.settings.is_default(),
            r.listeners.entries().len() == 0,
            r.routes.entries().len() == 0,
            r.applications.entries().len() == 0,
            r.access_log is None,
            r.error_log is None,
    {
        Config {
            settings: Settings::default(),
            listeners: Table::new(),
            routes: Table::new(),
            applications: Table::new(),
            access_log: None,
            error_log: None,
        }
    }
}

#[derive(Debug)]
pub struct Settings {
    pub listen_threads: Option<usize>,
    /// Runtime module directory; `module: php85` is `<modules>/buran-php85`.
    pub modules: String,
    pub http: HttpSettings,
}

impl Settings {
    pub open spec fn is_default(self) -> bool {
        &&& self.listen_threads is None
        &&& self.modules@ == "/usr/lib/buran/modules"@
        &&& self.http.is_default()
    }
}

impl Default for Settings {
    fn default() -> (r: Self)
        ensures
            r.is_default(),
    {
        Settings {
            listen_threads: None,
            modules: "/usr/lib/buran/modules".to_owned(),
            http: HttpSettings::default(),
        }
    }
}

#[derive(Debug)]
pub struct HttpSettings {
    /// Seconds.
    pub header_read_timeout: u64,
    pub body_read_timeout: u64,
    pub send_timeout: u64,
    pub idle_timeout: u64,
    pub max_body_size: u64,
    /// Bytes per second that a request body must arrive with, once a grace
    /// window of `body_read_timeout` is over; 0 turns the floor off.
    pub min_body_rate: u64,
    /// Process-wide cap on concurrent connections; 0 turns it off.
    pub max_connections: u64,
    pub body_temp_path: String,
    pub static_: Option<StaticSettings>,
    pub server_version: bool,
    pub websocket: WebsocketSettings,
}

impl HttpSettings {
    pub open spec fn is_default(self) -> bool {
        &&& self.header_read_timeout == 30
        &&& self.body_read_timeout == 30
        &&& self.send_timeout == 30
        &&& self.idle_timeout == 180
        &&& self.max_body_size == 8388608
        &&& self.min_body_rate == 256
        &&& self.max_connections == 4096
        &&& self.body_temp_path@ == "/var/tmp/buran"@
        &&& self.static_ is None
        &&& self.server_version
        &&& self.websocket.is_default()
    }
}

impl Default for HttpSettings {
    fn default() -> (r: Self)
        ensures
            r.is_default(),
    {
        HttpSettings {
            header_read_timeout: 30,
            body_read_timeout: 30,
            send_timeout: 30,
            idle_timeout: 180,
            max_body_size: 8388608,
            min_body_rate: 256,
            max_connections: 4096,
            body_temp_path: "/var/tmp/buran".to_owned(),
            static_: None,
            server_version: true,
            websocket: WebsocketSettings::default(),
        }
    }
}

/// Upgraded connections live outside the regular HTTP budgets.
#[derive(Debug)]
pub struct WebsocketSettings {
    /// Seconds of silence in both directions before the tunnel is closed.
    pub idle_timeout: u64,
    /// Largest complete message accepted from a client.
    pub max_message_size: u64,
}

impl WebsocketSettings {
    pub open spec fn is_default(self) -> bool {
        self.idle_timeout == 600 && self.max_message_size == 1048576
    }
}

impl Default for WebsocketSettings {
    fn default() -> (r: Self)
        ensures
            r.is_default(),
    {
        WebsocketSettings { idle_timeout: 600, max_message_size: 1048576 }
    }
}

#[derive(Debug)]
pub struct StaticSettings {
    /// MIME type to extensions.
    pub mime_types: Table<Vec<String>>,
}

impl Default for StaticSettings {
    fn default() -> (r: Self)
        ensures
            r.mime_types.entries().len() == 0,
    {
        StaticSettings { mime_types: Table::new() }
    }
}

/// A listener is either an entry point into routing or the status endpoint.
#[derive(Debug)]
pub struct Listener {
    pub route: Option<String>,
    pub status: bool,
}

#[derive(Debug)]
pub struct RouteStep {
    pub match_: Option<Match>,
    pub action: Action,
}

#[derive(Debug)]
pub struct Match {
    pub method: Option<OneOrMany<String>>,
    pub host: Option<OneOrMany<String>>,
    pub uri: Option<OneOrMany<String>>,
    pub query: Option<OneOrMany<String>>,
    pub headers: Option<Table<OneOrMany<String>>>,
    pub arguments: Option<Table<OneOrMany<String>>>,
    pub source: Option<OneOrMany<String>>,
}

impl Default for Match {
    fn default() -> (r: Self)
        ensures
            r.method is None && r.host is None && r.uri is None && r.query is None,
            r.headers is None && r.arguments is None && r.source is None,
    {
        Match {
            method: None,
            host: None,
            uri: None,
            query: None,
            headers: None,
            arguments: None,
            source: None,
        }
    }
}

/// Exactly one terminal (`application`, `route`, `share`, `return`) and
/// optional modifiers.
#[derive(Debug)]
pub struct Action {
    pub application: Option<ApplicationRef>,
    pub route: Option<String>,
    pub share: Option<Share>,
    pub return_: Option<u16>,
    pub location: Option<String>,
    pub rewrite: Option<String>,
    pub response_headers: Option<Table<Option<String>>>,
    /// Taken when `share` fails with a 40x.
    pub fallback: Option<Box<Action>>,
}

impl Action {
    pub open spec fn is_empty(self) -> bool {
        &&& self.application is None
        &&& self.route is None
        &&& self.share is None
        &&& self.return_ is None
        &&& self.location is None
        &&& self.rewrite is None
        &&& self.response_headers is None
        &&& self.fallback is None
    }
}

impl Default for Action {
    fn default() -> (r: Self)
        ensures
            r.is_empty(),
    {
        Action {
            application: None,
            route: None,
            share: None,
            return_: None,
            location: None,
            rewrite: None,
            response_headers: None,
            fallback: None,
        }
    }
}

/// `application:` takes a name or an inline definition.
#[derive(Debug)]
pub enum ApplicationRef {
    Name(String),
    Inline(Box<Application>),
}

/// `share:` takes a template path or an object with options.
#[derive(Debug)]
pub enum Share {
    Path(String),
    Full(ShareOptions),
}

/// Opt-out of source-leak protection: off, for every source extension, or for
/// the named ones only.
#[derive(Debug)]
pub enum ServeSources {
    Off,
    All,
    Only(Vec<String>),
}

impl ServeSources {
    /// Whether this opts out of protection in any form.
    pub fn is_enabled(&self) -> (r: bool)
        ensures
            r == !(*self is Off),
    {
        match self {
            ServeSources::Off => false,
            _ => true,
        }
    }
}

impl Default for ServeSources {
    fn default() -> (r: Self)
        ensures
            r is Off,
    {
        ServeSources::Off
    }
}

#[derive(Debug)]
pub struct ShareOptions {
    pub share: OneOrMany<String>,
    pub index: Option<String>,
    pub types: Option<OneOrMany<String>>,
    pub follow_symlinks: Option<bool>,
    pub serve_sources: ServeSources,
}

#[derive(Debug)]
pub struct Application {
    /// Module binary suffix.
    pub module: String,
    pub root: Option<String>,
    pub script: Option<String>,
    pub index: Option<String>,
    pub user: Option<String>,
    pub group: Option<String>,
    pub working_directory: Option<String>,
    /// Extra extensions that the module treats as executable.
    pub execute: Vec<String>,
    pub environment: Table<String>,
    pub processes: Processes,
    /// Cap on concurrent requests per worker process.
    pub concurrency: Option<u32>,
    pub queue: Queue,
    pub limits: Limits,
    /// Module-specific options.
    pub options: Option<Yaml>,
}

#[derive(Debug, Clone, Copy, PartialEq, Eq, Structural)]
pub enum Processes {
    Fixed(u32),
    Dynamic { max: u32, spare: u32, idle_timeout: u64 },
    /// As many as there are processors; made `Fixed` when the configuration
    /// is loaded.
    Auto,
}

impl Processes {
    /// Upper bound on the number of workers, given the count for `Auto`.
    pub fn max(&self, auto_workers: u32) -> (r: u32)
        ensures
            r == (match *self {
                Processes::Fixed(n) => n,
                Processes::Dynamic { max, .. } => max,
                Processes::Auto => auto_workers,
            }),
    {
        match *self {
            Processes::Fixed(n) => n,
            Processes::Dynamic { max, .. } => max,
            Processes::Auto => auto_workers,
        }
    }
}

/// A decimal number with its sign.
pub open spec fn signed(v: i64) -> Seq<char> {
    if v < 0 {
        "-"@ + chars(dec((-v) as nat))
    } else {
        chars(dec(v as nat))
    }
}

fn signed_text(v: i64) -> (r: String)
    ensures
        r@ == signed(v),
{
    if v == i64::MIN {
        let r = cat2("-", decimal(9223372036854775808u64).as_str());
        return r;
    }
    if v < 0 {
        return cat2("-", decimal((-v) as u64).as_str());
    }
    decimal(v as u64)
}

impl Processes {
    /// A number of workers, as it is written.
    pub fn count(v: u64) -> (r: Result<Processes, String>)
        ensures
            if v <= u32::MAX {
                r == Ok::<Processes, String>(Processes::Fixed(v as u32))
            } else {
                r matches Err(m) && m@ == "processes "@ + chars(dec(v as nat)) + " exceeds u32"@
            },
    {
        if v <= u32::MAX as u64 {
            Ok(Processes::Fixed(v as u32))
        } else {
            Err(cat3("processes ", decimal(v).as_str(), " exceeds u32"))
        }
    }

    /// A number of workers that is written with a sign.
    pub fn signed_count(v: i64) -> (r: Result<Processes, String>)
        ensures
            if 0 <= v <= u32::MAX {
                r == Ok::<Processes, String>(Processes::Fixed(v as u32))
            } else {
                r matches Err(m) && m@ == "processes "@ + signed(v) + " out of range"@
            },
    {
        if 0 <= v && v <= u32::MAX as i64 {
            Ok(Processes::Fixed(v as u32))
        } else {
            Err(cat3("processes ", signed_text(v).as_str(), " out of range"))
        }
    }

    /// A word in place of a number of workers.
    pub fn word(v: &str) -> (r: Result<Processes, String>)
        ensures
            if v@ == "auto"@ {
                r == Ok::<Processes, String>(Processes::Auto)
            } else {
                r matches Err(m) && m@ == "expected a number, \"auto\", or a table, got \""@ + v@
                    + "\""@
            },
    {
        if same(v, "auto") {
            Ok(Processes::Auto)
        } else {
            Err(cat3("expected a number, \"auto\", or a table, got \"", v, "\""))
        }
    }
}

impl Default for Processes {
    fn default() -> (r: Self)
        ensures
            r == Processes::Auto,
    {
        Processes::Auto
    }
}

/// Seconds before an extra idle worker is retired, where none are given.
pub fn default_idle_timeout() -> (r: u64)
    ensures
        r == 20,
{
    20
}

#[derive(Debug, Clone, Copy, PartialEq, Eq, Structural)]
pub struct Queue {
    /// Cap on parked requests.
    pub max: u32,
    /// Seconds that a request may wait.
    pub timeout: u64,
}

impl Default for Queue {
    fn default() -> (r: Self)
        ensures
            r == (Queue { max: 24000, timeout: 15 }),
    {
        Queue { max: 24000, timeout: 15 }
    }
}

#[derive(Debug, Clone, Copy, PartialEq, Eq, Structural)]
pub struct Limits {
    /// Seconds that the router waits for the worker's next output.
    pub response_timeout: u64,
    /// Seconds that a worker may spend on one task in total.
    pub task_timeout: u64,
    /// A worker is recycled after this many requests; 0 means never.
    pub requests: u64,
}

impl Default for Limits {
    fn default() -> (r: Self)
        ensures
            r == (Limits { response_timeout: 60, task_timeout: 300, requests: 0 }),
    {
        Limits { response_timeout: 60, task_timeout: 300, requests: 0 }
    }
}

/// Concurrency of a worker that declares none, where no cap is configured.
pub const DEFAULT_CONCURRENCY_CAP: u32 = 1024;

} // verus!
