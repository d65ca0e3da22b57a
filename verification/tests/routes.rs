use buran::config::schema::{
    Action, Application, ApplicationRef, Config, Limits, Listener, Match, OneOrMany, Processes,
    Queue, RouteStep, Share,
};
use buran::config::table::Table;
use buran::config::validate;
use buran::router::addr::Addr;
use buran::router::args::{decode_component, lookup, parse_args};
use buran::router::compile::{compile, RouteError};
use buran::router::matching::MatchError;
use buran::router::routes::{CompiledRoutes, Decision, RequestMeta};

fn meta<'a>(path: &'a [u8], query: &'a [u8]) -> RequestMeta<'a> {
    RequestMeta {
        method: b"GET",
        host: b"example.test",
        path,
        query,
        headers: &[],
        remote: Addr::V4([127, 0, 0, 1]),
        remote_text: "127.0.0.1",
    }
}

fn config(routes: Vec<(&str, Vec<RouteStep>)>) -> Config {
    let mut c = Config::default();
    let listener = Listener { route: Some("main".to_string()), status: false };
    c.listeners.insert("*:8080".to_string(), listener);
    for (name, steps) in routes {
        c.routes.insert(name.to_string(), steps);
    }
    c
}

fn compiled(routes: Vec<(&str, Vec<RouteStep>)>) -> CompiledRoutes {
    match compile(&validate(config(routes), 1).unwrap()) {
        Ok(r) => r,
        Err(_) => panic!("routes do not compile"),
    }
}

fn always(action: Action) -> RouteStep {
    RouteStep { match_: None, action }
}

fn on_uri(uri: &str, action: Action) -> RouteStep {
    let m = Match { uri: Some(OneOrMany::One(uri.to_string())), ..Match::default() };
    RouteStep { match_: Some(m), action }
}

fn returning(status: u16) -> Action {
    Action { return_: Some(status), ..Action::default() }
}

fn jump(name: &str) -> Action {
    Action { route: Some(name.to_string()), ..Action::default() }
}

#[test]
fn parse_args_decodes_pairs() {
    let args = parse_args(b"a=1&b=hello+world&c=%2F&flag");
    assert_eq!(args[0], (b"a".to_vec(), b"1".to_vec()));
    assert_eq!(args[1], (b"b".to_vec(), b"hello world".to_vec()));
    assert_eq!(args[2], (b"c".to_vec(), b"/".to_vec()));
    assert_eq!(args[3], (b"flag".to_vec(), b"".to_vec()));
}

#[test]
fn parse_args_skips_empty_segments() {
    assert!(parse_args(b"").is_empty());
    assert_eq!(parse_args(b"&&x=1&&").len(), 1);
}

#[test]
fn arguments_are_looked_up_by_name() {
    let args = parse_args(b"a=1&b=2");
    assert_eq!(lookup(&args, b"b"), Some(&b"2"[..]));
    assert_eq!(lookup(&args, b"c"), None);
}

#[test]
fn decode_component_plus_and_percent() {
    assert_eq!(decode_component(b"a+b%20c"), b"a b c");
}

#[test]
fn matched_step_returns() {
    let routes =
        compiled(vec![("main", vec![on_uri("/health", returning(204)), always(returning(404))])]);
    assert!(matches!(
        routes.decide("main", &meta(b"/health", b"")).decision,
        Decision::Return { status: 204, .. }
    ));
    assert!(matches!(
        routes.decide("main", &meta(b"/other", b"")).decision,
        Decision::Return { status: 404, .. }
    ));
}

#[test]
fn route_jump_is_followed() {
    let routes = compiled(vec![
        ("main", vec![always(jump("sub"))]),
        ("sub", vec![always(returning(200))]),
    ]);
    assert!(matches!(
        routes.decide("main", &meta(b"/x", b"")).decision,
        Decision::Return { status: 200, .. }
    ));
}

#[test]
fn no_matching_step_is_not_found() {
    let routes = compiled(vec![("main", vec![on_uri("/only", returning(200))])]);
    assert!(matches!(routes.decide("main", &meta(b"/nope", b"")).decision, Decision::NotFound));
    // Unknown route name also yields NotFound.
    assert!(matches!(routes.decide("ghost", &meta(b"/x", b"")).decision, Decision::NotFound));
}

#[test]
fn rewrite_replaces_path_and_query() {
    let action = Action { rewrite: Some("/index.php?$args".to_string()), ..returning(200) };
    let routes = compiled(vec![("main", vec![always(action)])]);
    let outcome = routes.decide("main", &meta(b"/foo", b"a=1"));
    assert!(matches!(outcome.decision, Decision::Return { status: 200, .. }));
    let (path, query) = outcome.rewritten.unwrap();
    assert_eq!(path, b"/index.php");
    assert_eq!(query, b"a=1");
}

#[test]
fn response_headers_are_collected() {
    let mut headers = Table::new();
    headers.insert("X-Test".to_string(), Some("hello".to_string()));
    let action = Action { response_headers: Some(headers), ..returning(200) };
    let routes = compiled(vec![("main", vec![always(action)])]);
    let outcome = routes.decide("main", &meta(b"/x", b""));
    assert_eq!(outcome.response_headers, vec![("X-Test", Some("hello"))]);
}

#[test]
fn share_decision_carries_defaults() {
    let action =
        Action { share: Some(Share::Path("/var/www$uri".to_string())), ..Action::default() };
    let routes = compiled(vec![("main", vec![always(action)])]);
    match routes.decide("main", &meta(b"/a.txt", b"")).decision {
        Decision::Share { template, index, .. } => {
            assert_eq!(template, "/var/www$uri");
            assert_eq!(index, "index.html");
        }
        _ => panic!("expected Share"),
    }
}

fn to_app(name: &str) -> Action {
    Action { application: Some(ApplicationRef::Name(name.to_string())), ..Action::default() }
}

fn share_before(fallback: Action) -> Action {
    Action {
        share: Some(Share::Path("/www$uri".to_string())),
        fallback: Some(Box::new(fallback)),
        ..Action::default()
    }
}

/// The extensions that the share at the front of `main` keeps back.
fn kept_back(fallback: Action) -> Vec<String> {
    let app = |ext: &str| Application {
        module: "php85".to_string(),
        root: None,
        script: None,
        index: None,
        user: None,
        group: None,
        working_directory: None,
        execute: vec![ext.to_string()],
        environment: Table::new(),
        processes: Processes::default(),
        concurrency: None,
        queue: Queue::default(),
        limits: Limits::default(),
        options: None,
    };
    let mut c = config(vec![
        ("main", vec![always(share_before(fallback))]),
        ("one", vec![on_uri("/a", returning(404)), always(jump("two"))]),
        ("two", vec![on_uri("/b", to_app("site")), always(jump("one"))]),
    ]);
    c.applications.insert("site".to_string(), app(".HTML"));
    c.applications.insert("other".to_string(), app(".inc"));
    let routes = match compile(&validate(c, 1).unwrap()) {
        Ok(r) => r,
        Err(_) => panic!("routes do not compile"),
    };
    match routes.decide("main", &meta(b"/x", b"")).decision {
        Decision::Share { extra_source_exts, .. } => extra_source_exts.to_vec(),
        _ => panic!("expected a share"),
    }
}

#[test]
fn a_share_keeps_back_what_its_fallback_executes() {
    assert_eq!(kept_back(to_app("site")), vec!["html"]);
    // By jumps, and by a share between.
    assert_eq!(kept_back(jump("one")), vec!["html"]);
    assert_eq!(kept_back(share_before(jump("two"))), vec!["html"]);
    assert_eq!(kept_back(share_before(to_app("other"))), vec!["inc"]);
    assert!(kept_back(returning(404)).is_empty());
}

#[test]
fn a_fallback_that_does_not_compile_is_refused() {
    let bad = Action { rewrite: Some("/$nothing".to_string()), ..returning(200) };
    let c = config(vec![("main", vec![always(share_before(bad))])]);
    assert!(matches!(compile(&validate(c, 1).unwrap()), Err(RouteError::Template(_))));
}

#[test]
fn route_jump_loop_is_bounded() {
    let routes = compiled(vec![("main", vec![always(jump("main"))])]);
    // Self-jump must terminate via the hop limit, not spin forever.
    assert!(matches!(routes.decide("main", &meta(b"/x", b"")).decision, Decision::NotFound));
}

#[test]
fn argument_matcher_reads_query() {
    let mut arguments = Table::new();
    arguments.insert("debug".to_string(), OneOrMany::One("1".to_string()));
    let m = Match { arguments: Some(arguments), ..Match::default() };
    let routes = compiled(vec![(
        "main",
        vec![
            RouteStep { match_: Some(m), action: returning(200) },
            always(returning(403)),
        ],
    )]);
    assert!(matches!(
        routes.decide("main", &meta(b"/x", b"debug=1")).decision,
        Decision::Return { status: 200, .. }
    ));
    assert!(matches!(
        routes.decide("main", &meta(b"/x", b"debug=0")).decision,
        Decision::Return { status: 403, .. }
    ));
}

#[test]
fn argument_names_keep_their_case() {
    let mut arguments = Table::new();
    arguments.insert("Debug".to_string(), OneOrMany::One("1".to_string()));
    let m = Match { arguments: Some(arguments), ..Match::default() };
    let routes = compiled(vec![(
        "main",
        vec![
            RouteStep { match_: Some(m), action: returning(200) },
            always(returning(403)),
        ],
    )]);
    let status = |query: &[u8]| match routes.decide("main", &meta(b"/x", query)).decision {
        Decision::Return { status, .. } => status,
        _ => panic!("expected a status"),
    };
    assert_eq!(status(b"Debug=1"), 200);
    assert_eq!(status(b"debug=1"), 403);
}

#[test]
fn sources_and_headers_are_matched() {
    let mut headers = Table::new();
    headers.insert("X-Key".to_string(), OneOrMany::Many(vec!["a*".to_string()]));
    let m = Match {
        source: Some(OneOrMany::One("10.0.0.0/8".to_string())),
        headers: Some(headers),
        ..Match::default()
    };
    let routes =
        compiled(vec![("main", vec![RouteStep { match_: Some(m), action: returning(200) }])]);
    let list = [(b"x-key".to_vec(), b"abc".to_vec())];
    let mut at = meta(b"/", b"");
    at.headers = &list;
    assert!(matches!(routes.decide("main", &at).decision, Decision::NotFound));
    at.remote = Addr::V4([10, 1, 2, 3]);
    assert!(matches!(
        routes.decide("main", &at).decision,
        Decision::Return { status: 200, .. }
    ));
    at.headers = &[];
    assert!(matches!(routes.decide("main", &at).decision, Decision::NotFound));
}

#[test]
fn bad_patterns_do_not_compile() {
    let c = config(vec![("main", vec![on_uri("~(", returning(200))])]);
    match compile(&validate(c, 1).unwrap()) {
        Err(RouteError::Match(e)) => assert_eq!(e, MatchError::BadRegex(0)),
        _ => panic!("expected a bad pattern"),
    }
    let action = Action { rewrite: Some("$nope".to_string()), ..returning(200) };
    let c = config(vec![("main", vec![always(action)])]);
    assert!(matches!(compile(&validate(c, 1).unwrap()), Err(RouteError::Template(_))));
}
