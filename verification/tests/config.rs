use buran::config::schema::{
    Action, Application, ApplicationRef, Config, Limits, Listener, OneOrMany, Processes, Queue,
    RouteStep, ServeSources, Share, ShareOptions, Yaml,
};
use buran::config::document::{read_document, DocumentError};
use buran::config::subst::{expand, substitute_env};
use buran::config::table::Table;
use buran::config::{parse_listener_addr, reject_anchors, validate, ConfigError, Validated};
use buran::router::addr::Addr;

/// A listener on a route.
fn to_route(name: &str) -> Listener {
    Listener { route: Some(name.to_string()), status: false }
}

fn listen(config: &mut Config, addr: &str, listener: Listener) {
    config.listeners.insert(addr.to_string(), listener);
}

fn route(config: &mut Config, name: &str, actions: Vec<Action>) {
    let steps = actions.into_iter().map(|action| RouteStep { match_: None, action }).collect();
    config.routes.insert(name.to_string(), steps);
}

fn returning(status: u16) -> Action {
    Action { return_: Some(status), ..Action::default() }
}

/// Minimal valid config with a single `return` route.
fn minimal() -> Config {
    with_action(returning(200))
}

/// One listener, one route, one action.
fn with_action(action: Action) -> Config {
    let mut c = Config::default();
    listen(&mut c, "*:8080", to_route("main"));
    route(&mut c, "main", vec![action]);
    c
}

fn application(module: &str) -> Application {
    Application {
        module: module.to_string(),
        root: None,
        script: None,
        index: None,
        user: None,
        group: None,
        working_directory: None,
        execute: vec![],
        environment: Table::new(),
        processes: Processes::default(),
        concurrency: None,
        queue: Queue::default(),
        limits: Limits::default(),
        options: None,
    }
}

fn to_app(name: &str) -> Action {
    Action { application: Some(ApplicationRef::Name(name.to_string())), ..Action::default() }
}

/// One listener, one route to one application.
fn with_app(app: Application) -> Config {
    let mut c = with_action(to_app("app"));
    c.applications.insert("app".to_string(), app);
    c
}

fn ok(config: Config) -> Validated {
    validate(config, 4).unwrap()
}

fn err(config: Config) -> ConfigError {
    validate(config, 4).err().expect("expected config to be rejected")
}

fn path_of(e: ConfigError) -> String {
    match e {
        ConfigError::Invalid { path, .. } => path,
        other => panic!("unexpected {other:?}"),
    }
}

#[test]
fn minimal_config_validates() {
    let v = ok(minimal());
    assert!(v.config.listeners.contains("*:8080"));
    assert!(v.config.routes.contains("main"));
}

#[test]
fn anchor_is_forbidden() {
    let yaml = "\
listeners:
  \"*:8080\":
    route: main
routes:
  main: &steps
    - action:
        return: 200
";
    assert!(matches!(reject_anchors(yaml), Err(ConfigError::AnchorForbidden { line: 5 })));
}

#[test]
fn alias_is_forbidden() {
    let yaml = "\
routes:
  main:
    - action: &a
        return: 200
  other: *a
";
    assert!(matches!(reject_anchors(yaml), Err(ConfigError::AnchorForbidden { .. })));
}

#[test]
fn alias_in_a_list_is_forbidden() {
    assert!(matches!(
        reject_anchors("a: 1\nb: [*a]\n"),
        Err(ConfigError::AnchorForbidden { line: 2 })
    ));
    assert!(reject_anchors("a: 1 # &not an anchor\n").is_ok());
}

#[test]
fn ampersand_inside_quotes_is_allowed() {
    // A `&` inside a quoted scalar is data, not an anchor.
    let yaml = "\
listeners:
  \"*:8080\":
    route: main
routes:
  main:
    - action:
        return: 302
        location: \"/a &b\"
";
    assert!(reject_anchors(yaml).is_ok());
    let mut a = returning(302);
    a.location = Some("/a &b".to_string());
    ok(with_action(a));
}

fn env(pairs: &[(&str, &str)]) -> Table<String> {
    let mut t = Table::new();
    for (k, v) in pairs {
        t.insert(k.to_string(), v.to_string());
    }
    t
}

#[test]
fn env_substitution_feeds_the_schema() {
    // Substitution operates on string scalars: env values naturally land
    // in string-typed fields such as `location`.
    let mut value = Yaml::Text("${BURAN_CFG_LOC}".to_string());
    substitute_env(&mut value, "$", &env(&[("BURAN_CFG_LOC", "/redirected")])).unwrap();
    let location = match value {
        Yaml::Text(s) => s,
        other => panic!("unexpected {other:?}"),
    };
    let mut a = returning(301);
    a.location = Some(location);
    let v = ok(with_action(a));
    assert_eq!(
        v.config.routes.get("main").unwrap()[0].action.location.as_deref(),
        Some("/redirected")
    );
}

#[test]
fn zero_http_timeout_is_rejected() {
    let mut c = minimal();
    c.settings.http.idle_timeout = 0;
    assert_eq!(path_of(err(c)), "settings.http.idle_timeout");
}

#[test]
fn missing_listeners_is_rejected() {
    let mut c = Config::default();
    route(&mut c, "main", vec![returning(200)]);
    assert_eq!(path_of(err(c)), "listeners");
}

#[test]
fn route_and_status_are_mutually_exclusive() {
    let mut c = minimal();
    listen(&mut c, "*:8080", Listener { route: Some("main".to_string()), status: true });
    assert!(matches!(err(c), ConfigError::Invalid { .. }));
}

#[test]
fn listener_needs_route_or_status() {
    let mut c = minimal();
    listen(&mut c, "*:8080", Listener { route: None, status: false });
    assert!(matches!(err(c), ConfigError::Invalid { .. }));
}

#[test]
fn status_listener_needs_no_route() {
    let mut c = Config::default();
    listen(&mut c, "*:9000", Listener { route: None, status: true });
    ok(c);
}

#[test]
fn unknown_route_reference_is_rejected() {
    let mut c = minimal();
    listen(&mut c, "*:8080", to_route("nope"));
    assert_eq!(path_of(err(c)), "listeners.\"*:8080\".route");
}

#[test]
fn unknown_application_reference_is_rejected() {
    assert!(matches!(err(with_action(to_app("ghost"))), ConfigError::Invalid { .. }));
}

#[test]
fn return_out_of_range_is_rejected() {
    assert_eq!(path_of(err(with_action(returning(999)))), "routes.main[0].action.return");
}

#[test]
fn location_requires_3xx_return() {
    let mut a = returning(200);
    a.location = Some("/elsewhere".to_string());
    assert!(matches!(err(with_action(a)), ConfigError::Invalid { .. }));
}

#[test]
fn location_with_redirect_is_ok() {
    let mut a = returning(301);
    a.location = Some("/elsewhere".to_string());
    ok(with_action(a));
}

#[test]
fn empty_route_is_rejected() {
    let mut c = Config::default();
    listen(&mut c, "*:8080", to_route("main"));
    route(&mut c, "main", vec![]);
    assert_eq!(path_of(err(c)), "routes.main");
}

#[test]
fn bad_listener_address_is_rejected() {
    let mut c = Config::default();
    listen(&mut c, "*:notaport", to_route("main"));
    route(&mut c, "main", vec![returning(200)]);
    assert!(matches!(err(c), ConfigError::Invalid { .. }));
}

#[test]
fn invalid_module_name_is_rejected() {
    assert_eq!(path_of(err(with_app(application("PHP_85")))), "applications.app.module");
}

#[test]
fn zero_fixed_processes_is_rejected() {
    let mut app = application("php85");
    app.processes = Processes::Fixed(0);
    assert!(matches!(err(with_app(app)), ConfigError::Invalid { .. }));
}

#[test]
fn dynamic_spare_over_max_is_rejected() {
    let mut app = application("php85");
    app.processes = Processes::Dynamic { max: 2, spare: 5, idle_timeout: 20 };
    assert_eq!(path_of(err(with_app(app))), "applications.app.processes.spare");
}

#[test]
fn bad_execute_extension_is_rejected() {
    let mut app = application("php85");
    app.execute = vec!["html".to_string()];
    assert_eq!(path_of(err(with_app(app))), "applications.app.execute");
}

#[test]
fn inline_application_is_extracted_under_generated_name() {
    let inline = ApplicationRef::Inline(Box::new(application("php85")));
    let v = ok(with_action(Action { application: Some(inline), ..Action::default() }));
    // Inline app moved into the global map under `main[0]`, and the
    // action rewritten to a name reference.
    assert!(v.applications.contains("main[0]"));
    match &v.config.routes.get("main").unwrap()[0].action.application {
        Some(ApplicationRef::Name(n)) => assert_eq!(n, "main[0]"),
        other => panic!("expected name reference, got {other:?}"),
    }
}

#[test]
fn fallback_requires_share() {
    let mut a = returning(200);
    a.fallback = Some(Box::new(returning(404)));
    assert!(matches!(err(with_action(a)), ConfigError::Invalid { .. }));
}

#[test]
fn zero_concurrency_is_rejected() {
    let mut app = application("php85");
    app.concurrency = Some(0);
    assert_eq!(path_of(err(with_app(app))), "applications.app.concurrency");
}

#[test]
fn concurrency_cap_is_parsed_and_optional() {
    let mut app = application("php85");
    app.concurrency = Some(64);
    let v = ok(with_app(app));
    assert_eq!(v.applications.get("app").unwrap().concurrency, Some(64));

    // Absent = trust the module's Hello declaration.
    let v = ok(with_app(application("php85")));
    assert_eq!(v.applications.get("app").unwrap().concurrency, None);
}

#[test]
fn websocket_defaults_are_sane() {
    let v = ok(minimal());
    let ws = &v.config.settings.http.websocket;
    assert_eq!(ws.idle_timeout, 600);
    assert_eq!(ws.max_message_size, 1024 * 1024);
}

#[test]
fn websocket_settings_are_parsed_and_validated() {
    let mut c = minimal();
    c.settings.http.websocket.idle_timeout = 30;
    c.settings.http.websocket.max_message_size = 4096;
    let v = ok(c);
    assert_eq!(v.config.settings.http.websocket.idle_timeout, 30);
    assert_eq!(v.config.settings.http.websocket.max_message_size, 4096);

    let mut c = minimal();
    c.settings.http.websocket.idle_timeout = 0;
    assert_eq!(path_of(err(c)), "settings.http.websocket.idle_timeout");
}

#[test]
fn automatic_process_counts_are_resolved() {
    let v = ok(with_app(application("php85")));
    assert_eq!(v.applications.get("app").unwrap().processes, Processes::Fixed(4));
}

#[test]
fn the_given_applications_are_kept() {
    let mut app = application("php85");
    app.execute = vec![".html".to_string()];
    app.environment.insert("K".to_string(), "v".to_string());
    app.options = Some(Yaml::List(vec![text("a"), Yaml::Null]));
    app.index = Some("index.php".to_string());
    let v = ok(with_app(app));
    assert_eq!(v.config.applications.len(), 1);
    let kept = v.config.applications.get("app").unwrap();
    assert_eq!(kept.module, "php85");
    assert_eq!(kept.execute, vec![".html".to_string()]);
    assert_eq!(kept.environment.get("K"), Some(&"v".to_string()));
    assert_eq!(kept.index.as_deref(), Some("index.php"));
    assert!(matches!(&kept.options, Some(Yaml::List(l)) if l.len() == 2 && as_str(&l[0]) == "a"));
    // The process count is as it was written; the settled one stands apart.
    assert_eq!(kept.processes, Processes::default());
    assert_eq!(v.applications.get("app").unwrap().processes, Processes::Fixed(4));
}

#[test]
fn a_share_may_fall_back() {
    let share = Share::Full(ShareOptions {
        share: OneOrMany::One("/www$uri".to_string()),
        index: None,
        types: None,
        follow_symlinks: None,
        serve_sources: ServeSources::Off,
    });
    let a = Action {
        share: Some(share),
        fallback: Some(Box::new(returning(404))),
        ..Action::default()
    };
    ok(with_action(a));
}

#[test]
fn two_terminals_are_rejected() {
    let mut a = returning(200);
    a.route = Some("main".to_string());
    assert!(matches!(err(with_action(a)), ConfigError::Invalid { .. }));
    assert!(matches!(err(with_action(Action::default())), ConfigError::Invalid { .. }));
}

#[test]
fn listener_addresses() {
    assert_eq!(parse_listener_addr("*:80"), Ok((Addr::V4([0, 0, 0, 0]), 80)));
    assert_eq!(parse_listener_addr("127.0.0.1:8080"), Ok((Addr::V4([127, 0, 0, 1]), 8080)));
    let mut one = [0u8; 16];
    one[15] = 1;
    assert_eq!(parse_listener_addr("[::1]:443"), Ok((Addr::V6(one), 443)));
    assert_eq!(
        parse_listener_addr("x"),
        Err("listener address must be \"host:port\" or \"*:port\"".to_string())
    );
    assert_eq!(
        parse_listener_addr(":80"),
        Err("listener host must not be empty (use \"*\" for any)".to_string())
    );
    assert_eq!(
        parse_listener_addr("*:65536"),
        Err("\"65536\" is not a valid port".to_string())
    );
    assert_eq!(
        parse_listener_addr("host:1"),
        Err("\"host\" is not an IP address or \"*\"".to_string())
    );
}

#[test]
fn process_counts_as_they_are_written() {
    assert_eq!(Processes::count(3), Ok(Processes::Fixed(3)));
    assert_eq!(
        Processes::count(4294967296),
        Err("processes 4294967296 exceeds u32".to_string())
    );
    assert_eq!(Processes::signed_count(3), Ok(Processes::Fixed(3)));
    assert_eq!(Processes::signed_count(-3), Err("processes -3 out of range".to_string()));
    assert_eq!(
        Processes::signed_count(i64::MIN),
        Err("processes -9223372036854775808 out of range".to_string())
    );
    assert_eq!(Processes::word("auto"), Ok(Processes::Auto));
    assert_eq!(
        Processes::word("many"),
        Err("expected a number, \"auto\", or a table, got \"many\"".to_string())
    );
}

#[test]
fn errors_of_a_configuration_in_words() {
    assert_eq!(
        ConfigError::AnchorForbidden { line: 5 }.message(),
        "YAML anchors/aliases are not allowed (line 5)"
    );
    assert_eq!(
        ConfigError::EnvMissing { name: "A".to_string(), path: "b.c".to_string() }.message(),
        "environment variable \"A\" referenced at b.c is not set"
    );
    assert_eq!(
        ConfigError::invalid("a".to_string(), "wrong".to_string()).message(),
        "a: wrong"
    );
}

#[test]
fn expands_full_token() {
    let e = env(&[("BURAN_SUBST_A", "world")]);
    assert_eq!(expand("hello ${BURAN_SUBST_A}!", "$", &e).unwrap(), "hello world!");
}

#[test]
fn expands_multiple_tokens() {
    let e = env(&[("BURAN_SUBST_H", "example.test"), ("BURAN_SUBST_P", "8080")]);
    assert_eq!(
        expand("${BURAN_SUBST_H}:${BURAN_SUBST_P}", "$", &e).unwrap(),
        "example.test:8080"
    );
}

#[test]
fn shorthand_dollar_name_is_literal() {
    // Only `${NAME}` is a token; `$NAME` is passed through verbatim.
    let e = env(&[("BURAN_SUBST_S", "x")]);
    assert_eq!(expand("$BURAN_SUBST_S", "$", &e).unwrap(), "$BURAN_SUBST_S");
}

#[test]
fn unterminated_token_is_kept_literally() {
    assert_eq!(expand("prefix ${UNCLOSED", "$", &env(&[])).unwrap(), "prefix ${UNCLOSED");
}

#[test]
fn missing_variable_errors_with_path() {
    let err = expand("${BURAN_SUBST_MISSING}", "$.listeners", &env(&[])).unwrap_err();
    match err {
        ConfigError::EnvMissing { name, path } => {
            assert_eq!(name, "BURAN_SUBST_MISSING");
            assert_eq!(path, "listeners");
        }
        other => panic!("expected EnvMissing, got {other:?}"),
    }
}

fn text(s: &str) -> Yaml {
    Yaml::Text(s.to_string())
}

fn get<'a>(v: &'a Yaml, key: &str) -> &'a Yaml {
    match v {
        Yaml::Mapping(pairs) => {
            &pairs.iter().find(|(k, _)| matches!(k, Yaml::Text(s) if s == key)).unwrap().1
        }
        other => panic!("no mapping: {other:?}"),
    }
}

fn as_str(v: &Yaml) -> &str {
    match v {
        Yaml::Text(s) => s,
        other => panic!("no text: {other:?}"),
    }
}

#[test]
fn substitute_walks_nested_structures() {
    let e = env(&[("BURAN_SUBST_N", "resolved")]);
    let mut value = Yaml::Mapping(vec![
        (text("root"), text("${BURAN_SUBST_N}")),
        (text("list"), Yaml::List(vec![text("plain"), text("${BURAN_SUBST_N}")])),
        (text("map"), Yaml::Mapping(vec![(text("key"), text("${BURAN_SUBST_N}"))])),
    ]);
    substitute_env(&mut value, "$", &e).unwrap();
    assert_eq!(as_str(get(&value, "root")), "resolved");
    match get(&value, "list") {
        Yaml::List(items) => assert_eq!(as_str(&items[1]), "resolved"),
        other => panic!("no list: {other:?}"),
    }
    assert_eq!(as_str(get(get(&value, "map"), "key")), "resolved");
}

#[test]
fn scalars_without_token_are_untouched() {
    let mut value = Yaml::Mapping(vec![
        (text("n"), Yaml::Number("42".to_string())),
        (text("s"), text("plain")),
        (text("b"), Yaml::Bool(true)),
    ]);
    substitute_env(&mut value, "$", &env(&[])).unwrap();
    assert!(matches!(get(&value, "n"), Yaml::Number(n) if n == "42"));
    assert_eq!(as_str(get(&value, "s")), "plain");
    assert!(matches!(get(&value, "b"), Yaml::Bool(true)));
}

#[test]
fn documents_are_read_without_anchors() {
    let value = read_document("a: {b: [1, two]}\n").ok().unwrap();
    let list = value.get("a").and_then(|a| a.get("b")).unwrap();
    assert_eq!(list.get(0).and_then(|v| v.as_u64()), Some(1));
    assert_eq!(list.get(1).and_then(|v| v.as_str()), Some("two"));
    assert!(matches!(
        read_document("a: 1\nb: &x 2\nc: *x\n"),
        Err(DocumentError::Refused(ConfigError::AnchorForbidden { line: 2 }))
    ));
    assert!(matches!(read_document("a: [\n"), Err(DocumentError::Unreadable(_))));
}
