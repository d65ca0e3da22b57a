use buran::config::schema::{Application, Limits, Processes, Queue, Yaml};
use buran::config::table::Table;
use buran::supervisor::{
    module_app_config, resolve_ids, yaml_scalar, DropIds, Identity, Lookup, UserEntry,
};

fn text(s: &str) -> Yaml {
    Yaml::Text(s.to_string())
}

#[test]
fn yaml_scalar_covers_scalar_kinds() {
    assert_eq!(yaml_scalar(&text("hello")).as_deref(), Some("hello"));
    assert_eq!(yaml_scalar(&Yaml::Number("42".to_string())).as_deref(), Some("42"));
    assert_eq!(yaml_scalar(&Yaml::Number("1.5".to_string())).as_deref(), Some("1.5"));
    assert_eq!(yaml_scalar(&Yaml::Bool(true)).as_deref(), Some("1"));
    assert_eq!(yaml_scalar(&Yaml::Bool(false)).as_deref(), Some("0"));
    // Non-scalars are dropped.
    let list = Yaml::List(vec![Yaml::Number("1".to_string()), Yaml::Number("2".to_string())]);
    assert_eq!(yaml_scalar(&list), None);
    assert_eq!(yaml_scalar(&Yaml::Null), None);
}

fn bare_app() -> Application {
    Application {
        module: "php85".to_string(),
        root: None,
        script: None,
        index: None,
        user: None,
        group: None,
        working_directory: None,
        execute: vec![],
        environment: Table::new(),
        processes: Processes::default(),
        concurrency: None,
        queue: Queue::default(),
        limits: Limits::default(),
        options: None,
    }
}

#[test]
fn module_app_config_serializes_expected_fields() {
    let mut app = bare_app();
    app.root = Some("www".to_string());
    app.script = Some("index.php".to_string());
    app.index = Some("index.php".to_string());
    app.execute = vec![".html".to_string()];
    app.options = Some(Yaml::Mapping(vec![
        (text("file"), text("/etc/php.ini")),
        (text("admin"), Yaml::Mapping(vec![(text("memory_limit"), text("256M"))])),
        (text("user"), Yaml::Mapping(vec![(text("display_errors"), text("1"))])),
    ]));
    let ids = DropIds {
        uid: Some(1000),
        gid: Some(33),
        user_name: Some("www-data".to_string()),
    };
    let out = module_app_config(&app, &ids, "/srv/www");
    let json: serde_json::Value = serde_json::from_str(&out).unwrap();

    let root = json["root"].as_str().unwrap();
    assert!(root.starts_with('/'), "root not absolute: {root}");
    assert!(root.ends_with("/www"), "root: {root}");

    assert_eq!(json["script"], "index.php");
    assert_eq!(json["index"], "index.php");
    assert_eq!(json["ini_file"], "/etc/php.ini");
    assert_eq!(json["admin"]["memory_limit"], "256M");
    assert_eq!(json["user"]["display_errors"], "1");
    assert_eq!(json["max_requests"], 0);
    assert_eq!(json["user_id"], 1000);
    assert_eq!(json["group_id"], 33);
    assert_eq!(json["user_name"], "www-data");
    assert_eq!(json["execute"][0], ".html");
}

#[test]
fn module_app_config_defaults_are_empty() {
    let ids = DropIds { uid: None, gid: None, user_name: None };
    let out = module_app_config(&bare_app(), &ids, "");
    let json: serde_json::Value = serde_json::from_str(&out).unwrap();
    assert_eq!(json["root"], "");
    assert!(json["script"].is_null());
    assert!(json["ini_file"].is_null());
    assert!(json["admin"].as_object().unwrap().is_empty());
    assert!(json["user_id"].is_null());
    assert_eq!(
        out,
        "{\"admin\":{},\"execute\":[],\"group_id\":null,\"index\":null,\"ini_file\":null,\"max_requests\":0,\"root\":\"\",\"script\":null,\"user\":{},\"user_id\":null,\"user_name\":null}"
    );
}

#[test]
fn directives_are_scalars_in_the_order_of_their_names() {
    let mut app = bare_app();
    app.options = Some(Yaml::Mapping(vec![(
        text("admin"),
        Yaml::Mapping(vec![
            (text("z"), Yaml::Bool(true)),
            (text("a"), Yaml::Number("7".to_string())),
            (text("skipped"), Yaml::List(vec![])),
            (Yaml::Number("3".to_string()), text("skipped too")),
            (text("q"), text("a \"b\"\n")),
        ]),
    )]));
    let ids = DropIds { uid: None, gid: None, user_name: None };
    let out = module_app_config(&app, &ids, "");
    assert!(
        out.starts_with("{\"admin\":{\"a\":\"7\",\"q\":\"a \\\"b\\\"\\n\",\"z\":\"1\"},\"execute\""),
        "{out}"
    );
}

#[test]
fn resolve_ids_without_user_or_group_is_none() {
    // No user/group set: no privilege check, no lookups, both ids None.
    let ids = resolve_ids(Identity { user: None, group: None }, false).unwrap();
    assert_eq!((ids.uid, ids.gid, ids.user_name), (None, None, None));
}

fn www() -> Lookup<UserEntry> {
    Lookup::Found(UserEntry { uid: 33, gid: 34, name: "www-data".to_string() })
}

#[test]
fn a_user_brings_its_group() {
    let ids = resolve_ids(Identity { user: Some(("www", www())), group: None }, true).unwrap();
    assert_eq!((ids.uid, ids.gid), (Some(33), Some(34)));
    assert_eq!(ids.user_name.as_deref(), Some("www-data"));
    let both = Identity { user: Some(("www", www())), group: Some(("g", Lookup::Found(5))) };
    assert_eq!(resolve_ids(both, true).unwrap().gid, Some(5));
}

#[test]
fn identities_that_cannot_be_taken_on() {
    let e = resolve_ids(Identity { user: Some(("x", Lookup::Unknown)), group: None }, true);
    assert_eq!(e, Err("unknown user \"x\"".to_string()));
    let e = resolve_ids(
        Identity { user: None, group: Some(("g", Lookup::Failed("EIO".to_string()))) },
        true,
    );
    assert_eq!(e, Err("looking up group \"g\": EIO".to_string()));
    let e = resolve_ids(Identity { user: Some(("www", www())), group: None }, false);
    assert_eq!(
        e,
        Err("application user/group is set but buran is not running as root".to_string())
    );
}
