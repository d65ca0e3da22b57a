use buran::cli::{
    accept_module, arg_value, available_modules, check_describe, missing_module, parse_cli, Cli,
    DescribeError, Invocation, DEFAULT_CONFIG, USAGE,
};

fn args(list: &[&str]) -> Vec<String> {
    list.iter().map(|s| s.to_string()).collect()
}

#[test]
fn available_modules_missing_dir() {
    assert_eq!(available_modules(&None), "(modules directory does not exist)");
}

#[test]
fn available_modules_empty_dir() {
    assert_eq!(available_modules(&Some(vec![])), "(none)");
}

#[test]
fn available_modules_lists_stripped_names() {
    let names = args(&["buran-php85", "buran-php74", "unrelated"]); // no buran- prefix
    let listed = available_modules(&Some(names));
    assert!(listed.contains("php85"), "{listed}");
    assert!(listed.contains("php74"), "{listed}");
    assert!(!listed.contains("unrelated"), "{listed}");
    assert_eq!(listed, "php85, php74");
}

#[test]
fn command_lines() {
    let run = |config: &str, check, modules| {
        Ok(Invocation::Run(Cli { config: config.to_string(), check, modules }))
    };
    assert_eq!(parse_cli(&args(&[])), run(DEFAULT_CONFIG, false, false));
    assert_eq!(parse_cli(&args(&["-c", "x.yaml"])), run("x.yaml", false, false));
    assert_eq!(
        parse_cli(&args(&["--check-config", "--config", "y", "--modules"])),
        run("y", true, true)
    );
    assert_eq!(parse_cli(&args(&["--modules", "-V", "--what"])), Ok(Invocation::Version));
    assert_eq!(parse_cli(&args(&["--help"])), Ok(Invocation::Help));
    assert_eq!(parse_cli(&args(&["--config"])), Err("--config requires a path".to_string()));
    assert_eq!(
        parse_cli(&args(&["--what"])),
        Err(format!("unknown argument \"--what\"\n\n{USAGE}"))
    );
}

#[test]
fn modules_describe_themselves() {
    let out = br#"{"bwp":1,"runtime":"php","source_extensions":[".php",7,"..PHTML"],"version":"8"}"#;
    assert_eq!(
        check_describe("php85", out),
        Ok(vec!["php".to_string(), "phtml".to_string()])
    );
    assert_eq!(check_describe("m", b"{\"bwp\":1}"), Ok(vec![]));
    assert_eq!(check_describe("m", b"not json"), Err(DescribeError::BadJson));
    assert_eq!(
        check_describe("m", b"{}"),
        Err(DescribeError::Incompatible(
            "module \"m\" speaks BWP v0, this buran speaks v1".to_string()
        ))
    );
    assert_eq!(
        accept_module("m", 2, &vec![]),
        Err("module \"m\" speaks BWP v2, this buran speaks v1".to_string())
    );
}

#[test]
fn missing_modules_are_named() {
    assert_eq!(
        missing_module("site", "php9", "/m", "php85"),
        "applications.site.module: module \"php9\" not found in /m; available: php85"
    );
}

#[test]
fn options_of_a_module() {
    let a = args(&["--prototype", "--control", "3", "--work"]);
    assert_eq!(arg_value(&a, "--control"), Some(&"3".to_string()));
    assert_eq!(arg_value(&a, "--work"), None);
    assert_eq!(arg_value(&a, "--app-config"), None);
}
