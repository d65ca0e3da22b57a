use buran::router::template::{Template, TemplateError, Vars};

fn vars() -> Vars<'static> {
    Vars {
        uri: b"/path",
        args: b"a=1",
        host: b"example.test",
        method: b"GET",
        remote_addr: "10.0.0.1",
    }
}

fn render(tpl: &str) -> String {
    String::from_utf8(Template::compile(tpl).unwrap().render(&vars())).unwrap()
}

#[test]
fn pure_literal_passes_through() {
    assert_eq!(render("/static/index.html"), "/static/index.html");
    assert_eq!(render(""), "");
}

#[test]
fn substitutes_all_known_variables() {
    assert_eq!(render("$uri"), "/path");
    assert_eq!(render("$args"), "a=1");
    assert_eq!(render("$host"), "example.test");
    assert_eq!(render("$method"), "GET");
    assert_eq!(render("$remote_addr"), "10.0.0.1");
}

#[test]
fn query_is_an_alias_for_args() {
    assert_eq!(render("$query"), "a=1");
}

#[test]
fn braced_form_and_adjacent_literals() {
    // `${uri}` lets a variable butt against following word characters.
    assert_eq!(render("${uri}_suffix"), "/path_suffix");
    assert_eq!(render("pre-$host-post"), "pre-example.test-post");
    assert_eq!(render("$uri?$args"), "/path?a=1");
}

#[test]
fn unknown_variable_is_rejected() {
    assert!(Template::compile("$nope").is_err());
    assert!(Template::compile("${nope}").is_err());
}

#[test]
fn unterminated_brace_is_rejected() {
    assert!(Template::compile("${uri").is_err());
}

#[test]
fn errors_tell_the_name() {
    assert_eq!(
        Template::compile("a$nope/b").err(),
        Some(TemplateError::UnknownVariable(b"nope".to_vec()))
    );
    assert_eq!(Template::compile("${uri").err(), Some(TemplateError::Unterminated));
}

#[test]
fn templates_can_be_joined() {
    let parts = ["/a", "$uri", "?$args", "${host}", "-$method/", ""];
    for a in parts {
        for b in parts {
            if b.starts_with(|c: char| c.is_ascii_alphanumeric() || c == '_') {
                continue;
            }
            assert_eq!(render(&format!("{a}{b}")), format!("{}{}", render(a), render(b)));
        }
    }
    // A name that goes on is another name.
    assert!(Template::compile("$urix").is_err());
}

#[test]
fn values_are_not_read_as_templates() {
    let v = Vars { uri: b"/$host", args: b"${uri}", ..vars() };
    let t = Template::compile("$uri?$args").unwrap();
    assert_eq!(t.render(&v), b"/$host?${uri}");
}
