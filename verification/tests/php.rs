use buran::config::table::Table;
use buran::ipc::{BwpError, FrameHeader, FrameKind, RequestBuilder, RequestView, FRAME_HEADER_LEN};
use buran::php::engine::{engine_call, ini_entries};
use buran::php::page::{page, page_headers};
use buran::php::script::{
    probe_status, resolve_script, script_status, verdict, OnDisk, Resolution, ResolvedScript,
};
use buran::php::session::Session;
use buran::php::vars::build_server_vars;
use buran::php::AppConfig;
use buran::worker::WorkerError;

fn app() -> AppConfig {
    AppConfig {
        root: "/srv/www/".to_string(),
        script: None,
        index: None,
        ini_file: None,
        admin: Table::new(),
        user: Table::new(),
        max_requests: 0,
        user_id: None,
        group_id: None,
        user_name: None,
        execute: vec![".html".to_string()],
    }
}

fn script(filename: &str, name: &str, info: Option<&str>) -> Resolution {
    Resolution::Script(ResolvedScript {
        filename: filename.to_string(),
        script_name: name.to_string(),
        path_info: info.map(|s| s.to_string()),
    })
}

#[test]
fn scripts_are_found_by_their_path() {
    let a = app();
    assert_eq!(resolve_script(&a, b"/a.php"), script("/srv/www/a.php", "/a.php", None));
    assert_eq!(resolve_script(&a, b"/old.html"), script("/srv/www/old.html", "/old.html", None));
    assert_eq!(
        resolve_script(&a, b"/a.php/x/y"),
        script("/srv/www/a.php", "/a.php", Some("/x/y"))
    );
    // The module's own extensions come before the application's.
    assert_eq!(
        resolve_script(&a, b"/p.html/q.php/r"),
        script("/srv/www/p.html/q.php", "/p.html/q.php", Some("/r"))
    );
    assert_eq!(resolve_script(&a, b"/d/"), script("/srv/www/d/index.php", "/d/index.php", None));
    assert_eq!(resolve_script(&a, b"/d"), Resolution::Probe("/srv/www/d".to_string()));
    assert_eq!(resolve_script(&a, b"/\xff"), Resolution::BadPath);
}

#[test]
fn one_script_serves_everything() {
    let mut a = app();
    a.script = Some("/front.php".to_string());
    assert_eq!(
        resolve_script(&a, b"/any/thing"),
        script("/srv/www/front.php", "/front.php", None)
    );
}

#[test]
fn what_is_on_disk_decides() {
    assert_eq!(probe_status(OnDisk::Directory), 301);
    assert_eq!(probe_status(OnDisk::File), 403);
    assert_eq!(probe_status(OnDisk::Denied), 403);
    assert_eq!(probe_status(OnDisk::Missing), 404);
    assert_eq!(script_status(OnDisk::File), None);
    assert_eq!(script_status(OnDisk::Directory), Some(403));
    assert_eq!(script_status(OnDisk::Missing), Some(404));
}

#[test]
fn the_disk_has_the_last_word() {
    let script = || ResolvedScript {
        filename: "/www/a.php".to_string(),
        script_name: "/a.php".to_string(),
        path_info: None,
    };
    let found = verdict(Resolution::Script(script()), OnDisk::File).unwrap();
    assert_eq!(found.filename, "/www/a.php");
    assert_eq!(verdict(Resolution::Script(script()), OnDisk::Directory).unwrap_err(), 403);
    assert_eq!(verdict(Resolution::Script(script()), OnDisk::Missing).unwrap_err(), 404);
    let probe = || Resolution::Probe("/www/d".to_string());
    assert_eq!(verdict(probe(), OnDisk::Directory).unwrap_err(), 301);
    assert_eq!(verdict(probe(), OnDisk::File).unwrap_err(), 403);
    assert_eq!(verdict(Resolution::BadPath, OnDisk::File).unwrap_err(), 400);
}

fn request() -> Vec<u8> {
    RequestBuilder::new()
        .method(b"POST")
        .path(b"/a.php/x")
        .target(b"/a.php/x?q=1")
        .query(b"q=1")
        .version(b"HTTP/1.1")
        .remote_addr(b"10.0.0.7")
        .server_name(b"example.test")
        .server_port(8080)
        .content_length(5)
        .field(b"host", b"example.test")
        .field(b"content-type", b"text/plain")
        .field(b"x-nul", b"a\0b")
        .field(b"x-two-words", b"v")
        .field(b"cookie", b"a=1")
        .field(b"cookie", b"b=2")
        .preread_body(b"hello")
        .finish()
}

fn variables(payload: &[u8], a: &AppConfig, s: &ResolvedScript) -> Vec<(String, String)> {
    let view = RequestView::parse(payload).unwrap();
    let vars = build_server_vars(&view, a, s).unwrap();
    vars.entries
        .iter()
        .map(|&(n, v, len)| {
            assert_eq!(vars.arena[v - 1], 0);
            (
                String::from_utf8(vars.arena[n..v - 1].to_vec()).unwrap(),
                String::from_utf8(vars.arena[v..v + len].to_vec()).unwrap(),
            )
        })
        .collect()
}

#[test]
fn the_engine_is_told_of_the_request() {
    let a = app();
    let s = match resolve_script(&a, b"/a.php/x") {
        Resolution::Script(s) => s,
        other => panic!("{other:?}"),
    };
    let got = variables(&request(), &a, &s);
    let expected = [
        ("SERVER_SOFTWARE", "buran/0.1.0"),
        ("SERVER_PROTOCOL", "HTTP/1.1"),
        ("REQUEST_METHOD", "POST"),
        ("REQUEST_URI", "/a.php/x?q=1"),
        ("QUERY_STRING", "q=1"),
        ("SCRIPT_FILENAME", "/srv/www/a.php"),
        ("SCRIPT_NAME", "/a.php"),
        ("DOCUMENT_ROOT", "/srv/www/"),
        ("DOCUMENT_URI", "/a.php"),
        ("PHP_SELF", "/a.php/x"),
        ("PATH_INFO", "/x"),
        ("REMOTE_ADDR", "10.0.0.7"),
        ("SERVER_NAME", "example.test"),
        ("SERVER_PORT", "8080"),
        ("GATEWAY_INTERFACE", "CGI/1.1"),
        ("REQUEST_SCHEME", "http"),
        ("REDIRECT_STATUS", "200"),
        ("CONTENT_LENGTH", "5"),
        ("HTTP_HOST", "example.test"),
        ("CONTENT_TYPE", "text/plain"),
        ("HTTP_X_TWO_WORDS", "v"),
        ("HTTP_COOKIE", "a=1"),
        ("HTTP_COOKIE", "b=2"),
    ];
    let got: Vec<(&str, &str)> = got.iter().map(|(n, v)| (n.as_str(), v.as_str())).collect();
    assert_eq!(got, expected);
}

#[test]
fn a_bodyless_request_has_empty_content_variables() {
    let mut a = app();
    a.script = Some("front.php".to_string());
    let s = match resolve_script(&a, b"/") {
        Resolution::Script(s) => s,
        other => panic!("{other:?}"),
    };
    let got = variables(&RequestBuilder::new().finish(), &a, &s);
    assert!(got.contains(&("CONTENT_LENGTH".to_string(), String::new())));
    assert_eq!(got.last().unwrap(), &("CONTENT_TYPE".to_string(), String::new()));
    assert!(!got.iter().any(|(n, _)| n == "PATH_INFO"));
}

#[test]
fn unreadable_requests_are_reported() {
    let mut payload = request();
    let bad = (payload.len() as u32).to_le_bytes();
    payload[8..12].copy_from_slice(&bad);
    let view = RequestView::parse(&payload).unwrap();
    let s = ResolvedScript {
        filename: String::new(),
        script_name: String::new(),
        path_info: None,
    };
    assert!(matches!(build_server_vars(&view, &app(), &s), Err(BwpError::OutOfBounds { .. })));
    assert!(matches!(engine_call(&view), Err(BwpError::OutOfBounds { .. })));
}

#[test]
fn the_engine_is_called_with_c_strings() {
    let payload = request();
    let view = RequestView::parse(&payload).unwrap();
    let c = engine_call(&view).unwrap();
    assert_eq!(c.method, b"POST");
    assert_eq!(c.uri, b"/a.php/x?q=1");
    assert_eq!(c.query, Some(b"q=1".to_vec()));
    assert_eq!(c.content_type, Some(b"text/plain".to_vec()));
    assert_eq!(c.cookies, Some(b"b=2".to_vec()));
    assert_eq!(c.auth, None);

    let payload = RequestBuilder::new()
        .method(b"G\0T")
        .field(b"cookie", b"ok")
        .field(b"cookie", b"a\0")
        .finish();
    let c = engine_call(&RequestView::parse(&payload).unwrap()).unwrap();
    assert_eq!((c.method, c.query, c.cookies), (vec![], None, None));
}

#[test]
fn directives_start_the_engine() {
    let mut a = app();
    assert_eq!(ini_entries(&a), Ok(None));
    a.admin.insert("memory_limit".to_string(), "1M".to_string());
    a.admin.insert("a".to_string(), "b".to_string());
    a.user.insert("x".to_string(), "y".to_string());
    assert_eq!(ini_entries(&a), Ok(Some("a=b\nmemory_limit=1M\nx=y\n".to_string())));
    a.user.insert("x".to_string(), "\0".to_string());
    assert_eq!(ini_entries(&a), Err(WorkerError::Closed));
}

#[test]
fn pages_for_what_no_script_serves() {
    assert_eq!(
        page(404),
        b"<html>\n<head><title>404 Not Found</title></head>\n<body><h1>404 Not Found</h1></body>\n</html>\n"
    );
    assert!(page(400).starts_with(b"<html>\n<head><title>400 Error</title>"));
    let payload = request();
    let view = RequestView::parse(&payload).unwrap();
    assert_eq!(page_headers(&view, b"/d", 403), Ok(b"content-type: text/html\r\n".to_vec()));
    assert_eq!(
        page_headers(&view, b"/d", 301),
        Ok(b"content-type: text/html\r\nlocation: http://example.test/d/?q=1\r\n".to_vec())
    );
    let payload = RequestBuilder::new().finish();
    let view = RequestView::parse(&payload).unwrap();
    assert_eq!(
        page_headers(&view, b"/d\xff", 301),
        Ok("content-type: text/html\r\nlocation: /d\u{fffd}/\r\n".as_bytes().to_vec())
    );
}

fn kinds(buf: &[u8]) -> Vec<(FrameKind, u32, Vec<u8>)> {
    let mut out = Vec::new();
    let mut i = 0;
    while i + FRAME_HEADER_LEN <= buf.len() {
        let h = FrameHeader::decode(buf[i..i + FRAME_HEADER_LEN].try_into().unwrap()).unwrap();
        let start = i + FRAME_HEADER_LEN;
        let end = start + h.payload_len as usize;
        out.push((h.kind, h.aux, buf[start..end].to_vec()));
        i = end;
    }
    out
}

#[test]
fn a_script_answers() {
    let mut s = Session::new(4, b"hello".to_vec());
    assert_eq!(s.read_post(2), b"he");
    assert_eq!(s.read_post(9), b"llo");
    assert_eq!(s.read_post(9), b"");
    s.headers_begin(9999);
    s.header_line(b"x: 1");
    s.headers_end();
    assert_eq!(s.ub_write(b""), (0, false));
    assert_eq!(s.ub_write(b"out"), (3, false));
    let mut r = s.conclude(200);
    assert_eq!(
        kinds(&r.take()),
        vec![
            (FrameKind::ResponseHeaders, 599, b"x: 1\r\n".to_vec()),
            (FrameKind::ResponseBody, 0, b"out".to_vec()),
            (FrameKind::End, 0, vec![]),
        ]
    );
}

#[test]
fn a_silent_script_still_has_a_head() {
    let mut r = Session::new(4, vec![]).conclude(404);
    let k = kinds(&r.take());
    assert_eq!((k[0].0, k[0].1), (FrameKind::ResponseHeaders, 404));
    assert_eq!(k[1].0, FrameKind::End);
    let mut r = Session::new(4, vec![]).conclude(-1);
    assert_eq!(
        kinds(&r.take()),
        vec![(FrameKind::Error, 0, b"php engine failure".to_vec())]
    );
}

#[test]
fn a_released_client_sees_no_more() {
    let mut s = Session::new(4, vec![]);
    s.headers_begin(200);
    let out = s.finish_request().unwrap();
    assert_eq!(
        kinds(&out).iter().map(|k| k.0).collect::<Vec<_>>(),
        vec![FrameKind::ResponseHeaders, FrameKind::End]
    );
    assert_eq!(s.finish_request(), None);
    assert_eq!(s.ub_write(b"later"), (5, false));
    assert!(!s.flush());
    assert!(s.take().is_empty());
}

#[test]
fn flushing_sends_the_head_first() {
    let mut s = Session::new(4, vec![]);
    s.headers_begin(200);
    assert!(s.flush());
    assert_eq!(
        kinds(&s.take()).iter().map(|k| k.0).collect::<Vec<_>>(),
        vec![FrameKind::ResponseHeaders, FrameKind::Flush]
    );
    s.lost();
    assert_eq!(s.ub_write(b"x"), (0, false));
    assert!(!s.flush());
}
