use buran::config::schema::ServeSources;
use buran::config::table::Table;
use buran::router::matching::PatternSet;
use buran::router::serve_static::{
    etag_listed, locate, mime_for, parse_range, respond, FileFacts, StaticContext,
};

#[test]
fn etag_listed_star_and_list() {
    assert!(etag_listed(b"*", b"\"abc\""));
    assert!(etag_listed(b"\"x\", \"abc\", \"y\"", b"\"abc\""));
    assert!(!etag_listed(b"\"x\", \"y\"", b"\"abc\""));
}

#[test]
fn parse_range_shapes() {
    assert_eq!(parse_range(b"bytes=0-3", 10), Ok(Some((0, 3))));
    assert_eq!(parse_range(b"bytes=5-", 10), Ok(Some((5, 9))));
    assert_eq!(parse_range(b"bytes=-3", 10), Ok(Some((7, 9)))); // suffix
    assert_eq!(parse_range(b"bytes=0-100", 10), Ok(Some((0, 9)))); // end clamped
}

#[test]
fn parse_range_ignored_and_unsatisfiable() {
    assert_eq!(parse_range(b"items=0-3", 10), Ok(None)); // unknown unit
    assert_eq!(parse_range(b"bytes=0-3,5-6", 10), Ok(None)); // multipart
    assert_eq!(parse_range(b"bytes=10-", 10), Err(())); // start past end
    assert_eq!(parse_range(b"bytes=5-3", 10), Err(())); // end before start
    assert_eq!(parse_range(b"bytes=-0", 10), Err(())); // empty suffix
    assert_eq!(parse_range(b"bytes=0-0", 0), Err(())); // empty file
}

#[test]
fn mime_for_lookup() {
    let empty = Table::new();
    assert_eq!(mime_for("x.html", &empty), "text/html");
    assert_eq!(mime_for("x.HTML", &empty), "text/html"); // case-insensitive ext
    assert_eq!(mime_for("x.unknownext", &empty), "application/octet-stream");
    assert_eq!(mime_for("noext", &empty), "application/octet-stream");
}

#[test]
fn mime_override_wins() {
    let mut overrides = Table::new();
    overrides.insert("html".to_string(), "text/x-custom".to_string());
    assert_eq!(mime_for("x.html", &overrides), "text/x-custom");
}

/// Files under a directory `/share`, by their path below it.
struct Tree(Vec<(&'static str, Option<&'static [u8]>)>);

impl Tree {
    /// Serve a request as the server does: find the file, look at it, answer.
    fn serve(
        &self,
        out: &mut Vec<u8>,
        template: &str,
        path: &[u8],
        ctx: &StaticContext<'_>,
    ) -> Option<u16> {
        let plan = locate(template, "index.html", path, ctx)?;
        assert_eq!(plan.base, "/share");
        let rel = plan.rel.trim_start_matches('/');
        let (_, content) = self.0.iter().find(|(name, _)| *name == rel)?;
        let facts = FileFacts {
            is_dir: content.is_none(),
            size: content.map_or(0, |c| c.len() as u64),
            mtime: 784_111_777,
        };
        let reply = respond(path, &plan, &facts, ctx);
        out.extend_from_slice(&reply.head);
        if let Some((from, len)) = reply.body {
            let all = content.unwrap();
            out.extend_from_slice(&all[from as usize..(from + len) as usize]);
        }
        Some(reply.status)
    }
}

fn ctx<'a>(
    mime_overrides: &'a Table<String>,
    source_exts: &'a [String],
    req_headers: &'a [(Vec<u8>, Vec<u8>)],
    serve_sources: &'a ServeSources,
    head_only: bool,
) -> StaticContext<'a> {
    StaticContext {
        types: None,
        mime_overrides,
        source_exts,
        extra_source_exts: &[],
        follow_symlinks: true,
        serve_sources,
        req_headers,
        head_only,
        extra_headers: &[],
        keep_alive: true,
        server: "buran",
    }
}

fn head_of(resp: &[u8]) -> String {
    let end = resp.windows(4).position(|w| w == b"\r\n\r\n").unwrap();
    String::from_utf8_lossy(&resp[..end]).into_owned()
}

fn header(resp: &[u8], name: &str) -> Option<String> {
    head_of(resp)
        .lines()
        .find_map(|l| l.strip_prefix(&format!("{name}: ")).map(str::to_string))
}

fn body_of(resp: &[u8]) -> Vec<u8> {
    let end = resp.windows(4).position(|w| w == b"\r\n\r\n").unwrap() + 4;
    resp[end..].to_vec()
}

const TEMPLATE: &str = "/share$uri";

#[test]
fn serves_a_file() {
    let dir = Tree(vec![("hello.txt", Some(b"hello world"))]);
    let mime = Table::new();
    let mut out = Vec::new();
    let status = dir.serve(
        &mut out,
        TEMPLATE,
        b"/hello.txt",
        &ctx(&mime, &[], &[], &ServeSources::Off, false),
    );
    assert_eq!(status, Some(200));
    assert!(head_of(&out).starts_with("HTTP/1.1 200 OK"));
    assert_eq!(header(&out, "content-type").as_deref(), Some("text/plain"));
    assert_eq!(header(&out, "content-length").as_deref(), Some("11"));
    assert_eq!(
        header(&out, "last-modified").as_deref(),
        Some("Sun, 06 Nov 1994 08:49:37 GMT")
    );
    assert_eq!(body_of(&out), b"hello world");
}

#[test]
fn non_suffix_template_serves_within_prefix() {
    // `$uri` is not the suffix: the share root is the literal prefix and
    // `/page` resolves to `<dir>/page.html`, jailed to <dir> (not `/`).
    let dir = Tree(vec![("page.html", Some(b"<h1>hi</h1>"))]);
    let mime = Table::new();
    let mut out = Vec::new();
    let status = dir.serve(
        &mut out,
        "/share$uri.html",
        b"/page",
        &ctx(&mime, &[], &[], &ServeSources::Off, false),
    );
    assert_eq!(status, Some(200));
    assert_eq!(body_of(&out), b"<h1>hi</h1>");
}

#[test]
fn head_request_omits_body() {
    let dir = Tree(vec![("hello.txt", Some(b"hello world"))]);
    let mime = Table::new();
    let mut out = Vec::new();
    dir.serve(
        &mut out,
        TEMPLATE,
        b"/hello.txt",
        &ctx(&mime, &[], &[], &ServeSources::Off, true),
    );
    assert_eq!(header(&out, "content-length").as_deref(), Some("11"));
    assert!(body_of(&out).is_empty());
}

#[test]
fn missing_file_falls_back() {
    let dir = Tree(vec![]);
    let mime = Table::new();
    let mut out = Vec::new();
    let status = dir.serve(
        &mut out,
        TEMPLATE,
        b"/nope.txt",
        &ctx(&mime, &[], &[], &ServeSources::Off, false),
    );
    assert_eq!(status, None);
    assert!(out.is_empty());
}

#[test]
fn source_extensions_are_not_served() {
    let dir = Tree(vec![("app.php", Some(b"<?php echo 1;"))]);
    let mime = Table::new();
    let src = ["php".to_string()];
    let serve = |sources: &ServeSources| {
        let mut out = Vec::new();
        dir.serve(&mut out, TEMPLATE, b"/app.php", &ctx(&mime, &src, &[], sources, false))
    };
    // Source-leak protection: .php is refused -> fallback.
    assert_eq!(serve(&ServeSources::Off), None);
    // Opt-in (all) serves it.
    assert_eq!(serve(&ServeSources::All), Some(200));
    // Opt-in via a matching extension list also serves it; a
    // non-matching list keeps protection.
    assert_eq!(serve(&ServeSources::Only(vec![".php".to_string()])), Some(200));
    assert_eq!(
        serve(&ServeSources::Only(vec!["inc".to_string()])),
        None,
        "a list not containing php keeps .php protected"
    );
}

#[test]
fn range_request_is_partial() {
    let dir = Tree(vec![("data.txt", Some(b"0123456789"))]);
    let mime = Table::new();
    let req = [(b"range".to_vec(), b"bytes=2-5".to_vec())];
    let mut out = Vec::new();
    let status = dir.serve(
        &mut out,
        TEMPLATE,
        b"/data.txt",
        &ctx(&mime, &[], &req, &ServeSources::Off, false),
    );
    assert_eq!(status, Some(206));
    assert_eq!(header(&out, "content-range").as_deref(), Some("bytes 2-5/10"));
    assert_eq!(header(&out, "content-length").as_deref(), Some("4"));
    assert_eq!(body_of(&out), b"2345");
}

#[test]
fn unsatisfiable_range_is_416() {
    let dir = Tree(vec![("data.txt", Some(b"0123456789"))]);
    let mime = Table::new();
    let req = [(b"range".to_vec(), b"bytes=99-".to_vec())];
    let mut out = Vec::new();
    let status = dir.serve(
        &mut out,
        TEMPLATE,
        b"/data.txt",
        &ctx(&mime, &[], &req, &ServeSources::Off, false),
    );
    assert_eq!(status, Some(416));
    assert!(head_of(&out).contains("416 Range Not Satisfiable"));
}

#[test]
fn conditional_get_returns_304() {
    let dir = Tree(vec![("hello.txt", Some(b"hello world"))]);
    let mime = Table::new();

    // First fetch to learn the ETag.
    let mut out = Vec::new();
    dir.serve(
        &mut out,
        TEMPLATE,
        b"/hello.txt",
        &ctx(&mime, &[], &[], &ServeSources::Off, false),
    );
    let etag = header(&out, "etag").unwrap();

    // Re-request with If-None-Match: same entity -> 304, no body.
    let req = [(b"if-none-match".to_vec(), etag.into_bytes())];
    let mut out2 = Vec::new();
    let status = dir.serve(
        &mut out2,
        TEMPLATE,
        b"/hello.txt",
        &ctx(&mime, &[], &req, &ServeSources::Off, false),
    );
    assert_eq!(status, Some(304));
    assert!(body_of(&out2).is_empty());
}

#[test]
fn directory_without_slash_redirects() {
    let dir = Tree(vec![("sub", None)]);
    let mime = Table::new();
    let mut out = Vec::new();
    let status = dir.serve(
        &mut out,
        TEMPLATE,
        b"/sub",
        &ctx(&mime, &[], &[], &ServeSources::Off, false),
    );
    assert_eq!(status, Some(301));
    assert_eq!(header(&out, "location").as_deref(), Some("/sub/"));
}

/// The status of each file behind a share that lets these names through.
fn let_through(types: &[&str], paths: &[&[u8]]) -> Vec<Option<u16>> {
    let dir = Tree(vec![
        ("a.png", Some(b"x")),
        ("a.HTML", Some(b"y")),
        ("b.php", Some(b"z")),
        ("d/index.html", Some(b"w")),
    ]);
    let mime = Table::new();
    let types = PatternSet::compile(types, true).unwrap();
    let mut c = ctx(&mime, &[], &[], &ServeSources::Off, false);
    c.types = Some(&types);
    paths.iter().map(|p| dir.serve(&mut Vec::new(), TEMPLATE, p, &c)).collect()
}

#[test]
fn only_the_listed_types_are_served() {
    let paths: [&[u8]; 4] = [b"/a.png", b"/a.HTML", b"/b.php", b"/d/"];
    let (yes, no) = (Some(200), None);
    assert_eq!(let_through(&["!*.php"], &paths), [yes, yes, no, yes]);
    assert_eq!(let_through(&["*.html"], &paths), [no, yes, no, yes]);
    assert_eq!(let_through(&["*.PNG", "*.php", "!*b.php"], &paths), [yes, no, no, no]);
    // The name counts, not the MIME type.
    assert_eq!(let_through(&["image/*"], &paths), [no, no, no, no]);
}

#[test]
fn a_directory_shows_its_index() {
    let dir = Tree(vec![("d/index.html", Some(b"home"))]);
    let mime = Table::new();
    let mut out = Vec::new();
    let c = ctx(&mime, &[], &[], &ServeSources::Off, false);
    assert_eq!(dir.serve(&mut out, TEMPLATE, b"/d/", &c), Some(200));
    assert_eq!(body_of(&out), b"home");
}

#[test]
fn own_headers_can_be_replaced() {
    let dir = Tree(vec![("a.txt", Some(b"y"))]);
    let mime = Table::new();
    let ops = [("cache-control", Some("no-store")), ("server", None)];
    let mut c = ctx(&mime, &[], &[], &ServeSources::Off, false);
    c.extra_headers = &ops;
    let mut out = Vec::new();
    dir.serve(&mut out, TEMPLATE, b"/a.txt", &c);
    assert_eq!(header(&out, "cache-control").as_deref(), Some("no-store"));
    assert_eq!(header(&out, "server"), None);
}
