//! Static files: which file a share serves for a path, and what the response
//! to a request for it says.
//!
//! A share's template is split at its first `$uri`: what stands before it is
//! the directory that a file is opened within, so a path can only name what
//! lies below it, whatever shape the template has.

use vstd::prelude::*;
use vstd::string::*;
use vstd::utf8::{encode_utf8, is_ascii_chars, is_ascii_chars_encode_utf8};

use crate::bytes::{
    cut, dec, eq, find_byte, has_prefix, is_text, lowered, number, parse_number, pieces, push_dec,
    push_str, split, starts_with, text, trim, trimmed_left, trimmed_right, views,
};
use crate::config::schema::ServeSources;
use crate::config::table::Table;
use crate::router::args::{lookup, named, pairs};
use crate::router::compile::names;
use crate::router::http1::head::{
    close_line, header_line, hex_byte, hex_text, own_line, phrased_line, push_close, push_header,
    push_hex, push_length, push_own, push_phrased_line, push_set, return_bytes, set_lines, write_return, Ops,
};
use crate::router::matching::{lower_str, lowered_chars, PatternSet};
use crate::router::routes::op_views;
use crate::router::uri::{http_date, http_date_text};
use crate::text::{cat2, read_text, same, text_of, to_chars, trim_start, trimmed};

verus! {

/// How a share serves one request.
pub struct StaticContext<'a> {
    /// A file is served only if its name is hit, such as by `*.html`.
    pub types: Option<&'a PatternSet>,
    /// Extension to MIME type.
    pub mime_overrides: &'a Table<String>,
    /// Extensions of module sources, in lower case.
    pub source_exts: &'a [String],
    /// The extensions of the applications that the share falls back to, in lower
    /// case.
    pub extra_source_exts: &'a [String],
    pub follow_symlinks: bool,
    pub serve_sources: &'a ServeSources,
    pub req_headers: &'a [(Vec<u8>, Vec<u8>)],
    pub head_only: bool,
    pub extra_headers: &'a Ops<'a>,
    pub keep_alive: bool,
    pub server: &'a str,
}

/// `$uri` stands at `i`.
pub open spec fn uri_mark(s: Seq<char>, i: int) -> bool {
    &&& 0 <= i
    &&& i + 4 <= s.len()
    &&& s[i] == '$' && s[i + 1] == 'u' && s[i + 2] == 'r' && s[i + 3] == 'i'
}

/// Where the first `$uri` from `from` on stands; the length where there is
/// none.
pub open spec fn uri_at(s: Seq<char>, from: int) -> int
    decreases s.len() - from,
{
    if from < 0 || from >= s.len() {
        s.len() as int
    } else if uri_mark(s, from) {
        from
    } else {
        uri_at(s, from + 1)
    }
}

/// A text from `from` on with each `$uri` replaced.
pub open spec fn with_uri(s: Seq<char>, from: int, uri: Seq<char>) -> Seq<char>
    decreases s.len() - from,
{
    let i = uri_at(s, from);
    if !(0 <= from <= i) || !uri_mark(s, i) {
        s.subrange(from, s.len() as int)
    } else {
        s.subrange(from, i) + uri + with_uri(s, i + 4, uri)
    }
}

/// The directory that a share opens files within, and the path below it. A
/// template without `$uri` is a fixed path below the root.
pub open spec fn base_and_path(template: Seq<char>, uri: Seq<char>) -> (Seq<char>, Seq<char>) {
    let i = uri_at(template, 0);
    if uri_mark(template, i) {
        (template.subrange(0, i), uri + with_uri(template, i + 4, uri))
    } else {
        ("/"@, template)
    }
}

/// The path with the index file where it names a directory.
pub open spec fn indexed(path: Seq<char>, index: Seq<char>) -> Seq<char> {
    if path.len() > 0 && path.last() == '/' {
        path + index
    } else {
        path
    }
}

/// Without the dots and spaces at the end.
pub open spec fn undotted(s: Seq<char>) -> Seq<char>
    decreases s.len(),
{
    if s.len() > 0 && (s.last() == '.' || s.last() == ' ') {
        undotted(s.drop_last())
    } else {
        s
    }
}

/// What follows the last dot; all of it where there is none.
pub open spec fn after_dot(s: Seq<char>) -> Seq<char>
    decreases s.len(),
{
    if s.len() == 0 || s.last() == '.' {
        seq![]
    } else {
        after_dot(s.drop_last()).push(s.last())
    }
}

/// The extension that decides whether a file is a source. Dots and spaces at
/// the end do not count: a file system may ignore them.
pub open spec fn source_ext(path: Seq<char>) -> Seq<char> {
    lowered_chars(after_dot(undotted(path)))
}

/// Whether a share opts an extension out of protection.
pub open spec fn opted_in(s: ServeSources, ext: Seq<char>) -> bool {
    match s {
        ServeSources::Off => false,
        ServeSources::All => true,
        ServeSources::Only(exts) => exists|i: int|
            0 <= i < exts@.len() && lowered_chars(trimmed((#[trigger] exts@[i])@, '.')) == ext,
    }
}

/// Whether a file is kept back because a module executes its kind.
pub open spec fn protected(path: Seq<char>, ctx: StaticContext<'_>) -> bool {
    let ext = source_ext(path);
    &&& names(ctx.source_exts@).contains(ext) || names(ctx.extra_source_exts@).contains(ext)
    &&& !opted_in(*ctx.serve_sources, ext)
}

/// The built-in MIME type of an extension.
pub open spec fn builtin_mime(ext: Seq<char>) -> Seq<char> {
    if ext == "html"@ || ext == "htm"@ {
        "text/html"@
    } else if ext == "css"@ {
        "text/css"@
    } else if ext == "js"@ || ext == "mjs"@ {
        "text/javascript"@
    } else if ext == "json"@ {
        "application/json"@
    } else if ext == "txt"@ {
        "text/plain"@
    } else if ext == "svg"@ {
        "image/svg+xml"@
    } else if ext == "png"@ {
        "image/png"@
    } else if ext == "jpg"@ || ext == "jpeg"@ {
        "image/jpeg"@
    } else if ext == "gif"@ {
        "image/gif"@
    } else if ext == "webp"@ {
        "image/webp"@
    } else if ext == "ico"@ {
        "image/x-icon"@
    } else if ext == "woff2"@ {
        "font/woff2"@
    } else if ext == "woff"@ {
        "font/woff"@
    } else if ext == "pdf"@ {
        "application/pdf"@
    } else if ext == "xml"@ {
        "application/xml"@
    } else if ext == "wasm"@ {
        "application/wasm"@
    } else {
        "application/octet-stream"@
    }
}

/// The MIME type of a path: the override of its extension, or the built-in
/// type.
pub open spec fn mime_of(path: Seq<char>, overrides: Table<String>) -> Seq<char> {
    let ext = lowered_chars(after_dot(path));
    if overrides.has(ext) {
        overrides.at(ext)@
    } else {
        builtin_mime(ext)
    }
}

fn builtin(ext: &str) -> (r: &'static str)
    ensures
        r@ == builtin_mime(ext@),
{
    if same(ext, "html") || same(ext, "htm") {
        "text/html"
    } else if same(ext, "css") {
        "text/css"
    } else if same(ext, "js") || same(ext, "mjs") {
        "text/javascript"
    } else if same(ext, "json") {
        "application/json"
    } else if same(ext, "txt") {
        "text/plain"
    } else if same(ext, "svg") {
        "image/svg+xml"
    } else if same(ext, "png") {
        "image/png"
    } else if same(ext, "jpg") || same(ext, "jpeg") {
        "image/jpeg"
    } else if same(ext, "gif") {
        "image/gif"
    } else if same(ext, "webp") {
        "image/webp"
    } else if same(ext, "ico") {
        "image/x-icon"
    } else if same(ext, "woff2") {
        "font/woff2"
    } else if same(ext, "woff") {
        "font/woff"
    } else if same(ext, "pdf") {
        "application/pdf"
    } else if same(ext, "xml") {
        "application/xml"
    } else if same(ext, "wasm") {
        "application/wasm"
    } else {
        "application/octet-stream"
    }
}

proof fn lemma_after_dot(s: Seq<char>, i: int)
    requires
        0 <= i <= s.len(),
        i == 0 || s[i - 1] == '.',
        forall|j: int| i <= j < s.len() ==> s[j] != '.',
    ensures
        after_dot(s) == s.subrange(i, s.len() as int),
    decreases s.len(),
{
    if s.len() == 0 || s.last() == '.' {
        assert(s.subrange(i, s.len() as int) =~= Seq::<char>::empty());
    } else {
        lemma_after_dot(s.drop_last(), i);
        assert(s.subrange(i, s.len() as int) =~= s.drop_last().subrange(i, s.len() - 1).push(
            s.last(),
        ));
    }
}

/// What follows the last dot of the first `n` characters.
fn extension(path: &str, n: usize) -> (r: String)
    requires
        n <= path@.len(),
    ensures
        r@ == lowered_chars(after_dot(path@.take(n as int))),
{
    let s = to_chars(path);
    let mut i: usize = n;
    while i > 0 && s[i - 1] != '.'
        invariant
            i <= n <= s@.len(),
            s@ == path@,
            forall|j: int| i <= j < n ==> s@[j] != '.',
        decreases i,
    {
        i -= 1;
    }
    proof {
        lemma_after_dot(path@.take(n as int), i as int);
        assert(path@.take(n as int).subrange(i as int, n as int) =~= path@.subrange(
            i as int,
            n as int,
        ));
    }
    lower_str(path.substring_char(i, n))
}

pub fn mime_for(path: &str, overrides: &Table<String>) -> (r: String)
    ensures
        r@ == mime_of(path@, *overrides),
{
    let n: usize = path.unicode_len();
    assert(path@.take(n as int) =~= path@);
    let ext = extension(path, n);
    match overrides.get(ext.as_str()) {
        Some(custom) => custom.clone(),
        None => builtin(ext.as_str()).to_owned(),
    }
}

fn find_uri(s: &Vec<char>, from: usize) -> (r: usize)
    requires
        from <= s@.len(),
    ensures
        from <= r <= s@.len(),
        r == uri_at(s@, from as int),
        r < s@.len() ==> uri_mark(s@, r as int),
{
    let mut i: usize = from;
    while i < s.len()
        invariant
            from <= i <= s@.len(),
            uri_at(s@, from as int) == uri_at(s@, i as int),
        decreases s@.len() - i,
    {
        if s.len() - i >= 4 && s[i] == '$' && s[i + 1] == 'u' && s[i + 2] == 'r' && s[i + 3] == 'i' {
            return i;
        }
        i += 1;
    }
    i
}

/// Append a template from `from` on, with each `$uri` replaced.
fn append_with_uri(out: &mut String, template: &str, from: usize, uri: &str)
    requires
        from <= template@.len(),
    ensures
        final(out)@ == old(out)@ + with_uri(template@, from as int, uri@),
{
    let s = to_chars(template);
    let ghost was = out@;
    let ghost goal = with_uri(template@, from as int, uri@);
    let mut at: usize = from;
    let mut i: usize = find_uri(&s, at);
    while i < s.len()
        invariant
            at <= i <= s@.len(),
            s@ == template@,
            i == uri_at(s@, at as int),
            i < s@.len() ==> uri_mark(s@, i as int),
            was + goal == out@ + with_uri(template@, at as int, uri@),
        decreases s@.len() - at,
    {
        let ghost before = out@;
        out.append(template.substring_char(at, i));
        out.append(uri);
        proof {
            let rest = with_uri(template@, i + 4, uri@);
            let here = template@.subrange(at as int, i as int);
            assert(before + (here + uri@ + rest) =~= before + here + uri@ + rest);
        }
        at = i + 4;
        i = find_uri(&s, at);
    }
    out.append(template.substring_char(at, s.len()));
}

/// A file to open: the directory to open it within, the path below that
/// directory, and its type.
pub struct StaticPlan {
    pub base: String,
    pub rel: String,
    pub mime: String,
}

/// The same as a mathematical value.
pub struct PlanModel {
    pub base: Seq<char>,
    pub rel: Seq<char>,
    pub mime: Seq<char>,
}

impl View for StaticPlan {
    type V = PlanModel;

    open spec fn view(&self) -> PlanModel {
        PlanModel { base: self.base@, rel: self.rel@, mime: self.mime@ }
    }
}

/// The file that a share serves for a path, if it serves one: the file is no
/// protected source, its name is let through, and the path names something.
pub open spec fn plan(
    template: Seq<char>,
    index: Seq<char>,
    uri: Seq<char>,
    ctx: StaticContext<'_>,
) -> Option<PlanModel> {
    let (base, path) = base_and_path(template, uri);
    let target = indexed(path, index);
    let mime = mime_of(target, *ctx.mime_overrides);
    let rel = trimmed(target, '/');
    if protected(target, ctx) || (ctx.types matches Some(t) && !t.hits(
        lowered(encode_utf8(target)),
    )) || rel.len() == 0 {
        None
    } else {
        Some(PlanModel { base, rel, mime })
    }
}

fn contains_name(v: &[String], name: &str) -> (r: bool)
    ensures
        r == names(v@).contains(name@),
{
    let mut i: usize = 0;
    while i < v.len()
        invariant
            i <= v@.len(),
            forall|j: int| 0 <= j < i ==> (#[trigger] names(v@)[j]) != name@,
        decreases v@.len() - i,
    {
        assert(names(v@)[i as int] == v@[i as int]@);
        if same(v[i].as_str(), name) {
            return true;
        }
        i += 1;
    }
    false
}

fn lists_ext(exts: &Vec<String>, ext: &str) -> (r: bool)
    ensures
        r == exists|i: int|
            0 <= i < exts@.len() && lowered_chars(trimmed((#[trigger] exts@[i])@, '.')) == ext@,
{
    let mut i: usize = 0;
    while i < exts.len()
        invariant
            i <= exts@.len(),
            forall|j: int|
                0 <= j < i ==> lowered_chars(trimmed((#[trigger] exts@[j])@, '.')) != ext@,
        decreases exts@.len() - i,
    {
        if same(lower_str(trim_start(exts[i].as_str(), '.')).as_str(), ext) {
            assert(lowered_chars(trimmed(exts@[i as int]@, '.')) == ext@);
            return true;
        }
        i += 1;
    }
    false
}

fn opts_in(s: &ServeSources, ext: &str) -> (r: bool)
    ensures
        r == opted_in(*s, ext@),
{
    match s {
        ServeSources::Off => false,
        ServeSources::All => true,
        ServeSources::Only(exts) => lists_ext(exts, ext),
    }
}

fn undotted_len(s: &Vec<char>) -> (r: usize)
    ensures
        r <= s@.len(),
        undotted(s@) == s@.take(r as int),
{
    let mut n: usize = s.len();
    assert(s@.take(n as int) =~= s@);
    while n > 0 && (s[n - 1] == '.' || s[n - 1] == ' ')
        invariant
            n <= s@.len(),
            undotted(s@) == undotted(s@.take(n as int)),
        decreases n,
    {
        assert(s@.take(n as int).drop_last() =~= s@.take(n - 1));
        n -= 1;
    }
    n
}

fn is_protected(target: &str, ctx: &StaticContext<'_>) -> (r: bool)
    ensures
        r == protected(target@, *ctx),
{
    let s = to_chars(target);
    let n: usize = undotted_len(&s);
    let ext = extension(target, n);
    (contains_name(ctx.source_exts, ext.as_str()) || contains_name(
        ctx.extra_source_exts,
        ext.as_str(),
    )) && !opts_in(ctx.serve_sources, ext.as_str())
}

/// Find the file for a path that is given as a text.
pub fn locate_text(template: &str, index: &str, uri: &str, ctx: &StaticContext<'_>) -> (r: Option<
    StaticPlan,
>)
    ensures
        match plan(template@, index@, uri@, *ctx) {
            Some(p) => r matches Some(x) && x@ == p,
            None => r is None,
        },
{
    let s = to_chars(template);
    let i: usize = find_uri(&s, 0);
    let mut target: String;
    let base: String;
    if i < s.len() {
        base = template.substring_char(0, i).to_owned();
        target = uri.to_owned();
        append_with_uri(&mut target, template, i + 4, uri);
    } else {
        base = "/".to_owned();
        target = template.to_owned();
    }
    let n: usize = target.as_str().unicode_len();
    if n > 0 && target.as_str().get_char(n - 1) == '/' {
        target.append(index);
    }
    if is_protected(target.as_str(), ctx) {
        return None;
    }
    if let Some(types) = ctx.types {
        if !types.matches(target.as_str().as_bytes(), true) {
            return None;
        }
    }
    let mime = mime_for(target.as_str(), ctx.mime_overrides);
    let rel = trim_start(target.as_str(), '/');
    if rel.unicode_len() == 0 {
        return None;
    }
    Some(StaticPlan { base, rel: rel.to_owned(), mime })
}

/// Find the file for a path.
pub fn locate(template: &str, index: &str, path: &[u8], ctx: &StaticContext<'_>) -> (r: Option<
    StaticPlan,
>)
    ensures
        match plan(template@, index@, text_of(path@), *ctx) {
            Some(p) => r matches Some(x) && x@ == p,
            None => r is None,
        },
{
    let uri = read_text(path);
    locate_text(template, index, uri.as_str(), ctx)
}

/// Whether a list of entity tags, or `*`, names the given one.
pub open spec fn listed(header: Seq<u8>, etag: Seq<u8>) -> bool {
    header == text("*") || exists|i: int|
        0 <= i < pieces(header, 44).len() && trimmed_right(
            trimmed_left(#[trigger] pieces(header, 44)[i]),
        ) == etag
}

pub fn etag_listed(header: &[u8], etag: &[u8]) -> (r: bool)
    ensures
        r == listed(header@, etag@),
{
    if is_text(header, "*") {
        return true;
    }
    let parts = split(header, 44);
    let ghost all = pieces(header@, 44);
    let mut i: usize = 0;
    while i < parts.len()
        invariant
            i <= parts@.len(),
            all == views(parts@),
            all == pieces(header@, 44),
            forall|j: int| 0 <= j < i ==> trimmed_right(trimmed_left(#[trigger] all[j])) != etag@,
        decreases parts@.len() - i,
    {
        assert(all[i as int] == parts@[i as int]@);
        if eq(trim(parts[i].as_slice()), etag) {
            return true;
        }
        i += 1;
    }
    false
}

/// The first and last byte that a range header asks for, of a file of the
/// given size. Nothing where the header is to be ignored, an error where the
/// range cannot be satisfied.
pub open spec fn range_of(header: Seq<u8>, size: u64) -> Result<Option<(u64, u64)>, ()> {
    if !has_prefix(header, text("bytes=")) {
        Ok(None)
    } else {
        let ranges = header.subrange(text("bytes=").len() as int, header.len() as int);
        if ranges.contains(44) {
            Ok(None)
        } else {
            match cut(trimmed_right(trimmed_left(ranges)), 45) {
                None => Err(()),
                Some((first, last)) => if size == 0 {
                    Err(())
                } else if first.len() == 0 {
                    match number(last, u64::MAX as nat) {
                        None => Err(()),
                        Some(n) => if n == 0 {
                            Err(())
                        } else if n >= size {
                            Ok(Some((0u64, (size - 1) as u64)))
                        } else {
                            Ok(Some(((size - n) as u64, (size - 1) as u64)))
                        },
                    }
                } else {
                    match number(first, u64::MAX as nat) {
                        None => Err(()),
                        Some(start) => if start >= size {
                            Err(())
                        } else if last.len() == 0 {
                            Ok(Some((start as u64, (size - 1) as u64)))
                        } else {
                            match number(last, u64::MAX as nat) {
                                None => Err(()),
                                Some(end) => if end < start {
                                    Err(())
                                } else if end >= size {
                                    Ok(Some((start as u64, (size - 1) as u64)))
                                } else {
                                    Ok(Some((start as u64, end as u64)))
                                },
                            }
                        },
                    }
                },
            }
        }
    }
}

/// Read `bytes=start-end`, `bytes=start-` or `bytes=-suffix`. More than one
/// range, or another unit, is ignored.
pub fn parse_range(header: &[u8], size: u64) -> (r: Result<Option<(u64, u64)>, ()>)
    ensures
        r == range_of(header@, size),
{
    let unit = "bytes=".as_bytes();
    if !starts_with(header, unit) {
        return Ok(None);
    }
    let ranges = &header[unit.len()..header.len()];
    if find_byte(44, ranges).is_some() {
        return Ok(None);
    }
    let one = trim(ranges);
    let dash: usize = match find_byte(45, one) {
        Some(d) => d,
        None => {
            return Err(());
        },
    };
    let first = &one[0..dash];
    let last = &one[dash + 1..one.len()];
    if size == 0 {
        return Err(());
    }
    if first.len() == 0 {
        let n: u64 = match parse_number(last, u64::MAX) {
            Some(n) => n,
            None => {
                return Err(());
            },
        };
        if n == 0 {
            return Err(());
        }
        let start: u64 = if n >= size {
            0
        } else {
            size - n
        };
        return Ok(Some((start, size - 1)));
    }
    let start: u64 = match parse_number(first, u64::MAX) {
        Some(n) => n,
        None => {
            return Err(());
        },
    };
    if start >= size {
        return Err(());
    }
    if last.len() == 0 {
        return Ok(Some((start, size - 1)));
    }
    let end: u64 = match parse_number(last, u64::MAX) {
        Some(n) => n,
        None => {
            return Err(());
        },
    };
    if end < start {
        return Err(());
    }
    if end >= size {
        Ok(Some((start, size - 1)))
    } else {
        Ok(Some((start, end)))
    }
}

/// A range that is granted lies within the file.
pub proof fn range_lies_within_the_file(header: Seq<u8>, size: u64)
    ensures
        range_of(header, size) matches Ok(Some((start, end))) ==> start <= end < size,
{
}

/// What is known of a file that was opened.
#[derive(Debug, Clone, Copy)]
pub struct FileFacts {
    pub is_dir: bool,
    pub size: u64,
    /// Seconds since the first of January 1970.
    pub mtime: u64,
}

/// The entity tag of a file.
pub open spec fn etag_of(f: FileFacts) -> Seq<u8> {
    text("\"") + hex_text(f.mtime as nat) + text("-") + hex_text(f.size as nat) + text("\"")
}

/// Whether the client already has the file. `If-None-Match` wins over
/// `If-Modified-Since`, which counts only where it repeats our own date.
pub open spec fn unchanged(headers: Seq<(Seq<u8>, Seq<u8>)>, f: FileFacts) -> bool {
    match named(headers, text("if-none-match")) {
        Some(tags) => listed(tags, etag_of(f)),
        None => named(headers, text("if-modified-since")) == Some(
            encode_utf8(http_date_text(f.mtime as int)),
        ),
    }
}

/// The range that is asked for, unless `If-Range` names another entity.
pub open spec fn asked_range(
    headers: Seq<(Seq<u8>, Seq<u8>)>,
    f: FileFacts,
) -> Result<Option<(u64, u64)>, ()> {
    let allowed = match named(headers, text("if-range")) {
        Some(tag) => tag == etag_of(f),
        None => true,
    };
    match named(headers, text("range")) {
        Some(r) if allowed => range_of(r, f.size),
        _ => Ok(None),
    }
}

/// What is sent for a file: the status, the head, and which bytes of the file
/// follow it, by offset and length.
pub struct StaticReply {
    pub status: u16,
    pub head: Vec<u8>,
    pub body: Option<(u64, u64)>,
}

pub open spec fn not_modified_head(f: FileFacts, ctx: StaticContext<'_>) -> Seq<u8> {
    let ops = op_views(ctx.extra_headers@);
    phrased_line(304, text("Not Modified")) + own_line(text("server"), text(ctx.server), ops)
        + own_line(text("etag"), etag_of(f), ops) + own_line(
        text("last-modified"),
        encode_utf8(http_date_text(f.mtime as int)),
        ops,
    ) + set_lines(ops) + close_line(ctx.keep_alive) + text("\r\n")
}

pub open spec fn unsatisfiable_head(f: FileFacts, ctx: StaticContext<'_>) -> Seq<u8> {
    let ops = op_views(ctx.extra_headers@);
    phrased_line(416, text("Range Not Satisfiable")) + own_line(
        text("server"),
        text(ctx.server),
        ops,
    ) + header_line(text("content-range"), text("bytes */") + dec(f.size as nat)) + header_line(
        text("content-length"),
        dec(0),
    ) + set_lines(ops) + close_line(ctx.keep_alive) + text("\r\n")
}

/// The line that says which part of the file follows.
pub open spec fn range_line(range: Option<(u64, u64)>, size: u64) -> Seq<u8> {
    match range {
        Some((start, end)) => header_line(
            text("content-range"),
            text("bytes ") + dec(start as nat) + text("-") + dec(end as nat) + text("/") + dec(
                size as nat,
            ),
        ),
        None => seq![],
    }
}

pub open spec fn range_length(range: Option<(u64, u64)>, size: u64) -> int {
    match range {
        Some((start, end)) => end - start + 1,
        None => size as int,
    }
}

pub open spec fn file_head(
    range: Option<(u64, u64)>,
    mime: Seq<u8>,
    f: FileFacts,
    ctx: StaticContext<'_>,
) -> Seq<u8> {
    let ops = op_views(ctx.extra_headers@);
    (if range is Some {
        phrased_line(206, text("Partial Content"))
    } else {
        phrased_line(200, text("OK"))
    }) + own_line(text("server"), text(ctx.server), ops) + own_line(
        text("content-type"),
        mime,
        ops,
    ) + header_line(text("content-length"), dec(range_length(range, f.size) as nat)) + own_line(
        text("etag"),
        etag_of(f),
        ops,
    ) + own_line(
        text("last-modified"),
        encode_utf8(http_date_text(f.mtime as int)),
        ops,
    ) + own_line(text("accept-ranges"), text("bytes"), ops) + range_line(range, f.size) + set_lines(
        ops,
    ) + close_line(ctx.keep_alive) + text("\r\n")
}

/// The reply for a file that was opened for a path.
pub open spec fn reply_for(
    r: StaticReply,
    uri: Seq<char>,
    mime: Seq<u8>,
    f: FileFacts,
    ctx: StaticContext<'_>,
) -> bool {
    let headers = pairs(ctx.req_headers@);
    if f.is_dir {
        &&& r.status == 301
        &&& r.head@ == return_bytes(
            text(ctx.server),
            301,
            Some(encode_utf8(uri + "/"@)),
            op_views(ctx.extra_headers@),
            ctx.keep_alive,
        )
        &&& r.body is None
    } else if unchanged(headers, f) {
        r.status == 304 && r.head@ == not_modified_head(f, ctx) && r.body is None
    } else {
        match asked_range(headers, f) {
            Err(_) => r.status == 416 && r.head@ == unsatisfiable_head(f, ctx) && r.body is None,
            Ok(range) => {
                &&& r.status == if range is Some {
                    206u16
                } else {
                    200u16
                }
                &&& r.head@ == file_head(range, mime, f, ctx)
                &&& r.body == if ctx.head_only || range_length(range, f.size) == 0 {
                    None
                } else {
                    Some(
                        (
                            match range {
                                Some((start, _)) => start,
                                None => 0,
                            },
                            range_length(range, f.size) as u64,
                        ),
                    )
                }
            },
        }
    }
}

fn etag(f: &FileFacts) -> (r: Vec<u8>)
    ensures
        r@ == etag_of(*f),
{
    let mut out: Vec<u8> = Vec::new();
    push_str(&mut out, "\"");
    assert(out@ =~= text("\""));
    push_hex(&mut out, f.mtime);
    push_str(&mut out, "-");
    push_hex(&mut out, f.size);
    push_str(&mut out, "\"");
    out
}

fn write_not_modified(f: &FileFacts, tag: &[u8], date: &str, ctx: &StaticContext<'_>) -> (r: Vec<
    u8,
>)
    requires
        tag@ == etag_of(*f),
        date@ == http_date_text(f.mtime as int),
    ensures
        r@ == not_modified_head(*f, *ctx),
{
    let mut out: Vec<u8> = Vec::new();
    push_phrased_line(&mut out, 304, "Not Modified");
    assert(out@ =~= phrased_line(304, text("Not Modified")));
    push_own(&mut out, "server".as_bytes(), ctx.server.as_bytes(), ctx.extra_headers);
    push_own(&mut out, "etag".as_bytes(), tag, ctx.extra_headers);
    push_own(&mut out, "last-modified".as_bytes(), date.as_bytes(), ctx.extra_headers);
    push_set(&mut out, ctx.extra_headers);
    push_close(&mut out, ctx.keep_alive);
    push_str(&mut out, "\r\n");
    out
}

fn write_unsatisfiable(f: &FileFacts, ctx: &StaticContext<'_>) -> (r: Vec<u8>)
    ensures
        r@ == unsatisfiable_head(*f, *ctx),
{
    let mut range: Vec<u8> = Vec::new();
    push_str(&mut range, "bytes */");
    push_dec(&mut range, f.size);
    assert(range@ =~= text("bytes */") + dec(f.size as nat));
    let mut out: Vec<u8> = Vec::new();
    push_phrased_line(&mut out, 416, "Range Not Satisfiable");
    assert(out@ =~= phrased_line(416, text("Range Not Satisfiable")));
    push_own(&mut out, "server".as_bytes(), ctx.server.as_bytes(), ctx.extra_headers);
    push_header(&mut out, "content-range".as_bytes(), range.as_slice());
    push_length(&mut out, 0);
    push_set(&mut out, ctx.extra_headers);
    push_close(&mut out, ctx.keep_alive);
    push_str(&mut out, "\r\n");
    out
}

fn push_range(out: &mut Vec<u8>, range: Option<(u64, u64)>, size: u64)
    ensures
        final(out)@ == old(out)@ + range_line(range, size),
{
    if let Some((start, end)) = range {
        let mut v: Vec<u8> = Vec::new();
        push_str(&mut v, "bytes ");
        assert(v@ =~= text("bytes "));
        push_dec(&mut v, start);
        push_str(&mut v, "-");
        push_dec(&mut v, end);
        push_str(&mut v, "/");
        push_dec(&mut v, size);
        push_header(out, "content-range".as_bytes(), v.as_slice());
    } else {
        assert(out@ =~= old(out)@ + range_line(range, size));
    }
}

fn write_file_head(
    range: Option<(u64, u64)>,
    length: u64,
    mime: &str,
    f: &FileFacts,
    tag: &[u8],
    date: &str,
    ctx: &StaticContext<'_>,
) -> (r: Vec<u8>)
    requires
        tag@ == etag_of(*f),
        date@ == http_date_text(f.mtime as int),
        length == range_length(range, f.size),
    ensures
        r@ == file_head(range, text(mime), *f, *ctx),
{
    let mut out: Vec<u8> = Vec::new();
    if range.is_some() {
        push_phrased_line(&mut out, 206, "Partial Content");
        assert(out@ =~= phrased_line(206, text("Partial Content")));
    } else {
        push_phrased_line(&mut out, 200, "OK");
        assert(out@ =~= phrased_line(200, text("OK")));
    }
    push_own(&mut out, "server".as_bytes(), ctx.server.as_bytes(), ctx.extra_headers);
    push_own(&mut out, "content-type".as_bytes(), mime.as_bytes(), ctx.extra_headers);
    push_length(&mut out, length);
    push_own(&mut out, "etag".as_bytes(), tag, ctx.extra_headers);
    push_own(&mut out, "last-modified".as_bytes(), date.as_bytes(), ctx.extra_headers);
    push_own(&mut out, "accept-ranges".as_bytes(), "bytes".as_bytes(), ctx.extra_headers);
    push_range(&mut out, range, f.size);
    push_set(&mut out, ctx.extra_headers);
    push_close(&mut out, ctx.keep_alive);
    push_str(&mut out, "\r\n");
    out
}

/// The reply for a file that was opened for a path, given as a text.
pub fn respond_text(uri: &str, mime: &str, f: &FileFacts, ctx: &StaticContext<'_>) -> (r:
    StaticReply)
    ensures
        reply_for(r, uri@, text(mime), *f, *ctx),
{
    if f.is_dir {
        let location = cat2(uri, "/");
        let mut head: Vec<u8> = Vec::new();
        write_return(
            &mut head,
            ctx.server,
            301,
            Some(location.as_str().as_bytes()),
            ctx.extra_headers,
            ctx.keep_alive,
        );
        assert(head@ =~= return_bytes(
            text(ctx.server),
            301,
            Some(encode_utf8(uri@ + "/"@)),
            op_views(ctx.extra_headers@),
            ctx.keep_alive,
        ));
        return StaticReply { status: 301, head, body: None };
    }
    let tag = etag(f);
    let date = http_date(f.mtime);
    let have = match lookup(ctx.req_headers, "if-none-match".as_bytes()) {
        Some(tags) => etag_listed(tags, tag.as_slice()),
        None => match lookup(ctx.req_headers, "if-modified-since".as_bytes()) {
            Some(v) => eq(v, date.as_str().as_bytes()),
            None => false,
        },
    };
    if have {
        let head = write_not_modified(f, tag.as_slice(), date.as_str(), ctx);
        return StaticReply { status: 304, head, body: None };
    }
    let allowed = match lookup(ctx.req_headers, "if-range".as_bytes()) {
        Some(t) => eq(t, tag.as_slice()),
        None => true,
    };
    let range: Option<(u64, u64)> = match lookup(ctx.req_headers, "range".as_bytes()) {
        Some(h) => if allowed {
            match parse_range(h, f.size) {
                Ok(r) => r,
                Err(_) => {
                    let head = write_unsatisfiable(f, ctx);
                    return StaticReply { status: 416, head, body: None };
                },
            }
        } else {
            None
        },
        None => None,
    };
    assert(asked_range(pairs(ctx.req_headers@), *f) == Ok::<Option<(u64, u64)>, ()>(range));
    let (status, offset, length): (u16, u64, u64) = match range {
        Some((start, end)) => (206, start, end - start + 1),
        None => (200, 0, f.size),
    };
    let head = write_file_head(range, length, mime, f, tag.as_slice(), date.as_str(), ctx);
    let body: Option<(u64, u64)> = if ctx.head_only || length == 0 {
        None
    } else {
        Some((offset, length))
    };
    StaticReply { status, head, body }
}

/// The reply for a file that was opened for a path.
pub fn respond(path: &[u8], plan: &StaticPlan, f: &FileFacts, ctx: &StaticContext<'_>) -> (r:
    StaticReply)
    ensures
        reply_for(r, text_of(path@), encode_utf8(plan@.mime), *f, *ctx),
{
    let uri = read_text(path);
    respond_text(uri.as_str(), plan.mime.as_str(), f, ctx)
}

/// A file whose extension a module executes is not served, whatever the share
/// says, unless the share opts that extension out.
pub proof fn sources_are_kept_back(
    template: Seq<char>,
    index: Seq<char>,
    uri: Seq<char>,
    ctx: StaticContext<'_>,
)
    requires
        ({
            let ext = source_ext(indexed(base_and_path(template, uri).1, index));
            &&& names(ctx.source_exts@).contains(ext) || names(ctx.extra_source_exts@).contains(
                ext,
            )
            &&& !opted_in(*ctx.serve_sources, ext)
        }),
    ensures
        plan(template, index, uri, ctx) is None,
{
}

/// The directory that a file is opened within is the template's alone: no
/// path changes it. The path below it is relative.
pub proof fn base_is_fixed_by_the_template(
    template: Seq<char>,
    index: Seq<char>,
    uri: Seq<char>,
    other: Seq<char>,
    ctx: StaticContext<'_>,
)
    ensures
        plan(template, index, uri, ctx) matches Some(p) ==> {
            &&& p.base == base_and_path(template, other).0
            &&& p.rel.len() > 0 && p.rel[0] != '/'
        },
{
    lemma_trimmed(indexed(base_and_path(template, uri).1, index), '/');
}

proof fn lemma_trimmed(s: Seq<char>, c: char)
    ensures
        trimmed(s, c).len() > 0 ==> trimmed(s, c)[0] != c,
    decreases s.len(),
{
    if s.len() > 0 && s[0] == c {
        lemma_trimmed(s.subrange(1, s.len() as int), c);
    }
}

proof fn lemma_hex_chars(n: nat)
    ensures
        forall|i: int| 0 <= i < hex_text(n).len() ==> #[trigger] hex_text(n)[i] > 44,
    decreases n,
{
    let all = hex_text(n);
    if n >= 16 {
        lemma_hex_chars(n / 16);
        let init = hex_text(n / 16);
        assert(all == init.push(hex_byte((n % 16) as int)));
        assert forall|i: int| 0 <= i < all.len() implies #[trigger] all[i] > 44 by {
            if i < init.len() {
                assert(all[i] == init[i]);
            }
        }
    } else {
        assert(all == seq![hex_byte(n as int)]);
    }
}

proof fn lemma_one_piece(s: Seq<u8>, b: u8)
    requires
        forall|i: int| 0 <= i < s.len() ==> #[trigger] s[i] != b,
    ensures
        pieces(s, b) == seq![s],
    decreases s.len(),
{
    if s.len() > 0 {
        lemma_one_piece(s.drop_last(), b);
        assert(s.drop_last().push(s.last()) =~= s);
        assert(seq![s.drop_last()].drop_last().push(s) =~= seq![s]);
    } else {
        assert(s =~= Seq::<u8>::empty());
    }
}

/// A client that sends back the tag of a file that has not changed is told so.
pub proof fn own_tag_is_unchanged(headers: Seq<(Seq<u8>, Seq<u8>)>, f: FileFacts)
    requires
        named(headers, text("if-none-match")) == Some(etag_of(f)),
    ensures
        unchanged(headers, f),
{
    reveal_strlit("\"");
    reveal_strlit("-");
    let quote = seq![34u8];
    let dash = seq![45u8];
    assert(is_ascii_chars("\""@));
    assert(is_ascii_chars("-"@));
    is_ascii_chars_encode_utf8("\""@);
    is_ascii_chars_encode_utf8("-"@);
    assert(text("\"") =~= quote);
    assert(text("-") =~= dash);
    let tag = etag_of(f);
    lemma_hex_chars(f.mtime as nat);
    lemma_hex_chars(f.size as nat);
    assert(forall|i: int| 0 <= i < tag.len() ==> #[trigger] tag[i] != 44);
    lemma_one_piece(tag, 44);
    assert(tag[0] == 34);
    assert(tag.last() == 34);
    assert(trimmed_left(tag) == tag);
    assert(trimmed_right(tag) == tag);
    assert(trimmed_right(trimmed_left(pieces(tag, 44)[0])) == tag);
}

} // verus!
