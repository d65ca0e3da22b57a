//! What a client gets of a file.

use vstd::prelude::*;
use vstd::string::*;
use vstd::utf8::{encode_utf8, is_ascii_chars_encode_utf8};

use crate::bytes::{
    all_digits, cut, dec, digits_spell_their_number, first_at, has_prefix, is_digit, lemma_find,
    number, pieces, text, trimmed_left, trimmed_right,
};
use crate::laws::lines::{
    apart, around, blank, ended, lemma_around, lemma_ended_joins, lemma_pieces_of_parts,
};
use crate::laws::relay::{
    a_return_is_answered, farewell, first_line, lemma_crlf, lemma_farewell, lemma_first_line,
    lemma_header, lemma_own, lemma_set, message, own, said, set_headers, Changes,
};
use crate::laws::routing::{first_named, lemma_first_named};
use crate::router::args::{named, pairs};
use crate::router::http1::head::hex_text;
use crate::router::routes::op_views;
use crate::router::serve_static::{
    asked_range, etag_of, file_head, listed, not_modified_head, range_of, reply_for, respond,
    respond_text, unsatisfiable_head, FileFacts, StaticContext, StaticPlan, StaticReply,
};
use crate::router::uri::http_date_text;
use crate::text::text_of;

verus! {

/// The tag of a file: when it was changed and how large it is, in quotes.
pub open spec fn tag(f: FileFacts) -> Seq<u8> {
    seq![34u8] + hex_text(f.mtime as nat) + seq![45u8] + hex_text(f.size as nat) + seq![34u8]
}

/// The date of a file's last change.
pub open spec fn changed_on(f: FileFacts) -> Seq<u8> {
    encode_utf8(http_date_text(f.mtime as int))
}

proof fn lemma_tag(f: FileFacts)
    ensures
        etag_of(f) == tag(f),
        tag(f).len() > 1,
        !blank(tag(f)[0]),
        !blank(tag(f)[tag(f).len() - 1]),
{
    reveal_strlit("\"");
    reveal_strlit("-");
    is_ascii_chars_encode_utf8("\""@);
    is_ascii_chars_encode_utf8("-"@);
    assert(text("\"") =~= seq![34u8]);
    assert(text("-") =~= seq![45u8]);
}

/// What is asked for under a name, if anything is.
pub open spec fn asks(ctx: StaticContext<'_>, name: Seq<u8>, v: Seq<u8>) -> bool {
    exists|i: int|
        #[trigger] first_named(pairs(ctx.req_headers@), name, i) && pairs(ctx.req_headers@)[i].1
            == v
}

/// That nothing is asked for under a name.
pub open spec fn asks_nothing(ctx: StaticContext<'_>, name: Seq<u8>) -> bool {
    forall|i: int| !first_named(pairs(ctx.req_headers@), name, i)
}

proof fn lemma_asks(ctx: StaticContext<'_>, name: Seq<u8>, v: Seq<u8>)
    ensures
        asks(ctx, name, v) == (named(pairs(ctx.req_headers@), name) == Some(v)),
        asks_nothing(ctx, name) == (named(pairs(ctx.req_headers@), name) is None),
{
    let ps = pairs(ctx.req_headers@);
    lemma_first_named(ps, name, 0);
    if asks(ctx, name, v) {
        let i = choose|i: int| #[trigger] first_named(ps, name, i) && ps[i].1 == v;
        lemma_first_named(ps, name, i);
    }
    if named(ps, name) == Some(v) {
        let i = choose|i: int| first_named(ps, name, i);
        lemma_first_named(ps, name, i);
        assert(first_named(ps, name, i) && ps[i].1 == v);
    }
}

/// Without tags to compare, a file is reported as unchanged exactly where the date
/// that the client has is byte for byte the date of the file.
pub proof fn a_date_must_be_the_files_own(
    uri: &str,
    mime: &str,
    f: &FileFacts,
    ctx: &StaticContext<'_>,
    r: StaticReply,
)
    requires
        call_ensures(respond_text, (uri, mime, f, ctx), r),
        !f.is_dir,
        asks_nothing(*ctx, text("if-none-match")),
    ensures
        (r.status == 304) == asks(*ctx, text("if-modified-since"), changed_on(*f)),
{
    lemma_asks(*ctx, text("if-none-match"), seq![]);
    lemma_asks(*ctx, text("if-modified-since"), changed_on(*f));
}

/// Where the client has tags, the date does not matter: the file is reported as
/// unchanged exactly where one of them is the tag of the file, or stands for all.
#[verifier::spinoff_prover]
#[verifier::rlimit(50)]
pub proof fn a_tag_must_be_the_files_own(
    uri: &str,
    mime: &str,
    f: &FileFacts,
    ctx: &StaticContext<'_>,
    tags: Seq<Seq<u8>>,
    r: StaticReply,
)
    requires
        call_ensures(respond_text, (uri, mime, f, ctx), r),
        !f.is_dir,
        tags.len() > 0,
        forall|i: int| 0 <= i < tags.len() ==> !(#[trigger] tags[i]).contains(44),
        asks(*ctx, text("if-none-match"), apart(tags, 44)),
    ensures
        (r.status == 304) == (apart(tags, 44) == seq![42u8] || exists|i: int, a: int|
            0 <= i < tags.len() && #[trigger] around(tags[i], tag(*f), a)),
{
    let header = apart(tags, 44);
    lemma_asks(*ctx, text("if-none-match"), header);
    lemma_pieces_of_parts(tags, 44);
    lemma_tag(*f);
    reveal_strlit("*");
    is_ascii_chars_encode_utf8("*"@);
    assert(text("*") =~= seq![42u8]);
    assert forall|i: int| 0 <= i < tags.len() implies (trimmed_right(
        trimmed_left(#[trigger] tags[i]),
    ) == tag(*f)) == exists|a: int| around(tags[i], tag(*f), a) by {
        lemma_around(tags[i], tag(*f));
    }
    if exists|i: int, a: int| 0 <= i < tags.len() && #[trigger] around(tags[i], tag(*f), a) {
        let (i, a) = choose|i: int, a: int|
            0 <= i < tags.len() && #[trigger] around(tags[i], tag(*f), a);
        assert(trimmed_right(trimmed_left(pieces(header, 44)[i])) == tag(*f));
    }
    if listed(header, tag(*f)) && header != seq![42u8] {
        let i = choose|i: int|
            0 <= i < tags.len() && trimmed_right(
                trimmed_left(#[trigger] pieces(header, 44)[i]),
            ) == tag(*f);
        assert(trimmed_right(trimmed_left(tags[i])) == tag(*f));
        let a = choose|a: int| around(tags[i], tag(*f), a);
        assert(around(tags[i], tag(*f), a));
    }
}

/// What a client is told of a file besides its content: all but the last two parts
/// of the head lines.
pub open spec fn file_lines(
    first: Seq<u8>,
    mime: Seq<u8>,
    length: int,
    part: Seq<Seq<u8>>,
    f: FileFacts,
    server: Seq<u8>,
    changes: Changes,
) -> Seq<Seq<u8>> {
    seq![first] + own(text("server"), server, changes) + own(text("content-type"), mime, changes)
        + seq![said(text("content-length"), dec(length as nat))] + own(
        text("etag"),
        tag(f),
        changes,
    ) + own(text("last-modified"), changed_on(f), changes) + own(
        text("accept-ranges"),
        text("bytes"),
        changes,
    ) + part
}

/// A file that is given whole.
pub open spec fn given_whole(
    r: StaticReply,
    mime: Seq<u8>,
    f: FileFacts,
    ctx: StaticContext<'_>,
) -> bool {
    let changes = op_views(ctx.extra_headers@);
    &&& r.status == 200
    &&& r.head@ == message(
        file_lines(
            first_line(200, text("OK")),
            mime,
            f.size as int,
            seq![],
            f,
            text(ctx.server),
            changes,
        ) + set_headers(changes) + farewell(ctx.keep_alive),
        seq![],
    )
    &&& r.body == if ctx.head_only || f.size == 0 {
        None
    } else {
        Some((0u64, f.size))
    }
}

/// A part of a file, from one byte to another: what it is, how long, and where.
pub open spec fn given_part(
    r: StaticReply,
    mime: Seq<u8>,
    from: int,
    to: int,
    f: FileFacts,
    ctx: StaticContext<'_>,
) -> bool {
    let changes = op_views(ctx.extra_headers@);
    &&& 0 <= from <= to < f.size
    &&& r.status == 206
    &&& r.head@ == message(
        file_lines(
            first_line(206, text("Partial Content")),
            mime,
            to - from + 1,
            seq![
                said(
                    text("content-range"),
                    text("bytes ") + dec(from as nat) + text("-") + dec(to as nat) + text("/")
                        + dec(f.size as nat),
                ),
            ],
            f,
            text(ctx.server),
            changes,
        ) + set_headers(changes) + farewell(ctx.keep_alive),
        seq![],
    )
    &&& r.body == if ctx.head_only {
        None
    } else {
        Some((from as u64, (to - from + 1) as u64))
    }
}

/// A part that the file does not have: the client learns how large it is.
pub open spec fn refused_part(r: StaticReply, f: FileFacts, ctx: StaticContext<'_>) -> bool {
    let changes = op_views(ctx.extra_headers@);
    &&& r.status == 416
    &&& r.head@ == message(
        seq![first_line(416, text("Range Not Satisfiable"))] + own(
            text("server"),
            text(ctx.server),
            changes,
        ) + seq![
            said(text("content-range"), text("bytes */") + dec(f.size as nat)),
            said(text("content-length"), text("0")),
        ] + set_headers(changes) + farewell(ctx.keep_alive),
        seq![],
    )
    &&& r.body is None
}

#[verifier::spinoff_prover]
#[verifier::rlimit(50)]
proof fn lemma_file_head(
    range: Option<(u64, u64)>,
    mime: Seq<u8>,
    f: FileFacts,
    ctx: StaticContext<'_>,
    length: int,
    part: Seq<Seq<u8>>,
    first: Seq<u8>,
)
    requires
        first == if range is Some {
            first_line(206, text("Partial Content"))
        } else {
            first_line(200, text("OK"))
        },
        match range {
            Some((a, b)) => length == b - a + 1 && part == seq![
                said(
                    text("content-range"),
                    text("bytes ") + dec(a as nat) + text("-") + dec(b as nat) + text("/") + dec(
                        f.size as nat,
                    ),
                ),
            ],
            None => length == f.size && part.len() == 0,
        },
    ensures
        ({
            let changes = op_views(ctx.extra_headers@);
            file_head(range, mime, f, ctx) == message(
                file_lines(first, mime, length, part, f, text(ctx.server), changes)
                    + set_headers(changes) + farewell(ctx.keep_alive),
                seq![],
            )
        }),
{
    let changes = op_views(ctx.extra_headers@);
    lemma_tag(f);
    let a = seq![first];
    let b = own(text("server"), text(ctx.server), changes);
    let c = own(text("content-type"), mime, changes);
    let d = seq![said(text("content-length"), dec(length as nat))];
    let e = own(text("etag"), tag(f), changes);
    let g = own(text("last-modified"), changed_on(f), changes);
    let h = own(text("accept-ranges"), text("bytes"), changes);
    let k = set_headers(changes);
    let l = farewell(ctx.keep_alive);
    lemma_first_line(206, text("Partial Content"));
    lemma_first_line(200, text("OK"));
    lemma_own(text("server"), text(ctx.server), changes);
    lemma_own(text("content-type"), mime, changes);
    lemma_header(text("content-length"), dec(length as nat));
    lemma_own(text("etag"), tag(f), changes);
    lemma_own(text("last-modified"), changed_on(f), changes);
    lemma_own(text("accept-ranges"), text("bytes"), changes);
    lemma_set(changes);
    lemma_farewell(ctx.keep_alive);
    match range {
        Some((from, to)) => {
            lemma_header(
                text("content-range"),
                text("bytes ") + dec(from as nat) + text("-") + dec(to as nat) + text("/") + dec(
                    f.size as nat,
                ),
            );
        },
        None => {
            assert(ended(part) =~= seq![]);
        },
    }
    lemma_ended_joins(a, b);
    lemma_ended_joins(a + b, c);
    lemma_ended_joins(a + b + c, d);
    lemma_ended_joins(a + b + c + d, e);
    lemma_ended_joins(a + b + c + d + e, g);
    lemma_ended_joins(a + b + c + d + e + g, h);
    lemma_ended_joins(a + b + c + d + e + g + h, part);
    lemma_ended_joins(a + b + c + d + e + g + h + part, k);
    lemma_ended_joins(a + b + c + d + e + g + h + part + k, l);
    lemma_crlf();
    assert(file_head(range, mime, f, ctx) =~= message(
        a + b + c + d + e + g + h + part + k + l,
        seq![],
    ));
}

#[verifier::spinoff_prover]
#[verifier::rlimit(50)]
proof fn lemma_given(
    range: Option<(u64, u64)>,
    r: StaticReply,
    uri: Seq<char>,
    mime: Seq<u8>,
    f: FileFacts,
    ctx: StaticContext<'_>,
)
    requires
        reply_for(r, uri, mime, f, ctx),
        !f.is_dir,
        r.status != 304,
        asked_range(pairs(ctx.req_headers@), f) == Ok::<Option<(u64, u64)>, ()>(range),
        range matches Some((a, b)) ==> a <= b < f.size,
    ensures
        range matches Some((a, b)) ==> given_part(r, mime, a as int, b as int, f, ctx),
        range is None ==> given_whole(r, mime, f, ctx),
{
    match range {
        Some((a, b)) => {
            lemma_file_head(
                range,
                mime,
                f,
                ctx,
                b - a + 1,
                seq![
                    said(
                        text("content-range"),
                        text("bytes ") + dec(a as nat) + text("-") + dec(b as nat) + text("/")
                            + dec(f.size as nat),
                    ),
                ],
                first_line(206, text("Partial Content")),
            );
        },
        None => {
            lemma_file_head(
                range,
                mime,
                f,
                ctx,
                f.size as int,
                seq![],
                first_line(200, text("OK")),
            );
        },
    }
}

#[verifier::spinoff_prover]
#[verifier::rlimit(50)]
proof fn lemma_refused(
    r: StaticReply,
    uri: Seq<char>,
    mime: Seq<u8>,
    f: FileFacts,
    ctx: StaticContext<'_>,
)
    requires
        reply_for(r, uri, mime, f, ctx),
        !f.is_dir,
        r.status != 304,
        asked_range(pairs(ctx.req_headers@), f) is Err,
    ensures
        refused_part(r, f, ctx),
{
    let changes = op_views(ctx.extra_headers@);
    let a = seq![first_line(416, text("Range Not Satisfiable"))];
    let b = own(text("server"), text(ctx.server), changes);
    let x = said(text("content-range"), text("bytes */") + dec(f.size as nat));
    let y = said(text("content-length"), text("0"));
    let c = seq![x, y];
    let d = set_headers(changes);
    let e = farewell(ctx.keep_alive);
    lemma_first_line(416, text("Range Not Satisfiable"));
    lemma_own(text("server"), text(ctx.server), changes);
    lemma_header(text("content-range"), text("bytes */") + dec(f.size as nat));
    lemma_header(text("content-length"), text("0"));
    reveal_strlit("0");
    is_ascii_chars_encode_utf8("0"@);
    assert(dec(0) =~= text("0"));
    assert(c =~= seq![x] + seq![y]);
    lemma_ended_joins(seq![x], seq![y]);
    lemma_set(changes);
    lemma_farewell(ctx.keep_alive);
    lemma_ended_joins(a, b);
    lemma_ended_joins(a + b, c);
    lemma_ended_joins(a + b + c, d);
    lemma_ended_joins(a + b + c + d, e);
    lemma_crlf();
    assert(unsatisfiable_head(f, ctx) =~= message(a + b + c + d + e, seq![]));
}

/// A directory is answered with where it is: its path with a slash behind it.
pub proof fn a_directory_is_a_slash_away(
    path: &[u8],
    plan: &StaticPlan,
    f: &FileFacts,
    ctx: &StaticContext<'_>,
    r: StaticReply,
)
    requires
        call_ensures(respond, (path, plan, f, ctx), r),
        f.is_dir,
    ensures
        ({
            let changes = op_views(ctx.extra_headers@);
            &&& r.status == 301
            &&& r.body is None
            &&& r.head@ == message(
                seq![first_line(301, encode_utf8("Moved Permanently"@))] + own(
                    text("server"),
                    text(ctx.server),
                    changes,
                ) + seq![text("content-length: 0")] + own(
                    text("location"),
                    encode_utf8(text_of(path@).push('/')),
                    changes,
                ) + set_headers(changes) + farewell(ctx.keep_alive),
                seq![],
            )
        }),
{
    reveal_strlit("/");
    assert(text_of(path@) + "/"@ =~= text_of(path@).push('/'));
    a_return_is_answered(
        text(ctx.server),
        301,
        Some(encode_utf8(text_of(path@).push('/'))),
        op_views(ctx.extra_headers@),
        ctx.keep_alive,
    );
}

/// An unchanged file is answered with its tag and date, and no content.
#[verifier::spinoff_prover]
#[verifier::rlimit(50)]
pub proof fn an_unchanged_file_is_not_sent(
    path: &[u8],
    plan: &StaticPlan,
    f: &FileFacts,
    ctx: &StaticContext<'_>,
    r: StaticReply,
)
    requires
        call_ensures(respond, (path, plan, f, ctx), r),
        !f.is_dir,
        r.status == 304,
    ensures
        ({
            let changes = op_views(ctx.extra_headers@);
            &&& r.body is None
            &&& r.head@ == message(
                seq![first_line(304, text("Not Modified"))] + own(
                    text("server"),
                    text(ctx.server),
                    changes,
                ) + own(text("etag"), tag(*f), changes) + own(
                    text("last-modified"),
                    changed_on(*f),
                    changes,
                ) + set_headers(changes) + farewell(ctx.keep_alive),
                seq![],
            )
        }),
{
    let changes = op_views(ctx.extra_headers@);
    let a = seq![first_line(304, text("Not Modified"))];
    let b = own(text("server"), text(ctx.server), changes);
    let c = own(text("etag"), tag(*f), changes);
    let d = own(text("last-modified"), changed_on(*f), changes);
    let e = set_headers(changes);
    let g = farewell(ctx.keep_alive);
    lemma_tag(*f);
    lemma_first_line(304, text("Not Modified"));
    lemma_own(text("server"), text(ctx.server), changes);
    lemma_own(text("etag"), tag(*f), changes);
    lemma_own(text("last-modified"), changed_on(*f), changes);
    lemma_set(changes);
    lemma_farewell(ctx.keep_alive);
    lemma_ended_joins(a, b);
    lemma_ended_joins(a + b, c);
    lemma_ended_joins(a + b + c, d);
    lemma_ended_joins(a + b + c + d, e);
    lemma_ended_joins(a + b + c + d + e, g);
    lemma_crlf();
    assert(not_modified_head(*f, *ctx) =~= message(a + b + c + d + e + g, seq![]));
}

/// Whether parts are given: not to a client whose tag is another one.
pub open spec fn parts_are_given(f: FileFacts, ctx: StaticContext<'_>) -> bool {
    asks_nothing(ctx, text("if-range")) || asks(ctx, text("if-range"), tag(f))
}

/// A file that is sent is sent whole unless a part is asked for. One who asks for
/// several parts at once, who counts in something else than bytes, or who has
/// another version of the file gets it whole too.
pub proof fn a_file_is_sent_whole(
    path: &[u8],
    plan: &StaticPlan,
    f: &FileFacts,
    ctx: &StaticContext<'_>,
    asked: Seq<u8>,
    r: StaticReply,
)
    requires
        call_ensures(respond, (path, plan, f, ctx), r),
        !f.is_dir,
        r.status != 304,
        ({
            ||| asks_nothing(*ctx, text("range"))
            ||| !parts_are_given(*f, *ctx)
            ||| asks(*ctx, text("range"), asked) && asked.contains(44)
            ||| asks(*ctx, text("range"), asked) && !has_prefix(asked, text("bytes="))
        }),
    ensures
        given_whole(r, encode_utf8(plan@.mime), *f, *ctx),
{
    lemma_whole_asked(*f, *ctx, asked);
    lemma_given(None, r, text_of(path@), encode_utf8(plan@.mime), *f, *ctx);
}

proof fn lemma_many(asked: Seq<u8>, size: u64)
    requires
        asked.contains(44) || !has_prefix(asked, text("bytes=")),
    ensures
        range_of(asked, size) == Ok::<Option<(u64, u64)>, ()>(None),
{
    if has_prefix(asked, text("bytes=")) {
        lemma_bytes();
        let i = choose|i: int| 0 <= i < asked.len() && asked[i] == 44;
        let front = asked.subrange(0, 6);
        if i < 6 {
            assert(front[i] == 44);
        }
        let rest = asked.subrange(6, asked.len() as int);
        assert(rest[i - 6] == 44);
    }
}

proof fn lemma_whole_asked(f: FileFacts, ctx: StaticContext<'_>, asked: Seq<u8>)
    requires
        ({
            ||| asks_nothing(ctx, text("range"))
            ||| !parts_are_given(f, ctx)
            ||| asks(ctx, text("range"), asked) && asked.contains(44)
            ||| asks(ctx, text("range"), asked) && !has_prefix(asked, text("bytes="))
        }),
    ensures
        asked_range(pairs(ctx.req_headers@), f) == Ok::<Option<(u64, u64)>, ()>(None),
{
    let headers = pairs(ctx.req_headers@);
    lemma_tag(f);
    lemma_asks(ctx, text("range"), asked);
    lemma_asks(ctx, text("if-range"), tag(f));
    if asks(ctx, text("range"), asked) && (asked.contains(44) || !has_prefix(
        asked,
        text("bytes="),
    )) {
        lemma_many(asked, f.size);
        assert(named(headers, text("range")) == Some(asked));
    }
}

proof fn lemma_bytes()
    ensures
        text("bytes=") == seq![98u8, 121, 116, 101, 115, 61],
{
    reveal_strlit("bytes=");
    is_ascii_chars_encode_utf8("bytes="@);
    assert(text("bytes=") =~= seq![98u8, 121, 116, 101, 115, 61]);
}

/// A number in digits, or nothing.
pub open spec fn shown(n: Option<u64>) -> Seq<u8> {
    match n {
        Some(n) => dec(n as nat),
        None => seq![],
    }
}

/// A part that is asked for: from one byte to another, from one to the end, or so
/// many at the end.
pub open spec fn wanted(from: Option<u64>, to: Option<u64>) -> Seq<u8> {
    text("bytes=") + shown(from) + seq![45u8] + shown(to)
}

proof fn lemma_shown(n: Option<u64>)
    ensures
        all_digits(shown(n)),
        n matches Some(x) ==> shown(n).len() > 0 && number(shown(n), u64::MAX as nat) == Some(
            x as nat,
        ),
{
    if let Some(x) = n {
        digits_spell_their_number(x as nat);
        assert(is_digit(shown(n)[0]));
    }
}

#[verifier::spinoff_prover]
#[verifier::rlimit(50)]
proof fn lemma_wanted(from: Option<u64>, to: Option<u64>)
    ensures
        ({
            let s = wanted(from, to);
            let rest = s.subrange(6, s.len() as int);
            &&& has_prefix(s, text("bytes="))
            &&& text("bytes=").len() == 6
            &&& !rest.contains(44)
            &&& cut(trimmed_right(trimmed_left(rest)), 45) == Some((shown(from), shown(to)))
        }),
{
    lemma_bytes();
    lemma_shown(from);
    lemma_shown(to);
    let s = wanted(from, to);
    let (x, y) = (shown(from), shown(to));
    let rest = s.subrange(6, s.len() as int);
    assert(s.subrange(0, 6) =~= text("bytes="));
    assert(rest =~= x + seq![45u8] + y);
    let n = x.len() as int;
    assert forall|i: int| 0 <= i < rest.len() implies rest[i] == 45 || is_digit(rest[i]) by {
        if i < n {
            assert(is_digit(x[i]));
        } else if i > n {
            assert(is_digit(y[i - n - 1]));
        }
    }
    assert(!crate::bytes::is_blank(rest[0]));
    assert(!crate::bytes::is_blank(rest[rest.len() - 1]));
    assert(trimmed_right(trimmed_left(rest)) == rest);
    assert forall|j: int| 0 <= j < n implies rest[j] != 45 by {
        assert(is_digit(x[j]));
    }
    assert(first_at(rest, 45, n));
    lemma_find(rest, 45, n);
    assert(rest.subrange(0, n) =~= x);
    assert(rest.subrange(n + 1, rest.len() as int) =~= y);
}

/// A part that is asked for is given as far as the file has it: from one byte to
/// another, both of them counted, from one byte to the end, or the last so many.
/// A part that starts behind the end, ends before it starts, or holds nothing, is
/// refused.
#[verifier::spinoff_prover]
#[verifier::rlimit(50)]
pub proof fn a_part_is_given_as_far_as_there_is(
    path: &[u8],
    plan: &StaticPlan,
    f: &FileFacts,
    ctx: &StaticContext<'_>,
    from: Option<u64>,
    to: Option<u64>,
    r: StaticReply,
)
    requires
        call_ensures(respond, (path, plan, f, ctx), r),
        !f.is_dir,
        r.status != 304,
        parts_are_given(*f, *ctx),
        asks(*ctx, text("range"), wanted(from, to)),
    ensures
        ({
            let mime = encode_utf8(plan@.mime);
            let last = f.size - 1;
            match (from, to) {
                (Some(a), Some(b)) => if a <= last && a <= b {
                    given_part(
                        r,
                        mime,
                        a as int,
                        if b <= last {
                            b as int
                        } else {
                            last
                        },
                        *f,
                        *ctx,
                    )
                } else {
                    refused_part(r, *f, *ctx)
                },
                (Some(a), None) => if a <= last {
                    given_part(r, mime, a as int, last, *f, *ctx)
                } else {
                    refused_part(r, *f, *ctx)
                },
                (None, Some(n)) => if n == 0 || f.size == 0 {
                    refused_part(r, *f, *ctx)
                } else {
                    given_part(
                        r,
                        mime,
                        if n <= f.size {
                            f.size - n
                        } else {
                            0
                        },
                        last,
                        *f,
                        *ctx,
                    )
                },
                (None, None) => refused_part(r, *f, *ctx),
            }
        }),
{
    let mime = encode_utf8(plan@.mime);
    lemma_tag(*f);
    lemma_asks(*ctx, text("range"), wanted(from, to));
    lemma_asks(*ctx, text("if-range"), tag(*f));
    lemma_wanted(from, to);
    lemma_shown(from);
    lemma_shown(to);
    let headers = pairs(ctx.req_headers@);
    assert(asked_range(headers, *f) == range_of(wanted(from, to), f.size));
    match asked_range(headers, *f) {
        Ok(range) => {
            lemma_given(range, r, text_of(path@), mime, *f, *ctx);
        },
        Err(_) => {
            lemma_refused(r, text_of(path@), mime, *f, *ctx);
        },
    }
}

} // verus!
