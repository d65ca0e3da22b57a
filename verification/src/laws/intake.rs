//! What is read of a request's head, and which requests are let in.

use vstd::prelude::*;
use vstd::string::*;
use vstd::utf8::is_ascii_chars_encode_utf8;

use crate::bytes::{lower, lowered, number, pieces, text, trimmed_left, trimmed_right, until};
use crate::config::table::Table;
use crate::laws::lines::{
    alike, apart, around, lemma_alike, lemma_around, lemma_pieces_of_parts, small,
};
use crate::laws::routing::{first_named, lemma_first_named};
use crate::router::addr::Addr;
use crate::router::args::{named, pairs};
use crate::router::http1::conn::{
    accept, body_want, examine, reusable, take_body, Admission, Admitted, ListenerKind, PoolCaps,
};
use crate::router::http1::parse::{
    framing, has_token, http_head, target_parts, websocket_upgrade, HeadModel, Parsed,
};
use crate::router::routes::{CompiledRoutes, Decision};
use crate::router::uri::normalized;

verus! {

/// Header lines as they stand in a head: each a name and a value.
pub type Lines = Seq<(Seq<u8>, Seq<u8>)>;

/// Whether the header at this place has this name, in letters of any case.
pub open spec fn is_header(h: Lines, i: int, name: Seq<u8>) -> bool {
    0 <= i < h.len() && alike(h[i].0, name)
}

/// A header that says nothing wrong of the body: a length that is a number, and no
/// other coding.
pub open spec fn sound(h: Lines, i: int) -> bool {
    &&& !is_header(h, i, text("transfer-encoding"))
    &&& is_header(h, i, text("content-length")) ==> {
        number(h[i].1, u64::MAX as nat) matches Some(n) && n < u64::MAX
    }
}

/// Whether the client asks for the connection's end.
pub open spec fn says_close(h: Lines, i: int) -> bool {
    is_header(h, i, text("connection")) && alike(h[i].1, text("close"))
}

/// The last length that is given.
pub open spec fn last_length(h: Lines, k: int) -> bool {
    &&& is_header(h, k, text("content-length"))
    &&& forall|j: int| k < j < h.len() ==> !#[trigger] is_header(h, j, text("content-length"))
}

proof fn lemma_small_names()
    ensures
        lowered(text("content-length")) == text("content-length"),
        lowered(text("transfer-encoding")) == text("transfer-encoding"),
        lowered(text("connection")) == text("connection"),
        text("content-length") != text("transfer-encoding"),
        text("content-length") != text("connection"),
        text("transfer-encoding") != text("connection"),
{
    reveal_strlit("content-length");
    reveal_strlit("transfer-encoding");
    reveal_strlit("connection");
    is_ascii_chars_encode_utf8("content-length"@);
    is_ascii_chars_encode_utf8("transfer-encoding"@);
    is_ascii_chars_encode_utf8("connection"@);
    assert(lowered(text("content-length")) =~= text("content-length"));
    assert(lowered(text("transfer-encoding")) =~= text("transfer-encoding"));
    assert(lowered(text("connection")) =~= text("connection"));
    assert(text("content-length").len() == 14);
    assert(text("transfer-encoding").len() == 17);
    assert(text("connection").len() == 10);
}

proof fn lemma_one_more(minor: u8, h: Lines)
    requires
        h.len() > 0,
    ensures
        ({
            let n = h.len() - 1;
            let f = framing(minor, h);
            let before = framing(minor, h.drop_last());
            let length = is_header(h, n, text("content-length"));
            &&& f.keep_alive == (before.keep_alive && !says_close(h, n))
            &&& sound(h, n) ==> f.bad == before.bad
            &&& !sound(h, n) ==> f.bad == if length {
                Some(400u16)
            } else {
                Some(411u16)
            }
            &&& !length ==> f.content_length == before.content_length
            &&& length && sound(h, n) ==> number(h[n].1, u64::MAX as nat) == Some(
                f.content_length as nat,
            )
        }),
{
    lemma_small_names();
    let (name, value) = h.last();
    lemma_alike(name, text("content-length"));
    lemma_alike(name, text("transfer-encoding"));
    lemma_alike(name, text("connection"));
    lemma_alike(value, text("close"));
}

proof fn lemma_prefix(h: Lines, i: int)
    requires
        0 <= i < h.len() - 1,
    ensures
        says_close(h, i) == says_close(h.drop_last(), i),
        sound(h, i) == sound(h.drop_last(), i),
        is_header(h, i, text("content-length")) == is_header(
            h.drop_last(),
            i,
            text("content-length"),
        ),
{
    assert(h[i] == h.drop_last()[i]);
}

proof fn lemma_stays(minor: u8, h: Lines)
    ensures
        framing(minor, h).keep_alive == (minor == 1 && forall|i: int|
            0 <= i < h.len() ==> !#[trigger] says_close(h, i)),
    decreases h.len(),
{
    if h.len() > 0 {
        let init = h.drop_last();
        lemma_stays(minor, init);
        lemma_one_more(minor, h);
        if framing(minor, h).keep_alive {
            assert forall|i: int| 0 <= i < h.len() implies !#[trigger] says_close(h, i) by {
                if i < h.len() - 1 {
                    lemma_prefix(h, i);
                }
            }
        }
        if minor == 1 && !framing(minor, init).keep_alive {
            let i = choose|i: int| 0 <= i < init.len() && #[trigger] says_close(init, i);
            lemma_prefix(h, i);
            assert(says_close(h, i));
        }
    }
}

proof fn lemma_bad(minor: u8, h: Lines, k: int)
    ensures
        (framing(minor, h).bad is None) == forall|i: int|
            0 <= i < h.len() ==> #[trigger] sound(h, i),
        0 <= k < h.len() && !sound(h, k) && (forall|j: int|
            k < j < h.len() ==> #[trigger] sound(h, j)) ==> framing(minor, h).bad == if is_header(
            h,
            k,
            text("content-length"),
        ) {
            Some(400u16)
        } else {
            Some(411u16)
        },
    decreases h.len(),
{
    if h.len() > 0 {
        let init = h.drop_last();
        let n = h.len() - 1;
        lemma_bad(minor, init, k);
        lemma_one_more(minor, h);
        if framing(minor, h).bad is None {
            assert forall|i: int| 0 <= i < h.len() implies #[trigger] sound(h, i) by {
                if i < n {
                    lemma_prefix(h, i);
                }
            }
        } else if sound(h, n) {
            let i = choose|i: int| 0 <= i < init.len() && !#[trigger] sound(init, i);
            lemma_prefix(h, i);
            assert(!sound(h, i));
        }
        if 0 <= k < n && !sound(h, k) && (forall|j: int|
            k < j < h.len() ==> #[trigger] sound(h, j)) {
            assert(sound(h, n));
            lemma_prefix(h, k);
            assert forall|j: int| k < j < init.len() implies #[trigger] sound(init, j) by {
                assert(sound(h, j));
                lemma_prefix(h, j);
            }
        }
    }
}

proof fn lemma_length(minor: u8, h: Lines, k: int)
    ensures
        (forall|i: int| 0 <= i < h.len() ==> !#[trigger] is_header(h, i, text("content-length")))
            ==> framing(minor, h).content_length == 0,
        last_length(h, k) && sound(h, k) ==> number(h[k].1, u64::MAX as nat) == Some(
            framing(minor, h).content_length as nat,
        ),
    decreases h.len(),
{
    if h.len() > 0 {
        let init = h.drop_last();
        let n = h.len() - 1;
        lemma_length(minor, init, k);
        lemma_one_more(minor, h);
        if forall|i: int|
            0 <= i < h.len() ==> !#[trigger] is_header(h, i, text("content-length")) {
            assert forall|i: int| 0 <= i < init.len() implies !#[trigger] is_header(
                init,
                i,
                text("content-length"),
            ) by {
                assert(!is_header(h, i, text("content-length")));
                lemma_prefix(h, i);
            }
            assert(!is_header(h, n, text("content-length")));
        }
        if last_length(h, k) && k < n {
            assert(!is_header(h, n, text("content-length")));
            lemma_prefix(h, k);
            assert forall|j: int| k < j < init.len() implies !#[trigger] is_header(
                init,
                j,
                text("content-length"),
            ) by {
                assert(!is_header(h, j, text("content-length")));
                lemma_prefix(h, j);
            }
            assert(last_length(init, k));
            assert(h[k] == init[k]);
        }
    }
}

/// A path that holds no control byte, once it is decoded.
pub open spec fn printable(path: Seq<u8>) -> bool {
    forall|i: int| 0 <= i < path.len() ==> 32 <= #[trigger] path[i] && path[i] != 127
}

/// A request that is accepted is the one that was sent: its method, its target and
/// its headers, with names in small letters. The connection stays unless the
/// version is old or the client asks for its end. The body has the last length
/// that was given. What follows the head stays in the buffer.
#[verifier::spinoff_prover]
#[verifier::rlimit(50)]
pub proof fn a_request_is_taken_as_it_was_sent(
    buf: &mut Vec<u8>,
    n: usize,
    kind: &ListenerKind,
    routes: &CompiledRoutes,
    pools: &Table<PoolCaps>,
    max_body: u64,
    remote: Addr,
    peer: &str,
    h: HeadModel,
    a: Admitted<'_>,
)
    requires
        n <= old(buf)@.len(),
        call_ensures(
            accept,
            (buf, n, kind, routes, pools, max_body, remote, peer),
            Admission::Accepted(a),
        ),
        http_head(old(buf)@.subrange(0, n as int), 64) == Some(h),
    ensures
        a.parsed.method@ == h.0,
        a.parsed.target@ == h.1,
        a.parsed.headers@.len() == h.3.len(),
        forall|i: int|
            0 <= i < h.3.len() ==> {
                let (name, value) = #[trigger] a.parsed.headers@[i];
                &&& value@ == h.3[i].1
                &&& name@.len() == h.3[i].0.len()
                &&& forall|j: int| 0 <= j < name@.len() ==> name@[j] == small(h.3[i].0[j])
            },
        a.parsed.keep_alive == (h.2 == 1 && forall|i: int|
            0 <= i < h.3.len() ==> !#[trigger] says_close(h.3, i)),
        (forall|i: int|
            0 <= i < h.3.len() ==> !#[trigger] is_header(h.3, i, text("content-length")))
            ==> a.parsed.content_length == 0,
        forall|k: int| #[trigger]
            last_length(h.3, k) ==> number(h.3[k].1, u64::MAX as nat) == Some(
                a.parsed.content_length as nat,
            ),
        old(buf)@ == old(buf)@.subrange(0, n as int) + final(buf)@,
{
    lemma_stays(h.2, h.3);
    lemma_bad(h.2, h.3, 0);
    lemma_length(h.2, h.3, 0);
    let p = a.parsed;
    let ps = pairs(p.headers@);
    assert(ps.len() == h.3.len());
    assert forall|i: int| 0 <= i < h.3.len() implies {
        let (name, value) = #[trigger] p.headers@[i];
        &&& value@ == h.3[i].1
        &&& name@.len() == h.3[i].0.len()
        &&& forall|j: int| 0 <= j < name@.len() ==> name@[j] == small(h.3[i].0[j])
    } by {
        assert(ps[i] == (p.headers@[i].0@, p.headers@[i].1@));
        assert(ps[i] == (lowered(h.3[i].0), h.3[i].1));
        assert(forall|b: u8| lower(b) == small(b));
    }
    assert forall|k: int| #[trigger] last_length(h.3, k) implies number(h.3[k].1, u64::MAX as nat)
        == Some(p.content_length as nat) by {
        assert(sound(h.3, k));
        lemma_length(h.2, h.3, k);
    }
    assert(old(buf)@ =~= old(buf)@.subrange(0, n as int) + final(buf)@);
}

/// A request is let in exactly where its head can be read, every header is sound,
/// the body is within the limit and the path holds no control byte. A refusal says
/// which of these fails, in this order; of several headers that are not sound the
/// last decides.
#[verifier::spinoff_prover]
#[verifier::rlimit(50)]
pub proof fn a_request_is_let_in_or_told_why_not(
    buf: &mut Vec<u8>,
    n: usize,
    kind: &ListenerKind,
    routes: &CompiledRoutes,
    pools: &Table<PoolCaps>,
    max_body: u64,
    remote: Addr,
    peer: &str,
    r: Admission<'_>,
    k: int,
)
    requires
        n <= old(buf)@.len(),
        call_ensures(accept, (buf, n, kind, routes, pools, max_body, remote, peer), r),
    ensures
        r is Refused ==> final(buf)@ == old(buf)@,
        match http_head(old(buf)@.subrange(0, n as int), 64) {
            None => r == Admission::Refused(400),
            Some(h) => {
                let all = forall|i: int| 0 <= i < h.3.len() ==> #[trigger] sound(h.3, i);
                let length = framing(h.2, h.3).content_length;
                let path = normalized(until(h.1, 63));
                &&& (r is Accepted) == (all && length <= max_body && printable(path))
                &&& 0 <= k < h.3.len() && !sound(h.3, k) && (forall|j: int|
                    k < j < h.3.len() ==> #[trigger] sound(h.3, j)) ==> r == Admission::Refused(
                    if is_header(h.3, k, text("content-length")) {
                        400
                    } else {
                        411
                    },
                )
                &&& all && length > max_body ==> r == Admission::Refused(413)
                &&& all && length <= max_body && !printable(path) ==> r == Admission::Refused(400)
            },
        },
{
    if let Some(h) = http_head(old(buf)@.subrange(0, n as int), 64) {
        lemma_bad(h.2, h.3, k);
        let path = normalized(until(h.1, 63));
        assert(target_parts(h.1).0 == until(h.1, 63));
        if !printable(path) {
            let i = choose|i: int|
                0 <= i < path.len() && !(32 <= #[trigger] path[i] && path[i] != 127);
            assert(crate::router::http1::conn::is_control_byte(path[i]));
        }
        if crate::router::http1::conn::has_control(path) {
            let i = choose|i: int|
                0 <= i < path.len() && crate::router::http1::conn::is_control_byte(
                    #[trigger] path[i],
                );
            assert(!(32 <= path[i] && path[i] != 127));
        }
    }
}

/// Whether a list in a header names a token, in letters of any case.
pub open spec fn lists(parts: Seq<Seq<u8>>, token: Seq<u8>) -> bool {
    exists|i: int, a: int, t: Seq<u8>|
        0 <= i < parts.len() && #[trigger] around(parts[i], t, a) && alike(t, token)
}

/// A client asks for a WebSocket with a `GET` that has no body, names `websocket`
/// as the protocol, has `upgrade` among its connection's options and speaks version
/// 13. Its key is then taken; nothing less will do.
#[verifier::spinoff_prover]
#[verifier::rlimit(50)]
pub proof fn a_websocket_is_asked_for_in_full(p: &Parsed, options: Seq<Seq<u8>>, r: Option<Vec<u8>>)
    requires
        call_ensures(websocket_upgrade, (p,), r),
        options.len() > 0,
        forall|i: int| 0 <= i < options.len() ==> !(#[trigger] options[i]).contains(44),
        named(pairs(p.headers@), text("connection")) == Some(apart(options, 44)),
    ensures
        ({
            let h = pairs(p.headers@);
            let asked = {
                &&& p.method@ == text("GET")
                &&& p.content_length == 0
                &&& exists|i: int|
                    #[trigger] first_named(h, text("upgrade"), i) && alike(
                        h[i].1,
                        text("websocket"),
                    )
                &&& lists(options, text("upgrade"))
                &&& exists|i: int|
                    #[trigger] first_named(h, text("sec-websocket-version"), i) && h[i].1 == text(
                        "13",
                    )
            };
            match r {
                Some(key) => asked && exists|i: int|
                    #[trigger] first_named(h, text("sec-websocket-key"), i) && h[i].1 == key@,
                None => !asked || forall|i: int| !first_named(h, text("sec-websocket-key"), i),
            }
        }),
{
    let h = pairs(p.headers@);
    lemma_header_value(h, text("upgrade"));
    lemma_header_value(h, text("sec-websocket-version"));
    lemma_header_value(h, text("sec-websocket-key"));
    if let Some(u) = named(h, text("upgrade")) {
        lemma_alike(u, text("websocket"));
    }
    lemma_lists(options, text("upgrade"));
}

proof fn lemma_header_value(h: Lines, name: Seq<u8>)
    ensures
        match named(h, name) {
            Some(v) => exists|i: int| #[trigger] first_named(h, name, i) && h[i].1 == v,
            None => forall|i: int| !first_named(h, name, i),
        },
        forall|i: int| #[trigger] first_named(h, name, i) ==> named(h, name) == Some(h[i].1),
{
    lemma_first_named(h, name, 0);
    assert forall|i: int| #[trigger] first_named(h, name, i) implies named(h, name) == Some(
        h[i].1,
    ) by {
        lemma_first_named(h, name, i);
    }
}

#[verifier::spinoff_prover]
#[verifier::rlimit(50)]
proof fn lemma_lists(parts: Seq<Seq<u8>>, token: Seq<u8>)
    requires
        parts.len() > 0,
        forall|i: int| 0 <= i < parts.len() ==> !(#[trigger] parts[i]).contains(44),
        token == text("upgrade"),
    ensures
        has_token(apart(parts, 44), token) == lists(parts, token),
{
    lemma_pieces_of_parts(parts, 44);
    let list = apart(parts, 44);
    reveal_strlit("upgrade");
    is_ascii_chars_encode_utf8("upgrade"@);
    assert(token[0] == 117 && token[6] == 101 && token.len() == 7);
    if has_token(list, token) {
        let i = choose|i: int|
            0 <= i < pieces(list, 44).len() && lowered(
                trimmed_right(trimmed_left(#[trigger] pieces(list, 44)[i])),
            ) == lowered(token);
        let t = trimmed_right(trimmed_left(parts[i]));
        lemma_alike(t, token);
        assert(small(t[0]) == small(token[0]));
        assert(small(t[6]) == small(token[6]));
        lemma_around(parts[i], t);
        let a = choose|a: int| around(parts[i], t, a);
        assert(around(parts[i], t, a) && alike(t, token));
    }
    if lists(parts, token) {
        let (i, a, t) = choose|i: int, a: int, t: Seq<u8>|
            0 <= i < parts.len() && #[trigger] around(parts[i], t, a) && alike(t, token);
        assert(small(t[0]) == small(token[0]));
        assert(small(t[6]) == small(token[6]));
        lemma_around(parts[i], t);
        lemma_alike(t, token);
        assert(lowered(trimmed_right(trimmed_left(pieces(list, 44)[i]))) == lowered(token));
    }
}

/// The body is what follows the head, up to its length, and what follows the body
/// stays for the next request.
pub proof fn a_body_is_cut_off_at_its_length(buf: &mut Vec<u8>, length: u64, r: Vec<u8>)
    requires
        call_ensures(take_body, (buf, length), r),
    ensures
        ({
            let n = if length <= old(buf)@.len() {
                length as int
            } else {
                old(buf)@.len() as int
            };
            &&& r@ == old(buf)@.subrange(0, n)
            &&& final(buf)@ == old(buf)@.subrange(n, old(buf)@.len() as int)
        }),
{
    let all = old(buf)@;
    assert(all.len() == r@.len() + final(buf)@.len());
    let n = r@.len() as int;
    assert(all.subrange(0, n) =~= r@);
    assert(all.subrange(n, all.len() as int) =~= final(buf)@);
}

/// A body goes to the application as it arrives only where the application takes
/// it so and some of it is still to come.
pub proof fn a_body_streams_only_where_it_can(
    p: Parsed,
    arrived: usize,
    kind: &ListenerKind,
    routes: &CompiledRoutes,
    pools: &Table<PoolCaps>,
    max_body: u64,
    remote: Addr,
    peer: &str,
    a: Admitted<'_>,
)
    requires
        call_ensures(
            examine,
            (p, arrived, kind, routes, pools, max_body, remote, peer),
            Admission::Accepted(a),
        ),
    ensures
        a.streams ==> p.content_length > arrived,
        a.streams ==> {
            &&& a.outcome matches Some(o)
            &&& o.decision matches Decision::Application(name) && pools.has(name@) && pools.at(
                name@,
            ).streams_body
        },
        p.content_length > arrived && (a.outcome matches Some(o) && (
        o.decision matches Decision::Application(name) && pools.has(name@) && pools.at(
            name@,
        ).streams_body)) ==> a.streams,
        *kind is Status ==> a.outcome is None,
{
}

/// A connection serves another request only if it may stay, nothing broke, and
/// what was streamed was read to its end.
pub proof fn a_connection_is_used_again_only_when_clean(
    keep_alive: bool,
    streams: bool,
    read_whole: bool,
    broken: bool,
    r: bool,
)
    requires
        call_ensures(reusable, (keep_alive, streams, read_whole, broken), r),
    ensures
        r ==> keep_alive && !broken,
        r && streams ==> read_whole,
        keep_alive && !broken && !streams ==> r,
        keep_alive && !broken && read_whole ==> r,
{
}

/// No more is read of a body than is left of it, nor more than fits at once.
pub proof fn no_more_is_read_than_is_left(have: u64, length: u64, chunk: usize, r: usize)
    requires
        have <= length,
        call_ensures(body_want, (have, length, chunk), r),
    ensures
        have + r <= length,
        r <= chunk,
        r == chunk || have + r == length,
{
}

} // verus!
