//! Lines of the access log, in the combined format. The size field counts all
//! bytes of the response on the wire, the head among them.

use vstd::prelude::*;
use vstd::string::*;
use vstd::utf8::{decode_utf8_encode_utf8, valid_utf8};

use crate::bytes::{chars, dec, two};
use crate::router::uri::{
    append_clock, append_dec, append_two, civil, civil_from_days, clock, date_of_its_number, month,
    month_name,
};
use crate::text::{read_text, text_of};

verus! {

/// Control characters, as Unicode counts them.
pub open spec fn is_control(c: char) -> bool {
    c <= '\u{1f}' || ('\u{7f}' <= c && c <= '\u{9f}')
}

pub open spec fn hex_digit(n: int) -> char {
    if n < 10 {
        (48 + n) as char
    } else {
        (87 + n) as char
    }
}

/// A byte as `\xNN`.
pub open spec fn hex_escape(b: int) -> Seq<char> {
    seq!['\\', 'x', hex_digit(b / 16), hex_digit(b % 16)]
}

/// A character of a quoted field: the delimiter and the escape character are
/// escaped, a control character shows as the bytes of its UTF-8 form.
pub open spec fn escaped_char(c: char) -> Seq<char> {
    if c == '"' || c == '\\' {
        seq!['\\', c]
    } else if !is_control(c) {
        seq![c]
    } else if (c as int) < 0x80 {
        hex_escape(c as int)
    } else {
        hex_escape(0xc2) + hex_escape(c as int)
    }
}

pub open spec fn escaped(s: Seq<char>) -> Seq<char>
    decreases s.len(),
{
    if s.len() == 0 {
        seq![]
    } else {
        escaped(s.drop_last()) + escaped_char(s.last())
    }
}

fn push_hex_digit(out: &mut String, n: u8)
    requires
        n < 16,
    ensures
        final(out)@ == old(out)@.push(hex_digit(n as int)),
{
    if n < 10 {
        out.push((48 + n) as char);
    } else {
        out.push((87 + n) as char);
    }
}

fn push_hex(out: &mut String, b: u8)
    ensures
        final(out)@ == old(out)@ + hex_escape(b as int),
{
    out.push('\\');
    out.push('x');
    push_hex_digit(out, b / 16);
    push_hex_digit(out, b % 16);
    assert(out@ =~= old(out)@ + hex_escape(b as int));
}

fn push_escaped(out: &mut String, c: char)
    ensures
        final(out)@ == old(out)@ + escaped_char(c),
{
    if c == '"' || c == '\\' {
        out.push('\\');
        out.push(c);
    } else if c <= '\u{1f}' || '\u{7f}' <= c && c <= '\u{9f}' {
        if c >= '\u{80}' {
            push_hex(out, 0xc2);
        }
        push_hex(out, c as u8);
    } else {
        out.push(c);
    }
    assert(out@ =~= old(out)@ + escaped_char(c));
}

/// Escape a text for a quoted field.
pub fn escape_text(value: &str) -> (r: String)
    ensures
        r@ == escaped(value@),
{
    let mut out = String::new();
    assert(out@ =~= escaped(value@.take(0)));
    for c in it: value.chars()
        invariant
            it.seq() == value@,
            out@ == escaped(value@.take(it.index() as int)),
    {
        proof {
            let i = it.index() as int;
            assert(value@.take(i + 1).drop_last() =~= value@.take(i));
            assert(value@.take(i + 1).last() == c);
        }
        push_escaped(&mut out, c);
    }
    assert(value@.take(value@.len() as int) =~= value@);
    out
}

/// Escape what a client sent, so that it can neither leave its quoted field
/// nor begin another line.
pub fn escape(value: &[u8]) -> (r: String)
    ensures
        r@ == escaped(text_of(value@)),
{
    let text = read_text(value);
    escape_text(text.as_str())
}

/// `10/Oct/2000:13:55:36 +0000`.
pub open spec fn clf_time(y: int, m: int, d: int, secs: int) -> Seq<char> {
    chars(two(d)) + "/"@ + month_name(m) + "/"@ + chars(dec(y as nat)) + ":"@ + clock(secs)
        + " +0000"@
}

/// The time stamp of a moment, in seconds since the first of January 1970.
pub open spec fn clf_time_text(unix_secs: int) -> Seq<char> {
    let (y, m, d) = civil(unix_secs / 86400);
    clf_time(y, m, d, unix_secs % 86400)
}

pub fn format_clf_time(unix_secs: u64) -> (r: String)
    ensures
        r@ == clf_time_text(unix_secs as int),
{
    let days: u64 = unix_secs / 86400;
    let rem: u64 = unix_secs % 86400;
    let (y, m, d) = civil_from_days(days as i64);
    let mut out = String::new();
    append_two(&mut out, d as u64);
    out.append("/");
    out.append(month(m));
    out.append("/");
    append_dec(&mut out, y as u64);
    out.append(":");
    append_clock(&mut out, rem);
    out.append(" +0000");
    assert(out@ =~= clf_time(y as int, m as int, d as int, rem as int));
    proof {
        date_of_its_number(y as int, m as int, d as int);
    }
    out
}

/// One finished exchange.
pub struct Exchange<'a> {
    pub remote: &'a str,
    pub method: &'a [u8],
    pub target: &'a [u8],
    pub status: u16,
    pub bytes: u64,
    pub referer: Option<&'a [u8]>,
    pub user_agent: Option<&'a [u8]>,
}

pub open spec fn field(v: Option<&[u8]>) -> Seq<char> {
    match v {
        Some(b) => escaped(text_of(b@)),
        None => seq![],
    }
}

/// A line of the log, given its time stamp.
pub open spec fn line(time: Seq<char>, e: Exchange<'_>) -> Seq<char> {
    e.remote@ + " - - ["@ + time + "] \""@ + escaped(text_of(e.method@)) + " "@ + escaped(
        text_of(e.target@),
    ) + " HTTP/1.1\" "@ + chars(dec(e.status as nat)) + " "@ + chars(dec(e.bytes as nat)) + " \""@
        + field(e.referer) + "\" \""@ + field(e.user_agent) + "\"\n"@
}

fn append_field(out: &mut String, v: Option<&[u8]>)
    ensures
        final(out)@ == old(out)@ + field(v),
{
    match v {
        Some(b) => out.append(escape(b).as_str()),
        None => {
            assert(out@ =~= old(out)@ + field(v));
        },
    }
}

/// The line of an exchange that ended at the given moment.
pub fn log_line(unix_secs: u64, e: &Exchange<'_>) -> (r: String)
    ensures
        r@ == line(clf_time_text(unix_secs as int), *e),
{
    let time = format_clf_time(unix_secs);
    let mut out = e.remote.to_owned();
    out.append(" - - [");
    out.append(time.as_str());
    out.append("] \"");
    out.append(escape(e.method).as_str());
    out.append(" ");
    out.append(escape(e.target).as_str());
    out.append(" HTTP/1.1\" ");
    append_dec(&mut out, e.status as u64);
    out.append(" ");
    append_dec(&mut out, e.bytes);
    out.append(" \"");
    append_field(&mut out, e.referer);
    out.append("\" \"");
    append_field(&mut out, e.user_agent);
    out.append("\"\n");
    assert(out@ =~= line(time@, *e));
    out
}

/// The notice about lines that were dropped because the disk fell behind.
pub fn dropped_notice(lost: u64) -> (r: String)
    ensures
        r@ == "#buran: dropped "@ + chars(dec(lost as nat))
            + " access log line(s) under backpressure\n"@,
{
    let mut out = "#buran: dropped ".to_owned();
    append_dec(&mut out, lost);
    out.append(" access log line(s) under backpressure\n");
    out
}

/// Where a quoted field ends, read from its first character on: at the first
/// quote that no backslash escapes.
pub open spec fn field_end(s: Seq<char>) -> int
    decreases s.len(),
{
    if s.len() == 0 || s[0] == '"' {
        0
    } else if s[0] == '\\' && s.len() >= 2 {
        2 + field_end(s.subrange(2, s.len() as int))
    } else {
        1 + field_end(s.subrange(1, s.len() as int))
    }
}

proof fn lemma_plain_step(c: char, rest: Seq<char>)
    requires
        c != '"',
        c != '\\',
    ensures
        field_end(seq![c] + rest) == 1 + field_end(rest),
{
    let s = seq![c] + rest;
    assert(s.subrange(1, s.len() as int) =~= rest);
}

proof fn lemma_escape_step(c: char, rest: Seq<char>)
    ensures
        field_end(seq!['\\', c] + rest) == 2 + field_end(rest),
{
    let s = seq!['\\', c] + rest;
    assert(s.subrange(2, s.len() as int) =~= rest);
}

proof fn lemma_hex_step(b: int, rest: Seq<char>)
    requires
        0 <= b < 256,
    ensures
        field_end(hex_escape(b) + rest) == 4 + field_end(rest),
{
    let h = hex_digit(b / 16);
    let l = hex_digit(b % 16);
    assert(hex_escape(b) + rest =~= seq!['\\', 'x'] + (seq![h] + (seq![l] + rest)));
    lemma_escape_step('x', seq![h] + (seq![l] + rest));
    lemma_plain_step(h, seq![l] + rest);
    lemma_plain_step(l, rest);
}

proof fn lemma_char_step(c: char, rest: Seq<char>)
    ensures
        field_end(escaped_char(c) + rest) == escaped_char(c).len() + field_end(rest),
{
    if c == '"' || c == '\\' {
        lemma_escape_step(c, rest);
    } else if !is_control(c) {
        lemma_plain_step(c, rest);
    } else if (c as int) < 0x80 {
        lemma_hex_step(c as int, rest);
    } else {
        assert(escaped_char(c) + rest =~= hex_escape(0xc2) + (hex_escape(c as int) + rest));
        lemma_hex_step(0xc2, hex_escape(c as int) + rest);
        lemma_hex_step(c as int, rest);
    }
}

proof fn lemma_field(value: Seq<char>, rest: Seq<char>)
    ensures
        field_end(escaped(value) + rest) == escaped(value).len() + field_end(rest),
    decreases value.len(),
{
    if value.len() == 0 {
        assert(escaped(value) + rest =~= rest);
    } else {
        let e = escaped_char(value.last());
        assert(escaped(value) + rest =~= escaped(value.drop_last()) + (e + rest));
        lemma_field(value.drop_last(), e + rest);
        lemma_char_step(value.last(), rest);
    }
}

/// An escaped field ends at the quote that is written behind it, whatever the
/// client sent and whatever follows.
pub proof fn field_ends_at_its_quote(value: Seq<char>, rest: Seq<char>)
    ensures
        field_end(escaped(value) + seq!['"'] + rest) == escaped(value).len(),
{
    assert(escaped(value) + seq!['"'] + rest =~= escaped(value) + (seq!['"'] + rest));
    lemma_field(value, seq!['"'] + rest);
}

/// An escaped field holds no control character, line breaks among them.
pub proof fn escaped_has_no_control(value: Seq<char>, i: int)
    requires
        0 <= i < escaped(value).len(),
    ensures
        !is_control(escaped(value)[i]),
    decreases value.len(),
{
    if value.len() > 0 {
        let init = escaped(value.drop_last());
        if i < init.len() {
            escaped_has_no_control(value.drop_last(), i);
        } else {
            lemma_char_no_control(value.last(), i - init.len());
        }
    }
}

proof fn lemma_char_no_control(c: char, i: int)
    requires
        0 <= i < escaped_char(c).len(),
    ensures
        !is_control(escaped_char(c)[i]),
{
    let b = c as int;
    if is_control(c) {
        assert(0 <= b < 160);
        assert(!is_control(hex_digit(b / 16)));
        assert(!is_control(hex_digit(b % 16)));
        assert(!is_control(hex_digit(12)));
        assert(!is_control(hex_digit(2)));
    }
}

proof fn lemma_escaped_front(value: Seq<char>)
    requires
        value.len() > 0,
    ensures
        escaped(value) == escaped_char(value[0]) + escaped(value.subrange(1, value.len() as int)),
    decreases value.len(),
{
    let tail = value.subrange(1, value.len() as int);
    if value.len() == 1 {
        assert(escaped(value.drop_last()) =~= seq![]);
        assert(escaped(tail) =~= seq![]);
        assert(escaped(value) =~= escaped_char(value[0]) + escaped(tail));
    } else {
        lemma_escaped_front(value.drop_last());
        assert(value.drop_last().subrange(1, value.len() - 1) =~= tail.drop_last());
        assert(escaped(value) =~= escaped_char(value[0]) + escaped(tail));
    }
}

proof fn lemma_hex_digit(a: int, b: int)
    requires
        0 <= a < 16,
        0 <= b < 16,
        hex_digit(a) == hex_digit(b),
    ensures
        a == b,
{
    assert(hex_digit(a) as int == if a < 10 {
        48 + a
    } else {
        87 + a
    });
    assert(hex_digit(b) as int == if b < 10 {
        48 + b
    } else {
        87 + b
    });
}

/// The front of an escaped text tells its first character.
proof fn lemma_first_char(c: char, d: char, x: Seq<char>, y: Seq<char>)
    requires
        escaped_char(c) + x == escaped_char(d) + y,
    ensures
        c == d,
{
    let s = escaped_char(c) + x;
    let t = escaped_char(d) + y;
    let (e, f) = (escaped_char(c), escaped_char(d));
    assert(forall|i: int| 0 <= i < e.len() ==> s[i] == e[i]);
    assert(forall|i: int| 0 <= i < f.len() ==> t[i] == f[i]);
    assert(s[0] == t[0]);
    if s[0] == '\\' {
        assert(s[1] == t[1]);
        if s[1] == 'x' {
            assert(is_control(c) && is_control(d));
            assert(s[2] == t[2] && s[3] == t[3]);
            let (m, n) = (c as int, d as int);
            if m >= 0x80 && n >= 0x80 {
                assert(e[6] == hex_digit(m / 16) && e[7] == hex_digit(m % 16));
                assert(f[6] == hex_digit(n / 16) && f[7] == hex_digit(n % 16));
                assert(s[6] == t[6] && s[7] == t[7]);
                lemma_hex_digit(m / 16, n / 16);
                lemma_hex_digit(m % 16, n % 16);
            } else if m < 0x80 && n < 0x80 {
                lemma_hex_digit(m / 16, n / 16);
                lemma_hex_digit(m % 16, n % 16);
            } else if m < 0x80 {
                lemma_hex_digit(m / 16, 12);
            } else {
                lemma_hex_digit(12, n / 16);
            }
        }
    }
}

/// Different texts are escaped differently: from what stands in the log it can
/// be told what was written.
pub proof fn escaping_loses_nothing(a: Seq<char>, b: Seq<char>)
    requires
        escaped(a) == escaped(b),
    ensures
        a == b,
    decreases a.len(),
{
    if a.len() == 0 && b.len() == 0 {
        assert(a =~= b);
    } else if a.len() == 0 {
        lemma_escaped_front(b);
        assert(escaped_char(b[0]).len() > 0);
    } else if b.len() == 0 {
        lemma_escaped_front(a);
        assert(escaped_char(a[0]).len() > 0);
    } else {
        let (x, y) = (a.subrange(1, a.len() as int), b.subrange(1, b.len() as int));
        lemma_escaped_front(a);
        lemma_escaped_front(b);
        lemma_first_char(a[0], b[0], escaped(x), escaped(y));
        let n = escaped_char(a[0]).len() as int;
        assert(escaped(x) =~= escaped(a).subrange(n, escaped(a).len() as int));
        assert(escaped(y) =~= escaped(b).subrange(n, escaped(b).len() as int));
        escaping_loses_nothing(x, y);
        assert(a =~= seq![a[0]] + x);
        assert(b =~= seq![b[0]] + y);
    }
}

/// Different bytes that are valid UTF-8 are escaped differently.
pub proof fn escaping_tells_bytes_apart(a: Seq<u8>, b: Seq<u8>)
    requires
        valid_utf8(a),
        valid_utf8(b),
        escaped(text_of(a)) == escaped(text_of(b)),
    ensures
        a == b,
{
    escaping_loses_nothing(text_of(a), text_of(b));
    decode_utf8_encode_utf8(a);
    decode_utf8_encode_utf8(b);
}

/// A text without a control character, a quote and a backslash stands in the
/// log as it is.
pub proof fn plain_text_is_not_escaped(value: Seq<char>)
    requires
        forall|i: int|
            0 <= i < value.len() ==> !is_control(#[trigger] value[i]) && value[i] != '"' && value[i]
                != '\\',
    ensures
        escaped(value) == value,
    decreases value.len(),
{
    if value.len() > 0 {
        let init = value.drop_last();
        assert forall|i: int| 0 <= i < init.len() implies !is_control(#[trigger] init[i]) && init[i]
            != '"' && init[i] != '\\' by {
            assert(init[i] == value[i]);
        }
        plain_text_is_not_escaped(init);
        assert(value[value.len() - 1] == value.last());
        assert(escaped(value) =~= value);
    } else {
        assert(escaped(value) =~= value);
    }
}

/// How many backslashes stand in a row before position `i`.
pub open spec fn backslashes_before(s: Seq<char>, i: int) -> nat
    decreases i,
{
    if 0 < i <= s.len() && s[i - 1] == '\\' {
        1 + backslashes_before(s, i - 1)
    } else {
        0
    }
}

proof fn lemma_same_front(s: Seq<char>, t: Seq<char>, i: int)
    requires
        0 <= i <= s.len(),
        i <= t.len(),
        forall|j: int| 0 <= j < i ==> s[j] == t[j],
    ensures
        backslashes_before(s, i) == backslashes_before(t, i),
    decreases i,
{
    if i > 0 {
        lemma_same_front(s, t, i - 1);
    }
}

/// No backslash at the end of an escaped text is left over.
proof fn lemma_paired(value: Seq<char>)
    ensures
        backslashes_before(escaped(value), escaped(value).len() as int) % 2 == 0,
    decreases value.len(),
{
    if value.len() > 0 {
        let init = escaped(value.drop_last());
        let c = value.last();
        let e = escaped_char(c);
        let s = escaped(value);
        let n = s.len() as int;
        assert(s[n - 1] == e.last());
        if c == '\\' {
            lemma_paired(value.drop_last());
            lemma_same_front(s, init, init.len() as int);
            assert(s[n - 2] == '\\');
            assert(backslashes_before(s, n) == 1 + backslashes_before(s, n - 1));
            assert(backslashes_before(s, n - 1) == 1 + backslashes_before(s, n - 2));
        } else if is_control(c) {
            let b = c as int;
            assert(e.last() == hex_digit(b % 16));
            lemma_hex_digit_is_plain(b % 16);
        }
    }
}

proof fn lemma_hex_digit_is_plain(n: int)
    requires
        0 <= n < 16,
    ensures
        hex_digit(n) != '\\',
        hex_digit(n) != '"',
{
    assert(hex_digit(n) as int == if n < 10 {
        48 + n
    } else {
        87 + n
    });
}

proof fn lemma_quote_place(c: char, i: int)
    requires
        0 <= i < escaped_char(c).len(),
        escaped_char(c)[i] == '"',
    ensures
        c == '"',
        i == 1,
{
    if is_control(c) {
        let b = c as int;
        assert(0 <= b < 160);
        lemma_hex_digit_is_plain(b / 16);
        lemma_hex_digit_is_plain(b % 16);
        lemma_hex_digit_is_plain(12);
        lemma_hex_digit_is_plain(2);
    }
}

/// Every quote in an escaped text is escaped: an odd number of backslashes
/// stands in a row before it.
pub proof fn quotes_are_escaped(value: Seq<char>, i: int)
    requires
        0 <= i < escaped(value).len(),
        escaped(value)[i] == '"',
    ensures
        backslashes_before(escaped(value), i) % 2 == 1,
    decreases value.len(),
{
    if value.len() > 0 {
        let init = escaped(value.drop_last());
        let n = init.len() as int;
        let c = value.last();
        let s = escaped(value);
        if i < n {
            quotes_are_escaped(value.drop_last(), i);
            lemma_same_front(s, init, i);
        } else {
            assert(escaped_char(c)[i - n] == '"');
            lemma_quote_place(c, i - n);
            assert(c == '"' && i == n + 1);
            lemma_paired(value.drop_last());
            lemma_same_front(s, init, n);
            assert(s[n] == '\\');
        }
    }
}

} // verus!
