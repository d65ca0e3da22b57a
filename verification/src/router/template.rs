//! Rewrite and location templates: literal text with `$var` and `${var}`
//! substitutions, compiled once.
//!
//! Variables: `$uri` (current decoded path), `$args` or `$query` (current
//! query), `$host`, `$method`, `$remote_addr`.

use vstd::prelude::*;
use vstd::string::*;
use vstd::utf8::is_ascii_chars_encode_utf8;

use crate::bytes::{
    find, find_byte, is_text, lemma_find, lemma_find_none, lemma_find_some, push_bytes,
    push_str, text, to_vec,
};

verus! {

#[derive(Debug, Clone, Copy, PartialEq, Eq, Structural)]
pub enum Var {
    Uri,
    Args,
    Host,
    Method,
    RemoteAddr,
}

/// A template that cannot be compiled.
#[derive(Debug, PartialEq, Eq)]
pub enum TemplateError {
    /// `${` without a closing brace.
    Unterminated,
    /// The name of a variable that does not exist.
    UnknownVariable(Vec<u8>),
}

/// What is wrong with a template.
pub enum TemplateFault {
    Unterminated,
    UnknownVariable(Seq<u8>),
}

impl View for TemplateError {
    type V = TemplateFault;

    open spec fn view(&self) -> TemplateFault {
        match self {
            TemplateError::Unterminated => TemplateFault::Unterminated,
            TemplateError::UnknownVariable(n) => TemplateFault::UnknownVariable(n@),
        }
    }
}

enum Part {
    Lit(Vec<u8>),
    Var(Var),
}

/// A piece of a template: text that stands for itself, or a variable.
pub enum PartModel {
    Lit(Seq<u8>),
    Var(Var),
}

spec fn part_view(p: Part) -> PartModel {
    match p {
        Part::Lit(s) => PartModel::Lit(s@),
        Part::Var(v) => PartModel::Var(v),
    }
}

spec fn part_views(p: Seq<Part>) -> Seq<PartModel> {
    p.map_values(|x: Part| part_view(x))
}

pub open spec fn is_name_byte(b: u8) -> bool {
    48 <= b <= 57 || 65 <= b <= 90 || 97 <= b <= 122 || b == 95
}

/// Length of the variable name that `s` begins with.
pub open spec fn name_len(s: Seq<u8>) -> int
    decreases s.len(),
{
    if s.len() > 0 && is_name_byte(s[0]) {
        1 + name_len(s.subrange(1, s.len() as int))
    } else {
        0
    }
}

pub open spec fn var_named(name: Seq<u8>) -> Option<Var> {
    if name == text("uri") {
        Some(Var::Uri)
    } else if name == text("args") || name == text("query") {
        Some(Var::Args)
    } else if name == text("host") {
        Some(Var::Host)
    } else if name == text("method") {
        Some(Var::Method)
    } else if name == text("remote_addr") {
        Some(Var::RemoteAddr)
    } else {
        None
    }
}

/// The variable name behind a dollar sign, and what follows it.
pub open spec fn name_ahead(s: Seq<u8>) -> Option<(Seq<u8>, Seq<u8>)> {
    if s.len() > 0 && s[0] == 123 {
        let inner = s.subrange(1, s.len() as int);
        match find(inner, 125) {
            Some(end) => Some((inner.subrange(0, end), inner.subrange(end + 1, inner.len() as int))),
            None => None,
        }
    } else {
        let n = name_len(s);
        Some((s.subrange(0, n), s.subrange(n, s.len() as int)))
    }
}

pub open spec fn literal(s: Seq<u8>) -> Seq<PartModel> {
    if s.len() == 0 {
        seq![]
    } else {
        seq![PartModel::Lit(s)]
    }
}

/// The pieces of a template, read from the left; the first fault counts.
pub open spec fn parts_of(s: Seq<u8>) -> Result<Seq<PartModel>, TemplateFault>
    decreases s.len(),
{
    proof {
        if s.contains(36) {
            lemma_find_some(s, 36);
            lemma_name_ahead_shrinks(s.subrange(find(s, 36)->0 + 1, s.len() as int));
        }
    }
    match find(s, 36) {
        None => Ok(literal(s)),
        Some(pos) => match name_ahead(s.subrange(pos + 1, s.len() as int)) {
            None => Err(TemplateFault::Unterminated),
            Some((name, after)) => match var_named(name) {
                None => Err(TemplateFault::UnknownVariable(name)),
                Some(v) => match parts_of(after) {
                    Err(e) => Err(e),
                    Ok(tail) => Ok(literal(s.subrange(0, pos)) + seq![PartModel::Var(v)] + tail),
                },
            },
        },
    }
}

proof fn lemma_name_len(s: Seq<u8>)
    ensures
        0 <= name_len(s) <= s.len(),
    decreases s.len(),
{
    if s.len() > 0 && is_name_byte(s[0]) {
        lemma_name_len(s.subrange(1, s.len() as int));
    }
}

pub proof fn lemma_name_ahead_shrinks(s: Seq<u8>)
    ensures
        name_ahead(s) matches Some((name, after)) ==> after.len() <= s.len(),
{
    lemma_name_len(s);
    if s.len() > 0 && s[0] == 123 {
        let inner = s.subrange(1, s.len() as int);
        if inner.contains(125) {
            lemma_find_some(inner, 125);
        }
    }
}

fn name_length(s: &[u8]) -> (r: usize)
    ensures
        r == name_len(s@),
        r <= s@.len(),
{
    let mut i: usize = 0;
    assert(s@.subrange(0, s@.len() as int) =~= s@);
    while i < s.len() && (48 <= s[i] && s[i] <= 57 || 65 <= s[i] && s[i] <= 90 || 97 <= s[i] && s[i]
        <= 122 || s[i] == 95)
        invariant
            i <= s@.len(),
            name_len(s@) == i + name_len(s@.subrange(i as int, s@.len() as int)),
        decreases s@.len() - i,
    {
        proof {
            let rest = s@.subrange(i as int, s@.len() as int);
            assert(rest.subrange(1, rest.len() as int) =~= s@.subrange(i + 1, s@.len() as int));
        }
        i += 1;
    }
    proof {
        let rest = s@.subrange(i as int, s@.len() as int);
        if i < s@.len() {
            assert(rest[0] == s@[i as int]);
        }
    }
    i
}

fn lookup(name: &[u8]) -> (r: Option<Var>)
    ensures
        r == var_named(name@),
{
    if is_text(name, "uri") {
        Some(Var::Uri)
    } else if is_text(name, "args") || is_text(name, "query") {
        Some(Var::Args)
    } else if is_text(name, "host") {
        Some(Var::Host)
    } else if is_text(name, "method") {
        Some(Var::Method)
    } else if is_text(name, "remote_addr") {
        Some(Var::RemoteAddr)
    } else {
        None
    }
}

/// Where the name behind a dollar sign lies, and where what follows begins.
fn read_name(s: &[u8]) -> (r: Option<(usize, usize, usize)>)
    ensures
        match name_ahead(s@) {
            Some((name, after)) => r matches Some((a, b, c)) && a <= b <= c <= s@.len()
                && s@.subrange(a as int, b as int) == name && s@.subrange(
                c as int,
                s@.len() as int,
            ) == after,
            None => r is None,
        },
{
    if s.len() > 0 && s[0] == 123 {
        match find_byte(125, &s[1..s.len()]) {
            Some(end) => {
                proof {
                    let inner = s@.subrange(1, s@.len() as int);
                    assert(s@.subrange(1, 1 + end) =~= inner.subrange(0, end as int));
                    assert(s@.subrange(end + 2, s@.len() as int) =~= inner.subrange(
                        end + 1,
                        inner.len() as int,
                    ));
                }
                Some((1, 1 + end, end + 2))
            },
            None => None,
        }
    } else {
        let n: usize = name_length(s);
        Some((0, n, n))
    }
}

pub struct Template {
    parts: Vec<Part>,
}

/// What the variables stand for.
pub struct Vars<'a> {
    pub uri: &'a [u8],
    pub args: &'a [u8],
    pub host: &'a [u8],
    pub method: &'a [u8],
    pub remote_addr: &'a str,
}

/// The bytes that the variables stand for.
pub struct Values {
    pub uri: Seq<u8>,
    pub args: Seq<u8>,
    pub host: Seq<u8>,
    pub method: Seq<u8>,
    pub remote_addr: Seq<u8>,
}

impl<'a> View for Vars<'a> {
    type V = Values;

    open spec fn view(&self) -> Values {
        Values {
            uri: self.uri@,
            args: self.args@,
            host: self.host@,
            method: self.method@,
            remote_addr: text(self.remote_addr),
        }
    }
}

impl Values {
    pub open spec fn get(self, v: Var) -> Seq<u8> {
        match v {
            Var::Uri => self.uri,
            Var::Args => self.args,
            Var::Host => self.host,
            Var::Method => self.method,
            Var::RemoteAddr => self.remote_addr,
        }
    }
}

/// A piece with its variable filled in.
pub open spec fn filled(p: PartModel, values: Values) -> Seq<u8> {
    match p {
        PartModel::Lit(s) => s,
        PartModel::Var(v) => values.get(v),
    }
}

pub open spec fn rendered(parts: Seq<PartModel>, values: Values) -> Seq<u8>
    decreases parts.len(),
{
    if parts.len() == 0 {
        seq![]
    } else {
        rendered(parts.drop_last(), values) + filled(parts.last(), values)
    }
}

impl Template {
    pub closed spec fn parts(self) -> Seq<PartModel> {
        part_views(self.parts@)
    }

    pub fn compile(input: &str) -> (r: Result<Template, TemplateError>)
        ensures
            match parts_of(text(input)) {
                Ok(p) => r matches Ok(t) && t.parts() == p,
                Err(e) => r matches Err(x) && x@ == e,
            },
    {
        let all = input.as_bytes();
        let mut parts: Vec<Part> = Vec::new();
        let mut at: usize = 0;
        let ghost goal = parts_of(all@);
        assert(all@.subrange(0, all@.len() as int) =~= all@);
        proof {
            assert(goal matches Ok(p) ==> part_views(parts@) + p =~= p);
        }
        loop
            invariant
                at <= all@.len(),
                all@ == text(input),
                goal == parts_of(all@),
                match parts_of(all@.subrange(at as int, all@.len() as int)) {
                    Ok(tail) => goal == Ok::<Seq<PartModel>, TemplateFault>(
                        part_views(parts@) + tail,
                    ),
                    Err(e) => goal == Err::<Seq<PartModel>, TemplateFault>(e),
                },
            decreases all@.len() - at,
        {
            let rest = &all[at..all.len()];
            let ghost was = part_views(parts@);
            let pos: usize = match find_byte(36, rest) {
                Some(p) => p,
                None => {
                    if rest.len() > 0 {
                        parts.push(Part::Lit(to_vec(rest)));
                    }
                    assert(part_views(parts@) =~= was + literal(rest@));
                    return Ok(Template { parts });
                },
            };
            let behind = &rest[pos + 1..rest.len()];
            let (a, b, c) = match read_name(behind) {
                Some(t) => t,
                None => {
                    return Err(TemplateError::Unterminated);
                },
            };
            let name = &behind[a..b];
            let var = match lookup(name) {
                Some(v) => v,
                None => {
                    return Err(TemplateError::UnknownVariable(to_vec(name)));
                },
            };
            let lit = &rest[0..pos];
            if pos > 0 {
                parts.push(Part::Lit(to_vec(lit)));
            }
            parts.push(Part::Var(var));
            proof {
                let mid = literal(lit@) + seq![PartModel::Var(var)];
                assert(part_views(parts@) =~= was + mid);
                let after = behind@.subrange(c as int, behind@.len() as int);
                assert(all@.subrange(at + pos + 1 + c, all@.len() as int) =~= after);
                if parts_of(after) is Ok {
                    let tail = parts_of(after)->Ok_0;
                    assert(was + (mid + tail) =~= was + mid + tail);
                }
            }
            at = at + pos + 1 + c;
        }
    }

    pub fn render(&self, vars: &Vars<'_>) -> (r: Vec<u8>)
        ensures
            r@ == rendered(self.parts(), vars@),
    {
        let mut out: Vec<u8> = Vec::with_capacity(64);
        let mut i: usize = 0;
        let ghost all = self.parts();
        assert(all.take(0).len() == 0);
        while i < self.parts.len()
            invariant
                i <= self.parts@.len(),
                all == part_views(self.parts@),
                out@ == rendered(all.take(i as int), vars@),
            decreases self.parts@.len() - i,
        {
            proof {
                assert(all.take(i + 1).drop_last() =~= all.take(i as int));
                assert(all[i as int] == part_view(self.parts@[i as int]));
            }
            match &self.parts[i] {
                Part::Lit(s) => push_bytes(&mut out, s.as_slice()),
                Part::Var(Var::Uri) => push_bytes(&mut out, vars.uri),
                Part::Var(Var::Args) => push_bytes(&mut out, vars.args),
                Part::Var(Var::Host) => push_bytes(&mut out, vars.host),
                Part::Var(Var::Method) => push_bytes(&mut out, vars.method),
                Part::Var(Var::RemoteAddr) => push_str(&mut out, vars.remote_addr),
            }
            i += 1;
        }
        assert(all.take(i as int) =~= all);
        out
    }
}

/// A template without a dollar sign renders to itself.
pub proof fn plain_text_renders_to_itself(s: Seq<u8>, vars: Values)
    requires
        !s.contains(36),
    ensures
        parts_of(s) matches Ok(p) && rendered(p, vars) == s,
{
    let p = literal(s);
    if s.len() > 0 {
        assert(p.drop_last().len() == 0);
        assert(rendered(p.drop_last(), vars) + s =~= s);
    } else {
        assert(rendered(p, vars) =~= s);
    }
}

proof fn lemma_rendered_joins(p: Seq<PartModel>, q: Seq<PartModel>, vars: Values)
    ensures
        rendered(p + q, vars) == rendered(p, vars) + rendered(q, vars),
    decreases q.len(),
{
    if q.len() == 0 {
        assert(p + q =~= p);
        assert(rendered(p, vars) + rendered(q, vars) =~= rendered(p, vars));
    } else {
        assert((p + q).drop_last() =~= p + q.drop_last());
        lemma_rendered_joins(p, q.drop_last(), vars);
        assert(rendered(p + q, vars) =~= rendered(p, vars) + rendered(q, vars));
    }
}

proof fn lemma_rendered_literal(s: Seq<u8>, vars: Values)
    ensures
        rendered(literal(s), vars) == s,
{
    if s.len() > 0 {
        assert(literal(s).drop_last().len() == 0);
        assert(rendered(literal(s).drop_last(), vars) + s =~= s);
    } else {
        assert(rendered(literal(s), vars) =~= s);
    }
}

/// What may follow a template without lengthening a variable's name.
pub open spec fn ends_a_name(s: Seq<u8>) -> bool {
    s.len() == 0 || !is_name_byte(s[0])
}

proof fn lemma_name_len_joins(s: Seq<u8>, b: Seq<u8>)
    requires
        ends_a_name(b),
    ensures
        name_len(s + b) == name_len(s),
    decreases s.len(),
{
    let t = s + b;
    if s.len() > 0 {
        assert(t[0] == s[0]);
        if is_name_byte(s[0]) {
            lemma_name_len_joins(s.subrange(1, s.len() as int), b);
            assert(t.subrange(1, t.len() as int) =~= s.subrange(1, s.len() as int) + b);
        }
    } else {
        assert(t =~= b);
    }
}

proof fn lemma_find_joins(s: Seq<u8>, b: Seq<u8>, c: u8)
    ensures
        s.contains(c) ==> find(s + b, c) == find(s, c),
        !s.contains(c) && b.contains(c) ==> find(b, c) is Some && find(s + b, c) == Some(
            s.len() + find(b, c)->0,
        ),
        !s.contains(c) && !b.contains(c) ==> find(s + b, c) is None,
{
    let t = s + b;
    if s.contains(c) {
        lemma_find_some(s, c);
        let i = find(s, c)->0;
        assert forall|j: int| 0 <= j < i implies t[j] != c by {
            assert(t[j] == s[j]);
        }
        assert(t[i] == s[i]);
        lemma_find(t, c, i);
    } else if b.contains(c) {
        lemma_find_some(b, c);
        let i = find(b, c)->0;
        assert forall|j: int| 0 <= j < s.len() + i implies t[j] != c by {
            if j < s.len() {
                assert(t[j] == s[j]);
            } else {
                assert(t[j] == b[j - s.len()]);
            }
        }
        assert(t[s.len() + i] == b[i]);
        lemma_find(t, c, s.len() + i);
    } else {
        assert forall|j: int| 0 <= j < t.len() implies t[j] != c by {
            if j < s.len() {
                assert(t[j] == s[j]);
            } else {
                assert(t[j] == b[j - s.len()]);
            }
        }
        lemma_find_none(t, c);
    }
}

proof fn lemma_name_ahead_joins(s: Seq<u8>, b: Seq<u8>)
    requires
        ends_a_name(b),
        name_ahead(s) matches Some((name, _)) && name.len() > 0,
    ensures
        name_ahead(s) matches Some((name, after)) && name_ahead(s + b) == Some((name, after + b)),
{
    let t = s + b;
    if s.len() > 0 && s[0] == 123 {
        let inner = s.subrange(1, s.len() as int);
        let wide = t.subrange(1, t.len() as int);
        assert(wide =~= inner + b);
        lemma_find_some(inner, 125);
        lemma_find_joins(inner, b, 125);
        let end = find(inner, 125)->0;
        assert(wide.subrange(0, end) =~= inner.subrange(0, end));
        assert(wide.subrange(end + 1, wide.len() as int) =~= inner.subrange(
            end + 1,
            inner.len() as int,
        ) + b);
    } else {
        let n = name_len(s);
        lemma_name_len(s);
        lemma_name_len_joins(s, b);
        assert(s.len() > 0);
        assert(t[0] == s[0]);
        assert(t.subrange(0, n) =~= s.subrange(0, n));
        assert(t.subrange(n, t.len() as int) =~= s.subrange(n, s.len() as int) + b);
    }
}

/// No variable has an empty name.
proof fn lemma_named(name: Seq<u8>)
    requires
        var_named(name) is Some,
    ensures
        name.len() > 0,
{
    reveal_strlit("uri");
    reveal_strlit("args");
    reveal_strlit("query");
    reveal_strlit("host");
    reveal_strlit("method");
    reveal_strlit("remote_addr");
    is_ascii_chars_encode_utf8("uri"@);
    is_ascii_chars_encode_utf8("args"@);
    is_ascii_chars_encode_utf8("query"@);
    is_ascii_chars_encode_utf8("host"@);
    is_ascii_chars_encode_utf8("method"@);
    is_ascii_chars_encode_utf8("remote_addr"@);
}

/// Two templates one behind the other are the template of the whole, as long as
/// the second does not lengthen a variable's name: it compiles, and under all
/// values renders to what the two render to. So the values are copied as they
/// are and not read as a template again.
pub proof fn templates_join(a: Seq<u8>, b: Seq<u8>)
    requires
        parts_of(a) is Ok,
        parts_of(b) is Ok,
        ends_a_name(b),
    ensures
        parts_of(a + b) matches Ok(parts) && forall|vars: Values| #[trigger]
            rendered(parts, vars) == rendered(parts_of(a)->Ok_0, vars) + rendered(
                parts_of(b)->Ok_0,
                vars,
            ),
    decreases a.len(),
{
    let s = a + b;
    let (p, q) = (parts_of(a)->Ok_0, parts_of(b)->Ok_0);
    lemma_find_joins(a, b, 36);
    if !a.contains(36) {
        if b.contains(36) {
            lemma_find_some(b, 36);
            let i = find(b, 36)->0;
            assert(s.subrange(a.len() + i + 1, s.len() as int) =~= b.subrange(
                i + 1,
                b.len() as int,
            ));
            let front = b.subrange(0, i);
            assert(s.subrange(0, a.len() + i) =~= a + front);
            let (name, after) = name_ahead(b.subrange(i + 1, b.len() as int))->0;
            let v = seq![PartModel::Var(var_named(name)->0)];
            let tail = parts_of(after)->Ok_0;
            let whole = literal(a + front) + v + tail;
            assert(parts_of(s) == Ok::<Seq<PartModel>, TemplateFault>(whole));
            assert forall|vars: Values| #[trigger]
                rendered(whole, vars) == rendered(p, vars) + rendered(q, vars) by {
                lemma_rendered_literal(a, vars);
                lemma_rendered_literal(front, vars);
                lemma_rendered_literal(a + front, vars);
                lemma_rendered_joins(literal(a + front) + v, tail, vars);
                lemma_rendered_joins(literal(a + front), v, vars);
                lemma_rendered_joins(literal(front) + v, tail, vars);
                lemma_rendered_joins(literal(front), v, vars);
                assert(rendered(whole, vars) =~= rendered(p, vars) + rendered(q, vars));
            }
        } else {
            assert forall|vars: Values| #[trigger]
                rendered(literal(s), vars) == rendered(p, vars) + rendered(q, vars) by {
                lemma_rendered_literal(a, vars);
                lemma_rendered_literal(b, vars);
                lemma_rendered_literal(s, vars);
            }
        }
    } else {
        lemma_find_some(a, 36);
        let i = find(a, 36)->0;
        let behind = a.subrange(i + 1, a.len() as int);
        assert(s.subrange(i + 1, s.len() as int) =~= behind + b);
        assert(s.subrange(0, i) =~= a.subrange(0, i));
        let (name, after) = name_ahead(behind)->0;
        lemma_named(name);
        lemma_name_ahead_joins(behind, b);
        lemma_name_ahead_shrinks(behind);
        templates_join(after, b);
        let head = literal(a.subrange(0, i)) + seq![PartModel::Var(var_named(name)->0)];
        let tail = parts_of(after)->Ok_0;
        let joined = parts_of(after + b)->Ok_0;
        assert(parts_of(s) == Ok::<Seq<PartModel>, TemplateFault>(head + joined));
        assert forall|vars: Values| #[trigger]
            rendered(head + joined, vars) == rendered(p, vars) + rendered(q, vars) by {
            lemma_rendered_joins(head, joined, vars);
            lemma_rendered_joins(head, tail, vars);
            assert(rendered(joined, vars) == rendered(tail, vars) + rendered(q, vars));
            assert(rendered(head + joined, vars) =~= rendered(p, vars) + rendered(q, vars));
        }
    }
}

} // verus!
