//! The scan for anchors and aliases, which a configuration may not use: an
//! anchor's name does not survive parsing, and applications are named things.

use vstd::prelude::*;
use vstd::string::*;

use crate::config::ConfigError;
use crate::text::{is_space, is_space_char, to_chars};

verus! {

/// The lines of a text.
pub open spec fn lines(s: Seq<char>) -> Seq<Seq<char>>
    decreases s.len(),
{
    if s.len() == 0 {
        seq![seq![]]
    } else {
        let before = lines(s.drop_last());
        if s.last() == '\n' {
            before.push(seq![])
        } else {
            before.drop_last().push(before.last().push(s.last()))
        }
    }
}

/// A comment begins at `i`: a space and a hash, the first of the line.
pub open spec fn comment_at(line: Seq<char>, i: int) -> bool {
    &&& 0 <= i
    &&& i + 1 < line.len()
    &&& line[i] == ' ' && line[i + 1] == '#'
    &&& forall|j: int| 0 <= j < i ==> !(#[trigger] line[j] == ' ' && line[j + 1] == '#')
}

/// A line without its comment.
pub open spec fn code(line: Seq<char>) -> Seq<char> {
    if exists|i: int| comment_at(line, i) {
        line.subrange(0, choose|i: int| comment_at(line, i))
    } else {
        line
    }
}

/// Whether a text ends within single quotes, and within double quotes.
pub open spec fn quotes(s: Seq<char>) -> (bool, bool)
    decreases s.len(),
{
    if s.len() == 0 {
        (false, false)
    } else {
        let (single, double) = quotes(s.drop_last());
        if s.last() == '\'' && !double {
            (!single, double)
        } else if s.last() == '"' && !single {
            (single, !double)
        } else {
            (single, double)
        }
    }
}

/// Whether a node may begin behind a character.
pub open spec fn opens_node(c: char) -> bool {
    is_space(c) || c == '[' || c == '{' || c == ',' || c == ':'
}

/// An anchor or alias begins at `j`: its mark stands outside quotes, where a
/// node may begin.
pub open spec fn anchor_at(code: Seq<char>, j: int) -> bool {
    &&& 0 <= j < code.len()
    &&& code[j] == '&' || code[j] == '*'
    &&& quotes(code.take(j)) == (false, false)
    &&& j == 0 || opens_node(code[j - 1])
}

pub open spec fn anchored(line: Seq<char>) -> bool {
    exists|j: int| anchor_at(code(line), j)
}

fn code_end(s: &Vec<char>, from: usize, to: usize) -> (r: usize)
    requires
        from <= to <= s@.len(),
    ensures
        from <= r <= to,
        s@.subrange(from as int, r as int) == code(s@.subrange(from as int, to as int)),
{
    let ghost line = s@.subrange(from as int, to as int);
    let mut i: usize = from;
    while i < to && to - i >= 2
        invariant
            from <= i <= to <= s@.len(),
            line == s@.subrange(from as int, to as int),
            forall|j: int|
                0 <= j < i - from && j + 1 < line.len() ==> !(#[trigger] line[j] == ' ' && line[j
                    + 1] == '#'),
        decreases to - i,
    {
        if s[i] == ' ' && s[i + 1] == '#' {
            proof {
                let k = i - from;
                assert(line[k] == ' ' && line[k + 1] == '#');
                assert(comment_at(line, k));
                let c = choose|c: int| comment_at(line, c);
                assert(comment_at(line, c));
                if c < k {
                    assert(line[c] == ' ' && line[c + 1] == '#');
                }
                if k < c {
                    assert(line[k] == ' ' && line[k + 1] == '#');
                }
                assert(s@.subrange(from as int, i as int) =~= line.subrange(0, k));
            }
            return i;
        }
        assert(line[i - from] == s@[i as int] && line[i - from + 1] == s@[i + 1]);
        i += 1;
    }
    assert forall|k: int| !comment_at(line, k) by {
        if comment_at(line, k) {
            assert(line[k] == ' ' && line[k + 1] == '#');
        }
    }
    to
}

fn line_anchored(s: &Vec<char>, from: usize, to: usize) -> (r: bool)
    requires
        from <= to <= s@.len(),
    ensures
        r == anchored(s@.subrange(from as int, to as int)),
{
    let end: usize = code_end(s, from, to);
    let ghost c = s@.subrange(from as int, end as int);
    let mut single = false;
    let mut double = false;
    let mut prev: char = ' ';
    let mut i: usize = from;
    assert(c.take(0).len() == 0);
    while i < end
        invariant
            from <= i <= end <= s@.len(),
            c == s@.subrange(from as int, end as int),
            c == code(s@.subrange(from as int, to as int)),
            quotes(c.take(i - from)) == (single, double),
            i == from ==> prev == ' ',
            i > from ==> prev == c[i - from - 1],
            forall|j: int| 0 <= j < i - from ==> !#[trigger] anchor_at(c, j),
        decreases end - i,
    {
        let ch: char = s[i];
        let ghost k = i - from;
        let node = is_space_char(prev) || prev == '[' || prev == '{' || prev == ',' || prev == ':';
        proof {
            assert(c[k] == ch);
            assert(c.take(k + 1).drop_last() =~= c.take(k));
            assert(c.take(k + 1).last() == ch);
        }
        if ch == '\'' && !double {
            single = !single;
        } else if ch == '"' && !single {
            double = !double;
        } else if (ch == '&' || ch == '*') && !single && !double && node {
            assert(anchor_at(c, k));
            return true;
        }
        assert(!anchor_at(c, k));
        prev = ch;
        i += 1;
    }
    false
}

proof fn lemma_lines_len(s: Seq<char>)
    ensures
        lines(s).len() >= 1,
    decreases s.len(),
{
    if s.len() > 0 {
        lemma_lines_len(s.drop_last());
    }
}

/// Lines that are complete stay what they are when more text follows.
proof fn lemma_lines_prefix(s: Seq<char>, n: int, k: int)
    requires
        0 <= n <= s.len(),
        0 <= k < lines(s.take(n)).len() - 1,
    ensures
        lines(s.take(n)).len() <= lines(s).len(),
        lines(s)[k] == lines(s.take(n))[k],
    decreases s.len(),
{
    if n == s.len() {
        assert(s.take(n) =~= s);
    } else {
        let init = s.drop_last();
        assert(init.take(n) =~= s.take(n));
        lemma_lines_prefix(init, n, k);
        lemma_lines_len(init);
    }
}

/// The first line with an anchor or alias is refused; lines count from one.
pub fn reject_anchors(yaml: &str) -> (r: Result<(), ConfigError>)
    requires
        yaml@.len() < usize::MAX,
    ensures
        match r {
            Ok(()) => forall|k: int|
                0 <= k < lines(yaml@).len() ==> !anchored(#[trigger] lines(yaml@)[k]),
            Err(e) => {
                &&& e matches ConfigError::AnchorForbidden { line } && 1 <= line <= lines(
                    yaml@,
                ).len() && anchored(lines(yaml@)[line - 1]) && forall|k: int|
                    0 <= k < line - 1 ==> !anchored(#[trigger] lines(yaml@)[k])
            },
        },
{
    let s = to_chars(yaml);
    let ghost all = yaml@;
    let mut line: usize = 0;
    let mut from: usize = 0;
    let mut i: usize = 0;
    proof {
        assert(all.take(0).len() == 0);
        assert(lines(all.take(0))[0] =~= all.subrange(0, 0));
    }
    while i < s.len()
        invariant
            line <= i <= s@.len(),
            s@.len() < usize::MAX,
            from <= i,
            s@ == all,
            all == yaml@,
            lines(all.take(i as int)).len() == line + 1,
            lines(all.take(i as int))[line as int] == all.subrange(from as int, i as int),
            forall|k: int| 0 <= k < line ==> !anchored(#[trigger] lines(all.take(i as int))[k]),
        decreases s@.len() - i,
    {
        let ghost before = lines(all.take(i as int));
        let ghost after = lines(all.take(i + 1));
        proof {
            assert(all.take(i + 1).drop_last() =~= all.take(i as int));
            assert(all.take(i + 1).last() == all[i as int]);
        }
        if s[i] == '\n' {
            if line_anchored(&s, from, i) {
                proof {
                    assert(after == before.push(seq![]));
                    lemma_lines_prefix(all, i + 1, line as int);
                    assert forall|k: int| 0 <= k < line implies !anchored(
                        #[trigger] lines(all)[k],
                    ) by {
                        lemma_lines_prefix(all, i + 1, k);
                        assert(after[k] == before[k]);
                    }
                }
                return Err(ConfigError::AnchorForbidden { line: line + 1 });
            }
            line += 1;
            from = i + 1;
            proof {
                assert(after == before.push(seq![]));
                assert(after[line as int] =~= all.subrange(from as int, i + 1));
                assert forall|k: int| 0 <= k < line implies !anchored(#[trigger] after[k]) by {
                    assert(after[k] == before[k]);
                }
            }
        } else {
            proof {
                assert(after == before.drop_last().push(before.last().push(all[i as int])));
                assert(after[line as int] =~= all.subrange(from as int, i + 1));
                assert forall|k: int| 0 <= k < line implies !anchored(#[trigger] after[k]) by {
                    assert(after[k] == before[k]);
                }
            }
        }
        i += 1;
    }
    assert(all.take(i as int) =~= all);
    if line_anchored(&s, from, i) {
        return Err(ConfigError::AnchorForbidden { line: line + 1 });
    }
    Ok(())
}

} // verus!
