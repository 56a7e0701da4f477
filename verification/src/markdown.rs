//! Markdown to plain text, line by line: the marks at the start of a line and
//! the emphasis marks at its end are dropped. The structure is not parsed.

use vstd::prelude::*;
use crate::text::{join, lemma_join_push, push_range};

verus! {

/// The marks that are dropped from the start of a line.
pub open spec fn is_leading_mark(c: char) -> bool {
    c == '#' || c == ' ' || c == '-' || c == '*'
}

/// First index at or after `i` that holds no leading mark, or the length.
pub open spec fn skip_marks(s: Seq<char>, i: int) -> int
    decreases s.len() - i,
{
    if 0 <= i < s.len() && is_leading_mark(s[i]) {
        skip_marks(s, i + 1)
    } else {
        i
    }
}

/// `s` without the characters `c` at its end.
pub open spec fn strip_trailing(s: Seq<char>, c: char) -> Seq<char>
    decreases s.len(),
{
    if s.len() > 0 && s.last() == c {
        strip_trailing(s.drop_last(), c)
    } else {
        s
    }
}

/// A line without its leading marks and then without the `*` and, after them,
/// the `_` at its end.
pub open spec fn plain_line(line: Seq<char>) -> Seq<char> {
    strip_trailing(strip_trailing(line.subrange(skip_marks(line, 0), line.len() as int), '*'), '_')
}

/// First index at or after `i` that holds a line feed, or the length.
pub open spec fn line_end(s: Seq<char>, i: int) -> int
    decreases s.len() - i,
{
    if 0 <= i < s.len() && s[i] != '\n' {
        line_end(s, i + 1)
    } else {
        i
    }
}

/// `line_end` stays within the text and does not go back.
pub proof fn lemma_line_end_bounds(s: Seq<char>, i: int)
    requires
        0 <= i <= s.len(),
    ensures
        i <= line_end(s, i) <= s.len(),
    decreases s.len() - i,
{
    if i < s.len() && s[i] != '\n' {
        lemma_line_end_bounds(s, i + 1);
    }
}

/// The line that starts at `i` and ends before `e`: where a line feed stands
/// at `e`, a carriage return just before it belongs to the line ending.
pub open spec fn line_at(s: Seq<char>, i: int, e: int) -> Seq<char> {
    if e < s.len() && i < e && s[e - 1] == '\r' {
        s.subrange(i, e - 1)
    } else {
        s.subrange(i, e)
    }
}

/// The lines of `s` from index `i` on, each made plain, without those that are
/// then empty.
pub open spec fn plain_lines_from(s: Seq<char>, i: int) -> Seq<Seq<char>>
    decreases s.len() - i,
{
    if i < 0 || i > s.len() {
        seq![]
    } else {
        let e = line_end(s, i);
        proof {
            lemma_line_end_bounds(s, i);
        }
        let line = plain_line(line_at(s, i, e));
        let rest = if e < s.len() {
            plain_lines_from(s, e + 1)
        } else {
            seq![]
        };
        if line.len() > 0 {
            seq![line] + rest
        } else {
            rest
        }
    }
}

/// The plain text of the Markdown document `s`: its plain lines, a line feed
/// between each two.
pub open spec fn markdown_text(s: Seq<char>) -> Seq<char> {
    join(plain_lines_from(s, 0), seq!['\n'])
}

fn char_is_leading_mark(c: char) -> (b: bool)
    ensures
        b == is_leading_mark(c),
{
    c == '#' || c == ' ' || c == '-' || c == '*'
}

/// The bounds of `v[from..to]` without the characters `c` at its end.
fn strip_trailing_range(v: &Vec<char>, from: usize, to: usize, c: char) -> (end: usize)
    requires
        from <= to <= v.len(),
    ensures
        from <= end <= to,
        v@.subrange(from as int, end as int) == strip_trailing(
            v@.subrange(from as int, to as int),
            c,
        ),
{
    let mut b: usize = to;
    while b > from && v[b - 1] == c
        invariant
            from <= b <= to <= v.len(),
            strip_trailing(v@.subrange(from as int, b as int), c) == strip_trailing(
                v@.subrange(from as int, to as int),
                c,
            ),
        decreases b,
    {
        proof {
            let cur = v@.subrange(from as int, b as int);
            assert(cur.last() == v@[b - 1]);
            assert(cur.drop_last() =~= v@.subrange(from as int, b - 1));
        }
        b -= 1;
    }
    proof {
        let cur = v@.subrange(from as int, b as int);
        if b > from {
            assert(cur.last() == v@[b - 1]);
        }
    }
    b
}

/// The bounds of the plain line of `v[from..to]`.
fn plain_line_range(v: &Vec<char>, from: usize, to: usize) -> (r: (usize, usize))
    requires
        from <= to <= v.len(),
    ensures
        from <= r.0 <= r.1 <= to,
        v@.subrange(r.0 as int, r.1 as int) == plain_line(v@.subrange(from as int, to as int)),
{
    let ghost line = v@.subrange(from as int, to as int);
    let mut a: usize = from;
    while a < to && char_is_leading_mark(v[a])
        invariant
            from <= a <= to <= v.len(),
            line == v@.subrange(from as int, to as int),
            skip_marks(line, a - from) == skip_marks(line, 0),
        decreases to - a,
    {
        a += 1;
    }
    assert(line.subrange(a - from, line.len() as int) =~= v@.subrange(a as int, to as int));
    let b1 = strip_trailing_range(v, a, to, '*');
    let b2 = strip_trailing_range(v, a, b1, '_');
    (a, b2)
}

/// The plain text of the Markdown document `v`.
pub fn markdown_to_text(v: &Vec<char>) -> (out: Vec<char>)
    ensures
        out@ == markdown_text(v@),
{
    let n = v.len();
    let mut out: Vec<char> = Vec::new();
    let mut any = false;
    let mut i: usize = 0;
    let mut more = true;
    let ghost mut done: Seq<Seq<char>> = seq![];
    while more
        invariant
            n == v.len(),
            i <= n,
            more ==> plain_lines_from(v@, 0) == done + plain_lines_from(v@, i as int),
            !more ==> plain_lines_from(v@, 0) == done,
            out@ == join(done, seq!['\n']),
            any == (done.len() > 0),
        decreases (if more { 1int } else { 0 }), n - i,
    {
        let mut e: usize = i;
        while e < n && v[e] != '\n'
            invariant
                i <= e <= n,
                n == v.len(),
                line_end(v@, e as int) == line_end(v@, i as int),
            decreases n - e,
        {
            e += 1;
        }
        let stop = if e < n && i < e && v[e - 1] == '\r' {
            e - 1
        } else {
            e
        };
        let (a, b) = plain_line_range(v, i, stop);
        if a < b {
            let ghost line = v@.subrange(a as int, b as int);
            proof {
                lemma_join_push(done, seq!['\n'], line);
                if e < n {
                    assert(done + (seq![line] + plain_lines_from(v@, e + 1)) =~= done.push(line)
                        + plain_lines_from(v@, e + 1));
                } else {
                    assert(done + (seq![line] + Seq::<Seq<char>>::empty()) =~= done.push(line));
                }
                done = done.push(line);
            }
            if any {
                out.push('\n');
            }
            push_range(&mut out, v, a, b);
            any = true;
            assert(out@ =~= join(done, seq!['\n']));
        } else {
            proof {
                if e >= n {
                    assert(done + Seq::<Seq<char>>::empty() =~= done);
                }
            }
        }
        if e < n {
            i = e + 1;
        } else {
            more = false;
        }
    }
    out
}

} // verus!
