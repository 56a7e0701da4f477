//! Character sequences: the model every text operation of the crate is stated over.
//!
//! A `&str` or `String` is viewed as its sequence of `char`s. The functions here
//! give that sequence the few notions the rest of the crate needs: whitespace,
//! trimming, length in UTF-8 bytes, words and joining.

use vstd::prelude::*;

verus! {

/// `String::push` appends one character.
pub assume_specification[ std::string::String::push ](s: &mut std::string::String, c: char)
    ensures
        final(s)@ == old(s)@.push(c),
;

/// The characters that carry the Unicode `White_Space` property.
pub open spec fn is_whitespace(c: char) -> bool {
    let u = c as u32;
    (0x09 <= u && u <= 0x0D) || u == 0x20 || u == 0x85 || u == 0xA0 || u == 0x1680 || (0x2000
        <= u && u <= 0x200A) || u == 0x2028 || u == 0x2029 || u == 0x202F || u == 0x205F || u
        == 0x3000
}

/// The five ASCII whitespace bytes: space, tab, line feed, form feed, carriage return.
pub open spec fn is_ascii_whitespace(b: u8) -> bool {
    b == 0x20 || b == 0x09 || b == 0x0A || b == 0x0C || b == 0x0D
}

/// Every character of `s` is whitespace (the empty sequence is blank).
pub open spec fn is_blank(s: Seq<char>) -> bool {
    forall|i: int| 0 <= i < s.len() ==> is_whitespace(#[trigger] s[i])
}

/// Number of bytes that `c` takes in UTF-8.
pub open spec fn utf8_width(c: char) -> nat {
    let u = c as u32;
    if u < 0x80 {
        1
    } else if u < 0x800 {
        2
    } else if u < 0x10000 {
        3
    } else {
        4
    }
}

/// Length of `s` in UTF-8 bytes: what `str::len` reports.
pub open spec fn byte_len(s: Seq<char>) -> nat
    decreases s.len(),
{
    if s.len() == 0 {
        0
    } else {
        byte_len(s.drop_last()) + utf8_width(s.last())
    }
}

/// First index at or after `i` that holds no whitespace, or the length.
pub open spec fn skip_whitespace(s: Seq<char>, i: int) -> int
    decreases s.len() - i,
{
    if 0 <= i < s.len() && is_whitespace(s[i]) {
        skip_whitespace(s, i + 1)
    } else {
        i
    }
}

/// First index at or after `i` that holds whitespace, or the length.
pub open spec fn skip_word(s: Seq<char>, i: int) -> int
    decreases s.len() - i,
{
    if 0 <= i < s.len() && !is_whitespace(s[i]) {
        skip_word(s, i + 1)
    } else {
        i
    }
}

/// `s` without its leading whitespace.
pub open spec fn trim_start(s: Seq<char>) -> Seq<char> {
    s.subrange(skip_whitespace(s, 0), s.len() as int)
}

/// `s` without its trailing whitespace.
pub open spec fn trim_end(s: Seq<char>) -> Seq<char>
    decreases s.len(),
{
    if s.len() > 0 && is_whitespace(s.last()) {
        trim_end(s.drop_last())
    } else {
        s
    }
}

/// `s` without leading and trailing whitespace.
pub open spec fn trim(s: Seq<char>) -> Seq<char> {
    trim_end(trim_start(s))
}

/// The maximal runs of non-whitespace in `s` from index `i` on, in order.
pub open spec fn words_from(s: Seq<char>, i: int) -> Seq<Seq<char>>
    decreases s.len() - i,
{
    let a = skip_whitespace(s, i);
    if 0 <= i && a < s.len() {
        let b = skip_word(s, a);
        proof {
            lemma_skip_whitespace_bounds(s, i);
            lemma_skip_word_bounds(s, a + 1);
        }
        seq![s.subrange(a, b)] + words_from(s, b)
    } else {
        seq![]
    }
}

/// The parts in order, with `sep` between each two neighbours.
pub open spec fn join(parts: Seq<Seq<char>>, sep: Seq<char>) -> Seq<char>
    decreases parts.len(),
{
    if parts.len() == 0 {
        seq![]
    } else if parts.len() == 1 {
        parts[0]
    } else {
        join(parts.drop_last(), sep) + sep + parts.last()
    }
}

/// The words of `s` with one space between each two: every run of whitespace
/// becomes a single space, and none is left at either end.
pub open spec fn collapse_whitespace(s: Seq<char>) -> Seq<char> {
    join(words_from(s, 0), seq![' '])
}

/// `needle` occurs in `hay` as a contiguous run starting at `at`.
pub open spec fn occurs_at(hay: Seq<char>, needle: Seq<char>, at: int) -> bool {
    0 <= at && at + needle.len() <= hay.len() && hay.subrange(at, at + needle.len()) == needle
}

/// `needle` occurs somewhere in `hay` as a contiguous run.
pub open spec fn contains_run(hay: Seq<char>, needle: Seq<char>) -> bool {
    exists|at: int| occurs_at(hay, needle, at)
}

/// `skip_whitespace` stays within the text, passes over whitespace only, and
/// stops at the first character that is none.
pub proof fn lemma_skip_whitespace_bounds(s: Seq<char>, i: int)
    requires
        0 <= i <= s.len(),
    ensures
        i <= skip_whitespace(s, i) <= s.len(),
        forall|k: int| i <= k < skip_whitespace(s, i) ==> is_whitespace(#[trigger] s[k]),
        skip_whitespace(s, i) < s.len() ==> !is_whitespace(s[skip_whitespace(s, i)]),
    decreases s.len() - i,
{
    if i < s.len() && is_whitespace(s[i]) {
        lemma_skip_whitespace_bounds(s, i + 1);
    }
}

/// `skip_word` stays within the text, passes over no whitespace, and stops at
/// the first whitespace.
pub proof fn lemma_skip_word_bounds(s: Seq<char>, i: int)
    requires
        0 <= i <= s.len(),
    ensures
        i <= skip_word(s, i) <= s.len(),
        forall|k: int| i <= k < skip_word(s, i) ==> !is_whitespace(#[trigger] s[k]),
        skip_word(s, i) < s.len() ==> is_whitespace(s[skip_word(s, i)]),
    decreases s.len() - i,
{
    if i < s.len() && !is_whitespace(s[i]) {
        lemma_skip_word_bounds(s, i + 1);
    }
}

/// The byte length of a concatenation is the sum of the byte lengths.
pub proof fn lemma_byte_len_concat(a: Seq<char>, b: Seq<char>)
    ensures
        byte_len(a + b) == byte_len(a) + byte_len(b),
    decreases b.len(),
{
    if b.len() == 0 {
        assert(a + b =~= a);
    } else {
        assert((a + b).drop_last() =~= a + b.drop_last());
        assert((a + b).last() == b.last());
        lemma_byte_len_concat(a, b.drop_last());
    }
}

/// One more character adds its width to the byte length.
pub proof fn lemma_byte_len_push(s: Seq<char>, c: char)
    ensures
        byte_len(s.push(c)) == byte_len(s) + utf8_width(c),
{
    assert(s.push(c).drop_last() =~= s);
}

/// `byte_len` is the length of the UTF-8 encoding.
pub proof fn lemma_byte_len_is_encoded_len(s: Seq<char>)
    ensures
        byte_len(s) == vstd::utf8::encode_utf8(s).len(),
    decreases s.len(),
{
    if s.len() == 0 {
    } else {
        let head = seq![s[0]];
        let rest = s.drop_first();
        assert(s =~= head + rest);
        lemma_byte_len_concat(head, rest);
        lemma_byte_len_is_encoded_len(rest);
        assert(head.drop_last() =~= Seq::<char>::empty());
        assert(byte_len(head) == utf8_width(s[0])) by {
            reveal_with_fuel(byte_len, 2);
        }
        vstd::utf8::char_is_scalar(s[0]);
    }
}

/// The sequence of characters of a string slice.
pub fn to_chars(s: &str) -> (v: Vec<char>)
    ensures
        v@ == s@,
{
    let mut v: Vec<char> = Vec::new();
    for c in it: s.chars()
        invariant
            v@ == it.seq().take(it.index() as int),
    {
        v.push(c);
    }
    v
}

/// The string made of the characters `v[from..to]`.
pub fn from_chars_range(v: &Vec<char>, from: usize, to: usize) -> (s: String)
    requires
        from <= to <= v.len(),
    ensures
        s@ == v@.subrange(from as int, to as int),
{
    let mut s = String::new();
    let mut i: usize = from;
    while i < to
        invariant
            from <= i <= to <= v.len(),
            s@ == v@.subrange(from as int, i as int),
        decreases to - i,
    {
        s.push(v[i]);
        i += 1;
    }
    s
}

/// The string made of the characters of `v`.
pub fn from_chars(v: &Vec<char>) -> (s: String)
    ensures
        s@ == v@,
{
    let s = from_chars_range(v, 0, v.len());
    assert(v@.subrange(0, v.len() as int) =~= v@);
    s
}

/// Whether `c` is whitespace.
pub fn char_is_whitespace(c: char) -> (b: bool)
    ensures
        b == is_whitespace(c),
{
    let u: u32 = c as u32;
    (0x09 <= u && u <= 0x0D) || u == 0x20 || u == 0x85 || u == 0xA0 || u == 0x1680 || (0x2000
        <= u && u <= 0x200A) || u == 0x2028 || u == 0x2029 || u == 0x202F || u == 0x205F || u
        == 0x3000
}

/// Whether `b` is one of the ASCII whitespace bytes.
pub fn byte_is_ascii_whitespace(b: u8) -> (r: bool)
    ensures
        r == is_ascii_whitespace(b),
{
    b == 0x20 || b == 0x09 || b == 0x0A || b == 0x0C || b == 0x0D
}

/// Number of bytes that `c` takes in UTF-8.
pub fn char_width(c: char) -> (w: u128)
    ensures
        w == utf8_width(c),
        1 <= w <= 4,
{
    let u: u32 = c as u32;
    if u < 0x80 {
        1
    } else if u < 0x800 {
        2
    } else if u < 0x10000 {
        3
    } else {
        4
    }
}

/// Byte length of `v[from..to]`; 128 bits hold it whatever the platform.
pub fn byte_length_range(v: &Vec<char>, from: usize, to: usize) -> (n: u128)
    requires
        from <= to <= v.len(),
    ensures
        n == byte_len(v@.subrange(from as int, to as int)),
        n <= 4 * (to - from),
{
    let mut n: u128 = 0;
    let mut i: usize = from;
    while i < to
        invariant
            from <= i <= to <= v.len(),
            n == byte_len(v@.subrange(from as int, i as int)),
            n <= 4 * (i - from),
        decreases to - i,
    {
        let w = char_width(v[i]);
        proof {
            assert(v@.subrange(from as int, i + 1) =~= v@.subrange(from as int, i as int).push(
                v@[i as int],
            ));
            lemma_byte_len_push(v@.subrange(from as int, i as int), v@[i as int]);
        }
        n = n + w;
        i += 1;
    }
    n
}

/// Byte length of `v`.
pub fn byte_length(v: &Vec<char>) -> (n: u128)
    ensures
        n == byte_len(v@),
        n <= 4 * v@.len(),
{
    let n = byte_length_range(v, 0, v.len());
    assert(v@.subrange(0, v.len() as int) =~= v@);
    n
}

/// Whether every character of `v[from..to]` is whitespace.
pub fn is_blank_range(v: &Vec<char>, from: usize, to: usize) -> (b: bool)
    requires
        from <= to <= v.len(),
    ensures
        b == is_blank(v@.subrange(from as int, to as int)),
{
    let mut i: usize = from;
    while i < to
        invariant
            from <= i <= to <= v.len(),
            forall|k: int| from <= k < i ==> is_whitespace(#[trigger] v@[k]),
        decreases to - i,
    {
        if !char_is_whitespace(v[i]) {
            assert(v@.subrange(from as int, to as int)[i - from] == v@[i as int]);
            return false;
        }
        i += 1;
    }
    true
}

/// Appends `v[from..to]` to `out`.
pub fn push_range(out: &mut Vec<char>, v: &Vec<char>, from: usize, to: usize)
    requires
        from <= to <= v.len(),
    ensures
        final(out)@ == old(out)@ + v@.subrange(from as int, to as int),
{
    let mut i: usize = from;
    while i < to
        invariant
            from <= i <= to <= v.len(),
            out@ == old(out)@ + v@.subrange(from as int, i as int),
        decreases to - i,
    {
        out.push(v[i]);
        i += 1;
    }
}

/// Appends all of `v` to `out`.
pub fn push_all(out: &mut Vec<char>, v: &Vec<char>)
    ensures
        final(out)@ == old(out)@ + v@,
{
    push_range(out, v, 0, v.len());
    assert(v@.subrange(0, v.len() as int) =~= v@);
}

/// Appends the characters of `s` to `out`.
pub fn push_str(out: &mut Vec<char>, s: &str)
    ensures
        final(out)@ == old(out)@ + s@,
{
    let v = to_chars(s);
    push_all(out, &v);
}

/// The bounds of `v[from..to]` without its leading and trailing whitespace.
pub fn trim_range(v: &Vec<char>, from: usize, to: usize) -> (r: (usize, usize))
    requires
        from <= to <= v.len(),
    ensures
        from <= r.0 <= r.1 <= to,
        v@.subrange(r.0 as int, r.1 as int) == trim(v@.subrange(from as int, to as int)),
{
    let ghost whole = v@.subrange(from as int, to as int);
    let mut a: usize = from;
    while a < to && char_is_whitespace(v[a])
        invariant
            from <= a <= to <= v.len(),
            whole == v@.subrange(from as int, to as int),
            skip_whitespace(whole, a - from) == skip_whitespace(whole, 0),
        decreases to - a,
    {
        a += 1;
    }
    assert(trim_start(whole) =~= v@.subrange(a as int, to as int));
    let ghost rest = v@.subrange(a as int, to as int);
    let mut b: usize = to;
    while b > a && char_is_whitespace(v[b - 1])
        invariant
            a <= b <= to <= v.len(),
            rest == v@.subrange(a as int, to as int),
            trim_end(v@.subrange(a as int, b as int)) == trim_end(rest),
        decreases b - a,
    {
        proof {
            let cur = v@.subrange(a as int, b as int);
            assert(cur.last() == v@[b - 1]);
            assert(cur.drop_last() =~= v@.subrange(a as int, b - 1));
        }
        b -= 1;
    }
    proof {
        let cur = v@.subrange(a as int, b as int);
        if b > a {
            assert(cur.last() == v@[b - 1]);
        }
    }
    (a, b)
}

/// The words of `v`, one space between each two.
pub fn collapse(v: &Vec<char>) -> (out: Vec<char>)
    ensures
        out@ == collapse_whitespace(v@),
{
    let mut out: Vec<char> = Vec::new();
    let mut any = false;
    let mut i: usize = 0;
    let ghost mut done: Seq<Seq<char>> = seq![];
    let n = v.len();
    loop
        invariant
            n == v.len(),
            i <= n,
            words_from(v@, 0) == done + words_from(v@, i as int),
            out@ == join(done, seq![' ']),
            any == (done.len() > 0),
        ensures
            out@ == collapse_whitespace(v@),
        decreases n - i,
    {
        let mut a: usize = i;
        while a < n && char_is_whitespace(v[a])
            invariant
                i <= a <= n,
                n == v.len(),
                skip_whitespace(v@, a as int) == skip_whitespace(v@, i as int),
            decreases n - a,
        {
            a += 1;
        }
        if a >= n {
            proof {
                assert(words_from(v@, i as int) =~= seq![]);
                assert(done + Seq::<Seq<char>>::empty() =~= done);
            }
            break;
        }
        let mut b: usize = a + 1;
        while b < n && !char_is_whitespace(v[b])
            invariant
                a < b <= n,
                n == v.len(),
                skip_word(v@, b as int) == skip_word(v@, a as int),
            decreases n - b,
        {
            b += 1;
        }
        proof {
            let word = v@.subrange(a as int, b as int);
            assert(words_from(v@, i as int) == seq![word] + words_from(v@, b as int));
            assert(done + (seq![word] + words_from(v@, b as int)) =~= done.push(word)
                + words_from(v@, b as int));
            assert(done.push(word).drop_last() =~= done);
            done = done.push(word);
        }
        if any {
            out.push(' ');
        }
        push_range(&mut out, v, a, b);
        proof {
            assert(out@ =~= join(done, seq![' ']));
        }
        any = true;
        i = b;
    }
    out
}

/// `join` of one more part.
pub proof fn lemma_join_push(parts: Seq<Seq<char>>, sep: Seq<char>, part: Seq<char>)
    ensures
        join(parts.push(part), sep) == if parts.len() == 0 {
            part
        } else {
            join(parts, sep) + sep + part
        },
{
    assert(parts.push(part).drop_last() =~= parts);
}

/// `s` is not empty and has no whitespace at either end.
pub open spec fn is_solid(s: Seq<char>) -> bool {
    s.len() > 0 && !is_whitespace(s[0]) && !is_whitespace(s.last())
}

/// `trim_end` keeps a prefix, drops only whitespace, and leaves none at the end.
pub proof fn lemma_trim_end_shape(s: Seq<char>)
    ensures
        trim_end(s).len() <= s.len(),
        trim_end(s) == s.subrange(0, trim_end(s).len() as int),
        forall|k: int| trim_end(s).len() <= k < s.len() ==> is_whitespace(#[trigger] s[k]),
        trim_end(s).len() > 0 ==> !is_whitespace(trim_end(s).last()),
    decreases s.len(),
{
    if s.len() > 0 && is_whitespace(s.last()) {
        let shorter = s.drop_last();
        lemma_trim_end_shape(shorter);
        let m = trim_end(s).len() as int;
        assert(trim_end(s) =~= s.subrange(0, m));
        assert forall|k: int| m <= k < s.len() implies is_whitespace(#[trigger] s[k]) by {
            if k < s.len() - 1 {
                assert(shorter[k] == s[k]);
            }
        }
    } else {
        assert(s =~= s.subrange(0, s.len() as int));
    }
}

/// `trim(s)` is `s[from..to]` for the bounds that the lemma returns: all
/// before `from` and all from `to` on is whitespace, and what is between is
/// empty or solid.
pub proof fn lemma_trim_shape(s: Seq<char>) -> (r: (int, int))
    ensures
        0 <= r.0 <= r.1 <= s.len(),
        trim(s) == s.subrange(r.0, r.1),
        forall|k: int| 0 <= k < r.0 ==> is_whitespace(#[trigger] s[k]),
        forall|k: int| r.1 <= k < s.len() ==> is_whitespace(#[trigger] s[k]),
        r.0 < r.1 ==> is_solid(trim(s)),
        r.0 == r.1 <==> is_blank(s),
{
    let a = skip_whitespace(s, 0);
    lemma_skip_whitespace_bounds(s, 0);
    let rest = trim_start(s);
    lemma_trim_end_shape(rest);
    let m = trim_end(rest).len() as int;
    let b = a + m;
    assert(trim(s) =~= s.subrange(a, b));
    assert forall|k: int| b <= k < s.len() implies is_whitespace(#[trigger] s[k]) by {
        assert(rest[k - a] == s[k]);
    }
    if a < b {
        assert(trim(s)[0] == s[a]);
        assert(!is_blank(s));
    } else {
        assert forall|k: int| 0 <= k < s.len() implies is_whitespace(#[trigger] s[k]) by {}
    }
    (a, b)
}

/// A solid run of `s` is a run of `trim(s)` too.
pub proof fn lemma_trim_keeps_run(s: Seq<char>, x: Seq<char>)
    requires
        contains_run(s, x),
        is_solid(x),
    ensures
        contains_run(trim(s), x),
{
    let at = choose|at: int| occurs_at(s, x, at);
    let (a, b) = lemma_trim_shape(s);
    assert(s.subrange(at, at + x.len())[0] == s[at]);
    assert(s.subrange(at, at + x.len())[x.len() - 1] == s[at + x.len() - 1]);
    assert(a <= at);
    assert(at + x.len() <= b);
    assert(trim(s).subrange(at - a, at - a + x.len()) =~= s.subrange(at, at + x.len()));
    assert(occurs_at(trim(s), x, at - a));
}

/// A run of `s` is a run of anything that `s` stands in.
pub proof fn lemma_run_in_context(before: Seq<char>, s: Seq<char>, after: Seq<char>, x: Seq<char>)
    requires
        contains_run(s, x),
    ensures
        contains_run(before + s + after, x),
{
    let at = choose|at: int| occurs_at(s, x, at);
    let whole = before + s + after;
    assert(whole.subrange(before.len() + at, before.len() + at + x.len()) =~= s.subrange(
        at,
        at + x.len(),
    ));
    assert(occurs_at(whole, x, before.len() + at));
}

/// A solid run holds a character that is no whitespace, so no blank text has it.
pub proof fn lemma_blank_has_no_solid_run(s: Seq<char>, x: Seq<char>)
    requires
        is_blank(s),
        is_solid(x),
    ensures
        !contains_run(s, x),
{
    if contains_run(s, x) {
        let at = choose|at: int| occurs_at(s, x, at);
        assert(s.subrange(at, at + x.len())[0] == s[at]);
    }
}

/// `a` followed by `b`.
pub fn concat(a: &str, b: &str) -> (r: String)
    ensures
        r@ == a@ + b@,
{
    let mut out = to_chars(a);
    push_str(&mut out, b);
    from_chars(&out)
}

/// Whether `a` and `b` hold the same characters.
pub fn same_chars(a: &Vec<char>, b: &Vec<char>) -> (r: bool)
    ensures
        r == (a@ == b@),
{
    if a.len() != b.len() {
        return false;
    }
    let mut i: usize = 0;
    while i < a.len()
        invariant
            i <= a.len(),
            a.len() == b.len(),
            a@.take(i as int) == b@.take(i as int),
        decreases a.len() - i,
    {
        if a[i] != b[i] {
            return false;
        }
        i += 1;
        assert(a@.take(i as int) =~= a@.take(i - 1).push(a@[i - 1]));
        assert(b@.take(i as int) =~= b@.take(i - 1).push(b@[i - 1]));
    }
    assert(a@ =~= a@.take(a.len() as int));
    assert(b@ =~= b@.take(b.len() as int));
    true
}

/// Whether the strings `a` and `b` are equal.
pub fn same_str(a: &str, b: &str) -> (r: bool)
    ensures
        r == (a@ == b@),
{
    let x = to_chars(a);
    let y = to_chars(b);
    same_chars(&x, &y)
}

/// Whether `v` starts with `prefix`.
pub fn starts_with(v: &Vec<char>, prefix: &Vec<char>) -> (r: bool)
    ensures
        r == prefix@.is_prefix_of(v@),
{
    if prefix.len() > v.len() {
        return false;
    }
    let mut i: usize = 0;
    while i < prefix.len()
        invariant
            i <= prefix.len() <= v.len(),
            v@.take(i as int) == prefix@.take(i as int),
        decreases prefix.len() - i,
    {
        if v[i] != prefix[i] {
            assert(v@.subrange(0, prefix.len() as int)[i as int] != prefix@[i as int]);
            return false;
        }
        i += 1;
        assert(v@.take(i as int) =~= v@.take(i - 1).push(v@[i - 1]));
        assert(prefix@.take(i as int) =~= prefix@.take(i - 1).push(prefix@[i - 1]));
    }
    assert(prefix@ =~= prefix@.take(prefix.len() as int));
    assert(v@.take(prefix.len() as int) =~= v@.subrange(0, prefix.len() as int));
    true
}

/// Whether `v` ends with `suffix`.
pub fn ends_with(v: &Vec<char>, suffix: &Vec<char>) -> (r: bool)
    ensures
        r == suffix@.is_suffix_of(v@),
{
    if suffix.len() > v.len() {
        return false;
    }
    let d = v.len() - suffix.len();
    let ghost tail = v@.subrange(d as int, v.len() as int);
    let mut i: usize = 0;
    while i < suffix.len()
        invariant
            i <= suffix.len() <= v.len(),
            d == v.len() - suffix.len(),
            tail == v@.subrange(d as int, v.len() as int),
            tail.take(i as int) == suffix@.take(i as int),
        decreases suffix.len() - i,
    {
        if v[d + i] != suffix[i] {
            assert(tail[i as int] != suffix@[i as int]);
            return false;
        }
        i += 1;
        assert(tail.take(i as int) =~= tail.take(i - 1).push(tail[i - 1]));
        assert(suffix@.take(i as int) =~= suffix@.take(i - 1).push(suffix@[i - 1]));
    }
    assert(suffix@ =~= suffix@.take(suffix.len() as int));
    assert(tail =~= tail.take(suffix.len() as int));
    true
}

/// The decimal digit for `d`.
pub open spec fn digit(d: nat) -> char {
    if d == 0 {
        '0'
    } else if d == 1 {
        '1'
    } else if d == 2 {
        '2'
    } else if d == 3 {
        '3'
    } else if d == 4 {
        '4'
    } else if d == 5 {
        '5'
    } else if d == 6 {
        '6'
    } else if d == 7 {
        '7'
    } else if d == 8 {
        '8'
    } else {
        '9'
    }
}

/// `n` written in decimal, without leading zeros.
pub open spec fn decimal(n: nat) -> Seq<char>
    decreases n,
{
    if n < 10 {
        seq![digit(n)]
    } else {
        decimal(n / 10).push(digit(n % 10))
    }
}

fn digit_char(d: u64) -> (c: char)
    requires
        d < 10,
    ensures
        c == digit(d as nat),
{
    if d == 0 {
        '0'
    } else if d == 1 {
        '1'
    } else if d == 2 {
        '2'
    } else if d == 3 {
        '3'
    } else if d == 4 {
        '4'
    } else if d == 5 {
        '5'
    } else if d == 6 {
        '6'
    } else if d == 7 {
        '7'
    } else if d == 8 {
        '8'
    } else {
        '9'
    }
}

/// Appends `n` in decimal to `out`.
pub fn push_decimal(out: &mut Vec<char>, n: u64)
    ensures
        final(out)@ == old(out)@ + decimal(n as nat),
    decreases n,
{
    if n < 10 {
        out.push(digit_char(n));
        assert(out@ =~= old(out)@ + decimal(n as nat));
    } else {
        push_decimal(out, n / 10);
        out.push(digit_char(n % 10));
        assert(out@ =~= old(out)@ + decimal(n as nat));
    }
}

/// A text that holds a run holds each character of the run.
pub proof fn lemma_run_character(s: Seq<char>, x: Seq<char>, i: int)
    requires
        contains_run(s, x),
        0 <= i < x.len(),
    ensures
        s.contains(x[i]),
{
    let at = choose|at: int| occurs_at(s, x, at);
    assert(s.subrange(at, at + x.len())[i] == s[at + i]);
}

/// A solid text is its own trimmed text.
pub proof fn lemma_trim_solid(s: Seq<char>)
    requires
        is_solid(s),
    ensures
        trim(s) == s,
{
    let (a, b) = lemma_trim_shape(s);
    if a > 0 {
        assert(is_whitespace(s[0]));
    }
    if b < s.len() {
        assert(is_whitespace(s[s.len() - 1]));
    }
    assert(s.subrange(0, s.len() as int) =~= s);
}

/// Parts that are not empty, joined, begin as the first part begins and end
/// as the last part ends.
pub proof fn lemma_join_ends(parts: Seq<Seq<char>>, sep: Seq<char>)
    requires
        parts.len() > 0,
        forall|j: int| 0 <= j < parts.len() ==> (#[trigger] parts[j]).len() > 0,
    ensures
        join(parts, sep).len() > 0,
        join(parts, sep)[0] == parts[0][0],
        join(parts, sep).last() == parts.last().last(),
    decreases parts.len(),
{
    if parts.len() > 1 {
        let before = parts.drop_last();
        assert forall|j: int| 0 <= j < before.len() implies (#[trigger] before[j]).len() > 0 by {
            assert(before[j] == parts[j]);
        }
        lemma_join_ends(before, sep);
        assert(before[0] == parts[0]);
    }
}

/// What stands at the end of a text that ends in no whitespace stands, with
/// its leading whitespace taken off, at the end of the trimmed text.
pub proof fn lemma_trim_start_of_suffix(s: Seq<char>, tail: Seq<char>)
    requires
        s.len() > 0,
        !is_whitespace(s.last()),
        tail.is_suffix_of(s),
    ensures
        trim_start(tail).is_suffix_of(trim(s)),
{
    let n = s.len() as int;
    let k = n - tail.len();
    assert(tail =~= s.subrange(k, n));
    let (a, b) = lemma_trim_shape(s);
    if b < n {
        assert(is_whitespace(s[n - 1]));
    }
    let j = skip_whitespace(tail, 0);
    lemma_skip_whitespace_bounds(tail, 0);
    if k + j < a {
        assert(tail[j] == s[k + j]);
        assert(is_whitespace(s[k + j]));
    }
    let kept = trim_start(tail);
    assert(kept =~= s.subrange(k + j, n));
    let whole = trim(s);
    assert(kept =~= whole.subrange(whole.len() - kept.len(), whole.len() as int));
}

} // verus!
