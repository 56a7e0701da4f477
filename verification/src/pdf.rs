//! A byte-level scanner for the text of a PDF content stream.
//!
//! It looks for text objects, which stand between the operators `BT` and `ET`,
//! and inside them for literal strings, which stand in parentheses. It knows
//! nothing of fonts, encodings or compression: it is the fallback for files
//! that a full PDF reader gives no text for.

use vstd::prelude::*;
use crate::processor::DocumentProcessor;
use crate::text::{
    byte_is_ascii_whitespace, collapse, collapse_whitespace, from_chars, is_ascii_whitespace,
    is_blank, is_blank_range, push_all,
};

verus! {

/// The operator `BT` stands at `i`, with whitespace or the start of the buffer before it.
pub open spec fn begins_text(c: Seq<u8>, i: int) -> bool {
    &&& 0 <= i
    &&& i + 2 <= c.len()
    &&& c[i] == 0x42
    &&& c[i + 1] == 0x54
    &&& (i == 0 || is_ascii_whitespace(c[i - 1]))
}

/// The operator `ET` stands at `i`, with whitespace or the end of the buffer after it.
pub open spec fn ends_text(c: Seq<u8>, i: int) -> bool {
    &&& 0 <= i
    &&& i + 2 <= c.len()
    &&& c[i] == 0x45
    &&& c[i + 1] == 0x54
    &&& (i + 2 >= c.len() || is_ascii_whitespace(c[i + 2]))
}

/// Where a literal string ends: the index just past the parenthesis that closes
/// it, scanning from `j` with `depth` parentheses open. A backslash hides the
/// byte after it. An unclosed literal ends with the buffer.
pub open spec fn literal_end(c: Seq<u8>, j: int, depth: nat) -> int
    decreases c.len() - j,
{
    if j < 0 || j >= c.len() || depth == 0 {
        j
    } else if c[j] == 0x5C && j + 1 < c.len() {
        literal_end(c, j + 2, depth)
    } else if c[j] == 0x28 {
        literal_end(c, j + 1, depth + 1)
    } else if c[j] == 0x29 {
        literal_end(c, j + 1, (depth - 1) as nat)
    } else {
        literal_end(c, j + 1, depth)
    }
}

/// The text that the bytes `c[from..to]` of a literal stand for: printable ASCII
/// as it is, a line feed or carriage return as a space, any other byte as nothing.
pub open spec fn literal_chars(c: Seq<u8>, from: int, to: int) -> Seq<char>
    decreases to - from,
{
    if from >= to {
        seq![]
    } else {
        let b = c[to - 1];
        let before = literal_chars(c, from, to - 1);
        if 32 <= b <= 126 {
            before.push(b as char)
        } else if b == 0x0A || b == 0x0D {
            before.push(' ')
        } else {
            before
        }
    }
}

/// The scanner from byte `i` on. `inside` says whether a text object is open,
/// `current` is the text gathered in open objects since the last one that was
/// written out, `text` is what was written out so far.
///
/// `BT` opens a text object. `ET` closes it, and writes `current` and a line
/// feed to `text` unless `current` is blank. Inside a text object a `(` starts a
/// literal: its bytes but the last, and then a space, go to `current`. Every
/// other byte is passed over.
pub open spec fn scan_from(
    c: Seq<u8>,
    i: int,
    inside: bool,
    current: Seq<char>,
    text: Seq<char>,
) -> Seq<char>
    decreases c.len() - i,
{
    if i < 0 || i >= c.len() {
        text
    } else if begins_text(c, i) {
        scan_from(c, i + 2, true, current, text)
    } else if inside && ends_text(c, i) {
        if is_blank(current) {
            scan_from(c, i + 2, false, current, text)
        } else {
            scan_from(c, i + 2, false, seq![], text + current + seq!['\n'])
        }
    } else if inside && c[i] == 0x28 {
        let j = literal_end(c, i + 1, 1);
        if j > i + 1 {
            proof {
                lemma_literal_end_bounds(c, i + 1, 1);
            }
            scan_from(c, j, inside, current + literal_chars(c, i + 1, j - 1) + seq![' '], text)
        } else {
            scan_from(c, i + 1, inside, current, text)
        }
    } else {
        scan_from(c, i + 1, inside, current, text)
    }
}

/// The text of a PDF content stream: what the scanner writes out, with every
/// run of whitespace made one space.
pub open spec fn pdf_text(c: Seq<u8>) -> Seq<char> {
    collapse_whitespace(scan_from(c, 0, false, seq![], seq![]))
}

/// `literal_end` stays within the buffer and does not go back.
pub proof fn lemma_literal_end_bounds(c: Seq<u8>, j: int, depth: nat)
    requires
        0 <= j <= c.len(),
    ensures
        j <= literal_end(c, j, depth) <= c.len(),
    decreases c.len() - j,
{
    if j >= c.len() || depth == 0 {
    } else if c[j] == 0x5C && j + 1 < c.len() {
        lemma_literal_end_bounds(c, j + 2, depth);
    } else if c[j] == 0x28 {
        lemma_literal_end_bounds(c, j + 1, depth + 1);
    } else if c[j] == 0x29 {
        lemma_literal_end_bounds(c, j + 1, (depth - 1) as nat);
    } else {
        lemma_literal_end_bounds(c, j + 1, depth);
    }
}

/// The index just past the literal whose first byte is at `start`.
fn find_literal_end(content: &[u8], start: usize) -> (j: usize)
    requires
        1 <= start <= content.len(),
    ensures
        j == literal_end(content@, start as int, 1),
        start <= j <= content.len(),
{
    let n = content.len();
    let mut j: usize = start;
    let mut depth: usize = 1;
    while j < n && depth > 0
        invariant
            n == content.len(),
            1 <= start <= j <= n,
            depth <= 1 + (j - start),
            literal_end(content@, j as int, depth as nat) == literal_end(
                content@,
                start as int,
                1,
            ),
        decreases n - j,
    {
        if content[j] == 0x5C && j + 1 < n {
            j += 2;
        } else {
            if content[j] == 0x28 {
                depth += 1;
            } else if content[j] == 0x29 {
                depth -= 1;
            }
            j += 1;
        }
    }
    j
}

/// Appends to `out` the text of the literal bytes `content[from..to]`.
fn push_literal(out: &mut Vec<char>, content: &[u8], from: usize, to: usize)
    requires
        from <= to <= content.len(),
    ensures
        final(out)@ == old(out)@ + literal_chars(content@, from as int, to as int),
{
    let mut k: usize = from;
    assert(old(out)@ + Seq::<char>::empty() =~= old(out)@);
    while k < to
        invariant
            from <= k <= to <= content.len(),
            out@ == old(out)@ + literal_chars(content@, from as int, k as int),
        decreases to - k,
    {
        let b = content[k];
        if 32 <= b && b <= 126 {
            out.push(b as char);
        } else if b == 0x0A || b == 0x0D {
            out.push(' ');
        }
        k += 1;
        assert(out@ =~= old(out)@ + literal_chars(content@, from as int, k as int));
    }
}

fn is_begin_marker(content: &[u8], i: usize) -> (b: bool)
    requires
        i < content.len(),
    ensures
        b == begins_text(content@, i as int),
{
    i + 1 < content.len() && content[i] == 0x42 && content[i + 1] == 0x54 && (i == 0
        || byte_is_ascii_whitespace(content[i - 1]))
}

fn is_end_marker(content: &[u8], i: usize) -> (b: bool)
    requires
        i < content.len(),
    ensures
        b == ends_text(content@, i as int),
{
    i + 1 < content.len() && content[i] == 0x45 && content[i + 1] == 0x54 && (i + 2
        >= content.len() || byte_is_ascii_whitespace(content[i + 2]))
}

impl DocumentProcessor {
    /// The text of the literal strings in the text objects of `content`.
    pub fn extract_text_from_pdf_bytes(&self, content: &[u8]) -> (r: String)
        ensures
            r@ == pdf_text(content@),
    {
        let n = content.len();
        let mut text: Vec<char> = Vec::new();
        let mut current: Vec<char> = Vec::new();
        let mut inside = false;
        let mut i: usize = 0;
        while i < n
            invariant
                n == content.len(),
                i <= n,
                scan_from(content@, i as int, inside, current@, text@) == scan_from(
                    content@,
                    0,
                    false,
                    seq![],
                    seq![],
                ),
            decreases n - i,
        {
            if is_begin_marker(content, i) {
                inside = true;
                i += 2;
            } else if inside && is_end_marker(content, i) {
                inside = false;
                let blank = is_blank_range(&current, 0, current.len());
                assert(current@.subrange(0, current@.len() as int) =~= current@);
                if !blank {
                    let ghost before = text@;
                    push_all(&mut text, &current);
                    text.push('\n');
                    assert(text@ =~= before + current@ + seq!['\n']);
                    current = Vec::new();
                }
                i += 2;
            } else if inside && content[i] == 0x28 {
                let j = find_literal_end(content, i + 1);
                if j > i + 1 {
                    let ghost before = current@;
                    push_literal(&mut current, content, i + 1, j - 1);
                    current.push(' ');
                    assert(current@ =~= before + literal_chars(content@, i + 1, j - 1) + seq![' ']);
                }
                i = if j > i + 1 { j } else { i + 1 };
            } else {
                i += 1;
            }
        }
        let collapsed = collapse(&text);
        from_chars(&collapsed)
    }
}

} // verus!
