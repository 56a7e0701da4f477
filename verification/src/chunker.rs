//! Splitting text into overlapping chunks.
//!
//! The text is cut into sentences at `.`, `!`, `?` and line feeds. Sentences are
//! gathered, one space between each two, into a chunk until the next one would
//! take it past the target size. The chunk is then closed, and the next chunk
//! starts with the closed chunk's tail, so that neighbours overlap.
//!
//! All sizes are counted in UTF-8 bytes.

use vstd::prelude::*;
use crate::models::DocumentChunk;
use crate::processor::DocumentProcessor;
use crate::text::{
    byte_len, byte_length, byte_length_range, char_width, contains_run, from_chars_range,
    is_blank, is_solid, is_whitespace, lemma_blank_has_no_solid_run, lemma_byte_len_concat,
    lemma_byte_len_push, lemma_run_in_context, lemma_trim_keeps_run, lemma_trim_shape, occurs_at,
    push_range, to_chars, trim, trim_range, utf8_width,
};

verus! {

/// The characters at which a sentence ends.
pub open spec fn is_sentence_break(c: char) -> bool {
    c == '.' || c == '!' || c == '?' || c == '\n'
}

/// First index at or after `i` that holds a sentence break, or the length.
pub open spec fn next_break(s: Seq<char>, i: int) -> int
    decreases s.len() - i,
{
    if 0 <= i < s.len() && !is_sentence_break(s[i]) {
        next_break(s, i + 1)
    } else {
        i
    }
}

/// `next_break` stays within the text and does not go back.
pub proof fn lemma_next_break_bounds(s: Seq<char>, i: int)
    requires
        0 <= i <= s.len(),
    ensures
        i <= next_break(s, i) <= s.len(),
    decreases s.len() - i,
{
    if i < s.len() && !is_sentence_break(s[i]) {
        lemma_next_break_bounds(s, i + 1);
    }
}

/// The sentences of `s` from index `i` on: the pieces between sentence breaks,
/// trimmed, without those that are empty after trimming.
pub open spec fn sentences_from(s: Seq<char>, i: int) -> Seq<Seq<char>>
    decreases s.len() - i,
{
    if i < 0 || i > s.len() {
        seq![]
    } else {
        let e = next_break(s, i);
        proof {
            lemma_next_break_bounds(s, i);
        }
        let piece = trim(s.subrange(i, e));
        let rest = if e < s.len() {
            sentences_from(s, e + 1)
        } else {
            seq![]
        };
        if piece.len() > 0 {
            seq![piece] + rest
        } else {
            rest
        }
    }
}

/// The sentences of `s`.
pub open spec fn sentences(s: Seq<char>) -> Seq<Seq<char>> {
    sentences_from(s, 0)
}

/// Where the longest tail of `s` that fits in `budget` bytes starts.
pub open spec fn tail_start(s: Seq<char>, budget: nat) -> int
    decreases s.len(),
{
    if s.len() == 0 {
        0
    } else if utf8_width(s.last()) <= budget {
        tail_start(s.drop_last(), (budget - utf8_width(s.last())) as nat)
    } else {
        s.len() as int
    }
}

/// Index of the first `". "` in `t` at or after `i`, or the length of `t` if there is none.
pub open spec fn first_sentence_gap(t: Seq<char>, i: int) -> int
    decreases t.len() - i,
{
    if i < 0 || i + 1 >= t.len() {
        t.len() as int
    } else if t[i] == '.' && t[i + 1] == ' ' {
        i
    } else {
        first_sentence_gap(t, i + 1)
    }
}

/// Index of the last space in `t`, or -1 if there is none.
pub open spec fn last_space(t: Seq<char>) -> int
    decreases t.len(),
{
    if t.len() == 0 {
        -1
    } else if t.last() == ' ' {
        t.len() - 1
    } else {
        last_space(t.drop_last())
    }
}

/// Where in `s` the text starts that the next chunk takes over from a closed
/// chunk `s`, with `overlap` bytes allowed.
///
/// A chunk of at most `overlap` bytes is taken whole. Of a longer one the tail
/// of `overlap` bytes is looked at (where that would cut a character in two,
/// the tail starts after that character). The overlap starts after the first
/// `". "` of the tail; without one, after the tail's last space; without a
/// space, it is the tail.
pub open spec fn overlap_start(s: Seq<char>, overlap: nat) -> int {
    if byte_len(s) <= overlap {
        0
    } else {
        let start = tail_start(s, overlap);
        let tail = s.subrange(start, s.len() as int);
        let gap = first_sentence_gap(tail, 0);
        if gap < tail.len() {
            start + gap + 2
        } else if last_space(tail) >= 0 {
            start + last_space(tail) + 1
        } else {
            start
        }
    }
}

/// The text that the next chunk takes over from a closed chunk `s`.
pub open spec fn overlap_text(s: Seq<char>, overlap: nat) -> Seq<char> {
    s.subrange(overlap_start(s, overlap), s.len() as int)
}

/// A chunk as the chunker models it: its text and the size counted for it.
pub struct ChunkSpec {
    pub text: Seq<char>,
    pub size: nat,
}

/// The chunker between two sentences: the chunks closed so far, the text of
/// the open chunk and the size counted for it.
pub struct ChunkerState {
    pub closed: Seq<ChunkSpec>,
    pub current: Seq<char>,
    pub size: nat,
}

/// The chunker takes one sentence.
///
/// If the open chunk is not empty and the sentence would take its size past
/// `chunk_size`, the open chunk is closed, trimmed and with the size counted so
/// far, and the next one starts with the overlap, a space and the sentence; its
/// size is its length in bytes. Otherwise the sentence joins the open chunk,
/// after a space if the chunk is not empty, and the size grows by the
/// sentence's bytes and one.
pub open spec fn chunk_step(
    st: ChunkerState,
    sentence: Seq<char>,
    chunk_size: nat,
    overlap: nat,
) -> ChunkerState {
    if st.size + byte_len(sentence) > chunk_size && st.current.len() > 0 {
        let next = overlap_text(st.current, overlap) + seq![' '] + sentence;
        ChunkerState {
            closed: st.closed.push(ChunkSpec { text: trim(st.current), size: st.size }),
            current: next,
            size: byte_len(next),
        }
    } else {
        let next = if st.current.len() > 0 {
            st.current + seq![' '] + sentence
        } else {
            sentence
        };
        ChunkerState { closed: st.closed, current: next, size: st.size + byte_len(sentence) + 1 }
    }
}

/// The chunker after all of `sentences`, from the empty state.
pub open spec fn chunk_fold(
    sentences: Seq<Seq<char>>,
    chunk_size: nat,
    overlap: nat,
) -> ChunkerState
    decreases sentences.len(),
{
    if sentences.len() == 0 {
        ChunkerState { closed: seq![], current: seq![], size: 0 }
    } else {
        chunk_step(
            chunk_fold(sentences.drop_last(), chunk_size, overlap),
            sentences.last(),
            chunk_size,
            overlap,
        )
    }
}

/// The closed chunks and, if it is not blank, the open one.
pub open spec fn finish(st: ChunkerState) -> Seq<ChunkSpec> {
    if trim(st.current).len() > 0 {
        st.closed.push(ChunkSpec { text: trim(st.current), size: st.size })
    } else {
        st.closed
    }
}

/// The chunks of `text`.
pub open spec fn chunks_of(text: Seq<char>, chunk_size: nat, overlap: nat) -> Seq<ChunkSpec> {
    finish(chunk_fold(sentences(text), chunk_size, overlap))
}

/// `n`, or the largest `usize` if `n` is larger.
pub open spec fn clip(n: nat) -> nat {
    if n > usize::MAX {
        usize::MAX as nat
    } else {
        n
    }
}

/// `chunks` are the chunks `specs`, numbered from 0.
pub open spec fn chunks_match(chunks: Seq<DocumentChunk>, specs: Seq<ChunkSpec>) -> bool {
    &&& chunks.len() == specs.len()
    &&& forall|k: int|
        0 <= k < chunks.len() ==> {
            &&& (#[trigger] chunks[k]).text@ == specs[k].text
            &&& chunks[k].size == clip(specs[k].size)
            &&& chunks[k].chunk_id == k
        }
}

/// Some chunk of `chunks` holds `sentence` as a run of its text.
pub open spec fn covered(chunks: Seq<ChunkSpec>, sentence: Seq<char>) -> bool {
    exists|k: int| 0 <= k < chunks.len() && contains_run(#[trigger] chunks[k].text, sentence)
}

/// Every sentence is solid: not empty, and without whitespace at its ends.
pub proof fn lemma_sentences_solid(s: Seq<char>, i: int)
    ensures
        forall|j: int|
            0 <= j < sentences_from(s, i).len() ==> is_solid(#[trigger] sentences_from(s, i)[j]),
    decreases s.len() - i,
{
    if 0 <= i <= s.len() {
        let e = next_break(s, i);
        lemma_next_break_bounds(s, i);
        let piece = trim(s.subrange(i, e));
        lemma_trim_shape(s.subrange(i, e));
        let rest = if e < s.len() {
            sentences_from(s, e + 1)
        } else {
            seq![]
        };
        if e < s.len() {
            lemma_sentences_solid(s, e + 1);
        }
        assert forall|j: int| 0 <= j < sentences_from(s, i).len() implies is_solid(
            #[trigger] sentences_from(s, i)[j],
        ) by {
            if piece.len() > 0 {
                if j > 0 {
                    assert(sentences_from(s, i)[j] == rest[j - 1]);
                }
            }
        }
    }
}

/// Each of `done` is a run of a closed chunk or of the open one.
pub open spec fn all_kept(done: Seq<Seq<char>>, st: ChunkerState) -> bool {
    forall|j: int|
        0 <= j < done.len() ==> covered(st.closed, #[trigger] done[j]) || contains_run(
            st.current,
            done[j],
        )
}

/// No chunk of `chunks` is empty, and none starts or ends with whitespace.
pub open spec fn all_solid(chunks: Seq<ChunkSpec>) -> bool {
    forall|k: int| 0 <= k < chunks.len() ==> is_solid(#[trigger] chunks[k].text)
}

/// What holds of the chunker after sentences that are all solid: each of them
/// is a run of a closed chunk or of the open one, no closed chunk is empty, and
/// the open chunk is empty or not blank.
pub open spec fn chunker_keeps(done: Seq<Seq<char>>, st: ChunkerState) -> bool {
    &&& all_kept(done, st)
    &&& all_solid(st.closed)
    &&& st.current.len() > 0 ==> !is_blank(st.current)
}

proof fn lemma_covered_grows(chunks: Seq<ChunkSpec>, more: ChunkSpec, sentence: Seq<char>)
    requires
        covered(chunks, sentence),
    ensures
        covered(chunks.push(more), sentence),
{
    let k = choose|k: int| 0 <= k < chunks.len() && contains_run(#[trigger] chunks[k].text, sentence);
    assert(chunks.push(more)[k] == chunks[k]);
}

proof fn lemma_covered_by_last(chunks: Seq<ChunkSpec>, more: ChunkSpec, sentence: Seq<char>)
    requires
        contains_run(more.text, sentence),
    ensures
        covered(chunks.push(more), sentence),
{
    assert(chunks.push(more)[chunks.len() as int] == more);
}

proof fn lemma_run_at_end(head: Seq<char>, x: Seq<char>)
    ensures
        contains_run(head + x, x),
{
    assert((head + x).subrange(head.len() as int, (head.len() + x.len()) as int) =~= x);
    assert(occurs_at(head + x, x, head.len() as int));
}

proof fn lemma_not_blank_with_solid(head: Seq<char>, x: Seq<char>)
    requires
        is_solid(x),
    ensures
        !is_blank(head + x),
{
    assert((head + x)[head.len() as int] == x[0]);
}

/// Closing the open chunk keeps what was kept.
proof fn lemma_close_keeps(
    done: Seq<Seq<char>>,
    st: ChunkerState,
    closing: ChunkSpec,
    next: Seq<char>,
    size: nat,
)
    requires
        all_kept(done, st),
        all_solid(st.closed),
        closing.text == trim(st.current),
        !is_blank(st.current),
        forall|j: int| 0 <= j < done.len() ==> is_solid(#[trigger] done[j]),
    ensures
        all_kept(done, ChunkerState { closed: st.closed.push(closing), current: next, size }),
        all_solid(st.closed.push(closing)),
{
    let after = ChunkerState { closed: st.closed.push(closing), current: next, size };
    lemma_trim_shape(st.current);
    assert forall|j: int| 0 <= j < done.len() implies covered(after.closed, #[trigger] done[j])
        || contains_run(after.current, done[j]) by {
        if covered(st.closed, done[j]) {
            lemma_covered_grows(st.closed, closing, done[j]);
        } else {
            lemma_trim_keeps_run(st.current, done[j]);
            lemma_covered_by_last(st.closed, closing, done[j]);
        }
    }
    assert forall|k: int| 0 <= k < after.closed.len() implies is_solid(
        #[trigger] after.closed[k].text,
    ) by {
        if k < st.closed.len() {
            assert(after.closed[k] == st.closed[k]);
        }
    }
}

/// Text added after the open chunk keeps what was kept.
proof fn lemma_append_keeps(done: Seq<Seq<char>>, st: ChunkerState, more: Seq<char>, size: nat)
    requires
        all_kept(done, st),
    ensures
        all_kept(done, ChunkerState { closed: st.closed, current: st.current + more, size }),
{
    let after = ChunkerState { closed: st.closed, current: st.current + more, size };
    assert forall|j: int| 0 <= j < done.len() implies covered(after.closed, #[trigger] done[j])
        || contains_run(after.current, done[j]) by {
        if !covered(st.closed, done[j]) {
            lemma_run_in_context(seq![], st.current, more, done[j]);
            assert(Seq::<char>::empty() + st.current + more =~= st.current + more);
        }
    }
}

/// One more sentence that is kept.
proof fn lemma_one_more_kept(done: Seq<Seq<char>>, st: ChunkerState, sentence: Seq<char>)
    requires
        all_kept(done, st),
        contains_run(st.current, sentence),
    ensures
        all_kept(done.push(sentence), st),
{
    let all = done.push(sentence);
    assert forall|j: int| 0 <= j < all.len() implies covered(st.closed, #[trigger] all[j])
        || contains_run(st.current, all[j]) by {
        if j < done.len() {
            assert(all[j] == done[j]);
        }
    }
}

proof fn lemma_chunk_step_keeps(
    done: Seq<Seq<char>>,
    st: ChunkerState,
    sentence: Seq<char>,
    chunk_size: nat,
    overlap: nat,
)
    requires
        chunker_keeps(done, st),
        is_solid(sentence),
        forall|j: int| 0 <= j < done.len() ==> is_solid(#[trigger] done[j]),
    ensures
        chunker_keeps(done.push(sentence), chunk_step(st, sentence, chunk_size, overlap)),
{
    let after = chunk_step(st, sentence, chunk_size, overlap);
    if st.size + byte_len(sentence) > chunk_size && st.current.len() > 0 {
        let closing = ChunkSpec { text: trim(st.current), size: st.size };
        let head = overlap_text(st.current, overlap) + seq![' '];
        assert(after.current == head + sentence);
        lemma_run_at_end(head, sentence);
        lemma_not_blank_with_solid(head, sentence);
        lemma_close_keeps(done, st, closing, after.current, after.size);
        lemma_one_more_kept(done, after, sentence);
    } else {
        let more = if st.current.len() > 0 {
            seq![' '] + sentence
        } else {
            sentence
        };
        assert(after.current =~= st.current + more);
        lemma_append_keeps(done, st, more, after.size);
        if st.current.len() > 0 {
            lemma_run_at_end(st.current + seq![' '], sentence);
            lemma_not_blank_with_solid(st.current + seq![' '], sentence);
            assert(st.current + seq![' '] + sentence =~= st.current + more);
        } else {
            lemma_run_at_end(seq![], sentence);
            lemma_not_blank_with_solid(seq![], sentence);
            assert(Seq::<char>::empty() + sentence =~= sentence);
        }
        lemma_one_more_kept(done, after, sentence);
    }
}

proof fn lemma_chunk_fold_keeps(sentences: Seq<Seq<char>>, chunk_size: nat, overlap: nat)
    requires
        forall|j: int| 0 <= j < sentences.len() ==> is_solid(#[trigger] sentences[j]),
    ensures
        chunker_keeps(sentences, chunk_fold(sentences, chunk_size, overlap)),
    decreases sentences.len(),
{
    if sentences.len() > 0 {
        let before = sentences.drop_last();
        assert forall|j: int| 0 <= j < before.len() implies is_solid(#[trigger] before[j]) by {
            assert(before[j] == sentences[j]);
        }
        lemma_chunk_fold_keeps(before, chunk_size, overlap);
        lemma_chunk_step_keeps(
            before,
            chunk_fold(before, chunk_size, overlap),
            sentences.last(),
            chunk_size,
            overlap,
        );
        assert(before.push(sentences.last()) =~= sentences);
    }
}

/// Nothing but whitespace and sentence breaks is lost: every sentence of the
/// text stands, character for character, in the text of some chunk.
pub proof fn lemma_chunks_cover_sentences(text: Seq<char>, chunk_size: nat, overlap: nat)
    ensures
        forall|j: int|
            0 <= j < sentences(text).len() ==> covered(
                chunks_of(text, chunk_size, overlap),
                #[trigger] sentences(text)[j],
            ),
{
    let all = sentences(text);
    lemma_sentences_solid(text, 0);
    lemma_chunk_fold_keeps(all, chunk_size, overlap);
    let st = chunk_fold(all, chunk_size, overlap);
    let chunks = chunks_of(text, chunk_size, overlap);
    lemma_trim_shape(st.current);
    assert forall|j: int| 0 <= j < all.len() implies covered(chunks, #[trigger] all[j]) by {
        if covered(st.closed, all[j]) {
            if trim(st.current).len() > 0 {
                lemma_covered_grows(
                    st.closed,
                    ChunkSpec { text: trim(st.current), size: st.size },
                    all[j],
                );
            }
        } else {
            if trim(st.current).len() > 0 {
                lemma_trim_keeps_run(st.current, all[j]);
                assert(chunks[st.closed.len() as int].text == trim(st.current));
            } else {
                lemma_blank_has_no_solid_run(st.current, all[j]);
            }
        }
    }
}

/// The open chunk becomes a chunk at the end unless it is empty.
pub proof fn lemma_open_chunk_is_kept(text: Seq<char>, chunk_size: nat, overlap: nat)
    ensures
        ({
            let st = chunk_fold(sentences(text), chunk_size, overlap);
            trim(st.current).len() > 0 <==> st.current.len() > 0
        }),
{
    lemma_sentences_solid(text, 0);
    lemma_chunk_fold_keeps(sentences(text), chunk_size, overlap);
    let st = chunk_fold(sentences(text), chunk_size, overlap);
    lemma_trim_shape(st.current);
}

/// No chunk is empty, and none starts or ends with whitespace.
pub proof fn lemma_chunks_are_solid(text: Seq<char>, chunk_size: nat, overlap: nat)
    ensures
        forall|k: int|
            0 <= k < chunks_of(text, chunk_size, overlap).len() ==> is_solid(
                #[trigger] chunks_of(text, chunk_size, overlap)[k].text,
            ),
{
    let all = sentences(text);
    lemma_sentences_solid(text, 0);
    lemma_chunk_fold_keeps(all, chunk_size, overlap);
    let st = chunk_fold(all, chunk_size, overlap);
    let chunks = chunks_of(text, chunk_size, overlap);
    lemma_trim_shape(st.current);
    assert forall|k: int| 0 <= k < chunks.len() implies is_solid(#[trigger] chunks[k].text) by {
        if k < st.closed.len() {
            assert(chunks[k] == st.closed[k]);
        }
    }
}

/// A text that is blank has no sentences.
pub proof fn lemma_blank_has_no_sentences(s: Seq<char>, i: int)
    requires
        is_blank(s),
    ensures
        sentences_from(s, i).len() == 0,
    decreases s.len() - i,
{
    if 0 <= i <= s.len() {
        let e = next_break(s, i);
        lemma_next_break_bounds(s, i);
        let piece = s.subrange(i, e);
        assert forall|k: int| 0 <= k < piece.len() implies is_whitespace(#[trigger] piece[k]) by {
            assert(piece[k] == s[i + k]);
        }
        lemma_trim_shape(piece);
        if e < s.len() {
            lemma_blank_has_no_sentences(s, e + 1);
        }
    }
}

/// A text that is empty or blank gives no chunk.
pub proof fn lemma_blank_text_has_no_chunks(text: Seq<char>, chunk_size: nat, overlap: nat)
    requires
        is_blank(text),
    ensures
        chunks_of(text, chunk_size, overlap).len() == 0,
{
    lemma_blank_has_no_sentences(text, 0);
    assert(sentences(text) =~= seq![]);
    assert(trim(Seq::<char>::empty()) =~= Seq::<char>::empty()) by {
        lemma_trim_shape(Seq::<char>::empty());
    }
}

fn char_is_sentence_break(c: char) -> (b: bool)
    ensures
        b == is_sentence_break(c),
{
    c == '.' || c == '!' || c == '?' || c == '\n'
}

fn clip_size(n: u128) -> (r: usize)
    ensures
        r == clip(n as nat),
{
    if n > usize::MAX as u128 {
        usize::MAX
    } else {
        n as usize
    }
}

/// Where in `v` the overlap for the next chunk starts.
fn find_overlap_start(v: &Vec<char>, overlap: usize) -> (start: usize)
    ensures
        start == overlap_start(v@, overlap as nat),
        start <= v.len(),
{
    let n = v.len();
    let total = byte_length(v);
    if total <= overlap as u128 {
        return 0;
    }
    let mut k: usize = n;
    let mut budget: u128 = overlap as u128;
    assert(v@.subrange(0, n as int) =~= v@);
    while k > 0 && char_width(v[k - 1]) <= budget
        invariant
            k <= n,
            n == v.len(),
            budget <= overlap,
            tail_start(v@.subrange(0, k as int), budget as nat) == tail_start(
                v@,
                overlap as nat,
            ),
        decreases k,
    {
        proof {
            let cur = v@.subrange(0, k as int);
            assert(cur.last() == v@[k - 1]);
            assert(cur.drop_last() =~= v@.subrange(0, k - 1));
        }
        budget = budget - char_width(v[k - 1]);
        k -= 1;
    }
    proof {
        let cur = v@.subrange(0, k as int);
        if k > 0 {
            assert(cur.last() == v@[k - 1]);
        }
    }
    let ts = k;
    let ghost tail = v@.subrange(ts as int, n as int);
    let mut p: usize = ts;
    while n - p > 1
        invariant
            ts <= p <= n,
            n == v.len(),
            byte_len(v@) > overlap,
            ts == tail_start(v@, overlap as nat),
            tail == v@.subrange(ts as int, n as int),
            first_sentence_gap(tail, p - ts) == first_sentence_gap(tail, 0),
        decreases n - p,
    {
        assert(tail[p - ts] == v@[p as int] && tail[p - ts + 1] == v@[p + 1]);
        if v[p] == '.' && v[p + 1] == ' ' {
            return p + 2;
        }
        p += 1;
    }
    let mut q: usize = n;
    assert(tail.subrange(0, tail.len() as int) =~= tail);
    while q > ts
        invariant
            ts <= q <= n,
            n == v.len(),
            byte_len(v@) > overlap,
            ts == tail_start(v@, overlap as nat),
            tail == v@.subrange(ts as int, n as int),
            first_sentence_gap(tail, 0) == tail.len(),
            last_space(tail.subrange(0, q - ts)) == last_space(tail),
        decreases q,
    {
        proof {
            let cur = tail.subrange(0, q - ts);
            assert(cur.last() == v@[q - 1]);
            assert(cur.drop_last() =~= tail.subrange(0, q - ts - 1));
        }
        if v[q - 1] == ' ' {
            return q;
        }
        q -= 1;
    }
    ts
}

impl DocumentProcessor {
    /// The text that the chunk after `text` starts with.
    pub fn get_overlap_text(&self, text: &str) -> (r: String)
        ensures
            r@ == overlap_text(text@, self.chunk_overlap as nat),
    {
        let v = to_chars(text);
        let start = find_overlap_start(&v, self.chunk_overlap);
        from_chars_range(&v, start, v.len())
    }

    /// Closes the open chunk: appends it, trimmed, to `chunks`.
    fn close_chunk(chunks: &mut Vec<DocumentChunk>, current: &Vec<char>, size: u128)
        ensures
            final(chunks)@ == old(chunks)@.push(final(chunks)@.last()),
            final(chunks)@.last().text@ == trim(current@),
            final(chunks)@.last().size == clip(size as nat),
            final(chunks)@.last().chunk_id == old(chunks)@.len(),
    {
        let (ta, tb) = trim_range(current, 0, current.len());
        assert(current@.subrange(0, current@.len() as int) =~= current@);
        let closed = DocumentChunk {
            text: from_chars_range(current, ta, tb),
            size: clip_size(size),
            chunk_id: chunks.len(),
        };
        chunks.push(closed);
    }

    /// The chunker takes the sentence `v[a..b]`.
    fn take_sentence(
        &self,
        chunks: &mut Vec<DocumentChunk>,
        current: &mut Vec<char>,
        size: &mut u128,
        v: &Vec<char>,
        a: usize,
        b: usize,
        Ghost(closed): Ghost<Seq<ChunkSpec>>,
    )
        requires
            a < b <= v.len(),
            chunks_match(old(chunks)@, closed),
            *old(size) <= 5 * usize::MAX,
            byte_len(old(current)@) <= 5 * usize::MAX,
        ensures
            ({
                let before = ChunkerState {
                    closed: closed,
                    current: old(current)@,
                    size: *old(size) as nat,
                };
                let after = chunk_step(
                    before,
                    v@.subrange(a as int, b as int),
                    self.chunk_size as nat,
                    self.chunk_overlap as nat,
                );
                &&& chunks_match(final(chunks)@, after.closed)
                &&& final(current)@ == after.current
                &&& *final(size) == after.size
            }),
            *final(size) <= *old(size) + 4 * (b - a) + 1 || *final(size) <= byte_len(
                old(current)@,
            ) + 4 * (b - a) + 1,
            byte_len(final(current)@) <= byte_len(old(current)@) + 4 * (b - a) + 1,
    {
        let ghost sentence = v@.subrange(a as int, b as int);
        let ghost before = current@;
        let ss = byte_length_range(v, a, b);
        if *size + ss > self.chunk_size as u128 && current.len() > 0 {
            Self::close_chunk(chunks, current, *size);
            let os = find_overlap_start(current, self.chunk_overlap);
            let mut next: Vec<char> = Vec::new();
            push_range(&mut next, current, os, current.len());
            next.push(' ');
            push_range(&mut next, v, a, b);
            proof {
                let kept = overlap_text(before, self.chunk_overlap as nat);
                assert(next@ =~= kept + seq![' '] + sentence);
                lemma_byte_len_concat(kept + seq![' '], sentence);
                lemma_byte_len_push(kept, ' ');
                assert(kept + seq![' '] =~= kept.push(' '));
                assert(before =~= before.subrange(0, os as int) + kept);
                lemma_byte_len_concat(before.subrange(0, os as int), kept);
            }
            *current = next;
            *size = byte_length(current);
        } else {
            if current.len() > 0 {
                current.push(' ');
            }
            push_range(current, v, a, b);
            proof {
                if before.len() > 0 {
                    assert(current@ =~= before + seq![' '] + sentence);
                    lemma_byte_len_concat(before + seq![' '], sentence);
                    lemma_byte_len_push(before, ' ');
                    assert(before + seq![' '] =~= before.push(' '));
                } else {
                    assert(current@ =~= sentence);
                    assert(byte_len(before) == 0);
                }
            }
            *size = *size + ss + 1;
        }
    }

    /// The chunks of `text`, in order and numbered from 0. A size that no
    /// `usize` holds is recorded as the largest `usize`.
    pub fn create_chunks(&self, text: &str) -> (chunks: Vec<DocumentChunk>)
        ensures
            chunks_match(
                chunks@,
                chunks_of(text@, self.chunk_size as nat, self.chunk_overlap as nat),
            ),
            is_blank(text@) ==> chunks@.len() == 0,
            forall|k: int| 0 <= k < chunks@.len() ==> is_solid((#[trigger] chunks@[k]).text@),
    {
        proof {
            if is_blank(text@) {
                lemma_blank_text_has_no_chunks(
                    text@,
                    self.chunk_size as nat,
                    self.chunk_overlap as nat,
                );
            }
            lemma_chunks_are_solid(text@, self.chunk_size as nat, self.chunk_overlap as nat);
        }
        let v = to_chars(text);
        let n = v.len();
        let mut chunks: Vec<DocumentChunk> = Vec::new();
        let mut current: Vec<char> = Vec::new();
        let mut size: u128 = 0;
        let mut i: usize = 0;
        let mut more = true;
        let ghost mut done: Seq<Seq<char>> = seq![];
        let ghost cs = self.chunk_size as nat;
        let ghost ov = self.chunk_overlap as nat;
        while more
            invariant
                n == v.len(),
                v@ == text@,
                i <= n,
                cs == self.chunk_size as nat,
                ov == self.chunk_overlap as nat,
                more ==> sentences(v@) == done + sentences_from(v@, i as int),
                !more ==> sentences(v@) == done,
                chunks_match(chunks@, chunk_fold(done, cs, ov).closed),
                current@ == chunk_fold(done, cs, ov).current,
                size == chunk_fold(done, cs, ov).size,
                size <= 5 * i + (if more { 0int } else { 5 }),
                byte_len(current@) <= 5 * i + (if more { 0int } else { 5 }),
            decreases (if more { 1int } else { 0 }), n - i,
        {
            let mut e: usize = i;
            while e < n && !char_is_sentence_break(v[e])
                invariant
                    i <= e <= n,
                    n == v.len(),
                    next_break(v@, e as int) == next_break(v@, i as int),
                decreases n - e,
            {
                e += 1;
            }
            let (a, b) = trim_range(&v, i, e);
            if a < b {
                let ghost sentence = v@.subrange(a as int, b as int);
                self.take_sentence(
                    &mut chunks,
                    &mut current,
                    &mut size,
                    &v,
                    a,
                    b,
                    Ghost(chunk_fold(done, cs, ov).closed),
                );
                proof {
                    assert(done.push(sentence).drop_last() =~= done);
                    if e < n {
                        assert(done + (seq![sentence] + sentences_from(v@, e + 1))
                            =~= done.push(sentence) + sentences_from(v@, e + 1));
                    } else {
                        assert(done + (seq![sentence] + Seq::<Seq<char>>::empty())
                            =~= done.push(sentence));
                    }
                    done = done.push(sentence);
                }
            } else {
                proof {
                    if e >= n {
                        assert(done + Seq::<Seq<char>>::empty() =~= done);
                    }
                }
            }
            if e < n {
                i = e + 1;
            } else {
                i = e;
                more = false;
            }
        }
        let (ta, tb) = trim_range(&current, 0, current.len());
        assert(current@.subrange(0, current@.len() as int) =~= current@);
        if ta < tb {
            Self::close_chunk(&mut chunks, &current, size);
        }
        chunks
    }
}

} // verus!
