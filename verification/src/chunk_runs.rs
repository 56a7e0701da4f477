//! How the chunks are made of the sentences: each chunk is a run of
//! consecutive sentences, and each chunk but the first starts with a seed that
//! is taken from the end of the chunk before it.

use vstd::prelude::*;
use crate::chunker::{
    chunk_fold, chunks_of, first_sentence_gap, last_space, lemma_open_chunk_is_kept,
    lemma_sentences_solid, overlap_start, overlap_text, sentences, tail_start, ChunkerState,
};
use crate::text::{
    byte_len, is_solid, is_whitespace, join, lemma_byte_len_concat, lemma_join_ends,
    lemma_join_push, lemma_trim_solid, lemma_trim_start_of_suffix, trim, trim_start, utf8_width,
};

verus! {

/// Where the chunks begin among the sentences, and what each was seeded with.
pub struct Cut {
    /// For each chunk the index of its first sentence.
    pub starts: Seq<int>,
    /// For each chunk the text taken over from the chunk before it; empty
    /// for the first chunk.
    pub seeds: Seq<Seq<char>>,
}

/// The cut that the chunker makes of `sentences`: a chunk begins with the
/// first sentence, and with each sentence that closes the chunk before it.
pub open spec fn cut_of(sentences: Seq<Seq<char>>, chunk_size: nat, overlap: nat) -> Cut
    decreases sentences.len(),
{
    if sentences.len() == 0 {
        Cut { starts: seq![], seeds: seq![] }
    } else {
        let before = sentences.drop_last();
        let st = chunk_fold(before, chunk_size, overlap);
        let cut = cut_of(before, chunk_size, overlap);
        if st.size + byte_len(sentences.last()) > chunk_size && st.current.len() > 0 {
            Cut {
                starts: cut.starts.push(before.len() as int),
                seeds: cut.seeds.push(overlap_text(st.current, overlap)),
            }
        } else if before.len() == 0 {
            Cut { starts: seq![0int], seeds: seq![seq![]] }
        } else {
            cut
        }
    }
}

/// The index after the last sentence of chunk `i`, among `total` sentences.
pub open spec fn run_end(cut: Cut, i: int, total: int) -> int {
    if i + 1 < cut.starts.len() {
        cut.starts[i + 1]
    } else {
        total
    }
}

/// The sentences of chunk `i`, one space between each two.
pub open spec fn run_text(sentences: Seq<Seq<char>>, cut: Cut, i: int) -> Seq<char> {
    join(sentences.subrange(cut.starts[i], run_end(cut, i, sentences.len() as int)), seq![' '])
}

/// Chunk `i` as it is built: its sentences; after its seed and a space, if
/// it is not the first.
pub open spec fn built(sentences: Seq<Seq<char>>, cut: Cut, i: int) -> Seq<char> {
    if i == 0 {
        run_text(sentences, cut, i)
    } else {
        cut.seeds[i] + seq![' '] + run_text(sentences, cut, i)
    }
}

/// The cut is one of `total` sentences into runs that are not empty: the
/// first run begins with the first sentence, and each run begins after the
/// one before it has begun.
pub open spec fn is_cut(cut: Cut, total: int) -> bool {
    &&& cut.seeds.len() == cut.starts.len()
    &&& total > 0 ==> cut.starts.len() > 0 && cut.starts[0] == 0
    &&& total == 0 ==> cut.starts.len() == 0
    &&& forall|i: int| 0 <= i < cut.starts.len() ==> 0 <= #[trigger] cut.starts[i] < total
    &&& forall|i: int|
        0 <= i && i + 1 < cut.starts.len() ==> #[trigger] cut.starts[i] < cut.starts[i + 1]
}

/// Each seed is at most `overlap` bytes long and stands at the end of the
/// chunk before it, as that chunk was built.
pub open spec fn seeds_fit(sentences: Seq<Seq<char>>, cut: Cut, overlap: nat) -> bool {
    forall|i: int|
        1 <= i < cut.starts.len() ==> byte_len(#[trigger] cut.seeds[i]) <= overlap
            && cut.seeds[i].is_suffix_of(built(sentences, cut, i - 1))
}

/// The chunker after `sentences` holds what the cut says: the open chunk is
/// the last chunk as it is built, and each closed chunk is a chunk as it is
/// built, trimmed.
pub open spec fn follows_cut(sentences: Seq<Seq<char>>, st: ChunkerState, cut: Cut) -> bool {
    &&& cut.starts.len() == st.closed.len() + if sentences.len() > 0 {
        1int
    } else {
        0
    }
    &&& sentences.len() > 0 ==> st.current == built(sentences, cut, cut.starts.len() - 1)
        && st.current.len() > 0
    &&& sentences.len() == 0 ==> st.current.len() == 0
    &&& forall|i: int|
        0 <= i < st.closed.len() ==> (#[trigger] st.closed[i]).text == trim(
            built(sentences, cut, i),
        )
}

/// The longest tail that fits in `budget` bytes starts within the text and
/// fits.
pub proof fn lemma_tail_fits(s: Seq<char>, budget: nat)
    ensures
        0 <= tail_start(s, budget) <= s.len(),
        byte_len(s.subrange(tail_start(s, budget), s.len() as int)) <= budget,
    decreases s.len(),
{
    if s.len() == 0 {
        assert(s.subrange(0, 0) =~= s);
    } else if utf8_width(s.last()) <= budget {
        let rest = (budget - utf8_width(s.last())) as nat;
        lemma_tail_fits(s.drop_last(), rest);
        let at = tail_start(s.drop_last(), rest);
        let inner = s.drop_last().subrange(at, s.len() - 1);
        assert(s.subrange(at, s.len() as int) =~= inner.push(s.last()));
        assert(inner.push(s.last()).drop_last() =~= inner);
    } else {
        assert(s.subrange(s.len() as int, s.len() as int) =~= Seq::<char>::empty());
    }
}

/// The first `". "` at or after `i`, if there is one, stands within the text.
pub proof fn lemma_gap_bounds(t: Seq<char>, i: int)
    requires
        0 <= i,
    ensures
        first_sentence_gap(t, i) == t.len() || (i <= first_sentence_gap(t, i)
            && first_sentence_gap(t, i) + 2 <= t.len()),
    decreases t.len() - i,
{
    if i + 1 < t.len() && !(t[i] == '.' && t[i + 1] == ' ') {
        lemma_gap_bounds(t, i + 1);
    }
}

/// The last space, if there is one, stands within the text.
pub proof fn lemma_last_space_bounds(t: Seq<char>)
    ensures
        -1 <= last_space(t) < t.len(),
    decreases t.len(),
{
    if t.len() > 0 && t.last() != ' ' {
        lemma_last_space_bounds(t.drop_last());
    }
}

/// The text that a chunk hands on is at most `overlap` bytes long and stands
/// at the chunk's end.
pub proof fn lemma_overlap_fits(s: Seq<char>, overlap: nat)
    ensures
        0 <= overlap_start(s, overlap) <= s.len(),
        byte_len(overlap_text(s, overlap)) <= overlap,
        overlap_text(s, overlap).is_suffix_of(s),
{
    let n = s.len() as int;
    if byte_len(s) <= overlap {
        assert(s.subrange(0, n) =~= s);
    } else {
        lemma_tail_fits(s, overlap);
        let start = tail_start(s, overlap);
        let tail = s.subrange(start, n);
        lemma_gap_bounds(tail, 0);
        lemma_last_space_bounds(tail);
        let at = overlap_start(s, overlap);
        assert(start <= at <= n);
        let kept = s.subrange(at, n);
        assert(tail =~= s.subrange(start, at) + kept);
        lemma_byte_len_concat(s.subrange(start, at), kept);
    }
    let kept = overlap_text(s, overlap);
    assert(kept =~= s.subrange(s.len() - kept.len(), s.len() as int));
}

/// A chunk that was begun before the last sentence came is built of the
/// sentences before it alone.
proof fn lemma_built_before(
    before: Seq<Seq<char>>,
    last: Seq<char>,
    old: Cut,
    new: Cut,
    i: int,
)
    requires
        is_cut(old, before.len() as int),
        0 <= i < old.starts.len(),
        new.starts.len() >= old.starts.len(),
        new.seeds.len() == new.starts.len(),
        forall|k: int| 0 <= k < old.starts.len() ==> new.starts[k] == old.starts[k],
        forall|k: int| 0 <= k < old.starts.len() ==> new.seeds[k] == old.seeds[k],
        run_end(new, i, (before.len() + 1) as int) == run_end(old, i, before.len() as int),
    ensures
        built(before.push(last), new, i) == built(before, old, i),
{
    let all = before.push(last);
    let from = old.starts[i];
    let to = run_end(old, i, before.len() as int);
    assert(new.starts[i] == from);
    assert(new.seeds[i] == old.seeds[i]);
    if i + 1 < old.starts.len() {
        assert(old.starts[i] < old.starts[i + 1]);
        assert(0 <= old.starts[i + 1] < before.len());
    }
    assert(all.subrange(from, to) =~= before.subrange(from, to));
}

/// The chunker follows its cut, the cut is one of the sentences, and the
/// seeds fit: after any sentences that are not empty.
pub proof fn lemma_chunker_follows_cut(sentences: Seq<Seq<char>>, chunk_size: nat, overlap: nat)
    requires
        forall|j: int| 0 <= j < sentences.len() ==> (#[trigger] sentences[j]).len() > 0,
    ensures
        is_cut(cut_of(sentences, chunk_size, overlap), sentences.len() as int),
        seeds_fit(sentences, cut_of(sentences, chunk_size, overlap), overlap),
        follows_cut(
            sentences,
            chunk_fold(sentences, chunk_size, overlap),
            cut_of(sentences, chunk_size, overlap),
        ),
    decreases sentences.len(),
{
    if sentences.len() > 0 {
        let before = sentences.drop_last();
        let last = sentences.last();
        assert(sentences =~= before.push(last));
        assert forall|j: int| 0 <= j < before.len() implies (#[trigger] before[j]).len() > 0 by {
            assert(before[j] == sentences[j]);
        }
        lemma_chunker_follows_cut(before, chunk_size, overlap);
        let st = chunk_fold(before, chunk_size, overlap);
        let old = cut_of(before, chunk_size, overlap);
        let now = chunk_fold(sentences, chunk_size, overlap);
        let new = cut_of(sentences, chunk_size, overlap);
        assert(last.len() > 0);
        if st.size + byte_len(last) > chunk_size && st.current.len() > 0 {
            let seed = overlap_text(st.current, overlap);
            lemma_overlap_fits(st.current, overlap);
            assert(now.closed.last().text == trim(st.current));
            assert(now.closed.drop_last() =~= st.closed);
            lemma_close_follows(before, last, st, old, now, new, seed, overlap);
        } else if before.len() == 0 {
            assert(sentences.subrange(0, 1) =~= seq![last]);
            assert(join(seq![last], seq![' ']) == last);
        } else {
            assert(new == old);
            lemma_append_follows(before, last, st, old, now, overlap);
        }
    }
}

/// The step of `lemma_chunker_follows_cut` for a sentence that closes a chunk.
proof fn lemma_close_follows(
    before: Seq<Seq<char>>,
    last: Seq<char>,
    st: ChunkerState,
    old: Cut,
    now: ChunkerState,
    new: Cut,
    seed: Seq<char>,
    overlap: nat,
)
    requires
        is_cut(old, before.len() as int),
        seeds_fit(before, old, overlap),
        follows_cut(before, st, old),
        last.len() > 0,
        st.current.len() > 0,
        new.starts == old.starts.push(before.len() as int),
        new.seeds == old.seeds.push(seed),
        byte_len(seed) <= overlap,
        seed.is_suffix_of(st.current),
        now.closed.len() == st.closed.len() + 1,
        now.closed.drop_last() == st.closed,
        now.closed.last().text == trim(st.current),
        now.current == seed + seq![' '] + last,
    ensures
        is_cut(new, (before.len() + 1) as int),
        seeds_fit(before.push(last), new, overlap),
        follows_cut(before.push(last), now, new),
{
    let all = before.push(last);
    let n = old.starts.len() as int;
    let total = before.len() as int;
    assert(total > 0);
    assert forall|i: int| 0 <= i < n implies built(all, new, i) == built(before, old, i) by {
        lemma_built_before(before, last, old, new, i);
    }
    assert(all.subrange(total, total + 1) =~= seq![last]);
    assert(join(seq![last], seq![' ']) == last);
    assert(built(all, new, n) == seed + seq![' '] + last);
    assert forall|i: int| 1 <= i < new.starts.len() implies byte_len(#[trigger] new.seeds[i])
        <= overlap && new.seeds[i].is_suffix_of(built(all, new, i - 1)) by {
        if i < n {
            assert(new.seeds[i] == old.seeds[i]);
            assert(byte_len(old.seeds[i]) <= overlap);
        }
    }
    assert forall|i: int| 0 <= i < now.closed.len() implies (#[trigger] now.closed[i]).text
        == trim(built(all, new, i)) by {
        if i < st.closed.len() {
            assert(now.closed[i] == now.closed.drop_last()[i]);
            assert(st.closed[i].text == trim(built(before, old, i)));
        } else {
            assert(now.closed[i] == now.closed.last());
        }
    }
    assert forall|i: int| 0 <= i < new.starts.len() implies 0 <= #[trigger] new.starts[i] < total
        + 1 by {
        if i < n {
            assert(new.starts[i] == old.starts[i]);
        }
    }
    assert forall|i: int| 0 <= i && i + 1 < new.starts.len() implies #[trigger] new.starts[i]
        < new.starts[i + 1] by {
        assert(new.starts[i] == old.starts[i]);
        if i + 1 < n {
            assert(new.starts[i + 1] == old.starts[i + 1]);
        }
    }
}

/// The open chunk of a cut, with one more sentence, is what it was, a space
/// and the sentence.
proof fn lemma_open_run_grows(before: Seq<Seq<char>>, last: Seq<char>, cut: Cut)
    requires
        is_cut(cut, before.len() as int),
        before.len() > 0,
    ensures
        built(before.push(last), cut, cut.starts.len() - 1) == built(
            before,
            cut,
            cut.starts.len() - 1,
        ) + seq![' '] + last,
{
    let all = before.push(last);
    let open = cut.starts.len() - 1;
    let total = before.len() as int;
    let from = cut.starts[open];
    let run = before.subrange(from, total);
    assert(all.subrange(from, total + 1) =~= run.push(last));
    lemma_join_push(run, seq![' '], last);
    assert(run.len() > 0);
    assert(run_text(all, cut, open) == run_text(before, cut, open) + seq![' '] + last);
    assert(built(all, cut, open) =~= built(before, cut, open) + seq![' '] + last);
}

/// The step of `lemma_chunker_follows_cut` for a sentence that joins the
/// open chunk.
proof fn lemma_append_follows(
    before: Seq<Seq<char>>,
    last: Seq<char>,
    st: ChunkerState,
    cut: Cut,
    now: ChunkerState,
    overlap: nat,
)
    requires
        is_cut(cut, before.len() as int),
        seeds_fit(before, cut, overlap),
        follows_cut(before, st, cut),
        before.len() > 0,
        last.len() > 0,
        now.closed == st.closed,
        now.current == st.current + seq![' '] + last,
    ensures
        is_cut(cut, (before.len() + 1) as int),
        seeds_fit(before.push(last), cut, overlap),
        follows_cut(before.push(last), now, cut),
{
    let all = before.push(last);
    let open = cut.starts.len() - 1;
    assert forall|i: int| 0 <= i < open implies built(all, cut, i) == built(before, cut, i) by {
        assert(cut.starts[i] < cut.starts[i + 1]);
        lemma_built_before(before, last, cut, cut, i);
    }
    lemma_open_run_grows(before, last, cut);
    assert forall|i: int| 1 <= i < cut.starts.len() implies byte_len(#[trigger] cut.seeds[i])
        <= overlap && cut.seeds[i].is_suffix_of(built(all, cut, i - 1)) by {
        assert(byte_len(cut.seeds[i]) <= overlap);
        assert(cut.seeds[i].is_suffix_of(built(before, cut, i - 1)));
    }
    assert forall|i: int| 0 <= i < now.closed.len() implies (#[trigger] now.closed[i]).text
        == trim(built(all, cut, i)) by {
        assert(st.closed[i].text == trim(built(before, cut, i)));
    }
}

/// A run of a cut of solid sentences, joined, is solid.
proof fn lemma_run_is_solid(sentences: Seq<Seq<char>>, cut: Cut, i: int)
    requires
        is_cut(cut, sentences.len() as int),
        0 <= i < cut.starts.len(),
        forall|j: int| 0 <= j < sentences.len() ==> is_solid(#[trigger] sentences[j]),
    ensures
        is_solid(run_text(sentences, cut, i)),
        i == 0 ==> is_solid(built(sentences, cut, i)),
        built(sentences, cut, i).len() > 0,
        !is_whitespace(built(sentences, cut, i).last()),
{
    let from = cut.starts[i];
    let to = run_end(cut, i, sentences.len() as int);
    if i + 1 < cut.starts.len() {
        assert(cut.starts[i] < cut.starts[i + 1]);
        assert(0 <= cut.starts[i + 1] < sentences.len());
    }
    let run = sentences.subrange(from, to);
    assert forall|j: int| 0 <= j < run.len() implies (#[trigger] run[j]).len() > 0 by {
        assert(run[j] == sentences[from + j]);
        assert(is_solid(sentences[from + j]));
    }
    lemma_join_ends(run, seq![' ']);
    assert(run[0] == sentences[from]);
    assert(run.last() == sentences[to - 1]);
    assert(is_solid(sentences[from]));
    assert(is_solid(sentences[to - 1]));
}

/// Each chunk is a run of consecutive sentences, one space between each two,
/// trimmed; each chunk but the first after a seed and a space. The first
/// chunk is its run as it is. The runs are not empty and take up all the
/// sentences in their order. Each seed is at most `overlap` bytes long and
/// stands at the end of the chunk before it, as that chunk was built; without
/// its leading whitespace it stands at the end of that chunk's text.
pub proof fn lemma_chunks_are_seeded_runs(text: Seq<char>, chunk_size: nat, overlap: nat)
    ensures
        ({
            let units = sentences(text);
            let cut = cut_of(units, chunk_size, overlap);
            let chunks = chunks_of(text, chunk_size, overlap);
            &&& is_cut(cut, units.len() as int)
            &&& seeds_fit(units, cut, overlap)
            &&& chunks.len() == cut.starts.len()
            &&& forall|i: int|
                0 <= i < chunks.len() ==> (#[trigger] chunks[i]).text == trim(built(units, cut, i))
            &&& chunks.len() > 0 ==> chunks[0].text == run_text(units, cut, 0)
            &&& forall|i: int|
                1 <= i < chunks.len() ==> trim_start(#[trigger] cut.seeds[i]).is_suffix_of(
                    chunks[i - 1].text,
                )
        }),
{
    let units = sentences(text);
    lemma_sentences_solid(text, 0);
    assert forall|j: int| 0 <= j < units.len() implies (#[trigger] units[j]).len() > 0 by {
        assert(is_solid(units[j]));
    }
    lemma_chunker_follows_cut(units, chunk_size, overlap);
    lemma_open_chunk_is_kept(text, chunk_size, overlap);
    let st = chunk_fold(units, chunk_size, overlap);
    let cut = cut_of(units, chunk_size, overlap);
    let chunks = chunks_of(text, chunk_size, overlap);
    assert forall|i: int| 0 <= i < chunks.len() implies (#[trigger] chunks[i]).text == trim(
        built(units, cut, i),
    ) by {
        if i < st.closed.len() {
            assert(chunks[i] == st.closed[i]);
        }
    }
    if chunks.len() > 0 {
        lemma_run_is_solid(units, cut, 0);
        lemma_trim_solid(run_text(units, cut, 0));
    }
    assert forall|i: int| 1 <= i < chunks.len() implies trim_start(
        #[trigger] cut.seeds[i],
    ).is_suffix_of(chunks[i - 1].text) by {
        lemma_run_is_solid(units, cut, i - 1);
        assert(byte_len(cut.seeds[i]) <= overlap && cut.seeds[i].is_suffix_of(
            built(units, cut, i - 1),
        ));
        lemma_trim_start_of_suffix(built(units, cut, i - 1), cut.seeds[i]);
        assert(chunks[i - 1].text == trim(built(units, cut, i - 1)));
    }
}

} // verus!
