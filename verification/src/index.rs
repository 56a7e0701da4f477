//! The term index: tokens, the vocabulary that gives each token a coordinate,
//! the table of document frequencies, and the term profile of a text.
//!
//! A term profile holds, in whole numbers, all that the weights of a text's
//! vector are computed from. The weights themselves are ratios and logarithms,
//! and are left to the caller.

use vstd::prelude::*;
use crate::processor::{lower, lowered};
use crate::text::{byte_len, byte_length_range, from_chars_range, to_chars};

verus! {

/// What `char::is_alphanumeric` says of a character.
pub uninterp spec fn is_alphanumeric(c: char) -> bool;

/// `char::is_alphanumeric`: whether the character is a letter or a number in
/// Unicode's sense. An ASCII character is one if and only if it is a letter of
/// the English alphabet or a decimal digit.
#[verifier::external_body]
fn char_is_alphanumeric(c: char) -> (r: bool)
    ensures
        r == is_alphanumeric(c),
        (c as u32) < 128 ==> r == (('a' <= c <= 'z') || ('A' <= c <= 'Z') || ('0' <= c <= '9')),
{
    c.is_alphanumeric()
}

/// A character that tokens are made of: a letter or a number. Of the ASCII
/// characters these are the letters of the English alphabet and the decimal
/// digits; of the others, what `char::is_alphanumeric` says.
pub open spec fn is_token_char(c: char) -> bool {
    if (c as u32) < 128 {
        ('a' <= c <= 'z') || ('A' <= c <= 'Z') || ('0' <= c <= '9')
    } else {
        is_alphanumeric(c)
    }
}

/// Whether tokens are made of `c`.
pub fn char_is_token_char(c: char) -> (r: bool)
    ensures
        r == is_token_char(c),
{
    char_is_alphanumeric(c)
}

/// First index at or after `i` that holds no letter or number, or the length.
pub open spec fn token_end(s: Seq<char>, i: int) -> int
    decreases s.len() - i,
{
    if 0 <= i < s.len() && is_token_char(s[i]) {
        token_end(s, i + 1)
    } else {
        i
    }
}

/// `token_end` stays within the text and does not go back.
pub proof fn lemma_token_end_bounds(s: Seq<char>, i: int)
    requires
        0 <= i <= s.len(),
    ensures
        i <= token_end(s, i) <= s.len(),
    decreases s.len() - i,
{
    if i < s.len() && is_token_char(s[i]) {
        lemma_token_end_bounds(s, i + 1);
    }
}

/// The maximal runs of letters and numbers in `s` from index `i` on that are
/// longer than two bytes, in order.
pub open spec fn runs_from(s: Seq<char>, i: int) -> Seq<Seq<char>>
    decreases s.len() - i,
{
    if i < 0 || i >= s.len() {
        seq![]
    } else if !is_token_char(s[i]) {
        runs_from(s, i + 1)
    } else {
        let e = token_end(s, i + 1);
        proof {
            lemma_token_end_bounds(s, i + 1);
        }
        let rest = runs_from(s, e);
        if byte_len(s.subrange(i, e)) > 2 {
            seq![s.subrange(i, e)] + rest
        } else {
            rest
        }
    }
}

/// The tokens of a text: the maximal runs of letters and numbers of the text
/// in lower case, without those of one or two bytes.
pub open spec fn tokens(text: Seq<char>) -> Seq<Seq<char>> {
    runs_from(lowered(text), 0)
}

/// Position of the first `key` in `list`, or -1 if there is none.
pub open spec fn position_of(list: Seq<Seq<char>>, key: Seq<char>) -> int
    decreases list.len(),
{
    if list.len() == 0 {
        -1
    } else {
        let before = position_of(list.drop_last(), key);
        if before >= 0 {
            before
        } else if list.last() == key {
            list.len() - 1
        } else {
            -1
        }
    }
}

/// No two entries of `list` are equal.
pub open spec fn no_duplicates(list: Seq<Seq<char>>) -> bool {
    forall|i: int, j: int| 0 <= i < j < list.len() ==> list[i] != list[j]
}

/// The entries of `list`, each at its first place only.
pub open spec fn distinct(list: Seq<Seq<char>>) -> Seq<Seq<char>>
    decreases list.len(),
{
    if list.len() == 0 {
        seq![]
    } else {
        let before = distinct(list.drop_last());
        if position_of(before, list.last()) >= 0 {
            before
        } else {
            before.push(list.last())
        }
    }
}

/// How often `key` stands in `list`.
pub open spec fn occurrences(list: Seq<Seq<char>>, key: Seq<char>) -> nat
    decreases list.len(),
{
    if list.len() == 0 {
        0
    } else {
        occurrences(list.drop_last(), key) + if list.last() == key {
            1nat
        } else {
            0nat
        }
    }
}

/// `position_of` gives a place that holds the key, and the first such place;
/// it gives -1 only where no place holds the key.
pub proof fn lemma_position_of(list: Seq<Seq<char>>, key: Seq<char>)
    ensures
        -1 <= position_of(list, key) < list.len(),
        position_of(list, key) >= 0 ==> list[position_of(list, key)] == key,
        position_of(list, key) < 0 ==> forall|i: int| 0 <= i < list.len() ==> list[i] != key,
        forall|i: int| 0 <= i < position_of(list, key) ==> list[i] != key,
    decreases list.len(),
{
    if list.len() > 0 {
        lemma_position_of(list.drop_last(), key);
        assert forall|i: int| 0 <= i < list.len() - 1 implies list[i] == list.drop_last()[i] by {}
    }
}

/// A key stands in a list at most as often as the list is long.
pub proof fn lemma_occurrences_bound(list: Seq<Seq<char>>, key: Seq<char>)
    ensures
        occurrences(list, key) <= list.len(),
    decreases list.len(),
{
    if list.len() > 0 {
        lemma_occurrences_bound(list.drop_last(), key);
    }
}

/// A key that stands in a list occurs in it at least once.
pub proof fn lemma_found_occurs(list: Seq<Seq<char>>, key: Seq<char>)
    requires
        position_of(list, key) >= 0,
    ensures
        occurrences(list, key) >= 1,
    decreases list.len(),
{
    if list.len() > 0 && position_of(list.drop_last(), key) >= 0 {
        lemma_found_occurs(list.drop_last(), key);
    }
}

/// Each entry of `distinct(list)` stands in `list`.
pub proof fn lemma_distinct_is_found(list: Seq<Seq<char>>, j: int)
    requires
        0 <= j < distinct(list).len(),
    ensures
        position_of(list, distinct(list)[j]) >= 0,
    decreases list.len(),
{
    if list.len() > 0 {
        let before = distinct(list.drop_last());
        if j < before.len() {
            lemma_distinct_is_found(list.drop_last(), j);
        }
    }
}

/// The position of `key` in `list`, if it is there.
pub fn find(list: &Vec<String>, key: &String) -> (r: Option<usize>)
    ensures
        r matches Some(i) ==> i == position_of(list.deep_view(), key@),
        r is None ==> position_of(list.deep_view(), key@) < 0,
{
    let ghost all = list.deep_view();
    let mut i: usize = 0;
    while i < list.len()
        invariant
            i <= list.len(),
            all == list.deep_view(),
            position_of(all.take(i as int), key@) < 0,
        decreases list.len() - i,
    {
        proof {
            assert(all.take(i + 1).drop_last() =~= all.take(i as int));
            assert(all.take(i + 1).last() == list@[i as int]@);
        }
        if list[i] == *key {
            proof {
                lemma_position_continues(all, i + 1, key@);
            }
            return Some(i);
        }
        i += 1;
    }
    assert(all.take(list.len() as int) =~= all);
    None
}

/// A key found among the first `n` entries is found at the same place in the whole list.
pub proof fn lemma_position_continues(list: Seq<Seq<char>>, n: int, key: Seq<char>)
    requires
        0 <= n <= list.len(),
        position_of(list.take(n), key) >= 0,
    ensures
        position_of(list, key) == position_of(list.take(n), key),
    decreases list.len() - n,
{
    if n < list.len() {
        assert(list.take(n + 1).drop_last() =~= list.take(n));
        lemma_position_continues(list, n + 1, key);
    } else {
        assert(list.take(n) =~= list);
    }
}

/// The tokens of `text`.
pub fn tokenize(text: &str) -> (r: Vec<String>)
    ensures
        r.deep_view() == tokens(text@),
{
    let small = lower(text);
    let v = to_chars(small.as_str());
    let n = v.len();
    let mut out: Vec<String> = Vec::new();
    let mut i: usize = 0;
    assert(out.deep_view() =~= Seq::<Seq<char>>::empty());
    while i < n
        invariant
            n == v.len(),
            i <= n,
            runs_from(v@, 0) == out.deep_view() + runs_from(v@, i as int),
        decreases n - i,
    {
        if !char_is_token_char(v[i]) {
            i += 1;
        } else {
            let mut e: usize = i + 1;
            while e < n && char_is_token_char(v[e])
                invariant
                    i < e <= n,
                    n == v.len(),
                    token_end(v@, e as int) == token_end(v@, i + 1),
                decreases n - e,
            {
                e += 1;
            }
            let size = byte_length_range(&v, i, e);
            if size > 2 {
                let ghost before = out.deep_view();
                let token = from_chars_range(&v, i, e);
                out.push(token);
                proof {
                    let run = v@.subrange(i as int, e as int);
                    assert(out.deep_view() =~= before.push(run));
                    assert(before + (seq![run] + runs_from(v@, e as int)) =~= before.push(run)
                        + runs_from(v@, e as int));
                }
            }
            i = e;
        }
    }
    assert(out.deep_view() + Seq::<Seq<char>>::empty() =~= out.deep_view());
    out
}

/// The entries of `list`, each at its first place only.
pub fn distinct_of(list: &Vec<String>) -> (r: Vec<String>)
    ensures
        r.deep_view() == distinct(list.deep_view()),
{
    let ghost all = list.deep_view();
    let mut out: Vec<String> = Vec::new();
    let mut i: usize = 0;
    assert(out.deep_view() =~= distinct(all.take(0)));
    while i < list.len()
        invariant
            i <= list.len(),
            all == list.deep_view(),
            out.deep_view() == distinct(all.take(i as int)),
        decreases list.len() - i,
    {
        proof {
            assert(all.take(i + 1).drop_last() =~= all.take(i as int));
            assert(all.take(i + 1).last() == list@[i as int]@);
        }
        if find(&out, &list[i]).is_none() {
            let ghost before = out.deep_view();
            out.push(list[i].clone());
            assert(out.deep_view() =~= before.push(list@[i as int]@));
        }
        i += 1;
    }
    assert(all.take(list.len() as int) =~= all);
    out
}

/// How often `key` stands in `list`.
pub fn count_occurrences(list: &Vec<String>, key: &String) -> (r: usize)
    ensures
        r == occurrences(list.deep_view(), key@),
{
    let ghost all = list.deep_view();
    let mut count: usize = 0;
    let mut i: usize = 0;
    while i < list.len()
        invariant
            i <= list.len(),
            all == list.deep_view(),
            count == occurrences(all.take(i as int), key@),
            count <= i,
        decreases list.len() - i,
    {
        proof {
            assert(all.take(i + 1).drop_last() =~= all.take(i as int));
            assert(all.take(i + 1).last() == list@[i as int]@);
        }
        if list[i] == *key {
            count += 1;
        }
        i += 1;
    }
    assert(all.take(list.len() as int) =~= all);
    count
}

/// A table from tokens to counts, as the list of its entries: no token stands
/// in it twice.
#[derive(Debug)]
pub struct Frequencies {
    pub tokens: Vec<String>,
    pub counts: Vec<usize>,
}

impl Frequencies {
    /// The table is well formed: one count for each token, no token twice.
    pub open spec fn wf(&self) -> bool {
        self.tokens@.len() == self.counts@.len() && no_duplicates(self.tokens.deep_view())
    }

    /// The count recorded for `token`, if there is one.
    pub open spec fn lookup(&self, token: Seq<char>) -> Option<usize> {
        let at = position_of(self.tokens.deep_view(), token);
        if 0 <= at < self.counts@.len() {
            Some(self.counts@[at])
        } else {
            None
        }
    }

    /// A table without entries.
    pub fn new() -> (r: Frequencies)
        ensures
            r.wf(),
            r.tokens@.len() == 0,
    {
        let r = Frequencies { tokens: Vec::new(), counts: Vec::new() };
        assert(r.tokens.deep_view() =~= Seq::<Seq<char>>::empty());
        r
    }

    /// The count recorded for `token`, if there is one.
    pub fn get(&self, token: &String) -> (r: Option<usize>)
        requires
            self.wf(),
        ensures
            r == self.lookup(token@),
    {
        proof {
            lemma_position_of(self.tokens.deep_view(), token@);
        }
        match find(&self.tokens, token) {
            Some(i) => Some(self.counts[i]),
            None => None,
        }
    }

    /// Records `count` for `token`, in place of an earlier count if there is one.
    pub fn set(&mut self, token: &String, count: usize)
        requires
            old(self).wf(),
        ensures
            final(self).wf(),
            final(self).lookup(token@) == Some(count),
            forall|other: Seq<char>|
                other != token@ ==> final(self).lookup(other) == old(self).lookup(other),
            final(self).tokens.deep_view() == recorded(old(self).tokens.deep_view(), token@),
    {
        let ghost before = self.tokens.deep_view();
        proof {
            lemma_position_of(before, token@);
        }
        match find(&self.tokens, token) {
            Some(i) => {
                self.counts.set(i, count);
                assert forall|other: Seq<char>| other != token@ implies self.lookup(other) == old(
                    self,
                ).lookup(other) by {
                    lemma_position_of(before, other);
                }
            },
            None => {
                self.tokens.push(token.clone());
                self.counts.push(count);
                proof {
                    let after = self.tokens.deep_view();
                    assert(after =~= before.push(token@));
                    assert(after.drop_last() =~= before);
                    assert forall|other: Seq<char>| other != token@ implies self.lookup(other)
                        == old(self).lookup(other) by {
                        lemma_position_of(before, other);
                        lemma_position_of(after, other);
                    }
                }
            },
        }
    }
}

/// The tokens of a table after a count was recorded for `token`.
pub open spec fn recorded(tokens: Seq<Seq<char>>, token: Seq<char>) -> Seq<Seq<char>> {
    if position_of(tokens, token) >= 0 {
        tokens
    } else {
        tokens.push(token)
    }
}

/// A document as the index reads it: its path and the tokens of its chunks,
/// chunk after chunk.
#[derive(Debug, Clone)]
pub struct TokenizedDocument {
    pub path: String,
    pub tokens: Vec<String>,
}

/// A tokenized document in the model.
pub struct DocumentTokens {
    pub path: Seq<char>,
    pub tokens: Seq<Seq<char>>,
}

impl TokenizedDocument {
    pub open spec fn view(&self) -> DocumentTokens {
        DocumentTokens { path: self.path@, tokens: self.tokens.deep_view() }
    }
}

/// The views of the documents, in order.
pub open spec fn document_views(docs: Seq<TokenizedDocument>) -> Seq<DocumentTokens> {
    Seq::new(docs.len(), |i: int| docs[i]@)
}

/// The tokens of all the documents, document after document.
pub open spec fn batch_tokens(docs: Seq<DocumentTokens>) -> Seq<Seq<char>>
    decreases docs.len(),
{
    if docs.len() == 0 {
        seq![]
    } else {
        batch_tokens(docs.drop_last()) + docs.last().tokens
    }
}

/// The paths of the documents that hold `token`, each path once.
pub open spec fn holders(docs: Seq<DocumentTokens>, token: Seq<char>) -> Seq<Seq<char>>
    decreases docs.len(),
{
    if docs.len() == 0 {
        seq![]
    } else {
        let before = holders(docs.drop_last(), token);
        let doc = docs.last();
        if position_of(doc.tokens, token) >= 0 && position_of(before, doc.path) < 0 {
            before.push(doc.path)
        } else {
            before
        }
    }
}

/// The vocabulary after the tokens `fresh` were offered to it, one after the
/// other: a token that it does not hold gets the next coordinate, as long as
/// there is one below `dimension`.
pub open spec fn grown(
    vocabulary: Seq<Seq<char>>,
    fresh: Seq<Seq<char>>,
    dimension: nat,
) -> Seq<Seq<char>>
    decreases fresh.len(),
{
    if fresh.len() == 0 {
        vocabulary
    } else {
        let before = grown(vocabulary, fresh.drop_last(), dimension);
        if position_of(before, fresh.last()) < 0 && before.len() < dimension {
            before.push(fresh.last())
        } else {
            before
        }
    }
}

/// A vocabulary that grows keeps its tokens at their coordinates, holds no
/// token twice, and stays within the dimension.
pub proof fn lemma_grown_keeps(vocabulary: Seq<Seq<char>>, fresh: Seq<Seq<char>>, dimension: nat)
    requires
        no_duplicates(vocabulary),
        vocabulary.len() <= dimension,
    ensures
        no_duplicates(grown(vocabulary, fresh, dimension)),
        vocabulary.len() <= grown(vocabulary, fresh, dimension).len() <= dimension,
        grown(vocabulary, fresh, dimension).take(vocabulary.len() as int) == vocabulary,
    decreases fresh.len(),
{
    if fresh.len() == 0 {
        assert(vocabulary.take(vocabulary.len() as int) =~= vocabulary);
    } else {
        lemma_grown_keeps(vocabulary, fresh.drop_last(), dimension);
        let before = grown(vocabulary, fresh.drop_last(), dimension);
        lemma_position_of(before, fresh.last());
        let after = grown(vocabulary, fresh, dimension);
        assert(after.take(vocabulary.len() as int) =~= before.take(vocabulary.len() as int));
    }
}

/// One coordinate of a text's vector, in whole numbers: how often the token
/// of the coordinate stands in the text, and in how many documents the token
/// was last seen, if that was recorded.
#[derive(Debug, Clone, Copy)]
pub struct Term {
    pub index: usize,
    pub count: usize,
    pub doc_frequency: Option<usize>,
}

/// All that the vector of a text is computed from. The weight at the
/// coordinate of a term is `count / total_tokens * (ln(documents /
/// doc_frequency) + 1)`, with 1 for the bracket where no frequency is
/// recorded; all other coordinates are 0.
#[derive(Debug, Clone)]
pub struct TermProfile {
    /// Number of tokens of the text.
    pub total_tokens: usize,
    /// Number of chunks in the store when the profile was made, but at least 1.
    pub documents: usize,
    /// The terms, in the order in which their tokens first stand in the text.
    pub terms: Vec<Term>,
}

/// The vocabulary and the table of document frequencies.
#[derive(Debug)]
pub struct TermIndex {
    /// Number of coordinates of a vector.
    pub dimension: usize,
    /// The tokens that have a coordinate: the token at place `i` has coordinate `i`.
    pub vocabulary: Vec<String>,
    /// For each token that was ever seen, in how many documents of the last
    /// batch that held it it stood.
    pub frequencies: Frequencies,
}

/// The terms of the tokens `distinct`, for a text whose tokens are `all`: one
/// for each token that has a coordinate below `dimension`.
pub open spec fn terms_of(
    distinct: Seq<Seq<char>>,
    all: Seq<Seq<char>>,
    index: TermIndex,
) -> Seq<Term>
    decreases distinct.len(),
{
    if distinct.len() == 0 {
        seq![]
    } else {
        let before = terms_of(distinct.drop_last(), all, index);
        let token = distinct.last();
        let at = position_of(index.vocabulary.deep_view(), token);
        if 0 <= at < index.dimension {
            before.push(
                Term {
                    index: at as usize,
                    count: occurrences(all, token) as usize,
                    doc_frequency: index.frequencies.lookup(token),
                },
            )
        } else {
            before
        }
    }
}

/// The frequencies after the batch `docs`: for each of the tokens `fresh` the
/// number of documents of the batch that hold it.
pub open spec fn counted(
    before: Frequencies,
    after: Frequencies,
    docs: Seq<DocumentTokens>,
    fresh: Seq<Seq<char>>,
) -> bool {
    forall|token: Seq<char>|
        #![trigger after.lookup(token)]
        after.lookup(token) == if position_of(fresh, token) >= 0 {
            Some(holders(docs, token).len() as usize)
        } else {
            before.lookup(token)
        }
}

/// Each term of a text has a coordinate below the dimension, and a count
/// between one and the number of the text's tokens: the tokens of `distinct`
/// being tokens of `all`.
pub proof fn lemma_terms_are_sound(distinct: Seq<Seq<char>>, all: Seq<Seq<char>>, index: TermIndex)
    requires
        forall|j: int| 0 <= j < distinct.len() ==> position_of(all, #[trigger] distinct[j]) >= 0,
        all.len() <= usize::MAX,
    ensures
        forall|m: int|
            0 <= m < terms_of(distinct, all, index).len() ==> {
                let term = #[trigger] terms_of(distinct, all, index)[m];
                term.index < index.dimension && 1 <= term.count <= all.len()
            },
    decreases distinct.len(),
{
    if distinct.len() > 0 {
        let shorter = distinct.drop_last();
        assert forall|j: int| 0 <= j < shorter.len() implies position_of(
            all,
            #[trigger] shorter[j],
        ) >= 0 by {
            assert(shorter[j] == distinct[j]);
        }
        lemma_terms_are_sound(shorter, all, index);
        let token = distinct.last();
        assert(token == distinct[distinct.len() - 1]);
        lemma_found_occurs(all, token);
        lemma_occurrences_bound(all, token);
        let before = terms_of(shorter, all, index);
        let now = terms_of(distinct, all, index);
        assert forall|m: int| 0 <= m < now.len() implies {
            let term = #[trigger] now[m];
            term.index < index.dimension && 1 <= term.count <= all.len()
        } by {
            if m < before.len() {
                assert(now[m] == before[m]);
            }
        }
    }
}

impl TermIndex {
    /// No token has two coordinates, no coordinate is at or past the
    /// dimension, and the table of frequencies is well formed.
    pub open spec fn wf(&self) -> bool {
        &&& no_duplicates(self.vocabulary.deep_view())
        &&& self.vocabulary@.len() <= self.dimension
        &&& self.frequencies.wf()
    }

    /// The coordinate of `token`, if it has one.
    pub open spec fn coordinate(&self, token: Seq<char>) -> Option<int> {
        let at = position_of(self.vocabulary.deep_view(), token);
        if at >= 0 {
            Some(at)
        } else {
            None
        }
    }

    /// The profile of `text` in a store of `stored_chunks` chunks.
    pub open spec fn profile_matches(
        &self,
        profile: TermProfile,
        text: Seq<char>,
        stored_chunks: nat,
    ) -> bool {
        &&& profile.total_tokens == tokens(text).len()
        &&& profile.documents == if stored_chunks == 0 {
            1
        } else {
            stored_chunks
        }
        &&& profile.terms@ == terms_of(distinct(tokens(text)), tokens(text), *self)
    }

    /// An index without tokens.
    pub fn new(dimension: usize) -> (r: TermIndex)
        ensures
            r.wf(),
            r.dimension == dimension,
            r.vocabulary@.len() == 0,
            r.frequencies.tokens@.len() == 0,
    {
        let r = TermIndex { dimension, vocabulary: Vec::new(), frequencies: Frequencies::new() };
        assert(r.vocabulary.deep_view() =~= Seq::<Seq<char>>::empty());
        r
    }

    /// The number of distinct paths among the documents that hold `token`.
    fn count_holders(docs: &Vec<TokenizedDocument>, token: &String) -> (r: usize)
        ensures
            r == holders(document_views(docs@), token@).len(),
    {
        let ghost all = document_views(docs@);
        let mut paths: Vec<String> = Vec::new();
        let mut i: usize = 0;
        assert(paths.deep_view() =~= holders(all.take(0), token@));
        while i < docs.len()
            invariant
                i <= docs.len(),
                all == document_views(docs@),
                paths.deep_view() == holders(all.take(i as int), token@),
                paths@.len() <= i,
            decreases docs.len() - i,
        {
            proof {
                assert(all.take(i + 1).drop_last() =~= all.take(i as int));
                assert(all.take(i + 1).last() == docs@[i as int]@);
            }
            if find(&docs[i].tokens, token).is_some() && find(&paths, &docs[i].path).is_none() {
                let ghost before = paths.deep_view();
                paths.push(docs[i].path.clone());
                assert(paths.deep_view() =~= before.push(docs@[i as int].path@));
            }
            i += 1;
        }
        assert(all.take(docs.len() as int) =~= all);
        paths.len()
    }

    /// All the tokens of the documents, document after document.
    fn gather(docs: &Vec<TokenizedDocument>) -> (r: Vec<String>)
        ensures
            r.deep_view() == batch_tokens(document_views(docs@)),
    {
        let ghost all = document_views(docs@);
        let mut out: Vec<String> = Vec::new();
        let mut i: usize = 0;
        assert(out.deep_view() =~= batch_tokens(all.take(0)));
        while i < docs.len()
            invariant
                i <= docs.len(),
                all == document_views(docs@),
                out.deep_view() == batch_tokens(all.take(i as int)),
            decreases docs.len() - i,
        {
            proof {
                assert(all.take(i + 1).drop_last() =~= all.take(i as int));
                assert(all.take(i + 1).last() == docs@[i as int]@);
            }
            let ghost before = out.deep_view();
            let tokens = &docs[i].tokens;
            let mut j: usize = 0;
            while j < tokens.len()
                invariant
                    j <= tokens.len(),
                    out.deep_view() == before + tokens.deep_view().take(j as int),
                decreases tokens.len() - j,
            {
                let ghost so_far = out.deep_view();
                out.push(tokens[j].clone());
                assert(out.deep_view() =~= so_far.push(tokens@[j as int]@));
                j += 1;
                assert(out.deep_view() =~= before + tokens.deep_view().take(j as int));
            }
            assert(tokens.deep_view().take(tokens.len() as int) =~= tokens.deep_view());
            i += 1;
        }
        assert(all.take(docs.len() as int) =~= all);
        out
    }

    /// Takes in a batch of documents. Each token of the batch, in the order in
    /// which the tokens first stand in it, is offered to the vocabulary, and
    /// the number of documents of the batch that hold it is recorded for it, in
    /// place of what was recorded before.
    pub fn update(&mut self, docs: &Vec<TokenizedDocument>)
        requires
            old(self).wf(),
        ensures
            final(self).wf(),
            final(self).dimension == old(self).dimension,
            final(self).vocabulary.deep_view() == grown(
                old(self).vocabulary.deep_view(),
                distinct(batch_tokens(document_views(docs@))),
                old(self).dimension as nat,
            ),
            counted(
                old(self).frequencies,
                final(self).frequencies,
                document_views(docs@),
                distinct(batch_tokens(document_views(docs@))),
            ),
    {
        let all = Self::gather(docs);
        let fresh = distinct_of(&all);
        let ghost views = document_views(docs@);
        let ghost tokens = fresh.deep_view();
        let ghost start = self.vocabulary.deep_view();
        let mut i: usize = 0;
        assert(tokens.take(0) =~= Seq::<Seq<char>>::empty());
        while i < fresh.len()
            invariant
                i <= fresh.len(),
                tokens == fresh.deep_view(),
                views == document_views(docs@),
                start == old(self).vocabulary.deep_view(),
                no_duplicates(start),
                start.len() <= self.dimension,
                self.dimension == old(self).dimension,
                self.frequencies.wf(),
                self.vocabulary.deep_view() == grown(
                    start,
                    tokens.take(i as int),
                    self.dimension as nat,
                ),
                counted(old(self).frequencies, self.frequencies, views, tokens.take(i as int)),
            decreases fresh.len() - i,
        {
            let token = &fresh[i];
            proof {
                assert(tokens.take(i + 1).drop_last() =~= tokens.take(i as int));
                assert(tokens.take(i + 1).last() == token@);
                lemma_grown_keeps(start, tokens.take(i as int), self.dimension as nat);
            }
            if find(&self.vocabulary, token).is_none() && self.vocabulary.len() < self.dimension {
                let ghost before = self.vocabulary.deep_view();
                self.vocabulary.push(token.clone());
                assert(self.vocabulary.deep_view() =~= before.push(token@));
            }
            let count = Self::count_holders(docs, token);
            let ghost earlier = self.frequencies;
            self.frequencies.set(token, count);
            proof {
                let now = tokens.take(i + 1);
                assert forall|other: Seq<char>|
                    #![trigger self.frequencies.lookup(other)]
                    self.frequencies.lookup(other) == if position_of(now, other) >= 0 {
                        Some(holders(views, other).len() as usize)
                    } else {
                        old(self).frequencies.lookup(other)
                    } by {
                    if other != token@ {
                        assert(self.frequencies.lookup(other) == earlier.lookup(other));
                    }
                }
            }
            i += 1;
        }
        proof {
            assert(tokens.take(fresh.len() as int) =~= tokens);
            lemma_grown_keeps(start, tokens, self.dimension as nat);
        }
    }

    /// The profile of `text` in a store of `stored_chunks` chunks.
    pub fn profile(&self, text: &str, stored_chunks: usize) -> (r: TermProfile)
        requires
            self.wf(),
        ensures
            self.profile_matches(r, text@, stored_chunks as nat),
            r.documents >= 1,
            forall|m: int|
                0 <= m < r.terms@.len() ==> (#[trigger] r.terms@[m]).index < self.dimension && 1
                    <= r.terms@[m].count <= r.total_tokens,
    {
        let all = tokenize(text);
        let fresh = distinct_of(&all);
        let total_tokens = all.len();
        proof {
            assert forall|j: int| 0 <= j < distinct(all.deep_view()).len() implies position_of(
                all.deep_view(),
                #[trigger] distinct(all.deep_view())[j],
            ) >= 0 by {
                lemma_distinct_is_found(all.deep_view(), j);
            }
            assert(all.deep_view().len() == total_tokens);
            lemma_terms_are_sound(distinct(all.deep_view()), all.deep_view(), *self);
        }
        let ghost tokens = fresh.deep_view();
        let mut terms: Vec<Term> = Vec::new();
        let mut i: usize = 0;
        assert(tokens.take(0) =~= Seq::<Seq<char>>::empty());
        while i < fresh.len()
            invariant
                i <= fresh.len(),
                self.wf(),
                tokens == fresh.deep_view(),
                terms@ == terms_of(tokens.take(i as int), all.deep_view(), *self),
            decreases fresh.len() - i,
        {
            let token = &fresh[i];
            proof {
                assert(tokens.take(i + 1).drop_last() =~= tokens.take(i as int));
                assert(tokens.take(i + 1).last() == token@);
                lemma_position_of(self.vocabulary.deep_view(), token@);
                lemma_occurrences_bound(all.deep_view(), token@);
            }
            match find(&self.vocabulary, token) {
                Some(at) => {
                    if at < self.dimension {
                        let count = count_occurrences(&all, token);
                        terms.push(
                            Term { index: at, count, doc_frequency: self.frequencies.get(token) },
                        );
                    }
                },
                None => {},
            }
            i += 1;
        }
        assert(tokens.take(fresh.len() as int) =~= tokens);
        TermProfile {
            total_tokens,
            documents: if stored_chunks == 0 {
                1
            } else {
                stored_chunks
            },
            terms,
        }
    }
}

} // verus!
