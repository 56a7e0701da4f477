//! The store: the records of all chunks, one vector profile for each, the
//! summaries of the documents, and the term index.
//!
//! The records and the vectors stand in two sequences of one length, and the
//! vector at a position belongs to the record at that position. Nothing else
//! joins them, so every change keeps the two in step.

use vstd::prelude::*;
use crate::config::{model_dimension, EmbeddingModels};
use crate::index::{
    batch_tokens, counted, distinct, document_views, find, grown, lemma_position_of,
    no_duplicates, occurrences, position_of, tokenize, tokens, DocumentTokens, TermIndex,
    TermProfile, TokenizedDocument,
};
use crate::models::{DocumentChunk, DocumentMetadata, ProcessedDocument};
use crate::ranking::{at_least, is_search_order, rank};

verus! {

/// What the store keeps of one document, under the document's path.
#[derive(Debug, Clone)]
pub struct DocumentInfo {
    pub file_name: String,
    pub file_type: String,
    pub num_chunks: usize,
    pub file_size: u64,
}

/// A document's summary in the model.
pub struct InfoView {
    pub file_name: Seq<char>,
    pub file_type: Seq<char>,
    pub num_chunks: nat,
    pub file_size: nat,
}

impl DocumentInfo {
    pub open spec fn view(&self) -> InfoView {
        InfoView {
            file_name: self.file_name@,
            file_type: self.file_type@,
            num_chunks: self.num_chunks as nat,
            file_size: self.file_size as nat,
        }
    }
}

/// A chunk's record in the model.
pub struct RecordView {
    pub file_path: Seq<char>,
    pub file_name: Seq<char>,
    pub file_type: Seq<char>,
    pub chunk_id: nat,
    pub chunk_size: nat,
    pub text: Seq<char>,
}

impl DocumentMetadata {
    pub open spec fn view(&self) -> RecordView {
        RecordView {
            file_path: self.file_path@,
            file_name: self.file_name@,
            file_type: self.file_type@,
            chunk_id: self.chunk_id as nat,
            chunk_size: self.chunk_size as nat,
            text: self.text@,
        }
    }
}

/// The views of the records, in order.
pub open spec fn record_views(records: Seq<DocumentMetadata>) -> Seq<RecordView> {
    Seq::new(records.len(), |i: int| records[i]@)
}

/// The summaries of the documents as the list of its entries, each a path
/// and the summary kept under it.
pub open spec fn entries_of(paths: Seq<String>, infos: Seq<DocumentInfo>) -> Seq<
    (Seq<char>, InfoView),
> {
    Seq::new(paths.len(), |i: int| (paths[i]@, infos[i]@))
}

/// The paths of the entries, in order.
pub open spec fn keys_of(entries: Seq<(Seq<char>, InfoView)>) -> Seq<Seq<char>> {
    Seq::new(entries.len(), |i: int| entries[i].0)
}

/// The entries after `value` was put under `key`: in place of what stood
/// under `key`, or at the end where nothing did.
pub open spec fn upsert(
    entries: Seq<(Seq<char>, InfoView)>,
    key: Seq<char>,
    value: InfoView,
) -> Seq<(Seq<char>, InfoView)> {
    let at = position_of(keys_of(entries), key);
    if 0 <= at < entries.len() {
        entries.update(at, (key, value))
    } else {
        entries.push((key, value))
    }
}

/// The chunk records, their vectors, the document summaries and the term index.
#[derive(Debug)]
pub struct VectorStore {
    /// Where the store is kept on disk.
    pub store_path: String,
    /// The name of the embedding model, which fixes the dimension.
    pub embedding_model: String,
    /// The records of all chunks, in the order in which they were added.
    pub metadata: Vec<DocumentMetadata>,
    /// For each record, at the same position, the profile of its vector.
    pub vectors: Vec<TermProfile>,
    /// The paths of the documents that have a summary; none stands twice.
    pub document_paths: Vec<String>,
    /// For each path, at the same position, the summary.
    pub document_infos: Vec<DocumentInfo>,
    /// The vocabulary and the document frequencies.
    pub index: TermIndex,
}

/// What the store reports of itself.
#[derive(Debug, Clone)]
pub struct VectorStoreStats {
    pub total_vectors: usize,
    pub total_documents: usize,
    pub embedding_model: String,
    pub dimension: usize,
    pub store_path: String,
    pub documents: Vec<String>,
    pub storage_size_bytes: u64,
}

impl VectorStore {
    /// The store is well formed: one vector for each record, one summary for
    /// each path, no path twice, and a well-formed index.
    pub open spec fn wf(&self) -> bool {
        &&& self.vectors@.len() == self.metadata@.len()
        &&& self.document_paths@.len() == self.document_infos@.len()
        &&& no_duplicates(self.document_paths.deep_view())
        &&& self.index.wf()
    }

    /// The summaries, as entries.
    pub open spec fn entries(&self) -> Seq<(Seq<char>, InfoView)> {
        entries_of(self.document_paths@, self.document_infos@)
    }

    /// Whether a summary is kept under `path`.
    pub open spec fn has_document(&self, path: Seq<char>) -> bool {
        position_of(self.document_paths.deep_view(), path) >= 0
    }

    /// The store holds no record, no vector and no summary.
    pub open spec fn is_empty(&self) -> bool {
        &&& self.metadata@.len() == 0
        &&& self.vectors@.len() == 0
        &&& self.document_paths@.len() == 0
        &&& self.document_infos@.len() == 0
    }

    /// Number of coordinates of the vectors of `model`.
    pub fn get_dimension(model: &str) -> (d: usize)
        ensures
            d == model_dimension(model@),
    {
        EmbeddingModels::get_dimension(model)
    }

    /// An empty store for the vectors of `embedding_model`, to be kept at
    /// `store_path`.
    pub fn new(store_path: &str, embedding_model: &str) -> (store: VectorStore)
        ensures
            store.wf(),
            store.is_empty(),
            store.store_path@ == store_path@,
            store.embedding_model@ == embedding_model@,
            store.index.dimension == model_dimension(embedding_model@),
            store.index.vocabulary@.len() == 0,
            store.index.frequencies.tokens@.len() == 0,
    {
        let store = VectorStore {
            store_path: store_path.to_owned(),
            embedding_model: embedding_model.to_owned(),
            metadata: Vec::new(),
            vectors: Vec::new(),
            document_paths: Vec::new(),
            document_infos: Vec::new(),
            index: TermIndex::new(Self::get_dimension(embedding_model)),
        };
        assert(store.document_paths.deep_view() =~= Seq::<Seq<char>>::empty());
        store
    }

    /// Empties the store: records, vectors, summaries, vocabulary and
    /// document frequencies. Path, model and dimension stay.
    pub fn clear_store(&mut self)
        ensures
            final(self).wf(),
            final(self).is_empty(),
            final(self).index.vocabulary@.len() == 0,
            final(self).index.frequencies.tokens@.len() == 0,
            final(self).index.dimension == old(self).index.dimension,
            final(self).store_path == old(self).store_path,
            final(self).embedding_model == old(self).embedding_model,
    {
        self.metadata = Vec::new();
        self.vectors = Vec::new();
        self.document_paths = Vec::new();
        self.document_infos = Vec::new();
        self.index = TermIndex::new(self.index.dimension);
        assert(self.document_paths.deep_view() =~= Seq::<Seq<char>>::empty());
    }

    /// Puts `info` under `path`, in place of what stood there.
    pub fn put_document(&mut self, path: String, info: DocumentInfo)
        requires
            old(self).wf(),
        ensures
            final(self).wf(),
            final(self).entries() == upsert(old(self).entries(), path@, info@),
            final(self).metadata == old(self).metadata,
            final(self).vectors == old(self).vectors,
            final(self).index == old(self).index,
            final(self).store_path == old(self).store_path,
            final(self).embedding_model == old(self).embedding_model,
    {
        let ghost keys = self.document_paths.deep_view();
        proof {
            lemma_position_of(keys, path@);
            assert(keys_of(self.entries()) =~= keys);
        }
        match find(&self.document_paths, &path) {
            Some(at) => {
                self.document_infos.set(at, info);
                assert(self.entries() =~= upsert(old(self).entries(), path@, info@));
            },
            None => {
                self.document_paths.push(path);
                self.document_infos.push(info);
                proof {
                    assert(self.document_paths.deep_view() =~= keys.push(path@));
                    assert(self.entries() =~= upsert(old(self).entries(), path@, info@));
                }
            },
        }
    }

    /// What the store holds, with the size that it takes on disk.
    pub fn get_stats(&self, storage_size_bytes: u64) -> (stats: VectorStoreStats)
        ensures
            stats.total_vectors == self.vectors@.len(),
            stats.total_documents == self.document_paths@.len(),
            stats.embedding_model@ == self.embedding_model@,
            stats.dimension == self.index.dimension,
            stats.store_path@ == self.store_path@,
            stats.documents.deep_view() == self.document_paths.deep_view(),
            stats.storage_size_bytes == storage_size_bytes,
    {
        let mut documents: Vec<String> = Vec::new();
        let mut i: usize = 0;
        while i < self.document_paths.len()
            invariant
                i <= self.document_paths.len(),
                documents.deep_view() == self.document_paths.deep_view().take(i as int),
            decreases self.document_paths.len() - i,
        {
            let ghost before = documents.deep_view();
            documents.push(self.document_paths[i].clone());
            assert(documents.deep_view() =~= before.push(self.document_paths@[i as int]@));
            i += 1;
            assert(documents.deep_view() =~= self.document_paths.deep_view().take(i as int));
        }
        assert(self.document_paths.deep_view().take(self.document_paths.len() as int)
            =~= self.document_paths.deep_view());
        VectorStoreStats {
            total_vectors: self.vectors.len(),
            total_documents: self.document_paths.len(),
            embedding_model: self.embedding_model.clone(),
            dimension: self.index.dimension,
            store_path: self.store_path.clone(),
            documents,
            storage_size_bytes,
        }
    }
}

/// The record of chunk `j` of `doc`.
pub open spec fn record_of(doc: ProcessedDocument, j: int) -> RecordView {
    RecordView {
        file_path: doc.file_path@,
        file_name: doc.file_name@,
        file_type: doc.file_type@,
        chunk_id: doc.chunks@[j].chunk_id as nat,
        chunk_size: doc.chunks@[j].size as nat,
        text: doc.chunks@[j].text@,
    }
}

/// The records of the chunks of `doc`, in order.
pub open spec fn doc_records(doc: ProcessedDocument) -> Seq<RecordView> {
    Seq::new(doc.chunks@.len(), |j: int| record_of(doc, j))
}

/// The records of the chunks of all the documents, document after document.
pub open spec fn batch_records(docs: Seq<ProcessedDocument>) -> Seq<RecordView>
    decreases docs.len(),
{
    if docs.len() == 0 {
        seq![]
    } else {
        batch_records(docs.drop_last()) + doc_records(docs.last())
    }
}

/// The tokens of the first `n` chunks, chunk after chunk.
pub open spec fn chunk_tokens(chunks: Seq<DocumentChunk>, n: int) -> Seq<Seq<char>>
    decreases n,
{
    if n <= 0 || n > chunks.len() {
        seq![]
    } else {
        chunk_tokens(chunks, n - 1) + tokens(chunks[n - 1].text@)
    }
}

/// A document as the index reads it.
pub open spec fn doc_tokens(doc: ProcessedDocument) -> DocumentTokens {
    DocumentTokens {
        path: doc.file_path@,
        tokens: chunk_tokens(doc.chunks@, doc.chunks@.len() as int),
    }
}

/// The documents as the index reads them, in order.
pub open spec fn batch_documents(docs: Seq<ProcessedDocument>) -> Seq<DocumentTokens> {
    Seq::new(docs.len(), |i: int| doc_tokens(docs[i]))
}

/// The summary of `doc`.
pub open spec fn summary_of(doc: ProcessedDocument) -> InfoView {
    InfoView {
        file_name: doc.file_name@,
        file_type: doc.file_type@,
        num_chunks: doc.num_chunks as nat,
        file_size: doc.file_size as nat,
    }
}

/// The entries after the summary of each of the documents was put under the
/// document's path, one after the other.
pub open spec fn summarized(
    entries: Seq<(Seq<char>, InfoView)>,
    docs: Seq<ProcessedDocument>,
) -> Seq<(Seq<char>, InfoView)>
    decreases docs.len(),
{
    if docs.len() == 0 {
        entries
    } else {
        upsert(
            summarized(entries, docs.drop_last()),
            docs.last().file_path@,
            summary_of(docs.last()),
        )
    }
}

/// The entries that come of putting each of `saved` into an empty store.
pub open spec fn restored(saved: Seq<(Seq<char>, InfoView)>) -> Seq<(Seq<char>, InfoView)>
    decreases saved.len(),
{
    if saved.len() == 0 {
        seq![]
    } else {
        upsert(restored(saved.drop_last()), saved.last().0, saved.last().1)
    }
}

/// The views of saved entries.
pub open spec fn saved_entries(saved: Seq<(String, DocumentInfo)>) -> Seq<(Seq<char>, InfoView)> {
    Seq::new(saved.len(), |i: int| (saved[i].0@, saved[i].1@))
}

/// The paths of the records, in order.
pub open spec fn record_paths(records: Seq<DocumentMetadata>) -> Seq<Seq<char>> {
    Seq::new(records.len(), |i: int| records[i].file_path@)
}

/// The items whose path, which stands at the same position in `paths`, is not `path`.
pub open spec fn kept<T>(items: Seq<T>, paths: Seq<Seq<char>>, path: Seq<char>) -> Seq<T>
    decreases items.len(),
{
    if items.len() == 0 || paths.len() != items.len() {
        seq![]
    } else {
        let before = kept(items.drop_last(), paths.drop_last(), path);
        if paths.last() == path {
            before
        } else {
            before.push(items.last())
        }
    }
}

/// As many items go as there are positions with the path.
pub proof fn lemma_kept_len<T>(items: Seq<T>, paths: Seq<Seq<char>>, path: Seq<char>)
    requires
        items.len() == paths.len(),
    ensures
        kept(items, paths, path).len() + occurrences(paths, path) == items.len(),
    decreases items.len(),
{
    if items.len() > 0 {
        lemma_kept_len(items.drop_last(), paths.drop_last(), path);
    }
}

/// Entries that were saved from a store come back as they were.
pub proof fn lemma_restored_is_saved(saved: Seq<(Seq<char>, InfoView)>)
    requires
        no_duplicates(keys_of(saved)),
    ensures
        restored(saved) == saved,
    decreases saved.len(),
{
    if saved.len() > 0 {
        let before = saved.drop_last();
        assert(keys_of(before) =~= keys_of(saved).drop_last());
        lemma_restored_is_saved(before);
        lemma_position_of(keys_of(before), saved.last().0);
        assert(keys_of(saved)[saved.len() - 1] == saved.last().0);
        assert(restored(saved) =~= saved);
    }
}

/// A store that is saved and loaded again has the documents that it had:
/// putting the entries of a well-formed store into an empty one gives the same
/// entries, and so the same number of documents. The records come back as
/// they were saved, so their number is the same too.
pub proof fn lemma_saved_store_comes_back(store: VectorStore)
    requires
        store.wf(),
    ensures
        restored(store.entries()) == store.entries(),
        restored(store.entries()).len() == store.document_paths@.len(),
{
    assert(keys_of(store.entries()) =~= store.document_paths.deep_view());
    lemma_restored_is_saved(store.entries());
}

/// One result of a search: a chunk's record, its position in the store and
/// the score that it was ranked by.
#[derive(Debug, Clone)]
pub struct SearchResult {
    pub file_path: String,
    pub file_name: String,
    pub file_type: String,
    pub chunk_id: usize,
    pub chunk_size: usize,
    pub text: String,
    pub position: usize,
    pub score: i64,
}

impl SearchResult {
    /// The record that the result shows.
    pub open spec fn record(&self) -> RecordView {
        RecordView {
            file_path: self.file_path@,
            file_name: self.file_name@,
            file_type: self.file_type@,
            chunk_id: self.chunk_id as nat,
            chunk_size: self.chunk_size as nat,
            text: self.text@,
        }
    }
}

/// The positions of the results, in order.
pub open spec fn positions_of(results: Seq<SearchResult>) -> Seq<usize> {
    Seq::new(results.len(), |i: int| results[i].position)
}

/// The positions that `at_least` keeps are positions of `scores`.
pub proof fn lemma_at_least_in_range(scores: Seq<i64>, order: Seq<usize>, threshold: i64)
    ensures
        forall|j: int|
            0 <= j < at_least(scores, order, threshold).len() ==> (#[trigger] at_least(
                scores,
                order,
                threshold,
            )[j]) < scores.len(),
    decreases order.len(),
{
    if order.len() > 0 {
        lemma_at_least_in_range(scores, order.drop_last(), threshold);
        let before = at_least(scores, order.drop_last(), threshold);
        let all = at_least(scores, order, threshold);
        assert forall|j: int| 0 <= j < all.len() implies (#[trigger] all[j]) < scores.len() by {
            if j < before.len() {
                assert(all[j] == before[j]);
            }
        }
    }
}

fn copy_info(info: &DocumentInfo) -> (r: DocumentInfo)
    ensures
        r@ == info@,
{
    DocumentInfo {
        file_name: info.file_name.clone(),
        file_type: info.file_type.clone(),
        num_chunks: info.num_chunks,
        file_size: info.file_size,
    }
}

/// The records of the chunks of the documents.
fn records_of_batch(documents: &Vec<ProcessedDocument>) -> (records: Vec<DocumentMetadata>)
    ensures
        record_views(records@) == batch_records(documents@),
{
    let mut records: Vec<DocumentMetadata> = Vec::new();
    let mut i: usize = 0;
    assert(record_views(records@) =~= batch_records(documents@.take(0)));
    while i < documents.len()
        invariant
            i <= documents.len(),
            record_views(records@) == batch_records(documents@.take(i as int)),
        decreases documents.len() - i,
    {
        let doc = &documents[i];
        let ghost before = record_views(records@);
        proof {
            assert(documents@.take(i + 1).drop_last() =~= documents@.take(i as int));
            assert(documents@.take(i + 1).last() == *doc);
        }
        let mut j: usize = 0;
        assert(record_views(records@) =~= before + doc_records(*doc).take(0));
        while j < doc.chunks.len()
            invariant
                j <= doc.chunks.len(),
                record_views(records@) == before + doc_records(*doc).take(j as int),
            decreases doc.chunks.len() - j,
        {
            let chunk = &doc.chunks[j];
            let ghost so_far = record_views(records@);
            let record = DocumentMetadata {
                file_path: doc.file_path.clone(),
                file_name: doc.file_name.clone(),
                file_type: doc.file_type.clone(),
                chunk_id: chunk.chunk_id,
                chunk_size: chunk.size,
                text: chunk.text.clone(),
            };
            records.push(record);
            j += 1;
            proof {
                assert(record_views(records@) =~= so_far.push(record_of(*doc, j - 1)));
                assert(doc_records(*doc).take(j as int) =~= doc_records(*doc).take(j - 1).push(
                    record_of(*doc, j - 1),
                ));
                assert(record_views(records@) =~= before + doc_records(*doc).take(j as int));
            }
        }
        assert(doc_records(*doc).take(doc.chunks.len() as int) =~= doc_records(*doc));
        i += 1;
    }
    assert(documents@.take(documents.len() as int) =~= documents@);
    records
}

/// The documents as the index reads them.
fn tokenize_batch(documents: &Vec<ProcessedDocument>) -> (batch: Vec<TokenizedDocument>)
    ensures
        document_views(batch@) == batch_documents(documents@),
{
    let mut batch: Vec<TokenizedDocument> = Vec::new();
    let mut i: usize = 0;
    assert(document_views(batch@) =~= batch_documents(documents@).take(0));
    while i < documents.len()
        invariant
            i <= documents.len(),
            document_views(batch@) == batch_documents(documents@).take(i as int),
        decreases documents.len() - i,
    {
        let doc = &documents[i];
        let mut all: Vec<String> = Vec::new();
        let mut j: usize = 0;
        assert(all.deep_view() =~= chunk_tokens(doc.chunks@, 0));
        while j < doc.chunks.len()
            invariant
                j <= doc.chunks.len(),
                all.deep_view() == chunk_tokens(doc.chunks@, j as int),
            decreases doc.chunks.len() - j,
        {
            let ghost so_far = all.deep_view();
            let mut more = tokenize(doc.chunks[j].text.as_str());
            let ghost added = more.deep_view();
            all.append(&mut more);
            j += 1;
            assert(all.deep_view() =~= so_far + added);
        }
        let ghost before = document_views(batch@);
        batch.push(TokenizedDocument { path: doc.file_path.clone(), tokens: all });
        i += 1;
        proof {
            assert(document_views(batch@) =~= before.push(doc_tokens(*doc)));
            assert(batch_documents(documents@).take(i as int) =~= batch_documents(
                documents@,
            ).take(i - 1).push(doc_tokens(*doc)));
        }
    }
    assert(batch_documents(documents@).take(documents.len() as int) =~= batch_documents(
        documents@,
    ));
    batch
}

/// A profile for the text of each record, in a store of `stored` chunks.
fn embed_records(index: &TermIndex, records: &Vec<DocumentMetadata>, stored: usize) -> (profiles:
    Vec<TermProfile>)
    requires
        index.wf(),
    ensures
        profiles@.len() == records@.len(),
        forall|j: int|
            0 <= j < records@.len() ==> index.profile_matches(
                #[trigger] profiles@[j],
                records@[j].text@,
                stored as nat,
            ),
{
    let mut profiles: Vec<TermProfile> = Vec::new();
    let mut j: usize = 0;
    while j < records.len()
        invariant
            j <= records.len(),
            index.wf(),
            profiles@.len() == j,
            forall|m: int|
                0 <= m < j ==> index.profile_matches(
                    #[trigger] profiles@[m],
                    records@[m].text@,
                    stored as nat,
                ),
        decreases records.len() - j,
    {
        let profile = index.profile(records[j].text.as_str(), stored);
        profiles.push(profile);
        j += 1;
    }
    profiles
}

impl VectorStore {
    /// Puts the summary of each of the documents under the document's path.
    fn summarize(&mut self, documents: &Vec<ProcessedDocument>)
        requires
            old(self).wf(),
        ensures
            final(self).wf(),
            final(self).entries() == summarized(old(self).entries(), documents@),
            final(self).metadata == old(self).metadata,
            final(self).vectors == old(self).vectors,
            final(self).index == old(self).index,
            final(self).store_path == old(self).store_path,
            final(self).embedding_model == old(self).embedding_model,
    {
        let mut i: usize = 0;
        assert(documents@.take(0) =~= Seq::<ProcessedDocument>::empty());
        while i < documents.len()
            invariant
                i <= documents.len(),
                self.wf(),
                self.entries() == summarized(old(self).entries(), documents@.take(i as int)),
                self.metadata == old(self).metadata,
                self.vectors == old(self).vectors,
                self.index == old(self).index,
                self.store_path == old(self).store_path,
                self.embedding_model == old(self).embedding_model,
            decreases documents.len() - i,
        {
            let doc = &documents[i];
            proof {
                assert(documents@.take(i + 1).drop_last() =~= documents@.take(i as int));
                assert(documents@.take(i + 1).last() == *doc);
            }
            let info = DocumentInfo {
                file_name: doc.file_name.clone(),
                file_type: doc.file_type.clone(),
                num_chunks: doc.num_chunks,
                file_size: doc.file_size,
            };
            self.put_document(doc.file_path.clone(), info);
            i += 1;
        }
        assert(documents@.take(documents.len() as int) =~= documents@);
    }

    /// Adds the chunks of the documents to the store; says whether anything
    /// was added.
    ///
    /// Without a chunk among the documents nothing changes. Else the index
    /// takes in the documents as one batch; then each chunk gets a record and,
    /// at the same position, the profile of its text, made with the index as
    /// it is after the batch and the number of chunks stored before it; and
    /// each document's summary is put under its path, in place of an older one.
    /// Records that an earlier version of a document left stay.
    pub fn add_documents(&mut self, documents: Vec<ProcessedDocument>) -> (added: bool)
        requires
            old(self).wf(),
        ensures
            final(self).wf(),
            added == (batch_records(documents@).len() > 0),
            !added ==> *final(self) == *old(self),
            added ==> {
                &&& record_views(final(self).metadata@) == record_views(old(self).metadata@)
                    + batch_records(documents@)
                &&& final(self).vectors@.take(old(self).vectors@.len() as int) == old(
                    self,
                ).vectors@
                &&& forall|j: int|
                    0 <= j < batch_records(documents@).len() ==> final(self).index.profile_matches(
                        #[trigger] final(self).vectors@[old(self).metadata@.len() + j],
                        batch_records(documents@)[j].text,
                        old(self).metadata@.len() as nat,
                    )
                &&& final(self).index.dimension == old(self).index.dimension
                &&& final(self).index.vocabulary.deep_view() == grown(
                    old(self).index.vocabulary.deep_view(),
                    distinct(batch_tokens(batch_documents(documents@))),
                    old(self).index.dimension as nat,
                )
                &&& counted(
                    old(self).index.frequencies,
                    final(self).index.frequencies,
                    batch_documents(documents@),
                    distinct(batch_tokens(batch_documents(documents@))),
                )
                &&& final(self).entries() == summarized(old(self).entries(), documents@)
                &&& final(self).store_path == old(self).store_path
                &&& final(self).embedding_model == old(self).embedding_model
            },
    {
        let mut records = records_of_batch(&documents);
        if records.len() == 0 {
            return false;
        }
        let batch = tokenize_batch(&documents);
        self.index.update(&batch);
        let stored = self.metadata.len();
        let mut profiles = embed_records(&self.index, &records, stored);
        let ghost new_records = records@;
        let ghost new_profiles = profiles@;
        let ghost old_records = self.metadata@;
        self.vectors.append(&mut profiles);
        self.metadata.append(&mut records);
        proof {
            assert(record_views(self.metadata@) =~= record_views(old_records) + record_views(
                new_records,
            ));
            assert(self.vectors@.take(stored as int) =~= old(self).vectors@);
            assert forall|j: int| 0 <= j < new_records.len() implies self.index.profile_matches(
                #[trigger] self.vectors@[stored + j],
                batch_records(documents@)[j].text,
                stored as nat,
            ) by {
                assert(self.vectors@[stored + j] == new_profiles[j]);
                assert(record_views(new_records)[j].text == new_records[j].text@);
            }
        }
        self.summarize(&documents);
        true
    }

    /// Takes in what was saved of a store: the records, and the summaries
    /// with their paths. The records are kept as they are, the summaries are
    /// put in one after the other, and each record gets the profile of its
    /// text, made with the index as it is. The index does not change: a store
    /// that is loaded into a new index gets profiles without terms.
    pub fn load_store(&mut self, metadata: Vec<DocumentMetadata>, documents: Vec<
        (String, DocumentInfo),
    >)
        requires
            old(self).index.wf(),
        ensures
            final(self).wf(),
            final(self).metadata == metadata,
            final(self).entries() == restored(saved_entries(documents@)),
            forall|j: int|
                0 <= j < metadata@.len() ==> final(self).index.profile_matches(
                    #[trigger] final(self).vectors@[j],
                    metadata@[j].text@,
                    metadata@.len() as nat,
                ),
            final(self).index == old(self).index,
            final(self).store_path == old(self).store_path,
            final(self).embedding_model == old(self).embedding_model,
    {
        self.vectors = embed_records(&self.index, &metadata, metadata.len());
        self.metadata = metadata;
        self.document_paths = Vec::new();
        self.document_infos = Vec::new();
        assert(self.document_paths.deep_view() =~= Seq::<Seq<char>>::empty());
        let ghost saved = saved_entries(documents@);
        let mut i: usize = 0;
        assert(self.entries() =~= restored(saved.take(0)));
        while i < documents.len()
            invariant
                i <= documents.len(),
                self.wf(),
                saved == saved_entries(documents@),
                self.entries() == restored(saved.take(i as int)),
                self.metadata == metadata,
                self.vectors@.len() == metadata@.len(),
                forall|j: int|
                    0 <= j < metadata@.len() ==> self.index.profile_matches(
                        #[trigger] self.vectors@[j],
                        metadata@[j].text@,
                        metadata@.len() as nat,
                    ),
                self.index == old(self).index,
                self.store_path == old(self).store_path,
                self.embedding_model == old(self).embedding_model,
            decreases documents.len() - i,
        {
            proof {
                assert(saved.take(i + 1).drop_last() =~= saved.take(i as int));
                assert(saved.take(i + 1).last() == (
                    documents@[i as int].0@,
                    documents@[i as int].1@,
                ));
            }
            let info = copy_info(&documents[i].1);
            self.put_document(documents[i].0.clone(), info);
            i += 1;
        }
        assert(saved.take(documents.len() as int) =~= saved);
    }

    /// Takes the document at `file_path` out of the store; says whether
    /// there was one.
    ///
    /// For a path without a summary nothing changes. Else the records with
    /// that path go, and with each its vector, so that the records and vectors
    /// that stay are in step and in their old order; and the summary goes. The
    /// index stays as it is.
    pub fn delete_document(&mut self, file_path: &str) -> (deleted: bool)
        requires
            old(self).wf(),
        ensures
            final(self).wf(),
            deleted == old(self).has_document(file_path@),
            !deleted ==> *final(self) == *old(self),
            deleted ==> {
                &&& final(self).metadata@ == kept(
                    old(self).metadata@,
                    record_paths(old(self).metadata@),
                    file_path@,
                )
                &&& final(self).vectors@ == kept(
                    old(self).vectors@,
                    record_paths(old(self).metadata@),
                    file_path@,
                )
                &&& final(self).metadata@.len() == old(self).metadata@.len() - occurrences(
                    record_paths(old(self).metadata@),
                    file_path@,
                )
                &&& final(self).entries() == old(self).entries().remove(
                    position_of(old(self).document_paths.deep_view(), file_path@),
                )
                &&& !final(self).has_document(file_path@)
                &&& final(self).index == old(self).index
                &&& final(self).store_path == old(self).store_path
                &&& final(self).embedding_model == old(self).embedding_model
            },
    {
        let path = file_path.to_owned();
        let ghost keys = self.document_paths.deep_view();
        proof {
            lemma_position_of(keys, path@);
        }
        let at = match find(&self.document_paths, &path) {
            Some(at) => at,
            None => {
                return false;
            },
        };
        let ghost records = self.metadata@;
        let ghost vectors = self.vectors@;
        let ghost paths = record_paths(records);
        let ghost mut seen: int = 0;
        let mut i: usize = 0;
        proof {
            assert(records.take(0) =~= Seq::<DocumentMetadata>::empty());
            assert(vectors.take(0) =~= Seq::<TermProfile>::empty());
            assert(self.metadata@ =~= kept(records.take(0), paths.take(0), path@) + records.skip(
                0,
            ));
            assert(self.vectors@ =~= kept(vectors.take(0), paths.take(0), path@) + vectors.skip(0));
        }
        while i < self.metadata.len()
            invariant
                0 <= seen <= records.len(),
                records.len() == vectors.len(),
                paths == record_paths(records),
                path@ == file_path@,
                self.metadata@ == kept(records.take(seen), paths.take(seen), path@) + records.skip(
                    seen,
                ),
                self.vectors@ == kept(vectors.take(seen), paths.take(seen), path@) + vectors.skip(
                    seen,
                ),
                i == kept(records.take(seen), paths.take(seen), path@).len(),
                i == kept(vectors.take(seen), paths.take(seen), path@).len(),
                self.document_paths == old(self).document_paths,
                self.document_infos == old(self).document_infos,
                self.index == old(self).index,
                self.store_path == old(self).store_path,
                self.embedding_model == old(self).embedding_model,
            decreases self.metadata.len() - i,
        {
            proof {
                assert(self.metadata@[i as int] == records[seen]);
                assert(records.take(seen + 1).drop_last() =~= records.take(seen));
                assert(vectors.take(seen + 1).drop_last() =~= vectors.take(seen));
                assert(paths.take(seen + 1).drop_last() =~= paths.take(seen));
                assert(paths.take(seen + 1).last() == records[seen].file_path@);
            }
            if self.metadata[i].file_path == path {
                self.metadata.remove(i);
                self.vectors.remove(i);
                proof {
                    seen = seen + 1;
                    assert(self.metadata@ =~= kept(records.take(seen), paths.take(seen), path@)
                        + records.skip(seen));
                    assert(self.vectors@ =~= kept(vectors.take(seen), paths.take(seen), path@)
                        + vectors.skip(seen));
                }
            } else {
                i += 1;
                proof {
                    seen = seen + 1;
                    assert(self.metadata@ =~= kept(records.take(seen), paths.take(seen), path@)
                        + records.skip(seen));
                    assert(self.vectors@ =~= kept(vectors.take(seen), paths.take(seen), path@)
                        + vectors.skip(seen));
                }
            }
        }
        proof {
            assert(seen == records.len());
            assert(records.take(seen) =~= records);
            assert(vectors.take(seen) =~= vectors);
            assert(paths.take(seen) =~= paths);
            assert(self.metadata@ =~= kept(records, paths, path@));
            assert(self.vectors@ =~= kept(vectors, paths, path@));
            lemma_kept_len(records, paths, path@);
        }
        self.document_paths.remove(at);
        self.document_infos.remove(at);
        proof {
            let now = self.document_paths.deep_view();
            assert(now =~= keys.remove(at as int));
            assert(self.entries() =~= old(self).entries().remove(at as int));
            lemma_position_of(now, path@);
            if position_of(now, path@) >= 0 {
                let m = position_of(now, path@);
                if m < at {
                    assert(keys[m] == path@);
                } else {
                    assert(keys[m + 1] == path@);
                }
            }
        }
        true
    }

    /// The profile of a query against the store as it is.
    pub fn query_profile(&self, query: &str) -> (profile: TermProfile)
        requires
            self.wf(),
        ensures
            self.index.profile_matches(profile, query@, self.metadata@.len() as nat),
    {
        self.index.profile(query, self.metadata.len())
    }

    /// The results of a search, best first: of the `k` best-scored chunks
    /// those whose score is at least `score_threshold`. `scores` holds the
    /// score of each chunk at the chunk's position; with scores for another
    /// number of chunks than the store holds there is no result.
    pub fn search(&self, scores: &Vec<i64>, k: usize, score_threshold: i64) -> (results: Vec<
        SearchResult,
    >)
        requires
            self.wf(),
        ensures
            results@.len() <= k,
            scores@.len() != self.metadata@.len() ==> results@.len() == 0,
            scores@.len() == self.metadata@.len() ==> {
                &&& is_search_order(
                    scores@,
                    k as nat,
                    score_threshold,
                    positions_of(results@),
                )
                &&& forall|j: int|
                    0 <= j < results@.len() ==> {
                        &&& (#[trigger] results@[j]).position < self.metadata@.len()
                        &&& results@[j].record() == self.metadata@[results@[j].position as int]@
                        &&& results@[j].score == scores@[results@[j].position as int]
                    }
            },
    {
        let mut results: Vec<SearchResult> = Vec::new();
        if scores.len() != self.metadata.len() {
            return results;
        }
        let hits = rank(scores, k, score_threshold);
        proof {
            let order = choose|order: Seq<usize>|
                #[trigger] crate::ranking::is_top(scores@, k as nat, order) && hits@ == at_least(
                    scores@,
                    order,
                    score_threshold,
                );
            lemma_at_least_in_range(scores@, order, score_threshold);
        }
        let mut j: usize = 0;
        assert(positions_of(results@) =~= hits@.take(0));
        while j < hits.len()
            invariant
                j <= hits.len(),
                hits.len() <= k,
                results@.len() == j,
                scores@.len() == self.metadata@.len(),
                forall|m: int| 0 <= m < hits@.len() ==> (#[trigger] hits@[m]) < scores@.len(),
                positions_of(results@) == hits@.take(j as int),
                forall|m: int|
                    0 <= m < results@.len() ==> {
                        &&& (#[trigger] results@[m]).position < self.metadata@.len()
                        &&& results@[m].record() == self.metadata@[results@[m].position as int]@
                        &&& results@[m].score == scores@[results@[m].position as int]
                    },
            decreases hits.len() - j,
        {
            let at = hits[j];
            let record = &self.metadata[at];
            let ghost before = positions_of(results@);
            let result = SearchResult {
                file_path: record.file_path.clone(),
                file_name: record.file_name.clone(),
                file_type: record.file_type.clone(),
                chunk_id: record.chunk_id,
                chunk_size: record.chunk_size,
                text: record.text.clone(),
                position: at,
                score: scores[at],
            };
            results.push(result);
            j += 1;
            assert(positions_of(results@) =~= before.push(at));
            assert(hits@.take(j as int) =~= hits@.take(j - 1).push(at));
        }
        assert(hits@.take(hits.len() as int) =~= hits@);
        results
    }
}

} // verus!
