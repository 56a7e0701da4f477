use knora::models::{DocumentChunk, DocumentMetadata, ProcessedDocument};
use knora::vector_store::{DocumentInfo, VectorStore};

fn document(path: &str, chunks: &[&str]) -> ProcessedDocument {
    ProcessedDocument {
        file_path: path.to_string(),
        file_name: format!("name of {}", path),
        file_type: ".txt".to_string(),
        text: chunks.join(". "),
        chunks: chunks
            .iter()
            .enumerate()
            .map(|(i, text)| DocumentChunk { text: text.to_string(), size: text.len() + 1, chunk_id: i })
            .collect(),
        num_chunks: chunks.len(),
        file_size: 1000 + chunks.len() as u64,
    }
}

fn store() -> VectorStore {
    VectorStore::new("./data/store", "all-MiniLM-L6-v2")
}

#[test]
fn dimension_follows_the_model() {
    assert_eq!(VectorStore::get_dimension("all-MiniLM-L6-v2"), 384);
    assert_eq!(VectorStore::get_dimension("all-mpnet-base-v2"), 768);
    assert_eq!(VectorStore::get_dimension("all-distilroberta-v1"), 768);
    assert_eq!(VectorStore::get_dimension("paraphrase-MiniLM-L6-v2"), 384);
    assert_eq!(VectorStore::get_dimension("paraphrase-mpnet-base-v2"), 768);
    assert_eq!(VectorStore::get_dimension("something else"), 384);
    assert_eq!(VectorStore::new("p", "all-mpnet-base-v2").index.dimension, 768);
}

#[test]
fn new_store_is_empty() {
    let s = store();
    let stats = s.get_stats(0);
    assert_eq!(stats.total_vectors, 0);
    assert_eq!(stats.total_documents, 0);
    assert_eq!(stats.embedding_model, "all-MiniLM-L6-v2");
    assert_eq!(stats.dimension, 384);
    assert_eq!(stats.store_path, "./data/store");
    assert!(stats.documents.is_empty());
    assert!(s.search(&Vec::new(), 5, 0).is_empty());
}

#[test]
fn adding_documents_appends_records_and_vectors_in_step() {
    let mut s = store();
    assert!(s.add_documents(vec![
        document("a.txt", &["cats chase mice", "dogs chase cats"]),
        document("b.txt", &["birds sing songs"]),
    ]));
    assert_eq!(s.metadata.len(), 3);
    assert_eq!(s.vectors.len(), 3);
    let texts: Vec<&str> = s.metadata.iter().map(|m| m.text.as_str()).collect();
    assert_eq!(texts, vec!["cats chase mice", "dogs chase cats", "birds sing songs"]);
    assert_eq!(s.metadata[1].file_path, "a.txt");
    assert_eq!(s.metadata[1].chunk_id, 1);
    assert_eq!(s.metadata[1].chunk_size, 16);
    assert_eq!(s.metadata[2].file_name, "name of b.txt");
    assert_eq!(
        s.index.vocabulary,
        vec!["cats", "chase", "mice", "dogs", "birds", "sing", "songs"]
    );
    // the profiles are made with the vocabulary of the whole batch and the
    // number of chunks stored before it
    let terms: Vec<(usize, usize, Option<usize>)> =
        s.vectors[1].terms.iter().map(|t| (t.index, t.count, t.doc_frequency)).collect();
    assert_eq!(terms, vec![(3, 1, Some(1)), (1, 1, Some(1)), (0, 1, Some(1))]);
    assert_eq!(s.vectors[1].total_tokens, 3);
    assert_eq!(s.vectors[1].documents, 1);
    let stats = s.get_stats(2048);
    assert_eq!(stats.total_vectors, 3);
    assert_eq!(stats.total_documents, 2);
    assert_eq!(stats.documents, vec!["a.txt", "b.txt"]);
    assert_eq!(stats.storage_size_bytes, 2048);
}

#[test]
fn documents_without_chunks_change_nothing() {
    let mut s = store();
    assert!(!s.add_documents(vec![document("empty.txt", &[])]));
    assert!(!s.add_documents(Vec::new()));
    assert_eq!(s.metadata.len(), 0);
    assert_eq!(s.document_paths.len(), 0);
    assert!(s.index.vocabulary.is_empty());
}

#[test]
fn adding_a_document_again_replaces_its_summary_and_keeps_old_records() {
    let mut s = store();
    s.add_documents(vec![document("a.txt", &["first version text"])]);
    s.add_documents(vec![document("a.txt", &["second version text", "more second text"])]);
    assert_eq!(s.metadata.len(), 3);
    assert_eq!(s.vectors.len(), 3);
    assert_eq!(s.document_paths, vec!["a.txt"]);
    assert_eq!(s.document_infos[0].num_chunks, 2);
    assert_eq!(s.document_infos[0].file_size, 1002);
    assert_eq!(s.vectors[1].documents, 1);
}

#[test]
fn deleting_an_unknown_document_changes_nothing() {
    let mut s = store();
    s.add_documents(vec![document("a.txt", &["cats chase mice"])]);
    assert!(!s.delete_document("missing.txt"));
    assert_eq!(s.metadata.len(), 1);
    assert_eq!(s.vectors.len(), 1);
    assert_eq!(s.document_paths, vec!["a.txt"]);
}

#[test]
fn deleting_a_document_takes_its_records_and_their_vectors() {
    let mut s = store();
    s.add_documents(vec![
        document("a.txt", &["alpha one", "alpha two"]),
        document("b.txt", &["beta one"]),
        document("c.txt", &["gamma one", "gamma two"]),
    ]);
    s.add_documents(vec![document("b.txt", &["beta again"])]);
    let before: Vec<(String, usize)> =
        s.metadata.iter().zip(s.vectors.iter()).map(|(m, v)| (m.text.clone(), v.total_tokens)).collect();
    assert!(s.delete_document("b.txt"));
    assert_eq!(s.metadata.len(), 4);
    assert_eq!(s.vectors.len(), 4);
    let texts: Vec<&str> = s.metadata.iter().map(|m| m.text.as_str()).collect();
    assert_eq!(texts, vec!["alpha one", "alpha two", "gamma one", "gamma two"]);
    // each vector that stays is the one that stood with its record
    let after: Vec<(String, usize)> =
        s.metadata.iter().zip(s.vectors.iter()).map(|(m, v)| (m.text.clone(), v.total_tokens)).collect();
    let expected: Vec<(String, usize)> =
        before.into_iter().filter(|(text, _)| !text.starts_with("beta")).collect();
    assert_eq!(after, expected);
    assert_eq!(s.get_stats(0).documents, vec!["a.txt", "c.txt"]);
    // the vocabulary does not shrink
    assert!(s.index.vocabulary.contains(&"beta".to_string()));
    assert!(!s.delete_document("b.txt"));
}

#[test]
fn vectors_stay_with_their_records_through_a_delete() {
    let mut s = store();
    s.add_documents(vec![document("a.txt", &["one token"]), document("b.txt", &["three tokens here now"])]);
    s.add_documents(vec![document("c.txt", &["five tokens are here now"])]);
    assert!(s.delete_document("a.txt"));
    assert_eq!(s.metadata[0].text, "three tokens here now");
    assert_eq!(s.vectors[0].total_tokens, 4);
    assert_eq!(s.metadata[1].text, "five tokens are here now");
    assert_eq!(s.vectors[1].total_tokens, 5);
}

#[test]
fn clearing_empties_the_store_and_the_index() {
    let mut s = store();
    s.add_documents(vec![document("a.txt", &["cats chase mice"])]);
    s.clear_store();
    let stats = s.get_stats(0);
    assert_eq!(stats.total_vectors, 0);
    assert_eq!(stats.total_documents, 0);
    assert_eq!(stats.dimension, 384);
    assert!(s.metadata.is_empty());
    assert!(s.index.vocabulary.is_empty());
    assert!(s.index.frequencies.tokens.is_empty());
}

#[test]
fn search_gives_records_best_first() {
    let mut s = store();
    s.add_documents(vec![
        document("a.txt", &["alpha one", "alpha two"]),
        document("b.txt", &["beta one"]),
    ]);
    let results = s.search(&vec![10, 30, 20], 2, 0);
    assert_eq!(results.len(), 2);
    assert_eq!(results[0].text, "alpha two");
    assert_eq!(results[0].position, 1);
    assert_eq!(results[0].score, 30);
    assert_eq!(results[0].chunk_id, 1);
    assert_eq!(results[0].file_path, "a.txt");
    assert_eq!(results[1].text, "beta one");
    assert_eq!(results[1].file_name, "name of b.txt");
    // the threshold is applied after the best were chosen
    let results = s.search(&vec![10, 30, 20], 2, 25);
    assert_eq!(results.len(), 1);
    assert_eq!(results[0].position, 1);
    let results = s.search(&vec![10, 30, 20], 1, 31);
    assert!(results.is_empty());
    // scores for another number of chunks
    assert!(s.search(&vec![10, 30], 2, 0).is_empty());
}

#[test]
fn query_profile_uses_the_store_as_it_is() {
    let mut s = store();
    s.add_documents(vec![document("a.txt", &["cats chase mice", "dogs chase cats"])]);
    let profile = s.query_profile("Cats and cats");
    assert_eq!(profile.total_tokens, 3);
    assert_eq!(profile.documents, 2);
    assert_eq!(profile.terms.len(), 1);
    assert_eq!(profile.terms[0].index, 0);
    assert_eq!(profile.terms[0].count, 2);
    assert_eq!(profile.terms[0].doc_frequency, Some(1));
}

#[test]
fn saved_store_comes_back_with_its_records_and_documents() {
    let mut s = store();
    s.add_documents(vec![
        document("a.txt", &["alpha one", "alpha two"]),
        document("b.txt", &["beta one"]),
    ]);
    let saved_records: Vec<DocumentMetadata> = s.metadata.clone();
    let saved_documents: Vec<(String, DocumentInfo)> =
        s.document_paths.iter().cloned().zip(s.document_infos.iter().cloned()).collect();
    let total_documents = s.get_stats(0).total_documents;
    drop(s);
    let mut loaded = store();
    loaded.load_store(saved_records, saved_documents);
    assert_eq!(loaded.get_stats(0).total_documents, total_documents);
    assert_eq!(loaded.metadata.len(), 3);
    assert_eq!(loaded.vectors.len(), 3);
    assert_eq!(loaded.metadata[2].text, "beta one");
    assert_eq!(loaded.document_paths, vec!["a.txt", "b.txt"]);
    assert_eq!(loaded.document_infos[0].num_chunks, 2);
    // the vocabulary is not saved: the profiles of a loaded store have no terms
    assert!(loaded.index.vocabulary.is_empty());
    assert!(loaded.vectors.iter().all(|v| v.terms.is_empty()));
    assert_eq!(loaded.vectors[0].total_tokens, 2);
    assert_eq!(loaded.vectors[0].documents, 3);
}

#[test]
fn loading_puts_a_repeated_path_in_once() {
    let info = |n: usize| DocumentInfo {
        file_name: "f".to_string(),
        file_type: ".txt".to_string(),
        num_chunks: n,
        file_size: 1,
    };
    let mut s = store();
    s.load_store(
        Vec::new(),
        vec![("a".to_string(), info(1)), ("b".to_string(), info(2)), ("a".to_string(), info(3))],
    );
    assert_eq!(s.document_paths, vec!["a", "b"]);
    assert_eq!(s.document_infos[0].num_chunks, 3);
}
