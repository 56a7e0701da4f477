//! The records that pass between the parts of the engine.

use vstd::prelude::*;

verus! {

/// One chunk of a document's text.
#[derive(Debug, Clone)]
pub struct DocumentChunk {
    pub text: String,
    /// The size that the chunker counted for the chunk, in bytes.
    pub size: usize,
    /// Position of the chunk within its document, from 0.
    pub chunk_id: usize,
}

/// A file after extraction and chunking.
#[derive(Debug, Clone)]
pub struct ProcessedDocument {
    pub file_path: String,
    pub file_name: String,
    /// The extension in lower case, with its dot.
    pub file_type: String,
    pub text: String,
    pub chunks: Vec<DocumentChunk>,
    pub num_chunks: usize,
    pub file_size: u64,
}

/// What the store keeps of one chunk. The records of all documents stand in
/// one sequence, in the order in which they were added.
#[derive(Debug, Clone)]
pub struct DocumentMetadata {
    pub file_path: String,
    pub file_name: String,
    pub file_type: String,
    pub chunk_id: usize,
    pub chunk_size: usize,
    pub text: String,
}

/// A request to process the file at `file_path`.
#[derive(Debug)]
pub struct ProcessFileRequest {
    pub file_path: String,
    pub chunk_size: Option<usize>,
    pub chunk_overlap: Option<usize>,
}

/// The answer to a `ProcessFileRequest`.
#[derive(Debug)]
pub struct ProcessFileResponse {
    pub success: bool,
    pub message: String,
    pub document: Option<ProcessedDocument>,
}

/// Counters of a cache.
#[derive(Debug, Clone)]
pub struct CacheStats {
    pub size: usize,
    pub max_size: usize,
    pub hits: usize,
    pub misses: usize,
    pub hit_rate: String,
}

/// A language model that answers can be asked of.
#[derive(Debug, Clone)]
pub struct LLMModel {
    pub id: String,
    pub name: String,
    pub max_tokens: usize,
}

impl LLMModel {
    /// The model has this id, this name and this limit.
    pub open spec fn is(&self, id: Seq<char>, name: Seq<char>, max_tokens: nat) -> bool {
        self.id@ == id && self.name@ == name && self.max_tokens == max_tokens
    }
}

fn model(id: &str, name: &str, max_tokens: usize) -> (m: LLMModel)
    ensures
        m.is(id@, name@, max_tokens as nat),
{
    LLMModel { id: id.to_owned(), name: name.to_owned(), max_tokens }
}

/// The language models on offer, the default one first.
pub fn get_supported_models() -> (models: Vec<LLMModel>)
    ensures
        models@.len() == 5,
        models@[0].is("openai/gpt-oss-120b"@, "OpenAI GPT-OSS 120B"@, 8192),
        models@[1].is("llama-3.1-70b-versatile"@, "LLaMA 3.1 70B Versatile"@, 8192),
        models@[2].is("llama-3.1-8b-instant"@, "LLaMA 3.1 8B Instant"@, 8192),
        models@[3].is("mixtral-8x7b-32768"@, "Mixtral 8x7B"@, 32768),
        models@[4].is("gemma2-9b-it"@, "Gemma2 9B IT"@, 8192),
{
    let mut models: Vec<LLMModel> = Vec::new();
    models.push(model("openai/gpt-oss-120b", "OpenAI GPT-OSS 120B", 8192));
    models.push(model("llama-3.1-70b-versatile", "LLaMA 3.1 70B Versatile", 8192));
    models.push(model("llama-3.1-8b-instant", "LLaMA 3.1 8B Instant", 8192));
    models.push(model("mixtral-8x7b-32768", "Mixtral 8x7B", 32768));
    models.push(model("gemma2-9b-it", "Gemma2 9B IT", 8192));
    models
}

} // verus!
