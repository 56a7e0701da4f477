//! What the application is configured with.

use vstd::prelude::*;
use crate::text::{decimal, from_chars, push_decimal, push_str, same_str};

verus! {

/// The settings of one running instance.
#[derive(Debug, Clone)]
pub struct AppConfig {
    pub app_name: String,
    pub app_version: String,
    pub vector_store_path: String,
    pub upload_dir: String,
    pub embedding_model: String,
    pub default_chunk_size: usize,
    pub default_chunk_overlap: usize,
    pub groq_api_key: String,
    pub server_host: String,
    pub server_port: u16,
    pub default_llm_model: String,
}

impl AppConfig {
    /// The address to listen on: the host, a colon and the port in decimal.
    pub fn server_addr(&self) -> (addr: String)
        ensures
            addr@ == self.server_host@ + seq![':'] + decimal(self.server_port as nat),
    {
        let mut out: Vec<char> = Vec::new();
        push_str(&mut out, self.server_host.as_str());
        out.push(':');
        push_decimal(&mut out, self.server_port as u64);
        assert(out@ =~= self.server_host@ + seq![':'] + decimal(self.server_port as nat));
        from_chars(&out)
    }
}

/// The embedding models that are known by name.
#[derive(Debug, Clone)]
pub struct EmbeddingModels;

/// The models whose vectors have 768 coordinates.
pub open spec fn is_wide_model(model: Seq<char>) -> bool {
    model == "all-mpnet-base-v2"@ || model == "all-distilroberta-v1"@ || model
        == "paraphrase-mpnet-base-v2"@
}

/// Number of coordinates of the vectors of `model`: 768 for the mpnet and
/// distilroberta models, 384 for the MiniLM models and for every unknown name.
pub open spec fn model_dimension(model: Seq<char>) -> nat {
    if is_wide_model(model) {
        768
    } else {
        384
    }
}

impl EmbeddingModels {
    pub const ALL_MINILM_L6_V2: &'static str = "all-MiniLM-L6-v2";

    pub const ALL_MPNET_BASE_V2: &'static str = "all-mpnet-base-v2";

    pub const ALL_DISTILROBERTA_V1: &'static str = "all-distilroberta-v1";

    pub const PARAPHRASE_MINILM_L6_V2: &'static str = "paraphrase-MiniLM-L6-v2";

    pub const PARAPHRASE_MPNET_BASE_V2: &'static str = "paraphrase-mpnet-base-v2";

    /// Number of coordinates of the vectors of `model`.
    pub fn get_dimension(model: &str) -> (d: usize)
        ensures
            d == model_dimension(model@),
    {
        if same_str(model, "all-mpnet-base-v2") || same_str(model, "all-distilroberta-v1")
            || same_str(model, "paraphrase-mpnet-base-v2") {
            768
        } else {
            384
        }
    }
}

} // verus!
