//! Document ingestion and retrieval: text extraction from file contents, chunking,
//! a term-weighted index over the chunks, and ranking of search results.

pub mod text;
pub mod models;
pub mod config;
pub mod processor;
pub mod pdf;
pub mod chunker;
pub mod chunk_runs;
pub mod xml;
pub mod markdown;
pub mod json;
pub mod tabular;
pub mod archive;
pub mod index;
pub mod ranking;
pub mod vector_store;
pub mod upload;
