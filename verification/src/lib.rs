//! Markhor: document chunking, retrieval bookkeeping and model-API plumbing
//! for Markdown-based knowledge management, with verified contracts.

pub mod text;
pub mod cli;
pub mod chunking;
pub mod markdown;
pub mod md_chunker;
pub mod token_chunking;
pub mod document;
pub mod text_parts;
pub mod plugin;
pub mod scope;
pub mod gemini;
pub mod gemini_config;
pub mod prompter;
pub mod ocr;
pub mod references;
pub mod hashing;
pub mod vector_store;
pub mod gemini_chat;
pub mod chat_gemini;
pub mod chunk_cache;
pub mod storage;
pub mod keyed;
pub mod derive_attrs;
