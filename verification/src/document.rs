use vstd::prelude::*;

use crate::text::{push_char, push_str};

verus! {

/// Where a document's metadata is stored.
#[derive(Debug, Clone, Copy, PartialEq, Eq, Structural)]
pub enum MetadataLocation {
    SourceFile,
    MetadataFile,
    /// The document has no metadata.
    Nowhere,
    /// Used while a document is opened, until the actual location is known.
    Unknown,
}

impl MetadataLocation {
    /// Replaces `Unknown` by `location`; a known location stays.
    pub fn update_unknown(&mut self, location: MetadataLocation)
        ensures
            *old(self) == MetadataLocation::Unknown ==> *final(self) == location,
            *old(self) != MetadataLocation::Unknown ==> *final(self) == *old(self),
    {
        if *self == MetadataLocation::Unknown {
            *self = location;
        }
    }
}

impl Default for MetadataLocation {
    /// Metadata is in the source file unless stated otherwise.
    fn default() -> (r: Self)
        ensures
            r == MetadataLocation::SourceFile,
    {
        MetadataLocation::SourceFile
    }
}

/// Whether a metadata location is the default one, and so need not be written.
pub fn is_default(value: &MetadataLocation) -> (r: bool)
    ensures
        r == (*value == MetadataLocation::SourceFile),
{
    *value == MetadataLocation::default()
}

/// Index of a chunk in a vector store: chunker, text part and position.
#[derive(Debug, Clone, PartialEq, Eq, Hash)]
pub struct ChunkIdx {
    chunker_id: String,
    text_part_id: String,
    chunk_idx: usize,
}

impl ChunkIdx {
    pub fn new(chunker_id: String, text_part_id: String, chunk_idx: usize) -> (r: Self)
        ensures
            r.spec_chunker_id() == chunker_id@,
            r.spec_text_part_id() == text_part_id@,
            r.spec_chunk_idx() == chunk_idx,
    {
        ChunkIdx { chunker_id, text_part_id, chunk_idx }
    }

    pub closed spec fn spec_chunker_id(self) -> Seq<char> {
        self.chunker_id@
    }

    pub closed spec fn spec_text_part_id(self) -> Seq<char> {
        self.text_part_id@
    }

    pub closed spec fn spec_chunk_idx(self) -> usize {
        self.chunk_idx
    }

    pub fn chunker_id(&self) -> (r: &str)
        ensures
            r@ == self.spec_chunker_id(),
    {
        self.chunker_id.as_str()
    }

    pub fn text_part_id(&self) -> (r: &str)
        ensures
            r@ == self.spec_text_part_id(),
    {
        self.text_part_id.as_str()
    }

    pub fn chunk_idx(&self) -> (r: usize)
        ensures
            r == self.spec_chunk_idx(),
    {
        self.chunk_idx
    }
}

/// Why a chunk could not be looked up.
#[derive(Debug)]
pub enum GetChunkError {
    /// No text part with this id.
    NoSuchTextPart(String),
    /// The chunk cache of this chunker is not loaded.
    CacheNotLoaded(String),
    /// This chunker has not chunked this text part (chunker id, text part id).
    TextPartNotChunked(String, String),
    /// No chunk at this position (chunker id, text part id, position).
    ChunkIdxOutOfBounds(String, String, usize),
}

pub open spec fn get_chunk_error_message(e: GetChunkError) -> Seq<char> {
    match e {
        GetChunkError::NoSuchTextPart(p) => "No such text part in document: '"@ + p@ + "'"@,
        GetChunkError::CacheNotLoaded(c) => "Cache not loaded for chunker '"@ + c@ + "'"@,
        GetChunkError::TextPartNotChunked(c, p) => "Text part not found for chunker '"@ + c@
            + "' and text part '"@ + p@ + "'"@,
        GetChunkError::ChunkIdxOutOfBounds(c, p, i) => "Chunk index "@ + crate::text::decimal(
            i as nat,
        ) + " out of bounds for chunker '"@ + c@ + "' and text part '"@ + p@ + "'"@,
    }
}

impl GetChunkError {
    /// The human-readable description of the error.
    pub fn message(&self) -> (r: String)
        ensures
            r@ == get_chunk_error_message(*self),
    {
        match self {
            GetChunkError::NoSuchTextPart(p) => {
                let mut s = String::from_str("No such text part in document: '");
                push_str(&mut s, p.as_str());
                push_str(&mut s, "'");
                s
            },
            GetChunkError::CacheNotLoaded(c) => {
                let mut s = String::from_str("Cache not loaded for chunker '");
                push_str(&mut s, c.as_str());
                push_str(&mut s, "'");
                s
            },
            GetChunkError::TextPartNotChunked(c, p) => {
                let mut s = String::from_str("Text part not found for chunker '");
                push_str(&mut s, c.as_str());
                push_str(&mut s, "' and text part '");
                push_str(&mut s, p.as_str());
                push_str(&mut s, "'");
                s
            },
            GetChunkError::ChunkIdxOutOfBounds(c, p, i) => {
                let mut s = String::from_str("Chunk index ");
                let n = crate::text::decimal_string(*i);
                push_str(&mut s, n.as_str());
                push_str(&mut s, " out of bounds for chunker '");
                push_str(&mut s, c.as_str());
                push_str(&mut s, "' and text part '");
                push_str(&mut s, p.as_str());
                push_str(&mut s, "'");
                s
            },
        }
    }
}

/// Metadata of a workspace.
#[derive(Debug, Clone)]
pub struct WorkspaceMetadata {
    foo: String,
}

impl WorkspaceMetadata {
    pub fn new(foo: String) -> (r: Self)
        ensures
            r.spec_foo() == foo@,
    {
        WorkspaceMetadata { foo }
    }

    pub closed spec fn spec_foo(self) -> Seq<char> {
        self.foo@
    }
}

} // verus!
