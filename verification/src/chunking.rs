use std::ops::Range;
use vstd::prelude::*;

use crate::text::{byte_offset, chars_and_len, char_offsets, decimal, decimal_string, push_str, utf8_len, lemma_byte_offset_mono};

verus! {

/// A chunk of a source text: the byte range it spans, the heading path active where it
/// ends (if the chunker tracks headings) and its token count (if the chunker counts them).
#[derive(Debug, PartialEq)]
pub struct ChunkData {
    pub text_range: Range<usize>,
    pub heading_path: Option<String>,
    pub token_count: Option<usize>,
}

/// Errors reported by chunkers.
#[derive(Debug, Clone, PartialEq)]
pub enum ChunkerError {
    /// The chunker was configured with invalid parameters.
    Configuration(String),
    /// Chunking failed while processing a text.
    Processing(String),
}

pub open spec fn chunker_error_message(e: ChunkerError) -> Seq<char> {
    match e {
        ChunkerError::Configuration(m) => "Invalid chunker configuration: "@ + m@,
        ChunkerError::Processing(m) => "Chunk processing failed: "@ + m@,
    }
}

impl ChunkerError {
    /// The human-readable description of the error.
    pub fn message(&self) -> (r: String)
        ensures
            r@ == chunker_error_message(*self),
    {
        match self {
            ChunkerError::Configuration(m) => {
                let mut s = String::from_str("Invalid chunker configuration: ");
                push_str(&mut s, m.as_str());
                s
            },
            ChunkerError::Processing(m) => {
                let mut s = String::from_str("Chunk processing failed: ");
                push_str(&mut s, m.as_str());
                s
            },
        }
    }
}

/// Splits text into chunks of at most `chunk_size` characters, consecutive chunks
/// sharing `overlap_size` characters.
#[derive(Debug)]
pub struct PlainTextChunker {
    chunk_size: usize,
    overlap_size: usize,
}

/// Character spans `(start, end)` of the chunks of a text of `n` characters, beginning
/// at character `start`.
pub open spec fn plain_spans(n: int, size: int, overlap: int, start: int) -> Seq<(int, int)>
    decreases n - start,
{
    if start >= n || size <= 0 || overlap < 0 || overlap >= size {
        Seq::empty()
    } else {
        let end = if start + size <= n { start + size } else { n };
        let next = if start + size - overlap <= n { start + size - overlap } else { n };
        if next + overlap >= n {
            seq![(start, end)]
        } else {
            seq![(start, end)] + plain_spans(n, size, overlap, next)
        }
    }
}

/// The byte ranges that chunking `text` yields.
pub open spec fn plain_chunk_ranges(text: Seq<char>, size: int, overlap: int) -> Seq<(int, int)> {
    plain_spans(text.len() as int, size, overlap, 0).map_values(
        |p: (int, int)| (byte_offset(text, p.0) as int, byte_offset(text, p.1) as int),
    )
}

/// The chunks carry exactly the given byte ranges, in order.
pub open spec fn chunk_ranges_match(chunks: Seq<ChunkData>, ranges: Seq<(int, int)>) -> bool {
    &&& chunks.len() == ranges.len()
    &&& forall|i: int| 0 <= i < ranges.len() ==> (#[trigger] chunks[i]).text_range.start == ranges[i].0
        && chunks[i].text_range.end == ranges[i].1
}

pub open spec fn overlap_error_message(overlap: nat, size: nat) -> Seq<char> {
    "Overlap size ("@ + decimal(overlap) + ") must be less than chunk size ("@ + decimal(size)
        + ")"@
}

impl Clone for PlainTextChunker {
    fn clone(&self) -> (r: Self)
        ensures
            r == *self,
    {
        proof {
            use_type_invariant(self);
        }
        PlainTextChunker { chunk_size: self.chunk_size, overlap_size: self.overlap_size }
    }
}

impl PlainTextChunker {
    #[verifier::type_invariant]
    closed spec fn well_formed(self) -> bool {
        0 < self.chunk_size && self.overlap_size < self.chunk_size
    }

    pub closed spec fn spec_chunk_size(self) -> nat {
        self.chunk_size as nat
    }

    pub closed spec fn spec_overlap_size(self) -> nat {
        self.overlap_size as nat
    }

    /// Creates a chunker; the chunk size must be positive and the overlap smaller than it.
    pub fn new(chunk_size: usize, overlap_size: usize) -> (r: Result<Self, ChunkerError>)
        ensures
            chunk_size == 0 ==> r is Err && r->Err_0 is Configuration
                && chunker_error_message(r->Err_0) == "Invalid chunker configuration: "@
                + "Chunk size must be greater than 0"@,
            chunk_size > 0 && overlap_size >= chunk_size ==> r is Err && r->Err_0 is Configuration
                && chunker_error_message(r->Err_0) == "Invalid chunker configuration: "@
                + overlap_error_message(overlap_size as nat, chunk_size as nat),
            chunk_size > 0 && overlap_size < chunk_size ==> r is Ok
                && r->Ok_0.spec_chunk_size() == chunk_size
                && r->Ok_0.spec_overlap_size() == overlap_size,
    {
        if chunk_size == 0 {
            return Err(ChunkerError::Configuration(String::from_str("Chunk size must be greater than 0")));
        }
        if overlap_size >= chunk_size {
            let mut m = String::from_str("Overlap size (");
            let o = decimal_string(overlap_size);
            push_str(&mut m, o.as_str());
            push_str(&mut m, ") must be less than chunk size (");
            let c = decimal_string(chunk_size);
            push_str(&mut m, c.as_str());
            push_str(&mut m, ")");
            return Err(ChunkerError::Configuration(m));
        }
        Ok(PlainTextChunker { chunk_size, overlap_size })
    }

    /// The configured maximum chunk size, in characters.
    pub fn chunk_size(&self) -> (r: usize)
        ensures
            r == self.spec_chunk_size(),
    {
        self.chunk_size
    }

    /// The configured overlap, in characters.
    pub fn overlap_size(&self) -> (r: usize)
        ensures
            r == self.spec_overlap_size(),
    {
        self.overlap_size
    }

    /// Splits `source_text` into chunks of at most `chunk_size` characters; each chunk
    /// after the first starts `chunk_size - overlap_size` characters after the previous
    /// one, and chunking stops once the rest of the text lies within the overlap.
    pub fn chunk(&self, source_text: &str) -> (r: Result<Vec<ChunkData>, ChunkerError>)
        ensures
            r is Ok,
            chunk_ranges_match(
                r->Ok_0@,
                plain_chunk_ranges(source_text@, self.spec_chunk_size() as int, self.spec_overlap_size() as int),
            ),
            forall|i: int| 0 <= i < r->Ok_0.len() ==> (#[trigger] r->Ok_0[i]).heading_path is None
                && r->Ok_0[i].token_count is None,
    {
        proof {
            use_type_invariant(self);
        }
        let size = self.chunk_size;
        let overlap = self.overlap_size;
        let stride = size - overlap;
        let (chars, _len) = chars_and_len(source_text);
        let offs = char_offsets(&chars);
        let n = chars.len();
        let ghost text = source_text@;
        let ghost full = plain_spans(n as int, size as int, overlap as int, 0);
        let ghost mut done: Seq<(int, int)> = Seq::empty();
        let mut chunks: Vec<ChunkData> = Vec::new();
        let mut start: usize = 0;
        while start < n
            invariant_except_break
                done + plain_spans(n as int, size as int, overlap as int, start as int) == full,
            invariant
                n == chars.len(),
                chars@ == text,
                offs.len() == n + 1,
                forall|i: int| 0 <= i <= n ==> offs[i] == byte_offset(text, i),
                0 < size,
                overlap < size,
                stride == size - overlap,
                start <= n,
                full == plain_spans(n as int, size as int, overlap as int, 0),
                chunks.len() == done.len(),
                forall|i: int| 0 <= i < done.len() ==> {
                    &&& (#[trigger] chunks[i]).text_range.start == byte_offset(text, done[i].0)
                    &&& chunks[i].text_range.end == byte_offset(text, done[i].1)
                    &&& chunks[i].heading_path is None
                    &&& chunks[i].token_count is None
                },
            ensures
                done == full,
            decreases n - start,
        {
            let end: usize = if size <= n - start { start + size } else { n };
            let next: usize = if stride <= n - start { start + stride } else { n };
            chunks.push(ChunkData { text_range: offs[start]..offs[end], heading_path: None, token_count: None });
            proof {
                done = done.push((start as int, end as int));
            }
            if overlap >= n - next {
                assert(done == full);
                break;
            }
            proof {
                assert(done + plain_spans(n as int, size as int, overlap as int, next as int) == full);
            }
            start = next;
        }
        proof {
            assert(done == full);
        }
        Ok(chunks)
    }
}

/// The chunking extension.
#[derive(Debug, Clone, Copy)]
pub struct Chunkers;

impl Chunkers {
    pub fn name(&self) -> (r: &'static str)
        ensures
            r@ == "chunkers"@,
    {
        "chunkers"
    }

    pub fn description(&self) -> (r: &'static str)
        ensures
            r@ == "Chunking extension"@,
    {
        "Chunking extension"
    }

    /// The chunker the extension offers: plain text, 2000 characters a chunk, 200 of
    /// overlap.
    pub fn chunker(&self) -> (r: PlainTextChunker)
        ensures
            r.spec_chunk_size() == 2000,
            r.spec_overlap_size() == 200,
    {
        match PlainTextChunker::new(2000, 200) {
            Ok(c) => c,
            Err(_) => {
                assert(false);
                PlainTextChunker { chunk_size: 2000, overlap_size: 200 }
            },
        }
    }
}

/// Shape of the spans produced from character `start` on.
proof fn lemma_plain_spans(n: int, size: int, overlap: int, start: int)
    requires
        0 < size,
        0 <= overlap < size,
        0 <= start,
    ensures
        ({
            let s = plain_spans(n, size, overlap, start);
            &&& start >= n ==> s.len() == 0
            &&& start < n ==> s.len() > 0 && s[0].0 == start && s[s.len() - 1].1 == n
            &&& forall|i: int| 0 <= i < s.len() ==> start <= (#[trigger] s[i]).0 < s[i].1 <= n
                && s[i].1 - s[i].0 <= size
            &&& forall|i: int| 0 <= i < s.len() - 1 ==> (#[trigger] s[i + 1]).0 == s[i].0 + size - overlap
                && s[i].1 == s[i].0 + size
        }),
    decreases n - start,
{
    if start < n {
        let next = if start + size - overlap <= n { start + size - overlap } else { n };
        if next + overlap < n {
            lemma_plain_spans(n, size, overlap, next);
            let s = plain_spans(n, size, overlap, start);
            let rest = plain_spans(n, size, overlap, next);
            assert(s == seq![(start, start + size)] + rest);
            assert forall|i: int| 0 <= i < s.len() - 1 implies (#[trigger] s[i + 1]).0 == s[i].0 + size
                - overlap && s[i].1 == s[i].0 + size by {
                assert(s[i + 1] == rest[i]);
                if i > 0 {
                    let j = i - 1;
                    assert(s[i] == rest[j]);
                    assert(rest[j + 1] == rest[i]);
                }
            }
            assert forall|i: int| 0 <= i < s.len() implies start <= (#[trigger] s[i]).0 < s[i].1 <= n
                && s[i].1 - s[i].0 <= size by {
                if i > 0 {
                    assert(s[i] == rest[i - 1]);
                }
            }
        }
    }
}

/// Chunking covers the whole text: an empty text gives no chunk, and otherwise the
/// first chunk starts at the first byte and the last chunk ends at the last byte.
pub proof fn law_plain_chunks_cover_text(text: Seq<char>, chunk_size: int, overlap_size: int)
    requires
        0 < chunk_size,
        0 <= overlap_size < chunk_size,
    ensures
        ({
            let r = plain_chunk_ranges(text, chunk_size, overlap_size);
            &&& text.len() == 0 ==> r.len() == 0
            &&& text.len() > 0 ==> r.len() > 0 && r[0].0 == 0 && r[r.len() - 1].1 == utf8_len(text)
        }),
{
    lemma_plain_spans(text.len() as int, chunk_size, overlap_size, 0);
    assert(text.take(0) =~= Seq::<char>::empty());
    assert(text.take(text.len() as int) =~= text);
}

/// Every chunk holds at least one and at most `chunk_size` characters, and chunks follow
/// the text in order.
pub proof fn law_plain_chunk_sizes(text: Seq<char>, chunk_size: int, overlap_size: int)
    requires
        0 < chunk_size,
        0 <= overlap_size < chunk_size,
    ensures
        ({
            let s = plain_spans(text.len() as int, chunk_size, overlap_size, 0);
            &&& plain_chunk_ranges(text, chunk_size, overlap_size).len() == s.len()
            &&& forall|i: int| 0 <= i < s.len() ==> 0 <= (#[trigger] s[i]).0 < s[i].1 <= text.len()
                && s[i].1 - s[i].0 <= chunk_size
            &&& forall|i: int| 0 <= i < s.len() ==> (#[trigger] plain_chunk_ranges(text, chunk_size, overlap_size)[i])
                == (byte_offset(text, s[i].0) as int, byte_offset(text, s[i].1) as int)
        }),
{
    lemma_plain_spans(text.len() as int, chunk_size, overlap_size, 0);
}

/// Consecutive chunks share exactly `overlap_size` characters: every chunk but the last
/// is full, and the next one starts `chunk_size - overlap_size` characters later.
pub proof fn law_plain_chunk_overlap(text: Seq<char>, chunk_size: int, overlap_size: int)
    requires
        0 < chunk_size,
        0 <= overlap_size < chunk_size,
    ensures
        ({
            let s = plain_spans(text.len() as int, chunk_size, overlap_size, 0);
            forall|i: int| 0 <= i < s.len() - 1 ==> (#[trigger] s[i + 1]).0 == s[i].0 + chunk_size
                - overlap_size && s[i].1 - s[i + 1].0 == overlap_size
        }),
{
    lemma_plain_spans(text.len() as int, chunk_size, overlap_size, 0);
}

} // verus!
