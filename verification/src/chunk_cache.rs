use vstd::prelude::*;

use crate::chunking::ChunkData;
use crate::hashing::{sha256, TextHash};
use crate::md_chunker::chunk_span;
use crate::text::{byte_slice, str_eq, str_get};
use crate::text_parts::Part;

verus! {

/// What is cached of one chunk of a text part: the chunk, the hash of its text, and the
/// embeddings computed for it, by embedder id.
#[derive(Debug)]
pub struct ChunkCache<E> {
    pub chunk: ChunkData,
    pub hash: TextHash,
    pub embeddings: Vec<(String, E)>,
}

/// The text of chunk `c` of `content`.
pub open spec fn chunk_text(content: Seq<char>, c: ChunkData) -> Seq<char> {
    byte_slice(content, c.text_range.start as int, c.text_range.end as int)->0
}

/// The hash of the text of chunk `c` of `content`.
pub open spec fn chunk_hash(content: Seq<char>, c: ChunkData) -> Seq<u8> {
    sha256(vstd::utf8::encode_utf8(chunk_text(content, c)))
}

/// Every chunk's range lies on character boundaries of `content`.
pub open spec fn ranges_valid(content: Seq<char>, chunks: Seq<ChunkData>) -> bool {
    forall|i: int|
        0 <= i < chunks.len() ==> byte_slice(
            content,
            (#[trigger] chunks[i]).text_range.start as int,
            chunks[i].text_range.end as int,
        ) is Some
}

/// The entry cached at `i` still describes chunk `c` of `content`.
pub open spec fn still_valid<E>(old: Seq<ChunkCache<E>>, i: int, content: Seq<char>, c: ChunkData) -> bool {
    &&& 0 <= i < old.len()
    &&& chunk_span(old[i].chunk) == chunk_span(c)
    &&& old[i].hash.spec_value() == chunk_hash(content, c)
}

/// `new` is the cache of the chunks `chunks` of `content`, built from `old`: one entry per
/// chunk, in order; an entry that still describes its chunk keeps its embeddings, any
/// other starts without embeddings.
pub open spec fn cache_refreshed<E>(
    old: Seq<ChunkCache<E>>,
    new: Seq<ChunkCache<E>>,
    content: Seq<char>,
    chunks: Seq<ChunkData>,
) -> bool {
    &&& new.len() == chunks.len()
    &&& forall|i: int|
        0 <= i < chunks.len() ==> {
            &&& chunk_span((#[trigger] new[i]).chunk) == chunk_span(chunks[i])
            &&& new[i].hash.spec_value() == chunk_hash(content, chunks[i])
            &&& if still_valid(old, i, content, chunks[i]) {
                new[i].embeddings@ == old[i].embeddings@
            } else {
                new[i].embeddings@.len() == 0
            }
        }
}

/// Whether two chunks are equal: same range, heading path and token count.
pub fn same_chunk(a: &ChunkData, b: &ChunkData) -> (r: bool)
    ensures
        r == (chunk_span(*a) == chunk_span(*b)),
{
    if a.text_range.start != b.text_range.start || a.text_range.end != b.text_range.end {
        return false;
    }
    let same_heading = match (&a.heading_path, &b.heading_path) {
        (None, None) => true,
        (Some(x), Some(y)) => str_eq(x.as_str(), y.as_str()),
        _ => false,
    };
    if !same_heading {
        return false;
    }
    match (a.token_count, b.token_count) {
        (None, None) => true,
        (Some(x), Some(y)) => x == y,
        _ => false,
    }
}

impl Part {
    /// Brings the cached chunks of this part up to date with `chunks`, what chunking its
    /// content gave: the cache gets one entry per chunk; an entry whose chunk and hash are
    /// unchanged keeps its embeddings, any other is replaced by one without embeddings.
    pub fn validate_cached_chunks<E>(&self, chunks: Vec<ChunkData>, cached_chunks: &mut Vec<ChunkCache<E>>)
        requires
            ranges_valid(self.spec_content(), chunks@),
        ensures
            cache_refreshed(old(cached_chunks)@, final(cached_chunks)@, self.spec_content(), chunks@),
    {
        let content = self.content();
        let ghost old_cache = cached_chunks@;
        let ghost all = chunks@;
        let n = chunks.len();
        let ghost m: int = if old_cache.len() <= n { old_cache.len() as int } else { n as int };
        cached_chunks.truncate(n);
        let mut chunks = chunks;
        let mut idx: usize = 0;
        assert(all.skip(0) =~= all);
        while idx < n
            invariant
                n == all.len(),
                idx <= n,
                content@ == self.spec_content(),
                ranges_valid(content@, all),
                chunks@ == all.skip(idx as int),
                m == (if old_cache.len() <= n { old_cache.len() as int } else { n as int }),
                cached_chunks@.len() == if idx <= m { m } else { idx as int },
                forall|i: int| idx <= i < cached_chunks@.len() ==> #[trigger] cached_chunks@[i] == old_cache[i],
                forall|i: int|
                    0 <= i < idx ==> {
                        &&& chunk_span((#[trigger] cached_chunks@[i]).chunk) == chunk_span(all[i])
                        &&& cached_chunks@[i].hash.spec_value() == chunk_hash(content@, all[i])
                        &&& if still_valid(old_cache, i, content@, all[i]) {
                            cached_chunks@[i].embeddings@ == old_cache[i].embeddings@
                        } else {
                            cached_chunks@[i].embeddings@.len() == 0
                        }
                    },
            decreases n - idx,
        {
            let chunk = chunks.remove(0);
            assert(chunks@ =~= all.skip(idx as int + 1));
            assert(chunk == all[idx as int]);
            let piece = str_get(content, chunk.text_range.start, chunk.text_range.end);
            match piece {
                Some(text) => {
                    let hash = TextHash::of_str(text.as_str());
                    let ghost before = cached_chunks@;
                    if idx < cached_chunks.len() {
                        let keep = same_chunk(&cached_chunks[idx].chunk, &chunk) && cached_chunks[idx].hash.same(&hash);
                        if !keep {
                            cached_chunks.set(idx, ChunkCache { chunk, hash, embeddings: Vec::new() });
                        }
                        proof {
                            assert forall|i: int| idx < i < cached_chunks@.len() implies #[trigger] cached_chunks@[i]
                                == old_cache[i] by {
                                assert(cached_chunks@[i] == before[i]);
                            }
                        }
                    } else {
                        cached_chunks.push(ChunkCache { chunk, hash, embeddings: Vec::new() });
                    }
                    proof {
                        assert forall|i: int| 0 <= i < idx implies (#[trigger] cached_chunks@[i]) == before[i] by {}
                    }
                },
                None => {
                    proof {
                        assert(false);
                    }
                },
            }
            idx = idx + 1;
        }
    }
}

/// Bringing a cache up to date twice with the same chunks of the same text keeps, the
/// second time, every chunk's data and embeddings: nothing is computed again.
pub proof fn law_refresh_keeps_embeddings<E>(
    old: Seq<ChunkCache<E>>,
    mid: Seq<ChunkCache<E>>,
    new: Seq<ChunkCache<E>>,
    content: Seq<char>,
    chunks: Seq<ChunkData>,
)
    requires
        cache_refreshed(old, mid, content, chunks),
        cache_refreshed(mid, new, content, chunks),
    ensures
        new.len() == mid.len(),
        forall|i: int|
            0 <= i < new.len() ==> (#[trigger] new[i]).embeddings@ == mid[i].embeddings@ && chunk_span(new[i].chunk)
                == chunk_span(mid[i].chunk) && new[i].hash.spec_value() == mid[i].hash.spec_value(),
{
    assert forall|i: int| 0 <= i < new.len() implies (#[trigger] new[i]).embeddings@ == mid[i].embeddings@ by {
        assert(still_valid(mid, i, content, chunks[i]));
    }
}

/// After a refresh, an entry carries embeddings only where the text of its chunk is what
/// the old entry was hashed from: same place, same hash. An entry whose text changed starts
/// with no embeddings; one whose chunk and text are unchanged keeps them.
pub proof fn law_embeddings_follow_text<E>(
    old: Seq<ChunkCache<E>>,
    new: Seq<ChunkCache<E>>,
    content: Seq<char>,
    chunks: Seq<ChunkData>,
)
    requires
        cache_refreshed(old, new, content, chunks),
    ensures
        forall|i: int|
            0 <= i < new.len() && (#[trigger] new[i]).embeddings@.len() > 0 ==> {
                &&& i < old.len()
                &&& old[i].hash.spec_value() == new[i].hash.spec_value()
                &&& new[i].hash.spec_value() == chunk_hash(content, chunks[i])
                &&& chunk_span(old[i].chunk) == chunk_span(chunks[i])
                &&& new[i].embeddings@ == old[i].embeddings@
            },
        forall|i: int|
            0 <= i < new.len() && i < old.len() && old[i].hash.spec_value() != chunk_hash(content, chunks[i])
                ==> (#[trigger] new[i]).embeddings@.len() == 0,
        forall|i: int|
            0 <= i < new.len() && i < old.len() && old[i].hash.spec_value() == chunk_hash(content, chunks[i])
                && chunk_span(old[i].chunk) == chunk_span(chunks[i]) ==> (#[trigger] new[i]).embeddings@ == old[i].embeddings@,
{
    assert forall|i: int| 0 <= i < new.len() && (#[trigger] new[i]).embeddings@.len() > 0 implies {
        &&& i < old.len()
        &&& old[i].hash.spec_value() == new[i].hash.spec_value()
        &&& new[i].hash.spec_value() == chunk_hash(content, chunks[i])
        &&& chunk_span(old[i].chunk) == chunk_span(chunks[i])
        &&& new[i].embeddings@ == old[i].embeddings@
    } by {
        assert(chunk_span(new[i].chunk) == chunk_span(chunks[i]));
    }
}

} // verus!
