use vstd::prelude::*;

use crate::document::ChunkIdx;
use crate::hashing::TextHash;
use crate::scope::PrelimFilter;

verus! {

/// Identifies a version of a document: its id and the hash of its content.
#[derive(Debug, Clone)]
pub struct DocVersionId {
    pub id: u128,
    pub hash: TextHash,
    /// Used to filter by scope; not part of the identity.
    pub filter: PrelimFilter,
}

pub open spec fn version_key(d: DocVersionId) -> (u128, Seq<u8>) {
    (d.id, d.hash.spec_value())
}

/// A chunk's place: chunker, text part and position.
pub type ChunkKey = (Seq<char>, Seq<char>, usize);

pub open spec fn chunk_key(i: ChunkIdx) -> ChunkKey {
    (i.spec_chunker_id(), i.spec_text_part_id(), i.spec_chunk_idx())
}

/// A row of a view's chunk listing: document, hash, chunk place and vector index.
pub open spec fn row_view(r: (u128, TextHash, ChunkIdx, usize)) -> (u128, TextHash, ChunkKey, usize) {
    (r.0, r.1, chunk_key(r.2), r.3)
}

pub open spec fn rows_view(v: Seq<(u128, TextHash, ChunkIdx, usize)>) -> Seq<(u128, TextHash, ChunkKey, usize)> {
    v.map_values(|r: (u128, TextHash, ChunkIdx, usize)| row_view(r))
}

/// The rows of one document's chunks.
pub open spec fn rows_of(id: u128, hash: TextHash, list: Seq<(ChunkKey, usize)>) -> Seq<(u128, TextHash, ChunkKey, usize)> {
    list.map_values(|e: (ChunkKey, usize)| (id, hash, e.0, e.1))
}

/// The chunks of the documents `view` lists, document after document, each document's
/// chunks in their stored order.
pub open spec fn view_rows(lists: Seq<Seq<(ChunkKey, usize)>>, view: Seq<(u128, TextHash, usize)>) -> Seq<
    (u128, TextHash, ChunkKey, usize),
>
    decreases view.len(),
{
    if view.len() == 0 {
        Seq::empty()
    } else {
        let d = view.last();
        view_rows(lists, view.drop_last()) + rows_of(d.0, d.1, lists[d.2 as int])
    }
}

/// A chunk of a stored document: where it comes from and which vector embeds it.
#[derive(Debug, Clone)]
pub struct ChunkEntry {
    pub idx: ChunkIdx,
    pub vector_idx: usize,
}

/// Embeddings of document chunks, each distinct text embedded once. `V` is the vector
/// type. The stored versions and the vector index are kept as vectors of entries with no
/// key twice (the type invariant), looked up by a scan: their keys are 32-byte digests
/// (with a 128-bit id for versions), which no integer key can stand for.
pub struct VectorData<V> {
    /// Stored document versions and the index of their chunk list; no version twice.
    docs: Vec<(u128, TextHash, usize)>,
    doc_chunks: Vec<Vec<ChunkEntry>>,
    vectors: Vec<V>,
    /// Text hash of each stored vector and its index; no hash twice.
    vector_hashes: Vec<(TextHash, usize)>,
}

pub open spec fn doc_keys(docs: Seq<(u128, TextHash, usize)>) -> Seq<(u128, Seq<u8>)> {
    docs.map_values(|d: (u128, TextHash, usize)| (d.0, d.1.spec_value()))
}

impl<V> VectorData<V> {
    /// The store is consistent: no version or text hash twice, every index in range.
    #[verifier::type_invariant]
    spec fn wf(self) -> bool {
        &&& forall|i: int, j: int|
            0 <= i < j < self.docs@.len() ==> (#[trigger] doc_keys(self.docs@)[i]) != (#[trigger] doc_keys(self.docs@)[j])
        &&& forall|i: int| 0 <= i < self.docs@.len() ==> (#[trigger] self.docs@[i]).2 < self.doc_chunks@.len()
        &&& forall|i: int, j: int|
            0 <= i < self.doc_chunks@.len() && 0 <= j < self.doc_chunks@[i]@.len() ==> (#[trigger] self.doc_chunks@[i]@[j]).vector_idx
                < self.vectors@.len()
        &&& forall|i: int, j: int|
            0 <= i < j < self.vector_hashes@.len() ==> (#[trigger] self.vector_hashes@[i]).0.spec_value()
                != (#[trigger] self.vector_hashes@[j]).0.spec_value()
        &&& forall|i: int| 0 <= i < self.vector_hashes@.len() ==> (#[trigger] self.vector_hashes@[i]).1 < self.vectors@.len()
    }

    /// The stored document versions, each with the index of its chunk list.
    pub closed spec fn spec_docs(self) -> Map<(u128, Seq<u8>), int> {
        Map::new(
            |k: (u128, Seq<u8>)| exists|i: int| 0 <= i < self.docs@.len() && doc_keys(self.docs@)[i] == k,
            |k: (u128, Seq<u8>)| {
                let i = choose|i: int| 0 <= i < self.docs@.len() && doc_keys(self.docs@)[i] == k;
                self.docs@[i].2 as int
            },
        )
    }

    /// The stored versions, each with the index of its chunk list, in the order stored.
    pub closed spec fn spec_stored(self) -> Seq<(u128, TextHash, usize)> {
        self.docs@
    }

    /// The stored vectors, in order of insertion.
    pub closed spec fn spec_vectors(self) -> Seq<V> {
        self.vectors@
    }

    /// The index of the vector stored for each text hash.
    pub closed spec fn spec_vector_index(self) -> Map<Seq<u8>, int> {
        Map::new(
            |h: Seq<u8>| exists|i: int| 0 <= i < self.vector_hashes@.len() && self.vector_hashes@[i].0.spec_value() == h,
            |h: Seq<u8>| {
                let i = choose|i: int| 0 <= i < self.vector_hashes@.len() && self.vector_hashes@[i].0.spec_value() == h;
                self.vector_hashes@[i].1 as int
            },
        )
    }

    /// Both hold the same documents and chunk lists.
    pub closed spec fn same_docs(self, other: Self) -> bool {
        self.docs@ == other.docs@ && self.doc_chunks@ == other.doc_chunks@
    }

    /// Each chunk list: the place of each chunk and the index of its vector.
    pub closed spec fn spec_chunk_lists(self) -> Seq<Seq<(ChunkKey, usize)>> {
        self.doc_chunks@.map_values(
            |c: Vec<ChunkEntry>| c@.map_values(|e: ChunkEntry| (chunk_key(e.idx), e.vector_idx)),
        )
    }

    /// Chunk counts of the chunk lists.
    pub closed spec fn spec_chunk_lens(self) -> Seq<int> {
        self.doc_chunks@.map_values(|c: Vec<ChunkEntry>| c@.len() as int)
    }

    pub fn new() -> (r: Self)
        ensures
            r.spec_docs() == Map::<(u128, Seq<u8>), int>::empty(),
            r.spec_vectors() == Seq::<V>::empty(),
            r.spec_vector_index() == Map::<Seq<u8>, int>::empty(),
            r.spec_chunk_lens() == Seq::<int>::empty(),
    {
        let r = VectorData { docs: Vec::new(), doc_chunks: Vec::new(), vectors: Vec::new(), vector_hashes: Vec::new() };
        assert(r.spec_docs() =~= Map::<(u128, Seq<u8>), int>::empty());
        assert(r.spec_vector_index() =~= Map::<Seq<u8>, int>::empty());
        assert(r.spec_chunk_lens() =~= Seq::<int>::empty());
        r
    }

    fn find_doc(&self, id: u128, hash: &TextHash) -> (r: Option<usize>)
        requires
            self.wf(),
        ensures
            r matches Some(i) ==> i < self.docs@.len() && doc_keys(self.docs@)[i as int] == (id, hash.spec_value()),
            r is None ==> forall|i: int| 0 <= i < self.docs@.len() ==> doc_keys(self.docs@)[i] != (id, hash.spec_value()),
    {
        let mut i: usize = 0;
        while i < self.docs.len()
            invariant
                i <= self.docs@.len(),
                forall|k: int| 0 <= k < i ==> doc_keys(self.docs@)[k] != (id, hash.spec_value()),
            decreases self.docs.len() - i,
        {
            let d = &self.docs[i];
            if d.0 == id && d.1.same(hash) {
                return Some(i);
            }
            i = i + 1;
        }
        None
    }

    /// Whether the version `doc` is stored.
    pub fn contains_doc(&self, doc: &DocVersionId) -> (r: bool)
        ensures
            r == self.spec_docs().dom().contains(version_key(*doc)),
    {
        proof {
            use_type_invariant(&*self);
        }
        let r = self.find_doc(doc.id, &doc.hash);
        proof {
            if r is None && self.spec_docs().dom().contains(version_key(*doc)) {
                let i = choose|i: int| 0 <= i < self.docs@.len() && doc_keys(self.docs@)[i] == version_key(*doc);
                assert(doc_keys(self.docs@)[i] != version_key(*doc));
            }
            if let Some(i) = r {
                assert(doc_keys(self.docs@)[i as int] == version_key(*doc));
            }
        }
        r.is_some()
    }

    /// The index of the vector stored for `hash`, storing `vector` for it first if none is.
    pub fn insert_vector(&mut self, hash: TextHash, vector: V) -> (r: usize)
        ensures
            (final(self).spec_vector_index(), final(self).spec_vectors(), r as int) == stored_vector(
                old(self).spec_vector_index(),
                old(self).spec_vectors(),
                hash.spec_value(),
                vector,
            ),
            final(self).spec_docs() == old(self).spec_docs(),
            final(self).spec_chunk_lens() == old(self).spec_chunk_lens(),
            final(self).same_docs(*old(self)),
            r < final(self).spec_vectors().len(),
    {
        proof {
            use_type_invariant(&*self);
        }
        let mut i: usize = 0;
        while i < self.vector_hashes.len()
            invariant
                i <= self.vector_hashes@.len(),
                self.wf(),
                *self == *old(self),
                forall|k: int| 0 <= k < i ==> self.vector_hashes@[k].0.spec_value() != hash.spec_value(),
            decreases self.vector_hashes.len() - i,
        {
            if self.vector_hashes[i].0.same(&hash) {
                let idx = self.vector_hashes[i].1;
                proof {
                    let h = hash.spec_value();
                    let j = choose|j: int| 0 <= j < self.vector_hashes@.len() && self.vector_hashes@[j].0.spec_value() == h;
                    if j != i {
                        if j < i {
                            assert(self.vector_hashes@[j].0.spec_value() != self.vector_hashes@[i as int].0.spec_value());
                        } else {
                            assert(self.vector_hashes@[i as int].0.spec_value() != self.vector_hashes@[j].0.spec_value());
                        }
                    }
                }
                return idx;
            }
            i = i + 1;
        }
        let idx = self.vectors.len();
        let ghost old_index = self.spec_vector_index();
        let ghost old_hashes = self.vector_hashes@;
        let mut data = VectorData::new();
        std::mem::swap(&mut data, self);
        proof {
            use_type_invariant(&data);
        }
        let VectorData { docs, doc_chunks, mut vectors, mut vector_hashes } = data;
        vectors.push(vector);
        vector_hashes.push((hash, idx));
        *self = VectorData { docs, doc_chunks, vectors, vector_hashes };
        proof {
            let h = hash.spec_value();
            assert(!old_index.dom().contains(h)) by {
                if old_index.dom().contains(h) {
                    let j = choose|j: int| 0 <= j < old_hashes.len() && old_hashes[j].0.spec_value() == h;
                    assert(old_hashes[j].0.spec_value() != h);
                }
            }
            assert forall|k: Seq<u8>| #[trigger] self.spec_vector_index().dom().contains(k) == old_index.insert(h, idx as int).dom().contains(k) by {
                if k == h {
                    assert(self.vector_hashes@[old_hashes.len() as int].0.spec_value() == h);
                } else if old_index.dom().contains(k) {
                    let j = choose|j: int| 0 <= j < old_hashes.len() && old_hashes[j].0.spec_value() == k;
                    assert(self.vector_hashes@[j] == old_hashes[j]);
                } else if self.spec_vector_index().dom().contains(k) {
                    let j = choose|j: int| 0 <= j < self.vector_hashes@.len() && self.vector_hashes@[j].0.spec_value() == k;
                    assert(j < old_hashes.len());
                    assert(old_hashes[j] == self.vector_hashes@[j]);
                }
            }
            assert forall|k: Seq<u8>| #[trigger] self.spec_vector_index().dom().contains(k) implies self.spec_vector_index()[k] == old_index.insert(h, idx as int)[k] by {
                let j = choose|j: int| 0 <= j < self.vector_hashes@.len() && self.vector_hashes@[j].0.spec_value() == k;
                if k == h {
                    if j < old_hashes.len() {
                        assert(old_hashes[j] == self.vector_hashes@[j]);
                    }
                } else {
                    assert(j < old_hashes.len());
                    let j2 = choose|j2: int| 0 <= j2 < old_hashes.len() && old_hashes[j2].0.spec_value() == k;
                    assert(old_hashes[j2] == self.vector_hashes@[j2]);
                    if j != j2 {
                        if j < j2 {
                            assert(self.vector_hashes@[j].0.spec_value() != self.vector_hashes@[j2].0.spec_value());
                        } else {
                            assert(self.vector_hashes@[j2].0.spec_value() != self.vector_hashes@[j].0.spec_value());
                        }
                    }
                }
            }
            assert(self.spec_vector_index() =~= old_index.insert(h, idx as int));
            assert(self.spec_docs() =~= old(self).spec_docs());
        }
        idx
    }

    /// Stores document version `doc` with its chunks (position, text hash, vector), each
    /// vector stored once per text hash; a version stored before is replaced.
    pub fn insert_doc(&mut self, doc: DocVersionId, chunks: Vec<(ChunkIdx, TextHash, V)>)
        ensures
            final(self).spec_docs() == old(self).spec_docs().insert(
                version_key(doc),
                old(self).spec_chunk_lens().len() as int,
            ),
            final(self).spec_chunk_lens() == old(self).spec_chunk_lens().push(chunks@.len() as int),
            old(self).spec_vectors().is_prefix_of(final(self).spec_vectors()),
            forall|h: Seq<u8>| #[trigger] old(self).spec_vector_index().dom().contains(h) ==> final(self).spec_vector_index().dom().contains(h)
                && final(self).spec_vector_index()[h] == old(self).spec_vector_index()[h],
            forall|i: int| 0 <= i < chunks@.len() ==> final(self).spec_vector_index().dom().contains(
                (#[trigger] chunks@[i]).1.spec_value(),
            ),
            final(self).spec_chunk_lists() == old(self).spec_chunk_lists().push(
                chunk_list_of(chunks@, final(self).spec_vector_index()),
            ),
            forall|i: int|
                0 <= i < chunks@.len() ==> 0 <= final(self).spec_vector_index()[(#[trigger] chunks@[i]).1.spec_value()]
                    < final(self).spec_vectors().len(),
            forall|i: int|
                0 <= i < chunks@.len() && first_new_hash(chunks@, old(self).spec_vector_index(), i)
                    ==> final(self).spec_vectors()[final(self).spec_vector_index()[(#[trigger] chunks@[i]).1.spec_value()]]
                    == chunks@[i].2,
    {
        proof {
            use_type_invariant(&*self);
        }
        let mut entries: Vec<ChunkEntry> = Vec::new();
        let mut chunks = chunks;
        let ghost all = chunks@;
        let ghost start = *self;
        let n = chunks.len();
        let mut i: usize = 0;
        assert(all.skip(0) =~= all);
        while i < n
            invariant
                self.wf(),
                n == all.len(),
                i <= n,
                chunks@ == all.skip(i as int),
                entries@.len() == i,
                forall|k: int| 0 <= k < i ==> (#[trigger] entries@[k]).vector_idx < self.vectors@.len(),
                self.spec_docs() == start.spec_docs(),
                self.spec_chunk_lens() == start.spec_chunk_lens(),
                self.same_docs(start),
                start.spec_vectors().is_prefix_of(self.spec_vectors()),
                forall|h: Seq<u8>| #[trigger] start.spec_vector_index().dom().contains(h) ==> self.spec_vector_index().dom().contains(h)
                    && self.spec_vector_index()[h] == start.spec_vector_index()[h],
                forall|k: int| 0 <= k < i ==> self.spec_vector_index().dom().contains((#[trigger] all[k]).1.spec_value()),
                forall|k: int| 0 <= k < i ==> (#[trigger] entries@[k]).idx == all[k].0,
                forall|k: int| 0 <= k < i ==> (#[trigger] entries@[k]).vector_idx as int == self.spec_vector_index()[all[k].1.spec_value()],
                forall|h: Seq<u8>| #[trigger] self.spec_vector_index().dom().contains(h) ==> start.spec_vector_index().dom().contains(h)
                    || exists|j: int| 0 <= j < i && (#[trigger] all[j]).1.spec_value() == h,
                forall|h: Seq<u8>| #[trigger] self.spec_vector_index().dom().contains(h) ==> 0 <= self.spec_vector_index()[h] < self.spec_vectors().len(),
                forall|k: int| 0 <= k < i && first_new_hash(all, start.spec_vector_index(), k) ==> self.spec_vectors()[self.spec_vector_index()[(#[trigger] all[k]).1.spec_value()]] == all[k].2,
            decreases n - i,
        {
            let (cidx, hash, vector) = chunks.remove(0);
            assert((cidx, hash, vector) == all[i as int]);
            assert(chunks@ =~= all.skip(i + 1));
            let ghost before = *self;
            let vi = self.insert_vector(hash, vector);
            proof {
                use_type_invariant(&*self);
            }
            entries.push(ChunkEntry { idx: cidx, vector_idx: vi });
            proof {
                let h = hash.spec_value();
                let bi = before.spec_vector_index();
                let bv = before.spec_vectors();
                assert(all[i as int].1.spec_value() == h);
                assert forall|k: int| 0 <= k < i + 1 implies self.spec_vector_index().dom().contains((#[trigger] all[k]).1.spec_value()) by {
                    if k < i {
                        assert(before.spec_vector_index().dom().contains(all[k].1.spec_value()));
                    }
                }
                assert forall|k: int| 0 <= k < i + 1 implies (#[trigger] entries@[k]).idx == all[k].0 by {}
                assert forall|k: int| 0 <= k < i + 1 implies (#[trigger] entries@[k]).vector_idx as int == self.spec_vector_index()[all[k].1.spec_value()] by {
                    if k < i {
                        assert(bi.dom().contains(all[k].1.spec_value()));
                    }
                }
                assert forall|g: Seq<u8>| #[trigger] self.spec_vector_index().dom().contains(g) implies start.spec_vector_index().dom().contains(g)
                    || exists|j: int| 0 <= j < i + 1 && (#[trigger] all[j]).1.spec_value() == g by {
                    if g == h {
                        assert(all[i as int].1.spec_value() == g);
                    } else {
                        assert(bi.dom().contains(g));
                        if !start.spec_vector_index().dom().contains(g) {
                            let j = choose|j: int| 0 <= j < i && (#[trigger] all[j]).1.spec_value() == g;
                            assert(all[j].1.spec_value() == g);
                        }
                    }
                }
                assert forall|g: Seq<u8>| #[trigger] self.spec_vector_index().dom().contains(g) implies 0 <= self.spec_vector_index()[g] < self.spec_vectors().len() by {
                    if g != h || bi.dom().contains(h) {
                        assert(bi.dom().contains(g));
                    }
                }
                assert forall|k: int| 0 <= k < i + 1 && first_new_hash(all, start.spec_vector_index(), k) implies self.spec_vectors()[self.spec_vector_index()[(#[trigger] all[k]).1.spec_value()]] == all[k].2 by {
                    if k < i {
                        let hk = all[k].1.spec_value();
                        assert(bi.dom().contains(hk));
                        assert(self.spec_vector_index()[hk] == bi[hk]);
                        assert(0 <= bi[hk] < bv.len());
                        assert(self.spec_vectors()[bi[hk]] == bv[bi[hk]]);
                    } else {
                        if bi.dom().contains(h) {
                            assert(!start.spec_vector_index().dom().contains(h));
                            let j = choose|j: int| 0 <= j < i && (#[trigger] all[j]).1.spec_value() == h;
                            assert(all[j].1.spec_value() != all[k].1.spec_value());
                        }
                        assert(vector == all[i as int].2);
                    }
                }
            }
            i = i + 1;
        }
        let doc_idx = self.doc_chunks.len();
        proof {
            use_type_invariant(&*self);
        }
        let found = self.find_doc(doc.id, &doc.hash);
        let ghost before_push = *self;
        let ghost old_docs = self.docs@;
        let ghost ents = entries@;
        let mut data = VectorData::new();
        std::mem::swap(&mut data, self);
        let VectorData { mut docs, mut doc_chunks, vectors, vector_hashes } = data;
        doc_chunks.push(entries);
        match found {
            Some(j) => {
                let (id, hash, _) = docs.remove(j);
                docs.insert(j, (id, hash, doc_idx));
                assert(doc_keys(docs@) =~= doc_keys(old_docs));
            },
            None => {
                docs.push((doc.id, doc.hash, doc_idx));
                assert(doc_keys(docs@) =~= doc_keys(old_docs).push(version_key(doc)));
            },
        }
        *self = VectorData { docs, doc_chunks, vectors, vector_hashes };
        assert(self.spec_chunk_lens() =~= before_push.spec_chunk_lens().push(n as int));
        proof {
            assert(all.take(n as int) =~= all);
            assert(self.spec_vector_index() == before_push.spec_vector_index());
            assert(self.spec_vectors() == before_push.spec_vectors());
            let lst = self.doc_chunks@.last()@.map_values(|e: ChunkEntry| (chunk_key(e.idx), e.vector_idx));
            assert(lst =~= chunk_list_of(all, self.spec_vector_index())) by {
                assert forall|k: int| 0 <= k < n implies lst[k] == chunk_list_of(all, self.spec_vector_index())[k] by {
                    assert(self.doc_chunks@.last()@ == ents);
                    assert(ents[k].idx == all[k].0);
                    assert(ents[k].vector_idx as int == self.spec_vector_index()[all[k].1.spec_value()]);
                }
            }
            assert(self.spec_chunk_lists() =~= before_push.spec_chunk_lists().push(lst));
        }
        match found {
            Some(j) => {
                proof {
                    assert(self.spec_docs() =~= before_push.spec_docs().insert(version_key(doc), doc_idx as int)) by {
                        assert forall|k| #[trigger] self.spec_docs().dom().contains(k) implies self.spec_docs()[k] == before_push.spec_docs().insert(version_key(doc), doc_idx as int)[k] by {
                            let a = choose|a: int| 0 <= a < self.docs@.len() && doc_keys(self.docs@)[a] == k;
                            if a != j {
                                if k == version_key(doc) {
                                    if a < j {
                                        assert(doc_keys(old_docs)[a] != doc_keys(old_docs)[j as int]);
                                    } else {
                                        assert(doc_keys(old_docs)[j as int] != doc_keys(old_docs)[a]);
                                    }
                                }
                                let b = choose|b: int| 0 <= b < old_docs.len() && doc_keys(old_docs)[b] == k;
                                if a != b {
                                    if a < b {
                                        assert(doc_keys(old_docs)[a] != doc_keys(old_docs)[b]);
                                    } else {
                                        assert(doc_keys(old_docs)[b] != doc_keys(old_docs)[a]);
                                    }
                                }
                            }
                        }
                    }
                }
            },
            None => {
                proof {
                    assert(self.spec_docs() =~= before_push.spec_docs().insert(version_key(doc), doc_idx as int)) by {
                        assert forall|k| #[trigger] self.spec_docs().dom().contains(k) == before_push.spec_docs().insert(version_key(doc), doc_idx as int).dom().contains(k) by {
                            if k != version_key(doc) && self.spec_docs().dom().contains(k) {
                                let a = choose|a: int| 0 <= a < self.docs@.len() && doc_keys(self.docs@)[a] == k;
                                assert(a < old_docs.len());
                            }
                            if before_push.spec_docs().dom().contains(k) {
                                let a = choose|a: int| 0 <= a < old_docs.len() && doc_keys(old_docs)[a] == k;
                                assert(doc_keys(self.docs@)[a] == k);
                            }
                            if k == version_key(doc) {
                                assert(doc_keys(self.docs@)[old_docs.len() as int] == k);
                            }
                        }
                        assert forall|k| #[trigger] self.spec_docs().dom().contains(k) implies self.spec_docs()[k] == before_push.spec_docs().insert(version_key(doc), doc_idx as int)[k] by {
                            let a = choose|a: int| 0 <= a < self.docs@.len() && doc_keys(self.docs@)[a] == k;
                            if k == version_key(doc) {
                                if a < old_docs.len() {
                                    assert(doc_keys(old_docs)[a] == k);
                                }
                            } else {
                                assert(a < old_docs.len());
                                let b = choose|b: int| 0 <= b < old_docs.len() && doc_keys(old_docs)[b] == k;
                                if a != b {
                                    if a < b {
                                        assert(doc_keys(old_docs)[a] != doc_keys(old_docs)[b]);
                                    } else {
                                        assert(doc_keys(old_docs)[b] != doc_keys(old_docs)[a]);
                                    }
                                }
                            }
                        }
                    }
                }
            },
        }
    }

    /// The stored versions among `doc_ids`, each with its chunk list, when all are stored;
    /// else the ones missing, in order.
    pub fn select(&self, doc_ids: &Vec<(u128, TextHash)>) -> (r: Result<Vec<(u128, TextHash, usize)>, Vec<(u128, TextHash)>>)
        ensures
            r is Ok <==> forall|i: int| 0 <= i < doc_ids@.len() ==> self.spec_docs().dom().contains(
                ((#[trigger] doc_ids@[i]).0, doc_ids@[i].1.spec_value()),
            ),
            r matches Ok(v) ==> v@.len() == doc_ids@.len() && forall|i: int| 0 <= i < v@.len() ==> {
                &&& (#[trigger] v@[i]).0 == doc_ids@[i].0
                &&& v@[i].1 == doc_ids@[i].1
                &&& v@[i].2 == self.spec_docs()[(doc_ids@[i].0, doc_ids@[i].1.spec_value())]
            },
            r matches Err(m) ==> key_seq(m@) == key_seq(doc_ids@).filter(
                |k: (u128, Seq<u8>)| !self.spec_docs().dom().contains(k),
            ),
    {
        proof {
            use_type_invariant(&*self);
        }
        let mut results: Vec<(u128, TextHash, usize)> = Vec::new();
        let mut missing: Vec<(u128, TextHash)> = Vec::new();
        let mut i: usize = 0;
        let ghost docs = self.spec_docs();
        let ghost keys = key_seq(doc_ids@);
        assert(keys.take(0) =~= Seq::<(u128, Seq<u8>)>::empty());
        proof {
            reveal(Seq::filter);
            assert(key_seq(missing@) =~= keys.take(0).filter(|k: (u128, Seq<u8>)| !docs.dom().contains(k)));
        }
        while i < doc_ids.len()
            invariant
                self.wf(),
                docs == self.spec_docs(),
                keys == key_seq(doc_ids@),
                i <= doc_ids@.len(),
                key_seq(missing@) == keys.take(i as int).filter(|k: (u128, Seq<u8>)| !docs.dom().contains(k)),
                missing@.len() == 0 ==> results@.len() == i,
                missing@.len() == 0 ==> forall|k: int| 0 <= k < i ==> docs.dom().contains(#[trigger] keys[k]),
                missing@.len() == 0 ==> forall|k: int| 0 <= k < i ==> {
                    &&& (#[trigger] results@[k]).0 == doc_ids@[k].0
                    &&& results@[k].1 == doc_ids@[k].1
                    &&& results@[k].2 == docs[keys[k]]
                },
                missing@.len() > 0 ==> exists|k: int| 0 <= k < i && !docs.dom().contains(#[trigger] keys[k]),
            decreases doc_ids.len() - i,
        {
            let (id, hash) = doc_ids[i];
            assert(keys.take(i + 1).drop_last() =~= keys.take(i as int));
            assert(keys[i as int] == (id, hash.spec_value()));
            match self.find_doc(id, &hash) {
                Some(j) => {
                    let idx = self.docs[j].2;
                    proof {
                        let k = (id, hash.spec_value());
                        assert(doc_keys(self.docs@)[j as int] == k);
                        let a = choose|a: int| 0 <= a < self.docs@.len() && doc_keys(self.docs@)[a] == k;
                        if a != j {
                            if a < j {
                                assert(doc_keys(self.docs@)[a] != doc_keys(self.docs@)[j as int]);
                            } else {
                                assert(doc_keys(self.docs@)[j as int] != doc_keys(self.docs@)[a]);
                            }
                        }
                    }
                    results.push((id, hash, idx));
                    proof {
                        assert(keys.take(i + 1).filter(|k: (u128, Seq<u8>)| !docs.dom().contains(k)) =~= keys.take(i as int).filter(
                            |k: (u128, Seq<u8>)| !docs.dom().contains(k),
                        )) by {
                            reveal(Seq::filter);
                            assert(keys.take(i + 1) =~= keys.take(i as int).push(keys[i as int]));
                        }
                    }
                },
                None => {
                    proof {
                        let k = (id, hash.spec_value());
                        if docs.dom().contains(k) {
                            let a = choose|a: int| 0 <= a < self.docs@.len() && doc_keys(self.docs@)[a] == k;
                            assert(doc_keys(self.docs@)[a] != k);
                        }
                    }
                    let ghost mbefore = missing@;
                    missing.push((id, hash));
                    proof {
                        reveal(Seq::filter);
                        assert(keys.take(i + 1) =~= keys.take(i as int).push(keys[i as int]));
                        assert(key_seq(missing@) =~= key_seq(mbefore).push(keys[i as int]));
                    }
                },
            }
            i = i + 1;
        }
        assert(keys.take(doc_ids@.len() as int) =~= keys);
        proof {
            assert forall|k: int| 0 <= k < doc_ids@.len() implies keys[k] == (
                doc_ids@[k].0,
                doc_ids@[k].1.spec_value(),
            ) by {}
        }
        if missing.len() == 0 {
            assert(forall|k: int| 0 <= k < doc_ids@.len() ==> self.spec_docs().dom().contains(
                ((#[trigger] doc_ids@[k]).0, doc_ids@[k].1.spec_value()),
            )) by {
                assert forall|k: int| 0 <= k < doc_ids@.len() implies self.spec_docs().dom().contains(
                    ((#[trigger] doc_ids@[k]).0, doc_ids@[k].1.spec_value()),
                ) by {
                    assert(docs.dom().contains(keys[k]));
                }
            }
            Ok(results)
        } else {
            proof {
                let k = choose|k: int| 0 <= k < i && !docs.dom().contains(#[trigger] keys[k]);
                assert(keys[k] == (doc_ids@[k].0, doc_ids@[k].1.spec_value()));
            }
            Err(missing)
        }
    }

    /// Every stored version with its chunk list.
    pub fn all_docs(&self) -> (r: Vec<(u128, TextHash, usize)>)
        ensures
            forall|i: int| 0 <= i < r@.len() ==> self.spec_docs().dom().contains(((#[trigger] r@[i]).0, r@[i].1.spec_value()))
                && self.spec_docs()[(r@[i].0, r@[i].1.spec_value())] == r@[i].2,
            forall|k| #[trigger] self.spec_docs().dom().contains(k) ==> exists|i: int| 0 <= i < r@.len() && (r@[i].0, r@[i].1.spec_value()) == k,
    {
        proof {
            use_type_invariant(&*self);
        }
        let mut r: Vec<(u128, TextHash, usize)> = Vec::new();
        let mut j: usize = 0;
        while j < self.docs.len()
            invariant
                j <= self.docs@.len(),
                r@ == self.docs@.take(j as int),
            decreases self.docs.len() - j,
        {
            let d = self.docs[j];
            r.push(d);
            assert(self.docs@.take(j + 1) =~= self.docs@.take(j as int).push(d));
            j = j + 1;
        }
        assert(self.docs@.take(j as int) =~= self.docs@);
        proof {
            assert forall|i: int| 0 <= i < r@.len() implies self.spec_docs().dom().contains(((#[trigger] r@[i]).0, r@[i].1.spec_value()))
                && self.spec_docs()[(r@[i].0, r@[i].1.spec_value())] == r@[i].2 by {
                let k = (r@[i].0, r@[i].1.spec_value());
                assert(doc_keys(self.docs@)[i] == k);
                let a = choose|a: int| 0 <= a < self.docs@.len() && doc_keys(self.docs@)[a] == k;
                if a != i {
                    if a < i {
                        assert(doc_keys(self.docs@)[a] != doc_keys(self.docs@)[i]);
                    } else {
                        assert(doc_keys(self.docs@)[i] != doc_keys(self.docs@)[a]);
                    }
                }
            }
            assert forall|k| #[trigger] self.spec_docs().dom().contains(k) implies exists|i: int| 0 <= i < r@.len() && (r@[i].0, r@[i].1.spec_value()) == k by {
                let a = choose|a: int| 0 <= a < self.docs@.len() && doc_keys(self.docs@)[a] == k;
                assert((r@[a].0, r@[a].1.spec_value()) == k);
            }
        }
        r
    }

    /// Stores each document version of `batch` with its chunks, in order, as `insert_doc`
    /// does.
    pub fn insert_docs(&mut self, batch: Vec<(DocVersionId, Vec<(ChunkIdx, TextHash, V)>)>)
        ensures
            final(self).spec_docs() == docs_inserted(old(self).spec_docs(), old(self).spec_chunk_lens().len() as int, batch@),
            final(self).spec_chunk_lens() == old(self).spec_chunk_lens() + batch@.map_values(
                |e: (DocVersionId, Vec<(ChunkIdx, TextHash, V)>)| e.1@.len() as int,
            ),
            old(self).spec_vectors().is_prefix_of(final(self).spec_vectors()),
    {
        proof {
            use_type_invariant(&*self);
        }
        let ghost all = batch@;
        let ghost start = *self;
        let mut batch = batch;
        let n = batch.len();
        let mut i: usize = 0;
        let ghost lens = |e: (DocVersionId, Vec<(ChunkIdx, TextHash, V)>)| e.1@.len() as int;
        assert(all.skip(0) =~= all);
        assert(all.take(0).map_values(lens) =~= Seq::<int>::empty());
        assert(start.spec_chunk_lens() + Seq::<int>::empty() =~= start.spec_chunk_lens());
        while i < n
            invariant
                self.wf(),
                n == all.len(),
                i <= n,
                batch@ == all.skip(i as int),
                docs_inserted(self.spec_docs(), self.spec_chunk_lens().len() as int, all.skip(i as int)) == docs_inserted(
                    start.spec_docs(),
                    start.spec_chunk_lens().len() as int,
                    all,
                ),
                self.spec_chunk_lens() == start.spec_chunk_lens() + all.take(i as int).map_values(lens),
                start.spec_vectors().is_prefix_of(self.spec_vectors()),
                lens == (|e: (DocVersionId, Vec<(ChunkIdx, TextHash, V)>)| e.1@.len() as int),
            decreases n - i,
        {
            let (doc, chunks) = batch.remove(0);
            assert(batch@ =~= all.skip(i + 1));
            assert((doc, chunks) == all[i as int]);
            assert(all.skip(i as int).drop_first() =~= all.skip(i + 1));
            let ghost before = *self;
            self.insert_doc(doc, chunks);
            proof {
                use_type_invariant(&*self);
            }
            assert(all.take(i + 1).map_values(lens) =~= all.take(i as int).map_values(lens).push(lens(all[i as int])));
            assert(self.spec_chunk_lens() =~= start.spec_chunk_lens() + all.take(i + 1).map_values(lens));
            proof {
                assert(before.spec_vectors().is_prefix_of(self.spec_vectors()));
                assert(start.spec_vectors().is_prefix_of(self.spec_vectors())) by {
                    assert forall|k: int| 0 <= k < start.spec_vectors().len() implies start.spec_vectors()[k] == self.spec_vectors()[k] by {
                        assert(start.spec_vectors()[k] == before.spec_vectors()[k]);
                    }
                }
            }
            i = i + 1;
        }
        assert(all.take(n as int) =~= all);
        assert(all.skip(n as int) =~= Seq::<(DocVersionId, Vec<(ChunkIdx, TextHash, V)>)>::empty());
    }

    /// Keeps, of `docs` (id and hash of each), the versions that are stored, in order.
    pub fn retain_missing_docs(&self, docs: &mut Vec<(u128, TextHash)>)
        ensures
            key_seq(final(docs)@) == key_seq(old(docs)@).filter(|k: (u128, Seq<u8>)| self.spec_docs().dom().contains(k)),
    {
        proof {
            use_type_invariant(&*self);
        }
        let ghost all = docs@;
        let ghost keys = key_seq(all);
        let ghost present = |k: (u128, Seq<u8>)| self.spec_docs().dom().contains(k);
        let mut idx: usize = 0;
        let mut j: usize = 0;
        let n = docs.len();
        proof {
            reveal(Seq::filter);
        }
        assert(keys.take(0).filter(present) =~= Seq::<(u128, Seq<u8>)>::empty());
        assert(docs@.skip(0) =~= all.skip(0));
        while j < n
            invariant
                self.wf(),
                n == all.len(),
                keys == key_seq(all),
                present == (|k: (u128, Seq<u8>)| self.spec_docs().dom().contains(k)),
                j <= n,
                idx <= j,
                docs@.len() == idx + (n - j),
                key_seq(docs@.take(idx as int)) == keys.take(j as int).filter(present),
                docs@.skip(idx as int) == all.skip(j as int),
            decreases n - j,
        {
            let ghost before = docs@;
            assert(docs@[idx as int] == all[j as int]) by {
                assert(docs@.skip(idx as int)[0] == all.skip(j as int)[0]);
            }
            let d = docs[idx];
            let keep = self.contains_doc(&DocVersionId { id: d.0, hash: d.1, filter: PrelimFilter {} });
            proof {
                reveal(Seq::filter);
                assert(keys.take(j + 1) =~= keys.take(j as int).push(keys[j as int]));
                assert(keys[j as int] == (d.0, d.1.spec_value()));
            }
            assert(all.skip(j as int).drop_first() =~= all.skip(j + 1));
            assert(keys.take(j + 1).drop_last() =~= keys.take(j as int));
            assert(present(keys[j as int]) == keep);
            if keep {
                assert(before.take(idx + 1) =~= before.take(idx as int).push(d));
                assert(key_seq(before.take(idx + 1)) =~= key_seq(before.take(idx as int)).push(keys[j as int]));
                assert(before.skip(idx as int).drop_first() =~= before.skip(idx + 1));
                idx = idx + 1;
            } else {
                docs.remove(idx);
                assert(docs@.take(idx as int) =~= before.take(idx as int));
                assert(docs@.skip(idx as int) =~= before.skip(idx as int).drop_first());
            }
            j = j + 1;
        }
        assert(docs@.take(idx as int) =~= docs@);
        assert(keys.take(n as int) =~= keys);
    }

    /// The stored versions for which `keep` answers yes, each with its chunk list, in the
    /// order they are stored.
    pub fn filter_docs<F: Fn(&DocVersionId) -> bool>(&self, keep: F) -> (r: Vec<(u128, TextHash, usize)>)
        requires
            forall|d: &DocVersionId| #[trigger] keep.requires((d,)),
        ensures
            exists|answers: Seq<bool>|
                {
                    &&& answers.len() == self.spec_stored().len()
                    &&& forall|i: int|
                        0 <= i < answers.len() ==> keep.ensures(
                            (&stored_version(#[trigger] self.spec_stored()[i]),),
                            answers[i],
                        )
                    &&& r@ == select_by(self.spec_stored(), answers)
                },
    {
        proof {
            use_type_invariant(&*self);
        }
        let mut out: Vec<(u128, TextHash, usize)> = Vec::new();
        let ghost mut answers: Seq<bool> = Seq::empty();
        let mut j: usize = 0;
        while j < self.docs.len()
            invariant
                j <= self.docs@.len(),
                forall|d: &DocVersionId| #[trigger] keep.requires((d,)),
                answers.len() == j,
                forall|i: int|
                    0 <= i < j ==> keep.ensures((&stored_version(#[trigger] self.spec_stored()[i]),), answers[i]),
                out@ == select_by(self.spec_stored().take(j as int), answers),
            decreases self.docs.len() - j,
        {
            let d = self.docs[j];
            let v = DocVersionId { id: d.0, hash: d.1, filter: PrelimFilter {} };
            let yes = keep(&v);
            assert(v == stored_version(self.spec_stored()[j as int]));
            proof {
                lemma_select_by_push(self.spec_stored().take(j as int), answers, d, yes);
                assert(self.spec_stored().take(j + 1) =~= self.spec_stored().take(j as int).push(d));
                answers = answers.push(yes);
            }
            if yes {
                out.push(d);
            }
            j = j + 1;
        }
        assert(self.spec_stored().take(j as int) =~= self.spec_stored());
        out
    }

    /// Total number of chunks of the documents `view` lists.
    pub fn chunk_count(&self, view: &Vec<(u128, TextHash, usize)>) -> (r: usize)
        requires
            forall|i: int| 0 <= i < view@.len() ==> (#[trigger] view@[i]).2 < self.spec_chunk_lens().len(),
            sum_lens(self.spec_chunk_lens(), view@) <= usize::MAX,
        ensures
            r == sum_lens(self.spec_chunk_lens(), view@),
    {
        proof {
            use_type_invariant(&*self);
        }
        let mut count: usize = 0;
        let mut i: usize = 0;
        let ghost lens = self.spec_chunk_lens();
        assert(view@.take(0) =~= Seq::<(u128, TextHash, usize)>::empty());
        while i < view.len()
            invariant
                i <= view@.len(),
                lens == self.spec_chunk_lens(),
                lens.len() == self.doc_chunks@.len(),
                forall|k: int| 0 <= k < lens.len() ==> lens[k] >= 0,
                forall|k: int| 0 <= k < view@.len() ==> (#[trigger] view@[k]).2 < lens.len(),
                sum_lens(lens, view@) <= usize::MAX,
                count == sum_lens(lens, view@.take(i as int)),
            decreases view.len() - i,
        {
            assert(view@.take(i + 1).drop_last() =~= view@.take(i as int));
            proof {
                lemma_sum_lens_prefix(lens, view@, i + 1);
            }
            let d = view[i].2;
            assert(lens[d as int] == self.doc_chunks@[d as int]@.len());
            count = count + self.doc_chunks[d].len();
            i = i + 1;
        }
        assert(view@.take(view@.len() as int) =~= view@);
        count
    }

    /// The chunks of the documents `view` lists, each with its document and vector index.
    pub fn view_chunks(&self, view: &Vec<(u128, TextHash, usize)>) -> (r: Vec<(u128, TextHash, ChunkIdx, usize)>)
        requires
            forall|i: int| 0 <= i < view@.len() ==> (#[trigger] view@[i]).2 < self.spec_chunk_lens().len(),
        ensures
            forall|i: int| 0 <= i < r@.len() ==> (#[trigger] r@[i]).3 < self.spec_vectors().len(),
            rows_view(r@) == view_rows(self.spec_chunk_lists(), view@),
    {
        proof {
            use_type_invariant(&*self);
        }
        let mut r: Vec<(u128, TextHash, ChunkIdx, usize)> = Vec::new();
        let ghost lists = self.spec_chunk_lists();
        let mut i: usize = 0;
        assert(view@.take(0) =~= Seq::<(u128, TextHash, usize)>::empty());
        assert(rows_view(r@) =~= Seq::<(u128, TextHash, ChunkKey, usize)>::empty());
        while i < view.len()
            invariant
                self.wf(),
                lists == self.spec_chunk_lists(),
                lists.len() == self.doc_chunks@.len(),
                i <= view@.len(),
                forall|k: int| 0 <= k < view@.len() ==> (#[trigger] view@[k]).2 < self.spec_chunk_lens().len(),
                forall|k: int| 0 <= k < r@.len() ==> (#[trigger] r@[k]).3 < self.spec_vectors().len(),
                rows_view(r@) == view_rows(lists, view@.take(i as int)),
            decreases view.len() - i,
        {
            let (id, hash, d) = view[i];
            assert(self.spec_chunk_lens()[d as int] == self.doc_chunks@[d as int]@.len());
            let entries = &self.doc_chunks[d];
            let ghost before = rows_view(r@);
            let ghost list = lists[d as int];
            assert(list == entries@.map_values(|e: ChunkEntry| (chunk_key(e.idx), e.vector_idx)));
            let mut j: usize = 0;
            assert(list.take(0) =~= Seq::<(ChunkKey, usize)>::empty());
            assert(rows_view(r@) =~= before + rows_of(id, hash, list.take(0)));
            while j < entries.len()
                invariant
                    self.wf(),
                    d < self.doc_chunks@.len(),
                    *entries == self.doc_chunks@[d as int],
                    list == entries@.map_values(|e: ChunkEntry| (chunk_key(e.idx), e.vector_idx)),
                    j <= entries@.len(),
                    forall|k: int| 0 <= k < r@.len() ==> (#[trigger] r@[k]).3 < self.spec_vectors().len(),
                    rows_view(r@) == before + rows_of(id, hash, list.take(j as int)),
                decreases entries.len() - j,
            {
                let e = &entries[j];
                assert(self.doc_chunks@[d as int]@[j as int].vector_idx < self.vectors@.len());
                let idx = ChunkIdx::new(
                    e.idx.chunker_id().to_owned(),
                    e.idx.text_part_id().to_owned(),
                    e.idx.chunk_idx(),
                );
                let ghost prev = r@;
                r.push((id, hash, idx, e.vector_idx));
                proof {
                    assert(list.take(j + 1) =~= list.take(j as int).push(list[j as int]));
                    assert(rows_of(id, hash, list.take(j + 1)) =~= rows_of(id, hash, list.take(j as int)).push(
                        (id, hash, list[j as int].0, list[j as int].1),
                    ));
                    assert(rows_view(r@) =~= rows_view(prev).push(row_view(r@.last())));
                }
                j = j + 1;
            }
            proof {
                assert(list.take(entries@.len() as int) =~= list);
                assert(view@.take(i + 1).drop_last() =~= view@.take(i as int));
                assert(view@.take(i + 1).last() == view@[i as int]);
            }
            i = i + 1;
        }
        assert(view@.take(view@.len() as int) =~= view@);
        r
    }

    /// The vector stored at index `i`.
    pub fn vector(&self, i: usize) -> (r: &V)
        requires
            i < self.spec_vectors().len(),
        ensures
            *r == self.spec_vectors()[i as int],
    {
        &self.vectors[i]
    }
}

/// The documents after inserting each version of `batch` in turn, the first at chunk
/// list `n`, the next at `n + 1`, and so on.
pub open spec fn docs_inserted<V>(
    docs: Map<(u128, Seq<u8>), int>,
    n: int,
    batch: Seq<(DocVersionId, Vec<(ChunkIdx, TextHash, V)>)>,
) -> Map<(u128, Seq<u8>), int>
    decreases batch.len(),
{
    if batch.len() == 0 {
        docs
    } else {
        docs_inserted(docs.insert(version_key(batch[0].0), n), n + 1, batch.drop_first())
    }
}

/// The version identity of a stored entry, with an empty scope filter.
pub open spec fn stored_version(d: (u128, TextHash, usize)) -> DocVersionId {
    DocVersionId { id: d.0, hash: d.1, filter: PrelimFilter {} }
}

/// The entries of `s` whose answer is yes, in order.
pub open spec fn select_by<T>(s: Seq<T>, answers: Seq<bool>) -> Seq<T>
    decreases s.len(),
{
    if s.len() == 0 || answers.len() < s.len() {
        Seq::empty()
    } else {
        let prev = select_by(s.drop_last(), answers.take(s.len() - 1));
        if answers[s.len() - 1] {
            prev.push(s.last())
        } else {
            prev
        }
    }
}

proof fn lemma_select_by_push<T>(s: Seq<T>, answers: Seq<bool>, x: T, a: bool)
    requires
        answers.len() == s.len(),
    ensures
        select_by(s.push(x), answers.push(a)) == if a {
            select_by(s, answers).push(x)
        } else {
            select_by(s, answers)
        },
{
    assert(s.push(x).drop_last() =~= s);
    assert(answers.push(a).take(s.len() as int) =~= answers);
}

pub open spec fn key_seq(v: Seq<(u128, TextHash)>) -> Seq<(u128, Seq<u8>)> {
    v.map_values(|d: (u128, TextHash)| (d.0, d.1.spec_value()))
}

/// Chunks counted over the chunk lists that `view` names.
pub open spec fn sum_lens(lens: Seq<int>, view: Seq<(u128, TextHash, usize)>) -> int
    decreases view.len(),
{
    if view.len() == 0 {
        0
    } else {
        sum_lens(lens, view.drop_last()) + lens[view.last().2 as int]
    }
}

proof fn lemma_sum_lens_prefix(lens: Seq<int>, view: Seq<(u128, TextHash, usize)>, i: int)
    requires
        0 <= i <= view.len(),
        forall|k: int| 0 <= k < lens.len() ==> lens[k] >= 0,
        forall|k: int| 0 <= k < view.len() ==> (#[trigger] view[k]).2 < lens.len(),
    ensures
        sum_lens(lens, view.take(i)) <= sum_lens(lens, view),
        sum_lens(lens, view.take(i)) >= 0,
    decreases view.len() - i,
{
    let t = view.take(i);
    assert forall|k: int| 0 <= k < t.len() implies (#[trigger] t[k]).2 < lens.len() by {
        assert(t[k] == view[k]);
    }
    lemma_sum_nonneg(lens, t);
    if i < view.len() {
        lemma_sum_lens_prefix(lens, view, i + 1);
        assert(view.take(i + 1).drop_last() =~= view.take(i));
        assert(lens[view[i].2 as int] >= 0);
    } else {
        assert(view.take(i) =~= view);
        lemma_sum_nonneg(lens, view);
    }
}

proof fn lemma_sum_nonneg(lens: Seq<int>, view: Seq<(u128, TextHash, usize)>)
    requires
        forall|k: int| 0 <= k < lens.len() ==> lens[k] >= 0,
        forall|k: int| 0 <= k < view.len() ==> (#[trigger] view[k]).2 < lens.len(),
    ensures
        sum_lens(lens, view) >= 0,
    decreases view.len(),
{
    if view.len() > 0 {
        lemma_sum_nonneg(lens, view.drop_last());
        assert(view.drop_last().len() == view.len() - 1);
        assert forall|k: int| 0 <= k < view.drop_last().len() implies (#[trigger] view.drop_last()[k]).2 < lens.len() by {
            assert(view.drop_last()[k] == view[k]);
        }
        assert(view[view.len() - 1].2 < lens.len());
    }
}

/// Index, vectors and position after storing `v` for text hash `h`: a hash stored before
/// keeps its vector, a new one gets `v` at the end.
pub open spec fn stored_vector<V>(index: Map<Seq<u8>, int>, vectors: Seq<V>, h: Seq<u8>, v: V) -> (
    Map<Seq<u8>, int>,
    Seq<V>,
    int,
) {
    if index.dom().contains(h) {
        (index, vectors, index[h])
    } else {
        (index.insert(h, vectors.len() as int), vectors.push(v), vectors.len() as int)
    }
}

/// Each distinct text is embedded once: storing a vector for a text hash a second time
/// gives the first position back and leaves the vectors as they were.
pub proof fn law_vector_stored_once<V>(index: Map<Seq<u8>, int>, vectors: Seq<V>, h: Seq<u8>, v1: V, v2: V)
    ensures
        ({
            let (i1, vs1, p1) = stored_vector(index, vectors, h, v1);
            let (i2, vs2, p2) = stored_vector(i1, vs1, h, v2);
            &&& p2 == p1
            &&& vs2 == vs1
            &&& i2 == i1
        }),
{
}

/// A stored document version can be selected: after inserting version `key`, selecting
/// any versions stored before together with it succeeds.
pub proof fn law_inserted_doc_selectable(
    docs: Map<(u128, Seq<u8>), int>,
    key: (u128, Seq<u8>),
    idx: int,
    wanted: Seq<(u128, Seq<u8>)>,
)
    requires
        forall|i: int| 0 <= i < wanted.len() ==> docs.dom().contains(#[trigger] wanted[i]) || wanted[i] == key,
    ensures
        forall|i: int| 0 <= i < wanted.len() ==> docs.insert(key, idx).dom().contains(#[trigger] wanted[i]),
        docs.insert(key, idx)[key] == idx,
{
}

/// The chunk list recorded for `chunks`: entry `i` is chunk `i`'s place and the position
/// that `index` gives chunk `i`'s text hash.
pub open spec fn chunk_list_of<V>(chunks: Seq<(ChunkIdx, TextHash, V)>, index: Map<Seq<u8>, int>) -> Seq<(ChunkKey, usize)> {
    Seq::new(chunks.len(), |i: int| (chunk_key(chunks[i].0), index[chunks[i].1.spec_value()] as usize))
}

/// Chunk `i`'s text hash is in neither `index` nor any chunk before it.
pub open spec fn first_new_hash<V>(chunks: Seq<(ChunkIdx, TextHash, V)>, index: Map<Seq<u8>, int>, i: int) -> bool {
    &&& !index.dom().contains(chunks[i].1.spec_value())
    &&& forall|j: int| 0 <= j < i ==> (#[trigger] chunks[j]).1.spec_value() != chunks[i].1.spec_value()
}

/// The rows listed for an inserted document pair each chunk with the vector stored for
/// its own text: row `i` is the document, chunk `i`'s place and the position the vector
/// index gives chunk `i`'s hash, and a chunk whose text was new to the store is listed
/// with its own vector.
pub proof fn law_rows_use_own_vectors<V>(
    lists: Seq<Seq<(ChunkKey, usize)>>,
    d: usize,
    index: Map<Seq<u8>, int>,
    vectors: Seq<V>,
    old_index: Map<Seq<u8>, int>,
    chunks: Seq<(ChunkIdx, TextHash, V)>,
    id: u128,
    hash: TextHash,
)
    requires
        d < lists.len(),
        lists[d as int] == chunk_list_of(chunks, index),
        forall|i: int|
            0 <= i < chunks.len() && first_new_hash(chunks, old_index, i) ==> vectors[index[(#[trigger] chunks[i]).1.spec_value()]]
                == chunks[i].2,
    ensures
        view_rows(lists, seq![(id, hash, d)]).len() == chunks.len(),
        forall|i: int|
            0 <= i < chunks.len() ==> {
                let row = #[trigger] view_rows(lists, seq![(id, hash, d)])[i];
                &&& row.0 == id
                &&& row.1 == hash
                &&& row.2 == chunk_key(chunks[i].0)
                &&& row.3 == index[chunks[i].1.spec_value()] as usize
                &&& first_new_hash(chunks, old_index, i) ==> vectors[index[chunks[i].1.spec_value()]] == chunks[i].2
            },
{
    let v = seq![(id, hash, d)];
    assert(v.drop_last() =~= Seq::<(u128, TextHash, usize)>::empty());
    assert(view_rows(lists, v.drop_last()) =~= Seq::<(u128, TextHash, ChunkKey, usize)>::empty());
    assert(v.last() == (id, hash, d));
    let rows = view_rows(lists, v);
    assert(rows =~= rows_of(id, hash, lists[d as int]));
}

} // verus!
