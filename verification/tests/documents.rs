use markhor::chunk_cache::{same_chunk, ChunkCache};
use markhor::chunking::{ChunkData, ChunkerError, PlainTextChunker};
use markhor::document::{ChunkIdx, GetChunkError, MetadataLocation};
use markhor::hashing::TextHash;
use markhor::storage::{
    chunk_cache_file, split_front_matter, AccessStorageError, Document, DocumentMetadata, LoadStep, MarkdownRead,
    MetadataFileRead, MimeInfo, SaveTarget,
};
use markhor::text_parts::Part;
use markhor::vector_store::{DocVersionId, VectorData};
use markhor::scope::PrelimFilter;

fn open(path: &str) -> Document<Vec<u32>> {
    let mut d = Document::new(path.to_string(), "/ws".to_string()).unwrap();
    assert_eq!(d.load_start(), LoadStep::ReadMetadataFile);
    d
}

fn markdown_mime() -> MimeInfo {
    MimeInfo {
        source: "text/markdown".to_string(),
        type_: "text".to_string(),
        subtype: "markdown".to_string(),
        suffix: None,
    }
}

fn chunk_texts(d: &Document<Vec<u32>>, chunker: &str) -> Vec<String> {
    d.chunk_indices(chunker)
        .into_iter()
        .map(|idx| d.chunk(idx).unwrap().text().unwrap())
        .collect()
}

fn rechunk_plain(d: &mut Document<Vec<u32>>, chunker: &PlainTextChunker, id: &str) {
    let chunked: Vec<Result<Vec<ChunkData>, ChunkerError>> =
        d.text_parts().iter().map(|p| chunker.chunk(p.content())).collect();
    d.rechunk(id, chunked).unwrap();
}

#[test]
fn new_document_outside_workspace_is_refused() {
    let r: Result<Document<Vec<u32>>, AccessStorageError> = Document::new("/other/doc.md".to_string(), "/ws".to_string());
    assert!(matches!(r, Err(AccessStorageError::NotInWorkspace(ref p)) if p == "/other/doc.md"));
    let r: Result<Document<Vec<u32>>, AccessStorageError> = Document::new("/wsx/doc.md".to_string(), "/ws".to_string());
    assert!(r.is_err());
    let d: Document<Vec<u32>> = Document::new("/ws/sub/doc.md".to_string(), "/ws".to_string()).unwrap();
    assert_eq!(d.path(), "sub/doc.md");
    assert_eq!(d.name(), "doc");
    assert_eq!(d.metadata().metadata_location, MetadataLocation::Unknown);
    assert_eq!(d.metadata().mime.source, "text/markdown");
    assert!(d.metadata().source_is_markdown());
    assert!(d.text().is_none());
}

#[test]
fn names_and_paths() {
    let d: Document<Vec<u32>> = Document::new("/ws/a.tar.gz".to_string(), "/ws/".to_string()).unwrap();
    assert_eq!(d.path(), "a.tar.gz");
    assert_eq!(d.name(), "a.tar");
    let d: Document<Vec<u32>> = Document::new("/ws/.hidden".to_string(), "/ws".to_string()).unwrap();
    assert_eq!(d.name(), ".hidden");
    assert_eq!(d.metadata_path(), "/ws/.hidden.mark");
    let d: Document<Vec<u32>> = Document::new("/ws/doc.md".to_string(), "/ws".to_string()).unwrap();
    assert_eq!(d.attachment_path_raw(".cache.yaml"), "/ws/attachments/doc.md/.cache.yaml");
    assert_eq!(d.attachment_path_escaped(".img.png"), "/ws/attachments/doc.md/..img.png");
    assert_eq!(d.attachment_path_escaped("img.png"), "/ws/attachments/doc.md/img.png");
    assert_eq!(d.attachment_name("/ws/attachments/doc.md/..img.png"), Some(".img.png".to_string()));
    assert_eq!(d.attachment_name("/ws/attachments/doc.md/img.png"), Some("img.png".to_string()));
    assert_eq!(d.attachment_name("/ws/attachments/doc.md/.cache.yaml"), None);
    assert_eq!(chunk_cache_file("plain"), ".chunks_plain.yaml");
}

#[test]
fn document_without_metadata_loads_its_text() {
    let mut d = open("/ws/doc.md");
    // No metadata file: the source is read as Markdown.
    let step = d.load_metadata_file(MetadataFileRead::NotFound).unwrap();
    assert_eq!(step, LoadStep::ReadSourceMarkdown);
    let (meta, body) = split_front_matter("foo");
    assert!(meta.is_none());
    let step = d
        .load_source_markdown(Ok(MarkdownRead { text: body, metadata: Err("no metadata block".to_string()) }))
        .unwrap();
    assert_eq!(step, LoadStep::Done);
    assert_eq!(d.text().as_deref(), Some("foo"));
    assert_eq!(d.metadata().metadata_location, MetadataLocation::Nowhere);
}

#[test]
fn document_with_metadata_block_adopts_it() {
    let mut d = open("/ws/doc2.md");
    d.load_metadata_file(MetadataFileRead::NotFound).unwrap();
    let (meta, body) = split_front_matter("---\nid: 7\nmime: text/markdown\n---\nfoo");
    assert_eq!(meta.as_deref(), Some("id: 7\nmime: text/markdown\n"));
    assert_eq!(body, "foo");
    let mut m = DocumentMetadata::new(markdown_mime());
    m.id = 7;
    m.metadata_location = MetadataLocation::SourceFile;
    d.load_source_markdown(Ok(MarkdownRead { text: body, metadata: Ok(m) })).unwrap();
    assert_eq!(d.id(), 7);
    assert_eq!(d.text().as_deref(), Some("foo"));
}

#[test]
fn missing_metadata_file_is_an_error_when_expected() {
    let mut d = open("/ws/doc.pdf");
    let mut m = d.metadata().clone();
    m.metadata_location = MetadataLocation::MetadataFile;
    d.set_metadata(m);
    let err = d.load_metadata_file(MetadataFileRead::NotFound).unwrap_err();
    assert!(matches!(err, AccessStorageError::MetadataLocation(MetadataLocation::MetadataFile, ref s) if s == "Metadata file not found"));
}

#[test]
fn metadata_file_text_is_used_for_binary_sources() {
    let mut d = open("/ws/doc.pdf");
    let mut m = DocumentMetadata::new(MimeInfo {
        source: "application/pdf".to_string(),
        type_: "application".to_string(),
        subtype: "pdf".to_string(),
        suffix: None,
    });
    m.metadata_location = MetadataLocation::MetadataFile;
    let step = d
        .load_metadata_file(MetadataFileRead::Found(MarkdownRead { text: "Hello world".to_string(), metadata: Ok(m) }))
        .unwrap();
    assert_eq!(step, LoadStep::Done);
    assert_eq!(d.text().as_deref(), Some("Hello world"));
    assert_eq!(d.metadata().metadata_location, MetadataLocation::MetadataFile);
}

#[test]
fn source_markdown_without_expected_metadata_is_an_error() {
    let mut d = open("/ws/doc.md");
    let mut m = d.metadata().clone();
    m.metadata_location = MetadataLocation::SourceFile;
    d.set_metadata(m);
    let step = d.load_start();
    assert_eq!(step, LoadStep::ReadSourceMarkdown);
    let err = d
        .load_source_markdown(Ok(MarkdownRead { text: "x".to_string(), metadata: Err("bad".to_string()) }))
        .unwrap_err();
    assert!(matches!(err, AccessStorageError::MetadataFormat(ref s) if s == "bad"));
}

#[test]
fn text_source_is_read_as_text() {
    let mut d = open("/ws/notes.txt");
    let step = d.load_metadata_file(MetadataFileRead::NotFound).unwrap();
    assert_eq!(step, LoadStep::ReadSourceText);
    assert_eq!(d.metadata().metadata_location, MetadataLocation::Nowhere);
    assert_eq!(d.load_source_text(Ok("plain".to_string())).unwrap(), LoadStep::Done);
    assert_eq!(d.text().as_deref(), Some("plain"));
}

#[test]
fn save_both_in_source_file() {
    let mut d = open("/ws/doc.md");
    let mut m = d.metadata().clone();
    m.metadata_location = MetadataLocation::SourceFile;
    d.set_metadata(m);
    d.update_text(Some("Hello world".to_string()));
    let plan = d.save_plan("id: 1\n").unwrap();
    assert_eq!(plan, vec![(SaveTarget::SourceFile, "---\nid: 1\n---\nHello world".to_string())]);
    // What is written reads back.
    let (meta, body) = split_front_matter(&plan[0].1);
    assert_eq!(meta.as_deref(), Some("id: 1\n"));
    assert_eq!(body, "Hello world");
}

#[test]
fn save_text_in_source_metadata_in_metadata_file() {
    let mut d = open("/ws/doc.md");
    let mut m = d.metadata().clone();
    m.metadata_location = MetadataLocation::MetadataFile;
    d.set_metadata(m);
    d.update_text(Some("Hello world".to_string()));
    let plan = d.save_plan("id: 1\n").unwrap();
    assert_eq!(
        plan,
        vec![
            (SaveTarget::SourceFile, "Hello world".to_string()),
            (SaveTarget::MetadataFile, "---\nid: 1\n---\n".to_string()),
        ]
    );
}

#[test]
fn save_both_in_metadata_file() {
    let mut d = open("/ws/doc.pdf");
    let mut m = d.metadata().clone();
    m.metadata_location = MetadataLocation::MetadataFile;
    d.set_metadata(m);
    d.update_text(Some("Hello world".to_string()));
    let plan = d.save_plan("id: 1\n").unwrap();
    assert_eq!(plan, vec![(SaveTarget::MetadataFile, "---\nid: 1\n---\nHello world".to_string())]);
}

#[test]
fn save_refusals() {
    let mut d = open("/ws/doc.pdf");
    let mut m = d.metadata().clone();
    m.metadata_location = MetadataLocation::SourceFile;
    d.set_metadata(m.clone());
    assert!(matches!(
        d.save_plan("x").unwrap_err(),
        AccessStorageError::MetadataLocation(MetadataLocation::SourceFile, ref s)
            if s == "Cannot save metadata in source file that is not markdown"
    ));
    m.metadata_location = MetadataLocation::Unknown;
    d.set_metadata(m.clone());
    assert!(matches!(
        d.save_plan("x").unwrap_err(),
        AccessStorageError::MetadataLocation(MetadataLocation::Unknown, ref s) if s == "Invalid when saving"
    ));
    m.metadata_location = MetadataLocation::Nowhere;
    d.set_metadata(m);
    d.update_text(Some("t".to_string()));
    assert_eq!(d.save_plan("x").unwrap(), vec![]);
}

#[test]
fn iter_chunks() {
    let mut d = open("/ws/doc.md");
    d.update_text(Some("hello world".to_string()));
    let chunker = PlainTextChunker::new(5, 0).unwrap();
    d.load_chunker_cache("fixed".to_string(), None);
    assert!(!d.chunker_cache_is_valid("fixed"));
    rechunk_plain(&mut d, &chunker, "fixed");
    assert!(d.chunker_cache_is_valid("fixed"));
    assert_eq!(chunk_texts(&d, "fixed"), vec!["hello", " worl", "d"]);

    for (n, idx) in d.chunk_indices("fixed").into_iter().enumerate() {
        assert!(d.chunk(idx.clone()).unwrap().embedding("embedder").is_none());
        d.set_embedding(&idx, "embedder".to_string(), vec![n as u32]).unwrap();
    }
    // Re-chunking the same text keeps every embedding.
    rechunk_plain(&mut d, &chunker, "fixed");
    for (n, idx) in d.chunk_indices("fixed").into_iter().enumerate() {
        assert_eq!(d.chunk(idx).unwrap().embedding("embedder"), Some(&vec![n as u32]));
    }
    // Changing the text drops the embeddings of the chunks that changed.
    d.text_part_content_mut(0).push_str("!");
    assert!(!d.chunker_cache_is_valid("fixed"));
    rechunk_plain(&mut d, &chunker, "fixed");
    let idxs = d.chunk_indices("fixed");
    assert_eq!(chunk_texts(&d, "fixed"), vec!["hello", " worl", "d!"]);
    assert_eq!(d.chunk(idxs[0].clone()).unwrap().embedding("embedder"), Some(&vec![0]));
    assert_eq!(d.chunk(idxs[2].clone()).unwrap().embedding("embedder"), None);
}

#[test]
fn chunk_lookup_errors() {
    let mut d = open("/ws/doc.md");
    d.update_text(Some("hello".to_string()));
    let e = d.chunk(ChunkIdx::new("c".to_string(), "nope".to_string(), 0)).unwrap_err();
    assert!(matches!(e, GetChunkError::NoSuchTextPart(ref p) if p == "nope"));
    let e = d.chunk(ChunkIdx::new("c".to_string(), String::new(), 0)).unwrap_err();
    assert!(matches!(e, GetChunkError::CacheNotLoaded(ref c) if c == "c"));
    d.load_chunker_cache("c".to_string(), None);
    let e = d.chunk(ChunkIdx::new("c".to_string(), String::new(), 0)).unwrap_err();
    assert!(matches!(e, GetChunkError::TextPartNotChunked(ref c, ref p) if c == "c" && p.is_empty()));
    assert!(d.chunk_indices("c").is_empty());
    let chunker = PlainTextChunker::new(10, 0).unwrap();
    rechunk_plain(&mut d, &chunker, "c");
    let e = d.chunk(ChunkIdx::new("c".to_string(), String::new(), 3)).unwrap_err();
    assert!(matches!(e, GetChunkError::ChunkIdxOutOfBounds(_, _, 3)));
    assert!(d.set_embedding(&ChunkIdx::new("c".to_string(), String::new(), 3), "e".to_string(), vec![]).is_err());
}

#[test]
fn failed_chunking_stops_rechunking() {
    let mut d = open("/ws/doc.md");
    d.update_text(Some("hello".to_string()));
    d.load_chunker_cache("c".to_string(), None);
    let r = d.rechunk("c", vec![Err(ChunkerError::Processing("boom".to_string()))]);
    assert_eq!(r, Err(ChunkerError::Processing("boom".to_string())));
    assert!(!d.chunker_cache_is_valid("c"));
    // The part has an (empty) entry, so lookups reach the position check.
    let e = d.chunk(ChunkIdx::new("c".to_string(), String::new(), 0)).unwrap_err();
    assert!(matches!(e, GetChunkError::ChunkIdxOutOfBounds(_, _, 0)));
}

#[test]
fn doc_text_hash() {
    let mut d = open("/ws/doc.md");
    d.update_text(Some("hello world".to_string()));
    let t1 = d.text_hash();
    let h1 = d.doc_hash("id: 1\n");
    d.text_part_content_mut(0).push_str("!");
    let t2 = d.text_hash();
    let h2 = d.doc_hash("id: 1\n");
    assert!(!t1.same(&t2));
    assert!(!h1.same(&h2));
    // The text hash covers each part's id, then its content.
    assert!(t2.same(&TextHash::of_str("hello world!")));
}

#[test]
fn same_chunk_compares_all_fields() {
    let a = ChunkData { text_range: 0..3, heading_path: Some("A".to_string()), token_count: Some(2) };
    let b = ChunkData { text_range: 0..3, heading_path: Some("A".to_string()), token_count: Some(2) };
    let c = ChunkData { text_range: 0..3, heading_path: None, token_count: Some(2) };
    assert!(same_chunk(&a, &b));
    assert!(!same_chunk(&a, &c));
}

#[test]
fn validate_cached_chunks_keeps_unchanged_entries() {
    let part = Part::new(String::new(), "abcdef".to_string());
    let chunks = vec![ChunkData { text_range: 0..3, heading_path: None, token_count: None }];
    let mut cache: Vec<ChunkCache<u8>> = Vec::new();
    part.validate_cached_chunks(chunks, &mut cache);
    assert_eq!(cache.len(), 1);
    assert!(cache[0].hash.same(&TextHash::of_str("abc")));
    cache[0].embeddings.push(("e".to_string(), 9));
    let chunks = vec![
        ChunkData { text_range: 0..3, heading_path: None, token_count: None },
        ChunkData { text_range: 3..6, heading_path: None, token_count: None },
    ];
    part.validate_cached_chunks(chunks, &mut cache);
    assert_eq!(cache.len(), 2);
    assert_eq!(cache[0].embeddings, vec![("e".to_string(), 9)]);
    assert!(cache[1].embeddings.is_empty());
    assert!(cache[1].hash.same(&TextHash::of_str("def")));
}

#[test]
fn vector_store_batches_and_filters() {
    let mut data: VectorData<Vec<u8>> = VectorData::new();
    let d1 = DocVersionId { id: 1, hash: TextHash::of_str("one"), filter: PrelimFilter::new() };
    let d2 = DocVersionId { id: 2, hash: TextHash::of_str("two"), filter: PrelimFilter::new() };
    let idx = ChunkIdx::new("c".to_string(), String::new(), 0);
    data.insert_docs(vec![
        (d1, vec![(idx.clone(), TextHash::of_str("x"), vec![1])]),
        (d2, vec![(idx, TextHash::of_str("y"), vec![2])]),
    ]);
    let mut docs = vec![(1, TextHash::of_str("one")), (3, TextHash::of_str("three")), (2, TextHash::of_str("two"))];
    data.retain_missing_docs(&mut docs);
    assert_eq!(docs.iter().map(|d| d.0).collect::<Vec<_>>(), vec![1, 2]);
    let picked = data.filter_docs(|d: &DocVersionId| d.id == 2);
    assert_eq!(picked.len(), 1);
    assert_eq!(picked[0].0, 2);
}

#[test]
fn metadata_from_a_path_is_inferrable_for_it() {
    for path in ["/w/notes.md", "/w/report.pdf", "/w/photo.JPG", "/w/data.unknownext", "/w/noext"] {
        let m = DocumentMetadata::from_path(path);
        assert!(m.inferrable(path), "{}", path);
    }
    let m = DocumentMetadata::from_path("/w/report.pdf");
    assert!(!m.inferrable("/w/notes.md"));
}
