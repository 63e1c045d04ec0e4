use markhor::chunking::{ChunkData, ChunkerError, Chunkers, PlainTextChunker};

fn get_text<'a>(chunk: &ChunkData, source_text: &'a str) -> &'a str {
    &source_text[chunk.text_range.clone()]
}

#[test]
fn test_new_valid_config() {
    assert!(PlainTextChunker::new(100, 0).is_ok());
    assert!(PlainTextChunker::new(100, 50).is_ok());
    assert!(PlainTextChunker::new(100, 99).is_ok());
    assert!(PlainTextChunker::new(1, 0).is_ok());
}

#[test]
fn test_new_invalid_config() {
    let err1 = PlainTextChunker::new(0, 0).unwrap_err();
    assert!(matches!(err1, ChunkerError::Configuration(_)));
    assert_eq!(err1.message(), "Invalid chunker configuration: Chunk size must be greater than 0");

    let err2 = PlainTextChunker::new(100, 100).unwrap_err();
    assert!(matches!(err2, ChunkerError::Configuration(_)));
    assert_eq!(err2.message(), "Invalid chunker configuration: Overlap size (100) must be less than chunk size (100)");

    let err3 = PlainTextChunker::new(100, 101).unwrap_err();
    assert!(matches!(err3, ChunkerError::Configuration(_)));
    assert_eq!(err3.message(), "Invalid chunker configuration: Overlap size (101) must be less than chunk size (100)");
}

#[test]
fn test_empty_text() {
    let chunker = PlainTextChunker::new(100, 10).unwrap();
    let chunks = chunker.chunk("").unwrap();
    assert!(chunks.is_empty());
}

#[test]
fn test_text_shorter_than_chunk_size_no_overlap() {
    let chunker = PlainTextChunker::new(100, 0).unwrap();
    let text = "Short text.";
    let chunks = chunker.chunk(text).unwrap();
    assert_eq!(chunks.len(), 1);
    assert_eq!(chunks[0].text_range, 0..11);
    assert_eq!(get_text(&chunks[0], text), "Short text.");
}

#[test]
fn test_text_shorter_than_chunk_size_with_overlap() {
    let chunker = PlainTextChunker::new(100, 10).unwrap();
    let text = "Short text.";
    let chunks = chunker.chunk(text).unwrap();
    assert_eq!(chunks.len(), 1);
    assert_eq!(chunks[0].text_range, 0..11);
    assert_eq!(get_text(&chunks[0], text), "Short text.");
}

#[test]
fn test_text_exactly_chunk_size_no_overlap() {
    let chunker = PlainTextChunker::new(11, 0).unwrap();
    let text = "Hello world";
    let chunks = chunker.chunk(text).unwrap();
    assert_eq!(chunks.len(), 1);
    assert_eq!(chunks[0].text_range, 0..11);
    assert_eq!(get_text(&chunks[0], text), "Hello world");
}

#[test]
fn test_text_exactly_chunk_size_with_overlap() {
    let chunker = PlainTextChunker::new(11, 5).unwrap();
    let text = "Hello world";
    let chunks = chunker.chunk(text).unwrap();
    assert_eq!(chunks.len(), 1);
    assert_eq!(chunks[0].text_range, 0..11);
    assert_eq!(get_text(&chunks[0], text), "Hello world");
}

#[test]
fn test_multiple_chunks_no_overlap() {
    let chunker = PlainTextChunker::new(5, 0).unwrap();
    let text = "abcde12345vwxyz";
    let chunks = chunker.chunk(text).unwrap();
    assert_eq!(chunks.len(), 3);
    assert_eq!(chunks[0].text_range, 0..5);
    assert_eq!(chunks[1].text_range, 5..10);
    assert_eq!(chunks[2].text_range, 10..15);
    assert_eq!(get_text(&chunks[0], text), "abcde");
    assert_eq!(get_text(&chunks[1], text), "12345");
    assert_eq!(get_text(&chunks[2], text), "vwxyz");
}

#[test]
fn test_multiple_chunks_with_overlap() {
    let chunker = PlainTextChunker::new(10, 3).unwrap();
    let text = "abcdefghijklmnopqrstuvwxyz1234567890";
    let chunks = chunker.chunk(text).unwrap();
    assert_eq!(chunks.len(), 5);

    assert_eq!(chunks[0].text_range, 0..10);
    assert_eq!(get_text(&chunks[0], text), "abcdefghij");
    assert_eq!(chunks[1].text_range, 7..17);
    assert_eq!(get_text(&chunks[1], text), "hijklmnopq");
    assert_eq!(chunks[2].text_range, 14..24);
    assert_eq!(get_text(&chunks[2], text), "opqrstuvwx");
    assert_eq!(chunks[3].text_range, 21..31);
    assert_eq!(get_text(&chunks[3], text), "vwxyz12345");
    assert_eq!(chunks[4].text_range, 28..36);
    assert_eq!(get_text(&chunks[4], text), "34567890");

    assert_eq!(text.char_indices().nth(0).unwrap().0, chunks[0].text_range.start);
    assert_eq!(text.char_indices().nth(10).unwrap().0, chunks[0].text_range.end);
    assert_eq!(text.char_indices().nth(7).unwrap().0, chunks[1].text_range.start);
    assert_eq!(text.char_indices().nth(17).unwrap().0, chunks[1].text_range.end);
    assert_eq!(text.char_indices().nth(14).unwrap().0, chunks[2].text_range.start);
    assert_eq!(text.char_indices().nth(24).unwrap().0, chunks[2].text_range.end);
    assert_eq!(text.char_indices().nth(21).unwrap().0, chunks[3].text_range.start);
    assert_eq!(text.char_indices().nth(31).unwrap().0, chunks[3].text_range.end);
    assert_eq!(text.char_indices().nth(28).unwrap().0, chunks[4].text_range.start);
    assert_eq!(chunks[4].text_range.end, text.len());
}

#[test]
fn test_text_with_multibyte_chars_no_overlap() {
    let chunker = PlainTextChunker::new(3, 0).unwrap();
    let text = "你好世界👋🌍";
    let chunks = chunker.chunk(text).unwrap();
    assert_eq!(chunks.len(), 2);
    assert_eq!(chunks[0].text_range, 0..9);
    assert_eq!(get_text(&chunks[0], text), "你好世");
    assert_eq!(chunks[1].text_range, 9..20);
    assert_eq!(get_text(&chunks[1], text), "界👋🌍");
}

#[test]
fn test_text_with_multibyte_chars_with_overlap() {
    let chunker = PlainTextChunker::new(4, 2).unwrap();
    let text = "🍎🍐🍊🍋🍉🍇";
    let chunks = chunker.chunk(text).unwrap();
    assert_eq!(chunks.len(), 2);
    assert_eq!(chunks[0].text_range, 0..16);
    assert_eq!(get_text(&chunks[0], text), "🍎🍐🍊🍋");
    assert_eq!(chunks[1].text_range, 8..24);
    assert_eq!(get_text(&chunks[1], text), "🍊🍋🍉🍇");
    assert_eq!(text.char_indices().nth(0).unwrap().0, 0);
    assert_eq!(text.char_indices().nth(4).unwrap().0, 16);
    assert_eq!(text.char_indices().nth(2).unwrap().0, 8);
}

#[test]
fn plain_chunks_cover_text_and_share_overlap() {
    // Coverage and overlap on concrete values: 23 characters, chunks of 6 sharing 2.
    let chunker = PlainTextChunker::new(6, 2).unwrap();
    let text = "the quick brown fox ran";
    let chunks = chunker.chunk(text).unwrap();
    assert_eq!(chunks.first().unwrap().text_range.start, 0);
    assert_eq!(chunks.last().unwrap().text_range.end, text.len());
    for c in &chunks {
        assert!(c.text_range.end - c.text_range.start <= 6);
        assert!(c.heading_path.is_none());
        assert!(c.token_count.is_none());
    }
    for w in chunks.windows(2) {
        assert_eq!(w[0].text_range.end - w[1].text_range.start, 2);
    }
}

#[test]
fn plain_chunker_accessors_and_clone() {
    let chunker = PlainTextChunker::new(7, 3).unwrap();
    assert_eq!(chunker.chunk_size(), 7);
    assert_eq!(chunker.overlap_size(), 3);
    let copy = chunker.clone();
    assert_eq!(copy.chunk_size(), 7);
    assert_eq!(copy.overlap_size(), 3);
}

#[test]
fn chunkers_extension_offers_plain_text_chunker() {
    let ext = Chunkers;
    assert_eq!(ext.name(), "chunkers");
    assert_eq!(ext.description(), "Chunking extension");
    let c = ext.chunker();
    assert_eq!(c.chunk_size(), 2000);
    assert_eq!(c.overlap_size(), 200);
}

#[test]
fn processing_error_message() {
    let e = ChunkerError::Processing("bad input".to_string());
    assert_eq!(e.message(), "Chunk processing failed: bad input");
}
