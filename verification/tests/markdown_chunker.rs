use markhor::chunking::{ChunkData, ChunkerError};
use markhor::markdown::MdEvent;
use markhor::md_chunker::{MarkdownChunker, MarkdownChunkerConfig};

fn get_text<'a>(source: &'a str, data: &ChunkData) -> &'a str {
    source.get(data.text_range.clone()).expect("Invalid range in test")
}

#[test]
fn simple_paragraphs() {
    let markdown = "First paragraph.\n\nSecond paragraph.";
    let config = MarkdownChunkerConfig::default();
    let chunker = MarkdownChunker::new(config).unwrap();
    let chunks = chunker.chunk(markdown).unwrap();

    assert_eq!(chunks.len(), 2);
    assert_eq!(get_text(markdown, &chunks[0]), "First paragraph.");
    assert_eq!(get_text(markdown, &chunks[1]), "Second paragraph.");
    assert!(chunks[0].token_count.is_some());
    assert!(chunks[1].token_count.is_some());
    assert!(chunks[0].token_count.unwrap() > 0);
    assert!(chunks[1].token_count.unwrap() > 0);
    assert!(chunks[0].heading_path.is_none());
    assert!(chunks[1].heading_path.is_none());
}

#[test]
fn paragraphs_with_breaks() {
    let markdown = "Line one.\nLine two.\n\nSecond paragraph.";
    let config = MarkdownChunkerConfig::default();
    let chunker = MarkdownChunker::new(config).unwrap();
    let chunks = chunker.chunk(markdown).unwrap();

    assert_eq!(chunks.len(), 2);
    assert_eq!(get_text(markdown, &chunks[0]), "Line one.\nLine two.");
    assert_eq!(get_text(markdown, &chunks[1]), "Second paragraph.");
}

#[test]
fn heading_and_paragraphs() {
    let markdown = "# Title\n\nIntro paragraph.\n\n## Section 1\n\nDetails here.";
    let config = MarkdownChunkerConfig::default();
    let chunker = MarkdownChunker::new(config).unwrap();
    let chunks = chunker.chunk(markdown).unwrap();

    assert_eq!(chunks.len(), 4);
    assert_eq!(get_text(markdown, &chunks[0]), "Title");
    assert_eq!(chunks[0].heading_path.as_deref(), Some("Title"));
    assert!(chunks[0].token_count.unwrap() > 0);
    assert_eq!(get_text(markdown, &chunks[1]), "Intro paragraph.");
    assert_eq!(chunks[1].heading_path.as_deref(), Some("Title"));
    assert!(chunks[1].token_count.unwrap() > 0);
    assert_eq!(get_text(markdown, &chunks[2]), "Section 1");
    assert_eq!(chunks[2].heading_path.as_deref(), Some("Title > Section 1"));
    assert!(chunks[2].token_count.unwrap() > 0);
    assert_eq!(get_text(markdown, &chunks[3]), "Details here.");
    assert_eq!(chunks[3].heading_path.as_deref(), Some("Title > Section 1"));
    assert!(chunks[3].token_count.unwrap() > 0);
}

#[test]
fn code_block_chunk() {
    let markdown = "Some text.\n\n```rust\nfn main() {\n  // comment\n}\n```\n\nMore text.";
    let config = MarkdownChunkerConfig::default();
    let chunker = MarkdownChunker::new(config).unwrap();
    let chunks = chunker.chunk(markdown).unwrap();

    assert_eq!(chunks.len(), 3);
    assert_eq!(get_text(markdown, &chunks[0]), "Some text.");
    assert_eq!(get_text(markdown, &chunks[1]), "fn main() {\n  // comment\n}\n");
    assert_eq!(get_text(markdown, &chunks[2]), "More text.");
    assert!(chunks[1].token_count.is_some());
}

#[test]
fn list_item_chunks() {
    let markdown = "* Item 1\n* Item 2\n  * Sub Item 2.1\n* Item 3";
    let config = MarkdownChunkerConfig::default();
    let chunker = MarkdownChunker::new(config).unwrap();
    let chunks = chunker.chunk(markdown).unwrap();

    assert_eq!(chunks.len(), 4);
    assert!(get_text(markdown, &chunks[0]).contains("Item 1"));
    assert!(get_text(markdown, &chunks[1]).contains("Item 2"));
    assert!(get_text(markdown, &chunks[2]).contains("Sub Item 2.1"));
    assert!(get_text(markdown, &chunks[3]).contains("Item 3"));
}

#[test]
fn preserves_inline_markdown() {
    let markdown = "This is **bold** and `code`.";
    let config = MarkdownChunkerConfig::default();
    let chunker = MarkdownChunker::new(config).unwrap();
    let chunks = chunker.chunk(markdown).unwrap();

    assert_eq!(chunks.len(), 1);
    assert_eq!(get_text(markdown, &chunks[0]), "This is **bold** and `code`.");
}

#[test]
fn handles_empty_input() {
    let config = MarkdownChunkerConfig::default();
    let chunker = MarkdownChunker::new(config).unwrap();
    let chunks = chunker.chunk("").unwrap();
    assert!(chunks.is_empty());
}

#[test]
fn handles_whitespace_input() {
    let config = MarkdownChunkerConfig::default();
    let chunker = MarkdownChunker::new(config).unwrap();
    let chunks = chunker.chunk("\n  \n\t\n").unwrap();
    assert!(chunks.is_empty());
}

#[test]
fn unsupported_tokenizer_is_refused() {
    let config = MarkdownChunkerConfig { tokenizer_model: "p50k_base".to_string() };
    match MarkdownChunker::new(config) {
        Err(ChunkerError::Configuration(m)) => assert_eq!(m, "Unsupported tokenizer model: p50k_base"),
        _ => panic!("expected a configuration error"),
    }
}

#[test]
fn chunk_events_reads_given_events() {
    // A hand-made event list: a paragraph over bytes 0..5 of "hello world".
    let source = "hello world";
    let events = vec![
        (MdEvent::StartOther, 0, 5),
        (MdEvent::Text("hello".to_string()), 0, 5),
        (MdEvent::EndParagraph, 0, 5),
    ];
    let chunker = MarkdownChunker::new(MarkdownChunkerConfig::default()).unwrap();
    let chunks = chunker.chunk_events(source, &events).unwrap();
    assert_eq!(chunks.len(), 1);
    assert_eq!(chunks[0].text_range, 0..5);
    assert_eq!(chunks[0].token_count, chunker.count_tokens_optional("hello"));
}

#[test]
fn chunk_events_skips_invalid_ranges() {
    // "é" takes two bytes: a block ending inside it is no slice of the source and is skipped.
    let source = "é";
    let events = vec![(MdEvent::Text("é".to_string()), 0, 1), (MdEvent::EndParagraph, 1, 1)];
    let chunker = MarkdownChunker::new(MarkdownChunkerConfig::default()).unwrap();
    assert!(chunker.chunk_events(source, &events).unwrap().is_empty());
}

#[test]
fn parser_events_carry_headings_and_text() {
    // The parser's events mark the heading and the paragraph apart.
    let chunker = MarkdownChunker::new(MarkdownChunkerConfig::default()).unwrap();
    let source = "## Hi\n\nsome text";
    let chunks = chunker.chunk(source).unwrap();
    let texts: Vec<&str> = chunks.iter().map(|c| get_text(source, c)).collect();
    assert_eq!(texts, vec!["Hi", "some text"]);
    assert_eq!(chunks[1].heading_path.as_deref(), Some("Hi"));
}

#[test]
fn chunk_ranges_are_valid_nonblank_slices() {
    let markdown = "# A\n\nsome text\n\n---\n\n> quoted\n\n- item";
    let chunker = MarkdownChunker::new(MarkdownChunkerConfig::default()).unwrap();
    let chunks = chunker.chunk(markdown).unwrap();
    assert!(!chunks.is_empty());
    for c in &chunks {
        assert!(c.text_range.start < c.text_range.end);
        let t = markdown.get(c.text_range.clone()).unwrap();
        assert!(!t.trim().is_empty());
        assert_eq!(c.token_count, chunker.count_tokens_optional(t));
    }
}

#[test]
fn long_headings_are_shortened_for_display() {
    let short = "A > B";
    assert_eq!(markhor::md_chunker::heading_for_display(short), "A > B");
    let exact: String = "x".repeat(70);
    assert_eq!(markhor::md_chunker::heading_for_display(&exact), exact);
    let long: String = format!("{}{}", "a".repeat(10), "b".repeat(70));
    assert_eq!(markhor::md_chunker::heading_for_display(&long), format!("...{}.", "b".repeat(70)));
    // The cut moves back to a character boundary.
    let wide: String = format!("é{}", "c".repeat(69));
    assert_eq!(markhor::md_chunker::heading_for_display(&wide), format!("...{}.", wide));
}
