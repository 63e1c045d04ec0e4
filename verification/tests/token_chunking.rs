use markhor::markdown::MdEvent;
use markhor::md_chunker::MarkdownChunker;
use markhor::token_chunking::{
    calculate_overlap_text, chunk_markdown, chunk_markdown_events, ellipsize, generate_heading_path_string,
    ChunkerConfig, ChunkerError,
};

#[test]
fn simple_paragraph_chunking() {
    // The first chunk counts the tokens of its block, "This is the first paragraph.\n\n".
    // cl100k_base reads that text as six tokens ("This", " is", " the", " first",
    // " paragraph", ".\n\n"): the full stop and the blank line make one token, so the count
    // is 6, not the 7 that counting ".", and "\n\n" apart would give (see
    // `tokenizer_counts_and_decodes`). The second paragraph does not fit beside the first
    // and is split, each new chunk starting with the last two tokens of the one before.
    let markdown = "This is the first paragraph.\n\nThis is the second paragraph, which is a bit longer.";
    let config = ChunkerConfig { max_tokens: 10, token_overlap: 2, ..Default::default() };
    let chunks = chunk_markdown("doc1", markdown, &config).unwrap();
    assert!(chunks.len() >= 2);
    assert_eq!(chunks.len(), 3);
    assert_eq!(chunks[0].chunk_text, "This is the first paragraph.");
    assert_eq!(chunks[0].token_count, 6);
    assert!(chunks[1].chunk_text.contains("This is the second"));
    assert!(chunks[1].token_count <= config.max_tokens + 1);
    assert!(chunks[1].chunk_text.trim_start().starts_with("paragraph."));
    assert_eq!(chunks[1].chunk_text, "paragraph.\nThis is the second paragraph,");
    assert!(chunks[2].chunk_text.contains("longer"));
    assert!(chunks[2].token_count <= config.max_tokens + 1);
    assert_eq!(chunks[2].chunk_text, "paragraph,\nwhich is a bit longer.");
    for c in &chunks {
        assert!(c.token_count <= config.max_tokens);
        assert_eq!(c.heading_path, "");
    }
}

#[test]
fn heading_handling() {
    let markdown = "# Title\n\nFirst paragraph.\n\n## Section 1\n\nSecond paragraph.";
    let config = ChunkerConfig { max_tokens: 20, token_overlap: 3, ..Default::default() };
    let chunks = chunk_markdown("doc2", markdown, &config).unwrap();

    assert!(chunks.len() > 1);
    assert_eq!(chunks[0].heading_path, "Title");
    assert!(chunks[0].chunk_text.contains("Title"));
    assert!(chunks[0].chunk_text.contains("First paragraph"));

    let chunk_with_section_heading = chunks.iter().find(|c| c.chunk_text.contains("Section 1")).expect("Section 1 heading not found");
    assert_eq!(chunk_with_section_heading.heading_path, "Title > Section 1");

    let chunk_with_second_para = chunks.iter().find(|c| c.chunk_text.contains("Second paragraph")).expect("Second paragraph not found");
    assert_eq!(chunk_with_second_para.heading_path, "Title > Section 1");
}

#[test]
fn code_block_handling() {
    let markdown = "Some text.\n\n```rust\nfn main() {\n  println!(\"Hello\");\n}\n```\n\nMore text.";
    let config = ChunkerConfig { max_tokens: 15, token_overlap: 4, ..Default::default() };
    let chunks = chunk_markdown("doc3", markdown, &config).unwrap();

    let code_chunk = chunks.iter().find(|c| c.chunk_text.contains("fn main()")).expect("Code not found");
    assert!(code_chunk.chunk_text.contains("```rust"));
    assert!(code_chunk.chunk_text.contains("```"));
}

#[test]
fn large_block_splitting() {
    let long_line = "This is a very long line that keeps going and going designed to exceed the token limit all by itself. ".repeat(10);
    let markdown = format!("# Section\n\n{}", long_line);
    let config = ChunkerConfig { max_tokens: 30, token_overlap: 5, ..Default::default() };
    let chunks = chunk_markdown("doc4", &markdown, &config).unwrap();

    assert!(chunks.len() > 2);
    for chunk in chunks.iter() {
        if chunk.token_count > config.max_tokens {
            assert!(chunk.token_count < config.max_tokens * 2, "Chunk {} significantly exceeded max_tokens", chunk.chunk_index);
        }
    }
    if chunks.len() > 2 {
        let first_long_chunk_idx = chunks.iter().position(|c| c.chunk_text.contains("very long line")).unwrap_or(0);
        if first_long_chunk_idx + 1 < chunks.len() {
            let text1 = &chunks[first_long_chunk_idx].chunk_text;
            let text2 = &chunks[first_long_chunk_idx + 1].chunk_text;
            let tokenizer = MarkdownChunker::get_tokenizer("cl100k_base").unwrap();
            let expected_overlap = calculate_overlap_text(&tokenizer, text1, config.token_overlap).unwrap();
            assert!(!expected_overlap.is_empty(), "Overlap should not be empty here");
            assert!(text2.trim_start().starts_with(&expected_overlap), "Chunk 2 should start with overlap from chunk 1");
        }
    }
}

#[test]
fn test_config_errors() {
    let markdown = "Some text";
    let config_overlap_too_big = ChunkerConfig { max_tokens: 10, token_overlap: 10, ..Default::default() };
    let result = chunk_markdown("doc_cfg", markdown, &config_overlap_too_big);
    assert!(matches!(result, Err(ChunkerError::Config(_))));

    let config_zero_tokens = ChunkerConfig { max_tokens: 0, token_overlap: 0, ..Default::default() };
    let result = chunk_markdown("doc_cfg", markdown, &config_zero_tokens);
    assert!(matches!(result, Err(ChunkerError::Config(_))));
}

#[test]
fn config_error_messages() {
    let r = chunk_markdown("d", "x", &ChunkerConfig { max_tokens: 3, token_overlap: 5 });
    match r {
        Err(e) => assert_eq!(e.message(), "Configuration error: Token overlap cannot be larger than or equal to max tokens"),
        Ok(_) => panic!("expected an error"),
    }
    let r = chunk_markdown("d", "x", &ChunkerConfig { max_tokens: 0, token_overlap: 5 });
    match r {
        Err(e) => assert_eq!(e.message(), "Configuration error: Max tokens must be greater than 0"),
        Ok(_) => panic!("expected an error"),
    }
}

#[test]
fn default_config_limits() {
    let c = ChunkerConfig::default();
    assert_eq!(c.max_tokens, 512);
    assert_eq!(c.token_overlap, 50);
}

#[test]
fn chunks_are_numbered_in_order() {
    let markdown = "# A\n\nalpha beta gamma delta.\n\n## B\n\nepsilon zeta eta theta iota kappa lambda mu.\n\n- one\n- two";
    let config = ChunkerConfig { max_tokens: 8, token_overlap: 2 };
    let chunks = chunk_markdown("doc", markdown, &config).unwrap();
    assert!(chunks.len() > 2);
    for (i, c) in chunks.iter().enumerate() {
        assert_eq!(c.chunk_index, i);
        assert_eq!(c.source_id, "doc");
    }
    for c in &chunks[..chunks.len() - 1] {
        assert!(!c.chunk_text.is_empty());
    }
}

#[test]
fn split_inside_wide_whitespace_is_reported() {
    // With room for three tokens a segment aims at twelve bytes; the no-break space (two
    // bytes, starting at byte 11) is close enough to become the split point, whose next
    // byte lies inside it.
    let tokenizer = MarkdownChunker::get_tokenizer("cl100k_base").unwrap();
    let text = "abcdefghijk\u{a0}lmnopqrstuvwxyz0123456789".to_string();
    let events = vec![(MdEvent::Text(text), 0, 0), (MdEvent::EndParagraph, 0, 0)];
    let config = ChunkerConfig { max_tokens: 3, token_overlap: 0 };
    match chunk_markdown_events("d", &events, &config, &tokenizer) {
        Err(ChunkerError::MarkdownParsing(m)) => {
            assert_eq!(m, "Split point falls inside a multi-byte whitespace character")
        }
        Err(e) => panic!("unexpected error {}", e.message()),
        Ok(_) => panic!("expected a split error"),
    }
}

#[test]
fn overlap_of_short_text_is_the_text() {
    let tokenizer = MarkdownChunker::get_tokenizer("cl100k_base").unwrap();
    assert_eq!(calculate_overlap_text(&tokenizer, "hi", 5).unwrap(), "hi");
    assert_eq!(calculate_overlap_text(&tokenizer, "hi", 0).unwrap(), "");
    assert_eq!(calculate_overlap_text(&tokenizer, "", 3).unwrap(), "");
    assert_eq!(calculate_overlap_text(&tokenizer, "This is the first paragraph.", 2).unwrap(), "paragraph.");
}

#[test]
fn heading_path_skips_empty_titles() {
    let stack = vec![(1u32, "A".to_string()), (2, String::new()), (3, "C".to_string())];
    assert_eq!(generate_heading_path_string(&stack), "A > C");
    assert_eq!(generate_heading_path_string(&vec![]), "");
}

#[test]
fn ellipsize_cuts_long_text() {
    assert_eq!(ellipsize("short", 10), "short");
    assert_eq!(ellipsize("a longer sentence", 8), "a lon...");
    assert_eq!(ellipsize("abcdef", 2), "...");
}

#[test]
fn tokenizer_counts_and_decodes() {
    let tokenizer = MarkdownChunker::get_tokenizer("cl100k_base").unwrap();
    assert_eq!(tokenizer.count_tokens("hello world"), Ok(2));
    assert_eq!(tokenizer.count_tokens(""), Ok(0));
    // The paragraph as the chunker counts it, with its closing blank line: ".\n\n" is one token.
    assert_eq!(tokenizer.count_tokens("This is the first paragraph.\n\n"), Ok(6));
    // The last token of "hello world" is " world", given without its leading space.
    assert_eq!(calculate_overlap_text(&tokenizer, "hello world", 1).unwrap(), "world");
    match MarkdownChunker::get_tokenizer("p50k_base") {
        Err(markhor::chunking::ChunkerError::Configuration(m)) => assert_eq!(m, "Unsupported tokenizer model: p50k_base"),
        _ => panic!("expected a configuration error"),
    }
}

#[test]
fn text_the_encoder_cannot_encode_stops_chunking() {
    // A very long run of whitespace before a letter exhausts the pre-tokenizer's
    // backtracking; the error is reported instead of a panic.
    let text = format!("{}x", " ".repeat(1_100_000));
    let tokenizer = MarkdownChunker::get_tokenizer("cl100k_base").unwrap();
    assert!(tokenizer.count_tokens(&text).is_err());
    let config = ChunkerConfig { max_tokens: 100, token_overlap: 10 };
    match chunk_markdown("big", &text, &config) {
        Err(ChunkerError::TokenizationError(_)) => {}
        Err(e) => panic!("unexpected error {}", e.message()),
        Ok(_) => panic!("expected a tokenization error"),
    }
}
