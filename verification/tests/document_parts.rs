use markhor::document::{is_default, ChunkIdx, GetChunkError, MetadataLocation, WorkspaceMetadata};
use markhor::text_parts::{Part, Text};

fn parts_of(t: &Text) -> Vec<(String, String)> {
    t.parts().iter().map(|p| (p.id().to_string(), p.content().to_string())).collect()
}

#[test]
fn export_multiple_parts_with_milestones() {
    let t = Text::from_parts(vec![
        Part::new("part1".to_string(), "Hello".to_string()),
        Part::new("part2".to_string(), "world".to_string()),
    ]);
    let mut kw = Some("not-none".to_string());
    let out = t.export(&mut kw).unwrap();
    assert_eq!(out, "<milestone unit=\"part\" n=\"part1\" />\nHello\n<milestone unit=\"part\" n=\"part2\" />\nworld\n");
    assert_eq!(kw, Some("not-none".to_string()));
}

#[test]
fn export_single_unnamed_part_is_its_content() {
    let t = Text::from_parts(vec![Part::new(String::new(), "just text".to_string())]);
    assert_eq!(t.export(&mut None), Some("just text".to_string()));
    assert_eq!(Text::new().export(&mut None), None);
}

#[test]
fn import_round_trips_export() {
    let t = Text::from_parts(vec![
        Part::new("a".to_string(), "first\nline two\n".to_string()),
        Part::new("b".to_string(), "".to_string()),
        Part::new("c".to_string(), "third".to_string()),
    ]);
    let out = t.export(&mut None).unwrap();
    let mut back = Text::new();
    back.import(Some(&out), Some("parts"));
    assert_eq!(parts_of(&back), parts_of(&t));
}

#[test]
fn import_without_keyword_keeps_one_part() {
    let mut t = Text::new();
    t.import(Some("a\nb"), None);
    assert_eq!(parts_of(&t), vec![(String::new(), "a\nb".to_string())]);
    t.import(None, Some("x"));
    assert!(t.parts().is_empty());
}

#[test]
fn import_skips_duplicate_ids_and_leading_text() {
    let text = "preamble\n<milestone unit=\"part\" n=\"x\" />\none\n<milestone unit=\"part\" n=\"x\" />\ntwo\n";
    let mut t = Text::new();
    t.import(Some(text), Some("k"));
    assert_eq!(parts_of(&t), vec![("x".to_string(), "one".to_string())]);
}

#[test]
fn parts_mut_edits_content_in_place() {
    let mut t = Text::from_parts(vec![Part::new("p".to_string(), "old".to_string())]);
    {
        let parts = t.parts_mut();
        parts[0] = Part::new("p".to_string(), "new".to_string());
    }
    assert_eq!(parts_of(&t), vec![("p".to_string(), "new".to_string())]);
}

#[test]
fn metadata_location_update_unknown() {
    let mut l = MetadataLocation::Unknown;
    l.update_unknown(MetadataLocation::MetadataFile);
    assert_eq!(l, MetadataLocation::MetadataFile);
    l.update_unknown(MetadataLocation::Nowhere);
    assert_eq!(l, MetadataLocation::MetadataFile);
    assert_eq!(MetadataLocation::default(), MetadataLocation::SourceFile);
    assert!(is_default(&MetadataLocation::SourceFile));
    assert!(!is_default(&MetadataLocation::Nowhere));
}

#[test]
fn chunk_idx_fields() {
    let c = ChunkIdx::new("test".to_string(), "text1".to_string(), 3);
    assert_eq!(c.chunker_id(), "test");
    assert_eq!(c.text_part_id(), "text1");
    assert_eq!(c.chunk_idx(), 3);
    assert_eq!(c, ChunkIdx::new("test".to_string(), "text1".to_string(), 3));
}

#[test]
fn get_chunk_error_messages() {
    assert_eq!(GetChunkError::NoSuchTextPart("p".into()).message(), "No such text part in document: 'p'");
    assert_eq!(GetChunkError::CacheNotLoaded("c".into()).message(), "Cache not loaded for chunker 'c'");
    assert_eq!(
        GetChunkError::TextPartNotChunked("c".into(), "p".into()).message(),
        "Text part not found for chunker 'c' and text part 'p'"
    );
    assert_eq!(
        GetChunkError::ChunkIdxOutOfBounds("c".into(), "p".into(), 42).message(),
        "Chunk index 42 out of bounds for chunker 'c' and text part 'p'"
    );
}

#[test]
fn workspace_metadata_is_constructible() {
    let _m = WorkspaceMetadata::new("bar".to_string());
}
