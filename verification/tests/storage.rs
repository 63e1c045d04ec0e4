use markhor::document::ChunkIdx;
use markhor::hashing::TextHash;
use markhor::scope::PrelimFilter;
use markhor::vector_store::{DocVersionId, VectorData};

#[test]
fn text_hash_of_empty_text() {
    let h = TextHash::of_str("");
    assert_eq!(h.to_hex(), "e3b0c44298fc1c149afbf4c8996fb92427ae41e4649b934ca495991b7852b855");
}

#[test]
fn text_hash_of_parts_is_hash_of_concatenation() {
    let a = TextHash::of_strs(&vec!["ab", "c"]);
    let b = TextHash::of_str("abc");
    assert!(a.same(&b));
    assert!(!a.same(&TextHash::of_str("abd")));
    assert_eq!(TextHash::of_str("abc").to_hex(), "ba7816bf8f01cfea414140de5dae2223b00361a396177a9cb410ff61f20015ad");
}

#[test]
fn text_hash_hex_round_trip() {
    let h = TextHash::of_str("doc1");
    let back = TextHash::from_hex(&h.to_hex()).unwrap();
    assert!(back.same(&h));
    let upper = TextHash::from_hex(&h.to_hex().to_uppercase()).unwrap();
    assert!(upper.same(&h));
    assert!(TextHash::from_hex("abc").is_err());
    assert!(TextHash::from_hex("zz").is_err());
    assert!(TextHash::from_hex("abcd").is_err());
}

fn doc(id: u128, name: &str) -> DocVersionId {
    DocVersionId { id, hash: TextHash::of_str(name), filter: PrelimFilter::new() }
}

#[test]
fn vector_store_counts_and_dedup() {
    let mut data: VectorData<Vec<u8>> = VectorData::new();
    let t1 = ["The cat sat on the big mat.", "The dog sat on the big mat."];
    let t2 = ["The one bug is big and fat.", "The cat sat on the big mat."];
    let chunks1 = t1
        .iter()
        .enumerate()
        .map(|(i, t)| (ChunkIdx::new("test".into(), "text1".into(), i), TextHash::of_str(t), vec![i as u8]))
        .collect();
    let chunks2 = t2
        .iter()
        .enumerate()
        .map(|(i, t)| (ChunkIdx::new("test".into(), "text2".into(), i), TextHash::of_str(t), vec![10 + i as u8]))
        .collect();
    data.insert_doc(doc(1, "doc1"), chunks1);
    data.insert_doc(doc(2, "doc2"), chunks2);

    assert!(data.contains_doc(&doc(1, "doc1")));
    assert!(data.contains_doc(&doc(2, "doc2")));
    assert!(!data.contains_doc(&doc(1, "doc2")));

    let all = data.all_docs();
    assert_eq!(all.len(), 2);
    assert_eq!(data.chunk_count(&all), 4);

    // The second document repeats a text: its vector is the first one stored for it.
    let chunks = data.view_chunks(&all);
    assert_eq!(chunks.len(), 4);
    let last = chunks.iter().find(|c| c.0 == 2 && c.2.chunk_idx() == 1).unwrap();
    assert_eq!(data.vector(last.3), &vec![0u8]);

    // Storing a vector for a known text gives the known index back.
    let idx = data.insert_vector(TextHash::of_str("The dog sat on the big mat."), vec![99]);
    assert_eq!(data.vector(idx), &vec![1u8]);
}

#[test]
fn vector_store_select() {
    let mut data: VectorData<u32> = VectorData::new();
    data.insert_doc(doc(7, "v1"), vec![(ChunkIdx::new("c".into(), "p".into(), 0), TextHash::of_str("x"), 5)]);
    let ok = data.select(&vec![(7, TextHash::of_str("v1"))]).unwrap();
    assert_eq!(ok.len(), 1);
    assert_eq!(ok[0].0, 7);
    assert_eq!(ok[0].2, 0);
    let missing = data.select(&vec![(7, TextHash::of_str("v1")), (8, TextHash::of_str("v2"))]).unwrap_err();
    assert_eq!(missing.len(), 1);
    assert_eq!(missing[0].0, 8);
    // Re-inserting a version replaces its chunks.
    data.insert_doc(doc(7, "v1"), vec![]);
    let again = data.select(&vec![(7, TextHash::of_str("v1"))]).unwrap();
    assert_eq!(data.chunk_count(&again), 0);
}
