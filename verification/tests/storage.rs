use indexer::vector_store::{docs_of_files, from_doc, to_doc, EmbeddingFile};

#[test]
fn stored_record_round_trips() {
    let record = EmbeddingFile {
        embedding: vec![7u32, 8u32, 9u32],
        content: String::from("package main"),
    };
    let doc = to_doc(record);
    assert_eq!(doc.embedding, vec![7u32, 8u32, 9u32]);
    assert_eq!(doc.file, "package main");
    let back = from_doc(doc);
    assert_eq!(back.content, "package main");
    assert_eq!(back.embedding.len(), 3);
    assert_eq!(back.embedding, vec![7u32, 8u32, 9u32]);
}

#[test]
fn batch_conversion_keeps_order() {
    let files = vec![
        EmbeddingFile { embedding: vec![1u32], content: String::from("one") },
        EmbeddingFile { embedding: vec![2u32], content: String::from("two") },
        EmbeddingFile { embedding: vec![3u32], content: String::from("three") },
    ];
    let docs = docs_of_files(files);
    assert_eq!(docs.len(), 3);
    assert_eq!(docs[0].file, "one");
    assert_eq!(docs[1].file, "two");
    assert_eq!(docs[2].file, "three");
    assert_eq!(docs[2].embedding, vec![3u32]);
}

#[test]
fn empty_batch_converts_to_no_documents() {
    let docs = docs_of_files(Vec::new());
    assert_eq!(docs.len(), 0);
}
