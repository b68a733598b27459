use cipher::codec::parse_store;
use cipher::codec::render_store;
use cipher::store::ChunkData;
use cipher::store::StoreError;
use cipher::store::VectorStore;

fn sample_store() -> VectorStore {
    let mut store = VectorStore::new(2);
    store
        .add_chunk(
            "plain text".to_string(),
            vec![1.0f32.to_bits(), (-2.5f32).to_bits()],
            vec![
                ("source".to_string(), "book.epub".to_string()),
                ("chunk_index".to_string(), "0".to_string()),
            ],
        )
        .unwrap();
    store
        .add_chunk(
            "tricky \"content\"\nwith lines, colons: and unicode \u{00e9}\u{4e16}".to_string(),
            vec![0.0f32.to_bits(), 0.1f32.to_bits()],
            vec![
                ("key with spaces".to_string(), "value\nwith newline".to_string()),
                ("dup".to_string(), "first".to_string()),
                ("dup".to_string(), "second".to_string()),
            ],
        )
        .unwrap();
    store
}

#[test]
fn round_trip_preserves_everything() {
    let store = sample_store();
    let text = render_store(&store);
    let loaded = parse_store(&text).unwrap();
    assert_eq!(loaded.embedding_dim, store.embedding_dim);
    assert_eq!(loaded.chunks.len(), store.chunks.len());
    for (a, b) in store.chunks.iter().zip(loaded.chunks.iter()) {
        assert_eq!(a.id, b.id);
        assert_eq!(a.content, b.content);
        assert_eq!(a.embedding, b.embedding);
        assert_eq!(a.metadata, b.metadata);
    }
}

#[test]
fn round_trip_empty_store() {
    let store = VectorStore::new(0);
    let text = render_store(&store);
    assert_eq!(text, "vectorstore 1\ndim 0\ncount 0\n");
    let loaded = parse_store(&text).unwrap();
    assert_eq!(loaded.embedding_dim, 0);
    assert_eq!(loaded.chunks.len(), 0);
}

#[test]
fn round_trip_is_exact_for_float_bits() {
    let mut store = VectorStore::new(3);
    let values = [0.1f32, -0.0, f32::MIN_POSITIVE];
    let bits: Vec<u32> = values.iter().map(|v| v.to_bits()).collect();
    store
        .add_chunk("floats".to_string(), bits.clone(), Vec::new())
        .unwrap();
    let loaded = parse_store(&render_store(&store)).unwrap();
    assert_eq!(loaded.chunks[0].embedding, bits);
    for (v, b) in values.iter().zip(loaded.chunks[0].embedding.iter()) {
        assert_eq!(v.to_bits(), *b);
    }
}

#[test]
fn parse_rejects_garbage() {
    assert!(matches!(parse_store("hello world"), Err(StoreError::Corrupt)));
    assert!(matches!(parse_store(""), Err(StoreError::Corrupt)));
}

#[test]
fn parse_rejects_truncated_document() {
    let text = render_store(&sample_store());
    let cut: String = text.chars().take(text.chars().count() / 2).collect();
    assert!(matches!(parse_store(&cut), Err(StoreError::Corrupt)));
}

#[test]
fn parse_rejects_trailing_garbage() {
    let mut text = render_store(&sample_store());
    text.push_str("extra");
    assert!(matches!(parse_store(&text), Err(StoreError::Corrupt)));
}

#[test]
fn parse_rejects_inconsistent_dimensions() {
    let store = VectorStore {
        chunks: vec![
            ChunkData {
                id: "a".to_string(),
                content: "one".to_string(),
                embedding: vec![1, 2],
                metadata: Vec::new(),
            },
            ChunkData {
                id: "b".to_string(),
                content: "two".to_string(),
                embedding: vec![1, 2, 3],
                metadata: Vec::new(),
            },
        ],
        embedding_dim: 2,
    };
    let text = render_store(&store);
    assert!(matches!(parse_store(&text), Err(StoreError::Corrupt)));
}

#[test]
fn rendered_document_is_structured_text() {
    let mut store = VectorStore::new(1);
    store
        .add_chunk("hi".to_string(), vec![7], vec![("k".to_string(), "v".to_string())])
        .unwrap();
    let id = store.chunks[0].id.clone();
    let text = render_store(&store);
    let expected = format!(
        "vectorstore 1\ndim 1\ncount 1\nid 36:{}\ncontent 2:hi\nembedding 1 7\nmeta 1\npair 1:k 1:v\n",
        id
    );
    assert_eq!(text, expected);
}

#[test]
fn round_trip_zero_dimension_store() {
    let mut store = VectorStore::new(0);
    store
        .add_chunk("no embedding components".to_string(), Vec::new(), Vec::new())
        .unwrap();
    let text = render_store(&store);
    let loaded = parse_store(&text).unwrap();
    assert_eq!(loaded.embedding_dim, 0);
    assert_eq!(loaded.chunks.len(), 1);
    assert_eq!(loaded.chunks[0].content, "no embedding components");
    assert_eq!(loaded.chunks[0].embedding.len(), 0);
    assert_eq!(loaded.chunks[0].metadata.len(), 0);
}
