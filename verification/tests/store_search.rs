use cipher::store::StoreError;
use cipher::store::VectorStore;

fn cosine(a: &[f32], b: &[f32]) -> f32 {
    if a.len() != b.len() {
        return 0.0;
    }
    let dot: f32 = a.iter().zip(b.iter()).map(|(x, y)| x * y).sum();
    let na: f32 = a.iter().map(|x| x * x).sum::<f32>().sqrt();
    let nb: f32 = b.iter().map(|x| x * x).sum::<f32>().sqrt();
    if na == 0.0 || nb == 0.0 {
        return 0.0;
    }
    dot / (na * nb)
}

fn bits_of(v: &[f32]) -> Vec<u32> {
    v.iter().map(|x| x.to_bits()).collect()
}

fn scores_for(store: &VectorStore, query: &[f32]) -> Vec<u32> {
    let mut scores: Vec<u32> = Vec::new();
    for chunk in store.chunks.iter() {
        let emb: Vec<f32> = chunk.embedding.iter().map(|b| f32::from_bits(*b)).collect();
        scores.push(cosine(query, &emb).to_bits());
    }
    scores
}

#[test]
fn new_store_is_empty() {
    let store = VectorStore::new(3);
    assert_eq!(store.chunks.len(), 0);
    assert_eq!(store.embedding_dim, 3);
}

#[test]
fn add_chunk_stores_fields_and_fresh_id() {
    let mut store = VectorStore::new(2);
    let meta = vec![("source".to_string(), "book".to_string())];
    let id = store
        .add_chunk("hello world".to_string(), bits_of(&[1.0, 0.0]), meta.clone())
        .unwrap();
    assert_eq!(id.chars().count(), 36);
    assert_eq!(store.chunks.len(), 1);
    assert_eq!(store.chunks[0].id, id);
    assert_eq!(store.chunks[0].content, "hello world");
    assert_eq!(store.chunks[0].embedding, bits_of(&[1.0, 0.0]));
    assert_eq!(store.chunks[0].metadata, meta);
    let id2 = store
        .add_chunk("again".to_string(), bits_of(&[0.0, 1.0]), Vec::new())
        .unwrap();
    assert!(id != id2);
}

#[test]
fn dimension_mismatch_leaves_store_unchanged() {
    let mut store = VectorStore::new(2);
    store
        .add_chunk("ok".to_string(), bits_of(&[1.0, 2.0]), Vec::new())
        .unwrap();
    let r = store.add_chunk("bad".to_string(), bits_of(&[1.0, 2.0, 3.0]), Vec::new());
    assert_eq!(r, Err(StoreError::DimensionMismatch));
    assert_eq!(store.chunks.len(), 1);
    assert_eq!(store.embedding_dim, 2);
}

#[test]
fn zero_dimension_is_inferred_from_first_add() {
    let mut store = VectorStore::new(0);
    store
        .add_chunk("first".to_string(), bits_of(&[1.0, 2.0, 3.0]), Vec::new())
        .unwrap();
    assert_eq!(store.embedding_dim, 3);
    let r = store.add_chunk("bad".to_string(), bits_of(&[1.0]), Vec::new());
    assert_eq!(r, Err(StoreError::DimensionMismatch));
    assert_eq!(store.chunks.len(), 1);
}

#[test]
fn search_empty_store_returns_empty() {
    let store = VectorStore::new(2);
    assert_eq!(store.search(&Vec::new(), 0).len(), 0);
    assert_eq!(store.search(&Vec::new(), 5).len(), 0);
    assert_eq!(store.search(&Vec::new(), usize::MAX).len(), 0);
}

#[test]
fn huge_top_k_returns_all_chunks() {
    let mut store = VectorStore::new(1);
    store
        .add_chunk("only".to_string(), bits_of(&[1.0]), Vec::new())
        .unwrap();
    let results = store.search(&vec![0.5f32.to_bits()], usize::MAX);
    assert_eq!(results.len(), 1);
    assert_eq!(results[0].1, "only");
}

#[test]
fn error_descriptions_name_each_failure() {
    assert_eq!(
        StoreError::DimensionMismatch.describe(),
        "embedding length does not match the store's dimensionality"
    );
    assert_eq!(
        StoreError::NotFound.describe(),
        "no persisted store at the given path"
    );
    assert_eq!(
        StoreError::Corrupt.describe(),
        "the persisted store does not parse"
    );
}

#[test]
fn search_results_sorted_and_complete() {
    let mut store = VectorStore::new(2);
    let embs = [[1.0f32, 0.0], [0.0, 1.0], [0.6, 0.8], [-1.0, 0.0], [0.8, 0.6]];
    for (i, e) in embs.iter().enumerate() {
        store
            .add_chunk(format!("chunk{}", i), bits_of(e), Vec::new())
            .unwrap();
    }
    let scores = scores_for(&store, &[1.0, 0.0]);
    let results = store.search(&scores, 10);
    assert_eq!(results.len(), 5);
    for w in results.windows(2) {
        assert!(f32::from_bits(w[0].0) >= f32::from_bits(w[1].0));
    }
    let mut contents: Vec<String> = results.iter().map(|(_, c)| c.clone()).collect();
    contents.sort();
    assert_eq!(contents, vec!["chunk0", "chunk1", "chunk2", "chunk3", "chunk4"]);
    assert_eq!(results[0].1, "chunk0");
    assert_eq!(results[4].1, "chunk3");
}

#[test]
fn search_breaks_ties_by_insertion_order() {
    let mut store = VectorStore::new(1);
    for name in ["alpha", "beta", "gamma"] {
        store
            .add_chunk(name.to_string(), bits_of(&[1.0]), Vec::new())
            .unwrap();
    }
    let scores = vec![0.5f32.to_bits(), 0.5f32.to_bits(), 0.5f32.to_bits()];
    let results = store.search(&scores, 3);
    let contents: Vec<&str> = results.iter().map(|(_, c)| c.as_str()).collect();
    assert_eq!(contents, vec!["alpha", "beta", "gamma"]);
}

#[test]
fn search_orders_negative_scores_below_positive() {
    let mut store = VectorStore::new(1);
    for name in ["a", "b", "c", "d"] {
        store
            .add_chunk(name.to_string(), bits_of(&[1.0]), Vec::new())
            .unwrap();
    }
    let scores = vec![
        (-0.5f32).to_bits(),
        0.9f32.to_bits(),
        (-0.1f32).to_bits(),
        0.0f32.to_bits(),
    ];
    let results = store.search(&scores, 4);
    let contents: Vec<&str> = results.iter().map(|(_, c)| c.as_str()).collect();
    assert_eq!(contents, vec!["b", "d", "c", "a"]);
}

#[test]
fn search_truncates_to_top_k() {
    let mut store = VectorStore::new(1);
    for i in 0..4 {
        store
            .add_chunk(format!("c{}", i), bits_of(&[1.0]), Vec::new())
            .unwrap();
    }
    let scores = vec![
        0.1f32.to_bits(),
        0.9f32.to_bits(),
        0.5f32.to_bits(),
        0.7f32.to_bits(),
    ];
    let results = store.search(&scores, 2);
    assert_eq!(results.len(), 2);
    assert_eq!(results[0].1, "c1");
    assert_eq!(results[1].1, "c3");
}

#[test]
fn search_scenario_three_chunks() {
    let mut store = VectorStore::new(2);
    store
        .add_chunk("first".to_string(), bits_of(&[1.0, 0.0]), Vec::new())
        .unwrap();
    store
        .add_chunk("second".to_string(), bits_of(&[0.0, 1.0]), Vec::new())
        .unwrap();
    store
        .add_chunk("third".to_string(), bits_of(&[1.0, 1.0]), Vec::new())
        .unwrap();
    let scores = scores_for(&store, &[1.0, 0.0]);
    let results = store.search(&scores, 2);
    assert_eq!(results.len(), 2);
    assert_eq!(results[0].1, "first");
    assert_eq!(f32::from_bits(results[0].0), 1.0);
    assert_eq!(results[1].1, "third");
    assert!((f32::from_bits(results[1].0) - 0.707).abs() < 0.001);
    assert!(results.iter().all(|(_, c)| c != "second"));
}

#[test]
fn mismatched_query_length_scores_zero() {
    let mut store = VectorStore::new(2);
    store
        .add_chunk("first".to_string(), bits_of(&[1.0, 0.0]), Vec::new())
        .unwrap();
    store
        .add_chunk("second".to_string(), bits_of(&[0.0, 1.0]), Vec::new())
        .unwrap();
    let scores = scores_for(&store, &[1.0, 0.0, 0.0]);
    assert!(scores.iter().all(|s| f32::from_bits(*s) == 0.0));
    let results = store.search(&scores, 2);
    let contents: Vec<&str> = results.iter().map(|(_, c)| c.as_str()).collect();
    assert_eq!(contents, vec!["first", "second"]);
}
