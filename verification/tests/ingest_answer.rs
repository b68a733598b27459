use cipher::answer::build_context;
use cipher::answer::build_prompt;
use cipher::answer::no_content_answer;
use cipher::answer::rag_prompt;
use cipher::ingest::ingest_chunks;
use cipher::ingest::markdown_chunks_of;
use cipher::ingest::split_chunks;

fn meta_get(chunk: &cipher::store::ChunkData, key: &str) -> Option<String> {
    chunk
        .metadata
        .iter()
        .find(|(k, _)| k == key)
        .map(|(_, v)| v.clone())
}

#[test]
fn ingest_filters_blank_chunks_and_keeps_prefilter_index() {
    let texts = vec!["a".repeat(60), String::new()];
    let embeddings = vec![Some(vec![0.1f32.to_bits(), 0.2f32.to_bits()]), None];
    let (store, report) = ingest_chunks("book.epub", &texts, &embeddings);
    assert_eq!(store.chunks.len(), 1);
    assert_eq!(report.stored, 1);
    assert_eq!(report.skipped, 0);
    assert_eq!(store.chunks[0].content, "a".repeat(60));
    assert_eq!(
        store.chunks[0].embedding,
        vec![0.1f32.to_bits(), 0.2f32.to_bits()]
    );
    assert_eq!(meta_get(&store.chunks[0], "chunk_index"), Some("0".to_string()));
    assert_eq!(meta_get(&store.chunks[0], "source"), Some("book.epub".to_string()));
    assert_eq!(store.embedding_dim, 2);
}

#[test]
fn ingest_tolerates_one_failed_embedding() {
    let texts = vec![
        "first chunk".to_string(),
        "second chunk".to_string(),
        "third chunk".to_string(),
    ];
    let embeddings = vec![
        Some(vec![1.0f32.to_bits()]),
        None,
        Some(vec![0.5f32.to_bits()]),
    ];
    let (store, report) = ingest_chunks("src", &texts, &embeddings);
    assert_eq!(store.chunks.len(), 2);
    assert_eq!(report.stored, 2);
    assert_eq!(report.skipped, 1);
    assert_eq!(store.chunks[0].content, "first chunk");
    assert_eq!(store.chunks[1].content, "third chunk");
    assert_eq!(meta_get(&store.chunks[0], "chunk_index"), Some("0".to_string()));
    assert_eq!(meta_get(&store.chunks[1], "chunk_index"), Some("2".to_string()));
}

#[test]
fn ingest_skips_wrong_dimension() {
    let texts = vec!["one".to_string(), "two".to_string(), "three".to_string()];
    let embeddings = vec![
        Some(vec![1, 2]),
        Some(vec![1, 2, 3]),
        Some(vec![4, 5]),
    ];
    let (store, report) = ingest_chunks("s", &texts, &embeddings);
    assert_eq!(store.chunks.len(), 2);
    assert_eq!(report.stored, 2);
    assert_eq!(report.skipped, 1);
    assert_eq!(store.embedding_dim, 2);
}

#[test]
fn split_chunks_keeps_long_paragraphs() {
    let long_a = "a".repeat(60);
    let long_b = "b".repeat(55);
    let text = format!("{}\n\nshort\n\n   \n\n{}", long_a, long_b);
    let chunks = split_chunks(&text);
    assert_eq!(chunks, vec![long_a, long_b]);
}

#[test]
fn split_chunks_of_blank_text_is_empty() {
    assert_eq!(split_chunks("").len(), 0);
    assert_eq!(split_chunks("   \n\n \t ").len(), 0);
    assert_eq!(split_chunks("short\n\nalso short").len(), 0);
}

#[test]
fn markdown_chunks_strip_html_markup() {
    let sentence = "This paragraph is long enough to be kept as a chunk of the book.";
    let html = format!("<html><body><p>{}</p></body></html>", sentence);
    let chunks = markdown_chunks_of(&html);
    assert_eq!(chunks.len(), 1);
    assert!(chunks[0].contains("long enough to be kept"));
    assert!(!chunks[0].contains("<p>"));
    assert!(!chunks[0].contains("</body>"));
}

#[test]
fn context_joins_contents_in_rank_order() {
    let results = vec![
        (1.0f32.to_bits(), "best".to_string()),
        (0.5f32.to_bits(), "middle".to_string()),
        (0.1f32.to_bits(), "worst".to_string()),
    ];
    assert_eq!(build_context(&results), "best\n\nmiddle\n\nworst");
    assert_eq!(build_context(&Vec::new()), "");
}

#[test]
fn prompt_embeds_question_and_context_verbatim() {
    let prompt = build_prompt("Who is the hero?", "ctx block");
    assert_eq!(
        prompt,
        "Based on the following context from an EPUB book, answer the question: \
         Who is the hero?\n\nContext:\nctx block\n\nAnswer:"
    );
}

#[test]
fn rag_prompt_short_circuits_on_empty_retrieval() {
    assert_eq!(rag_prompt("q", &Vec::new()), None);
    assert_eq!(no_content_answer(), "No relevant content found.");
    let results = vec![(1.0f32.to_bits(), "the hero is named Anne".to_string())];
    let p = rag_prompt("Who is the hero?", &results).unwrap();
    assert!(p.contains("Who is the hero?"));
    assert!(p.contains("the hero is named Anne"));
    assert!(p.ends_with("Answer:"));
}
