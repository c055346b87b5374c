use kuiperdb::chunking::{Chunker, CustomChunker, FixedTokenChunker, MarkdownChunker};
use kuiperdb::error::{CoreError, ErrorKind};
use kuiperdb::config::ChunkingConfig;
use kuiperdb::ingest::{
    attach_embedding, build_chunks, parse_client_features, plan_chunks, rechunk, should_embed_sync,
    split_document, split_with,
};
use kuiperdb::models::Document;

fn document(content: &str) -> Document {
    Document {
        id: "parent".to_string(),
        db: "db".to_string(),
        table: "docs".to_string(),
        content: content.to_string(),
        metadata: "{\"source\":\"test\"}".to_string(),
        tags: vec!["a".to_string(), "b".to_string()],
        vector: None,
        created_at: 1_700_000_000_000,
        updated_at: 1_700_000_000_000,
        is_embedded: false,
        vectorize: true,
        is_chunk: false,
        parent_id: None,
        chunk_index: None,
        token_count: None,
        is_vectorized: false,
    }
}

fn config(threshold: usize, size: usize, overlap: usize, strategy: &str) -> ChunkingConfig {
    ChunkingConfig {
        enabled: true,
        token_threshold: threshold,
        chunk_size: size,
        chunk_overlap: overlap,
        strategy: strategy.to_string(),
    }
}

#[test]
fn a_fifty_token_document_becomes_five_chunks() {
    let text = vec!["word"; 50].join(" ");
    let mut doc = document(&text);
    let chunks = plan_chunks(&mut doc, true, &config(10, 10, 0, "fixed_tokens"));
    assert_eq!(chunks.len(), 5);
    assert!(!doc.vectorize);
    assert_eq!(doc.token_count, Some(50));
    for (i, c) in chunks.iter().enumerate() {
        assert!(c.is_chunk);
        assert!(c.vectorize);
        assert_eq!(c.chunk_index, Some(i as i32));
        assert_eq!(c.parent_id.as_deref(), Some("parent"));
        assert_eq!(c.token_count, Some(10));
        assert_eq!(c.db, "db");
        assert_eq!(c.table, "docs");
        assert_eq!(c.metadata, doc.metadata);
        assert_eq!(c.tags, doc.tags);
        assert!(c.vector.is_none() && !c.is_embedded && !c.is_vectorized);
        assert_eq!(c.id.len(), 36);
        assert!(c.updated_at >= c.created_at);
    }
    let mut ids: Vec<&str> = chunks.iter().map(|c| c.id.as_str()).collect();
    ids.sort();
    ids.dedup();
    assert_eq!(ids.len(), 5);
    let contents: Vec<&str> = chunks.iter().map(|c| c.content.as_str()).collect();
    assert_eq!(contents.concat(), text);
}

#[test]
fn short_documents_are_counted_but_not_chunked() {
    let mut doc = document("a few words only");
    let chunks = plan_chunks(&mut doc, true, &config(10, 10, 0, "fixed_tokens"));
    assert!(chunks.is_empty());
    assert!(doc.vectorize);
    assert_eq!(doc.token_count, Some(4));
    // exactly at the threshold is not over it
    let text = vec!["word"; 10].join(" ");
    let mut at = document(&text);
    assert!(plan_chunks(&mut at, true, &config(10, 10, 0, "fixed_tokens")).is_empty());
    assert!(at.vectorize);
    assert_eq!(at.token_count, Some(10));
}

#[test]
fn chunking_applies_only_where_it_is_switched_on() {
    let text = vec!["word"; 50].join(" ");
    let on = config(10, 10, 0, "fixed_tokens");
    let mut off = config(10, 10, 0, "fixed_tokens");
    off.enabled = false;
    let mut doc = document(&text);
    assert!(plan_chunks(&mut doc, false, &on).is_empty());
    assert!(plan_chunks(&mut doc, true, &off).is_empty());
    assert!(plan_chunks(&mut doc, true, &config(10, 0, 0, "fixed_tokens")).is_empty());
    assert!(doc.vectorize && doc.token_count.is_none());
    doc.vectorize = false;
    assert!(plan_chunks(&mut doc, true, &on).is_empty());
    assert!(doc.token_count.is_none());
}

#[test]
fn the_markdown_strategy_splits_at_rules() {
    let text = format!("{}\n\n---\n\n{}", vec!["word"; 8].join(" "), vec!["other"; 8].join(" "));
    let mut doc = document(&text);
    let chunks = plan_chunks(&mut doc, true, &config(10, 10, 0, "markdown"));
    assert_eq!(chunks.len(), 2);
    assert_eq!(chunks[0].content, vec!["word"; 8].join(" "));
    assert_eq!(chunks[1].content, vec!["other"; 8].join(" "));
    assert!(!doc.vectorize);
    // any other name is the fixed-token strategy
    let mut plain = document(&text);
    let windows = plan_chunks(&mut plain, true, &config(10, 10, 0, "custom"));
    assert!(windows.len() >= 2);
    assert!(windows.iter().any(|c| c.content.contains("---")));
}

#[test]
fn split_document_with_the_character_proxy() {
    let chunker = CustomChunker;
    let text = "x".repeat(100);
    let mut doc = document(&text);
    let chunks = split_document(&chunker, &mut doc, &config(10, 5, 0, "custom"));
    // 25 estimated tokens, windows of 20 characters
    assert_eq!(doc.token_count, Some(25));
    assert!(!doc.vectorize);
    assert_eq!(chunks.len(), 5);
    assert!(chunks.iter().all(|c| c.content.len() == 20 && c.token_count == Some(5)));
    let mut small = document("tiny");
    assert!(split_document(&chunker, &mut small, &config(10, 5, 0, "custom")).is_empty());
    assert_eq!(small.token_count, Some(1));
    assert!(small.vectorize);
}

#[test]
fn rechunking_chunks_whatever_the_length() {
    let chunker = FixedTokenChunker::new().unwrap();
    let doc = document("a few words only");
    let chunks = rechunk(&chunker, &doc, &config(1000, 2, 0, "fixed_tokens")).unwrap();
    assert_eq!(chunks.len(), 2);
    assert_eq!(chunks[0].content, "a few");
    assert_eq!(chunks[1].content, " words only");
    assert_eq!(chunks[1].chunk_index, Some(1));
    let whole = rechunk(&chunker, &doc, &config(1000, 512, 50, "fixed_tokens")).unwrap();
    assert_eq!(whole.len(), 1);
    assert_eq!(whole[0].content, doc.content);
    let none = rechunk(&chunker, &document(""), &config(1000, 512, 50, "fixed_tokens")).unwrap();
    assert!(none.is_empty());
    let built = build_chunks(&chunker, &doc, &vec!["one".to_string(), "two three".to_string()]);
    assert_eq!(built.len(), 2);
    assert_eq!(built[1].token_count, Some(chunker.count_tokens("two three").unwrap() as i32));
}

#[test]
fn an_attached_embedding_marks_the_document() {
    let mut doc = document("text");
    attach_embedding(&mut doc, vec![1, 2, 3]);
    assert!(doc.is_embedded);
    assert_eq!(doc.vector, Some(vec![1, 2, 3]));
    assert_eq!(doc.content, "text");
}

#[test]
fn client_features_are_names_with_values() {
    let pairs = |v: Vec<(String, String)>| -> Vec<(String, String)> { v };
    assert_eq!(
        pairs(parse_client_features("embed=async; trace ; level = high;;  ")),
        vec![
            ("embed".to_string(), "async".to_string()),
            ("trace".to_string(), "".to_string()),
            ("level".to_string(), "high".to_string()),
        ]
    );
    assert!(parse_client_features("").is_empty());
    assert!(parse_client_features(" ; ;").is_empty());
    assert_eq!(
        parse_client_features("a=b=c"),
        vec![("a".to_string(), "b=c".to_string())]
    );
    assert_eq!(parse_client_features("=x"), vec![("".to_string(), "x".to_string())]);
    assert_eq!(parse_client_features("k="), vec![("k".to_string(), "".to_string())]);
}

#[test]
fn embedding_waits_only_where_the_client_asks() {
    let none = parse_client_features("");
    assert!(should_embed_sync(true, true, &none));
    assert!(!should_embed_sync(false, true, &none));
    assert!(!should_embed_sync(true, false, &none));
    assert!(!should_embed_sync(true, true, &parse_client_features("embed=async")));
    assert!(should_embed_sync(true, true, &parse_client_features("embed=sync")));
    assert!(should_embed_sync(true, true, &parse_client_features("embed")));
    assert!(should_embed_sync(true, true, &parse_client_features("other=async")));
    // the last word counts
    assert!(should_embed_sync(true, true, &parse_client_features("embed=async; embed=now")));
    assert!(!should_embed_sync(true, true, &parse_client_features("embed=now; embed = async ")));
}

#[test]
fn without_a_chunker_nothing_is_split() {
    let text = "x".repeat(100);
    let mut doc = document(&text);
    let missing: Result<CustomChunker, CoreError> = Err(CoreError::new(ErrorKind::ChunkerError));
    let chunks = split_with(missing, &mut doc, &config(10, 5, 0, "custom"));
    assert!(chunks.is_empty());
    assert!(doc.vectorize);
    assert!(doc.token_count.is_none());
    // with a chunker the document is split as `split_document` splits it
    let chunks = split_with(Ok(CustomChunker), &mut doc, &config(10, 5, 0, "custom"));
    assert_eq!(chunks.len(), 5);
    assert!(!doc.vectorize);
    assert_eq!(doc.token_count, Some(25));
}

#[test]
fn a_tokenizer_that_did_not_load_is_a_chunker_error() {
    let failed = FixedTokenChunker::with_tokenizer(None);
    let e = failed.err().unwrap();
    assert_eq!(e.kind, ErrorKind::ChunkerError);
    assert_eq!(e.message.as_deref(), Some("tokenizer unavailable"));
    let passed_on = MarkdownChunker::over(Err(CoreError::with_message(ErrorKind::ChunkerError, "because")));
    let e = passed_on.err().unwrap();
    assert_eq!(e.kind, ErrorKind::ChunkerError);
    assert_eq!(e.message.as_deref(), Some("because"));
    let markdown = MarkdownChunker::over(FixedTokenChunker::new()).unwrap();
    assert_eq!(markdown.count_tokens("word word").unwrap(), 2);
}
