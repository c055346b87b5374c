use kuiperdb::config::{
    default_allowed_origins, default_batch_size, default_chunk_overlap, default_chunk_size,
    default_chunk_strategy, default_cors_enabled, default_hnsw_ef_construction,
    default_hnsw_ef_search, default_hnsw_m, default_index_mode, default_index_threshold,
    default_num_workers, default_token_threshold, ChunkingConfig, Config, CorsConfig, Features,
    VectorIndexConfig,
};
use kuiperdb::embedder::{batch_ranges, decimal_string, OpenAIEmbedder, ParallelEmbedder};
use kuiperdb::error::{CoreError, ErrorKind};
use kuiperdb::index::{parse_mode, use_index, IndexConfig, IndexMode, IndexPoint, VectorIndex};
use kuiperdb::models::{default_depth, default_true, Document, SearchType};
use kuiperdb::text::{chars_of, is_whitespace, split_on, string_of, trim_string};
use kuiperdb::worker::{
    BackgroundWorker, BatchOutcome, TickBudget, TickStep, WorkerAction, WorkerEvent,
    TICK_PERIOD_SECS, WRITE_BATCH,
};

#[test]
fn configuration_defaults() {
    let c = Config::default();
    assert_eq!(c.embedding_url, "http://localhost:1234");
    assert_eq!(c.embedding_dimensions, 2560);
    assert_eq!(c.data_dir, "./data");
    assert_eq!(c.port, "8080");
    assert!(!c.insecure_skip_verify);
    assert_eq!(c.ca_cert_path, "");
    assert_eq!(c.num_embedding_workers, 10);
    assert_eq!(c.embedding_batch_size, 1);
    assert!(c.cors.enabled);
    assert_eq!(
        c.cors.allowed_origins,
        vec!["http://localhost:5173", "http://localhost:5174", "http://localhost:5175"]
    );
    assert_eq!(c.vector_index.mode, "auto");
    assert_eq!(c.vector_index.threshold, 1000);
    assert_eq!((c.vector_index.hnsw_m, c.vector_index.hnsw_ef_construction, c.vector_index.hnsw_ef_search), (16, 200, 100));
    assert!(!c.chunking.enabled);
    assert_eq!((c.chunking.token_threshold, c.chunking.chunk_size, c.chunking.chunk_overlap), (512, 512, 50));
    assert_eq!(c.chunking.strategy, "fixed_tokens");
    let f = c.features;
    assert!(!(f.embedding || f.embedding_job || f.embedding_cache || f.vector_index || f.hybrid_search || f.chunking || f.document_relations));
    assert!(default_cors_enabled());
    assert_eq!(default_allowed_origins().len(), 3);
    assert_eq!(default_num_workers(), 10);
    assert_eq!(default_batch_size(), 1);
    assert_eq!(default_index_mode(), "auto");
    assert_eq!(default_index_threshold(), 1000);
    assert_eq!(default_hnsw_m(), 16);
    assert_eq!(default_hnsw_ef_construction(), 200);
    assert_eq!(default_hnsw_ef_search(), 100);
    assert_eq!(default_token_threshold(), 512);
    assert_eq!(default_chunk_size(), 512);
    assert_eq!(default_chunk_overlap(), 50);
    assert_eq!(default_chunk_strategy(), "fixed_tokens");
    assert!(CorsConfig::default().enabled);
    assert_eq!(ChunkingConfig::default().chunk_size, 512);
    assert_eq!(VectorIndexConfig::default().threshold, 1000);
    assert!(!Features::default().chunking);
    assert!(default_true());
    assert_eq!(default_depth(), 3);
    assert_eq!(SearchType::default(), SearchType::Hybrid);
}

#[test]
fn database_path_joins_directory_and_name() {
    let c = Config::default();
    assert_eq!(c.database_path("notes"), "./data/notes.db");
    assert_eq!(c.database_path(""), "./data/.db");
}

#[test]
fn errors_carry_kind_and_message() {
    let e = CoreError::new(ErrorKind::NotFound);
    assert_eq!(e.kind, ErrorKind::NotFound);
    assert!(e.message.is_none());
    assert_eq!(e.kind_name(), "not_found");
    let m = CoreError::with_message(ErrorKind::BackendError, "disk full");
    assert_eq!(m.message.as_deref(), Some("disk full"));
    let names: Vec<&str> = [
        ErrorKind::NotFound,
        ErrorKind::InvalidName,
        ErrorKind::DimensionMismatch,
        ErrorKind::IntegrityViolation,
        ErrorKind::BackendError,
        ErrorKind::EmbeddingServiceError,
        ErrorKind::ChunkerError,
    ]
    .iter()
    .map(|k| CoreError::new(*k).kind_name())
    .collect();
    assert_eq!(
        names,
        vec![
            "not_found",
            "invalid_name",
            "dimension_mismatch",
            "integrity_violation",
            "backend_error",
            "embedding_service_error",
            "chunker_error"
        ]
    );
}

#[test]
fn text_helpers() {
    assert_eq!(trim_string("  a b \t\n"), "a b");
    assert_eq!(trim_string("\u{a0}\u{3000}x\u{2003}"), "x");
    assert_eq!(trim_string("   "), "");
    assert_eq!(trim_string(""), "");
    assert_eq!(trim_string("x"), "x");
    assert_eq!(string_of(&chars_of("héllo")), "héllo");
    for c in ['\t', '\n', '\u{b}', '\u{c}', '\r', ' ', '\u{85}', '\u{a0}', '\u{1680}', '\u{2000}', '\u{200a}', '\u{2028}', '\u{2029}', '\u{202f}', '\u{205f}', '\u{3000}'] {
        assert!(is_whitespace(c));
    }
    for c in ['a', '\u{200b}', '\u{feff}', '_', '\u{1c}'] {
        assert_eq!(is_whitespace(c), c.is_whitespace());
    }
    let mut all_agree = true;
    for u in 0..0x3100u32 {
        if let Some(c) = char::from_u32(u) {
            all_agree = all_agree && is_whitespace(c) == c.is_whitespace();
        }
    }
    assert!(all_agree);
    let parts: Vec<String> = split_on(&chars_of("a,,b,"), ',').iter().map(|p| string_of(p)).collect();
    assert_eq!(parts, vec!["a", "", "b", ""]);
    assert_eq!(split_on(&chars_of(""), ',').len(), 1);
}

#[test]
fn index_is_used_from_the_threshold_on() {
    assert!(!use_index(IndexMode::Auto, 2, 3));
    assert!(use_index(IndexMode::Auto, 3, 3));
    assert!(use_index(IndexMode::Auto, 0, 0));
    assert!(!use_index(IndexMode::Never, 1_000_000, 0));
    assert!(!use_index(IndexMode::Always, 0, 1000));
    assert!(use_index(IndexMode::Always, 1, 1000));
    assert_eq!(parse_mode(&"never".to_string()), IndexMode::Never);
    assert_eq!(parse_mode(&"always".to_string()), IndexMode::Always);
    assert_eq!(parse_mode(&"auto".to_string()), IndexMode::Auto);
    assert_eq!(parse_mode(&"something".to_string()), IndexMode::Auto);
}

#[test]
fn index_positions_are_handed_out_in_order() {
    let mut index = VectorIndex::new(3, IndexConfig::default());
    assert!(index.is_empty() && !index.is_built());
    assert_eq!(index.dimensions(), 3);
    assert_eq!(index.config().hnsw_m, 16);
    assert_eq!(index.check_query(3).unwrap(), false);
    assert_eq!(index.add("a".to_string(), 3).unwrap(), Some(0));
    assert_eq!(index.add("b".to_string(), 3).unwrap(), Some(1));
    // a document that is indexed keeps its position
    assert_eq!(index.add("a".to_string(), 3).unwrap(), None);
    assert_eq!(index.add("c".to_string(), 2).unwrap_err().kind, ErrorKind::DimensionMismatch);
    assert_eq!(index.len(), 2);
    assert!(index.is_built());
    assert_eq!(index.check_query(3).unwrap(), true);
    assert_eq!(index.check_query(4).unwrap_err().kind, ErrorKind::DimensionMismatch);
    assert_eq!(
        index.resolve(&vec![1, 7, 0]),
        vec![(0, "b".to_string()), (2, "a".to_string())]
    );
    assert_eq!(index.search(3, &vec![1, 7, 0]).unwrap(), vec![(0, "b".to_string()), (2, "a".to_string())]);
    assert_eq!(index.search(2, &vec![1]).unwrap_err().kind, ErrorKind::DimensionMismatch);
    index.clear();
    assert!(index.is_empty() && !index.is_built());
    assert!(index.search(3, &vec![0]).unwrap().is_empty());
    assert_eq!(index.add("z".to_string(), 3).unwrap(), Some(0));
}

#[test]
fn index_build_skips_wrong_dimensions_and_repeated_ids() {
    let mut index = VectorIndex::new(2, IndexConfig::default());
    assert!(index.build(&Vec::new()).is_empty());
    assert!(!index.is_built());
    let documents = vec![
        ("a".to_string(), vec![1u32, 2]),
        ("b".to_string(), vec![1u32]),
        ("c".to_string(), vec![3u32, 4]),
        ("a".to_string(), vec![5u32, 6]),
        ("d".to_string(), vec![7u32, 8]),
    ];
    let points = index.build(&documents);
    assert_eq!(
        points,
        vec![
            IndexPoint { position: 0, source: 0 },
            IndexPoint { position: 1, source: 2 },
            IndexPoint { position: 2, source: 4 },
        ]
    );
    assert_eq!(index.len(), 3);
    assert!(index.is_built());
    assert_eq!(index.resolve(&vec![2, 1, 0]), vec![(0, "d".to_string()), (1, "c".to_string()), (2, "a".to_string())]);
    // the next document continues behind the snapshot
    assert_eq!(index.add("e".to_string(), 2).unwrap(), Some(3));
    // a new snapshot replaces the old one
    let again = index.build(&vec![("x".to_string(), vec![0u32, 0])]);
    assert_eq!(again, vec![IndexPoint { position: 0, source: 0 }]);
    assert_eq!(index.len(), 1);
}

#[test]
fn batches_cover_the_items_in_order() {
    assert_eq!(batch_ranges(0, 4), Vec::<(usize, usize)>::new());
    assert_eq!(batch_ranges(3, 4), vec![(0, 3)]);
    assert_eq!(batch_ranges(4, 4), vec![(0, 4)]);
    assert_eq!(batch_ranges(9, 4), vec![(0, 4), (4, 8), (8, 9)]);
    assert_eq!(batch_ranges(3, 1), vec![(0, 1), (1, 2), (2, 3)]);
    assert_eq!(batch_ranges(5, usize::MAX), vec![(0, 5)]);
}

#[test]
fn parallel_embedder_keeps_the_order_of_batches() {
    let pool = ParallelEmbedder::new(3, 2, 2);
    assert_eq!(pool.dimensions(), 3);
    assert_eq!(pool.permits(), 2);
    assert_eq!(pool.plan(5), vec![(0, 2), (2, 4), (4, 5)]);
    let all = pool.embed_parallel(vec![
        vec![vec![1u32], vec![2]],
        vec![],
        vec![vec![3u32], vec![4]],
        vec![vec![5u32]],
    ]);
    assert_eq!(all, vec![vec![1u32], vec![2], vec![3], vec![4], vec![5]]);
    assert!(pool.embed_parallel(Vec::new()).is_empty());
}

#[test]
fn embedder_judges_the_answer() {
    let e = OpenAIEmbedder::new("http://host:1234".to_string(), 3, true);
    assert_eq!(e.endpoint(), "http://host:1234/v1/embeddings");
    assert_eq!(e.model(), "default");
    assert_eq!(e.dimensions(), 3);
    assert!(e.accepts_invalid_certs());
    assert_eq!(e.check_response(200, "", Some(vec![1, 2, 3])).unwrap(), vec![1, 2, 3]);
    assert_eq!(e.check_response(299, "", Some(vec![1, 2, 3])).unwrap(), vec![1, 2, 3]);
    let short = e.check_response(200, "", Some(vec![1, 2])).unwrap_err();
    assert_eq!(short.kind, ErrorKind::DimensionMismatch);
    let none = e.check_response(200, "", None).unwrap_err();
    assert_eq!(none.kind, ErrorKind::DimensionMismatch);
    let empty = e.check_response(200, "", Some(Vec::new())).unwrap_err();
    assert_eq!(empty.kind, ErrorKind::DimensionMismatch);
    let down = e.check_response(503, "try later", Some(vec![1, 2, 3])).unwrap_err();
    assert_eq!(down.kind, ErrorKind::EmbeddingServiceError);
    assert_eq!(down.message.as_deref(), Some("Embedding service returned status 503: try later"));
    let redirect = e.check_response(300, "", None).unwrap_err();
    assert_eq!(redirect.kind, ErrorKind::EmbeddingServiceError);
    assert_eq!(e.check_response(199, "x", None).unwrap_err().message.as_deref(), Some("Embedding service returned status 199: x"));
    assert_eq!(e.parse_failure().kind, ErrorKind::EmbeddingServiceError);
    for n in [0u16, 7, 10, 99, 100, 404, 9999, 10000, 65535] {
        assert_eq!(decimal_string(n), n.to_string());
    }
}

#[test]
fn worker_budget_and_batches() {
    assert_eq!(TICK_PERIOD_SECS, 10);
    assert_eq!(WRITE_BATCH, 4);
    let mut worker = BackgroundWorker::new(10);
    let mut budget = worker.begin_tick();
    assert_eq!(budget, TickBudget { max_documents: 10, total_processed: 0 });
    assert_eq!(budget.remaining(), Some(10));
    budget.record(4);
    assert_eq!(budget.remaining(), Some(6));
    budget.record(6);
    assert_eq!(budget.remaining(), None);
    budget.record(usize::MAX);
    assert_eq!(budget.remaining(), None);
    let plan = worker.process_non_embedded_documents(10);
    assert_eq!(plan.batches, vec![(0, 4), (4, 8), (8, 10)]);
    assert_eq!(plan.concurrency, 3);
    let one = BackgroundWorker::new(2).process_non_embedded_documents(10);
    assert_eq!(one.concurrency, 2);
    let idle = worker.process_non_embedded_documents(0);
    assert!(idle.batches.is_empty());
    assert_eq!(idle.concurrency, 0);
    assert_eq!(BackgroundWorker::new(0).begin_tick().remaining(), None);
    assert_eq!(worker.next(WorkerEvent::Tick), WorkerAction::ProcessPending);
    assert_eq!(worker.next(WorkerEvent::Tick), WorkerAction::ProcessPending);
    worker.stop();
    assert_eq!(worker.next(WorkerEvent::Tick), WorkerAction::Exit);
    let mut other = BackgroundWorker::new(1);
    assert_eq!(other.next(WorkerEvent::Shutdown), WorkerAction::Exit);
    assert_eq!(other.next(WorkerEvent::Tick), WorkerAction::Exit);
}

#[test]
fn a_copy_of_a_document_holds_the_same() {
    let doc = Document {
        id: "d".to_string(),
        db: "db".to_string(),
        table: "t".to_string(),
        content: "c".to_string(),
        metadata: "{}".to_string(),
        tags: vec!["x".to_string(), "y".to_string()],
        vector: Some(vec![1, 2, 3]),
        created_at: 1,
        updated_at: 2,
        is_embedded: true,
        vectorize: true,
        is_chunk: true,
        parent_id: Some("p".to_string()),
        chunk_index: Some(4),
        token_count: Some(5),
        is_vectorized: true,
    };
    let copy = doc.duplicate();
    assert_eq!(format!("{:?}", copy), format!("{:?}", doc));
}

#[test]
fn a_failure_does_not_end_the_tick() {
    let worker = BackgroundWorker::new(6);
    let mut budget = worker.begin_tick();
    // a failed document: the others are still worked on, the budget is untouched
    assert_eq!(worker.after_batch(&mut budget, BatchOutcome::DocumentFailed), TickStep::NextBatch);
    assert_eq!(budget, TickBudget { max_documents: 6, total_processed: 0 });
    assert_eq!(worker.after_batch(&mut budget, BatchOutcome::Embedded(3)), TickStep::NextBatch);
    assert_eq!(budget.remaining(), Some(3));
    // a failed table: the next table is tried
    assert_eq!(worker.after_batch(&mut budget, BatchOutcome::TableFailed), TickStep::NextTable);
    assert_eq!(budget.remaining(), Some(3));
    assert_eq!(worker.after_batch(&mut budget, BatchOutcome::Embedded(0)), TickStep::NextBatch);
    assert_eq!(worker.after_batch(&mut budget, BatchOutcome::Embedded(3)), TickStep::EndTick);
    assert_eq!(budget.remaining(), None);
    assert_eq!(worker.after_batch(&mut budget, BatchOutcome::Embedded(usize::MAX)), TickStep::EndTick);
    assert_eq!(budget.total_processed, usize::MAX);
}
