use kuiperdb::codec::{deserialize_vector, serialize_vector};
use kuiperdb::error::ErrorKind;
use kuiperdb::index::{IndexConfig, IndexMode};
use kuiperdb::models::{Document, DocumentRelation, StoreDocumentRequest};
use kuiperdb::rows::{
    document_from_row, document_params, documents_from_rows, estimate_tokens, join_tags,
    pending_from_rows, relation_from_row, split_tags, DocumentRow, RelationRow,
};
use kuiperdb::cache::EmbeddingCache;
use kuiperdb::sql::{
    create_cache_index, create_cache_table, enable_foreign_keys, is_valid_table_name,
    select_cached, select_tables, upsert_cached, weave, SqlValue, Statement,
};
use kuiperdb::search::{Candidate, HybridSearcher};
use kuiperdb::store::{DocumentStore, VectorSearchPlan};
use sqlx::Row;

fn block_on<T>(f: impl std::future::Future<Output = T>) -> T {
    tokio::runtime::Builder::new_current_thread()
        .enable_all()
        .build()
        .unwrap()
        .block_on(f)
}

async fn memory_pool() -> sqlx::SqlitePool {
    sqlx::sqlite::SqlitePoolOptions::new()
        .max_connections(1)
        .connect("sqlite::memory:")
        .await
        .unwrap()
}

fn bind<'q>(
    statement: &'q Statement,
) -> sqlx::query::Query<'q, sqlx::Sqlite, sqlx::sqlite::SqliteArguments<'q>> {
    let mut query = sqlx::query(&statement.sql);
    for p in &statement.params {
        query = match p {
            SqlValue::Text(t) => query.bind(t.clone()),
            SqlValue::Blob(b) => query.bind(b.clone()),
            SqlValue::Integer(i) => query.bind(*i),
            SqlValue::Timestamp(t) => query.bind(chrono::DateTime::from_timestamp_millis(*t).unwrap()),
            SqlValue::Null => query.bind(Option::<String>::None),
        };
    }
    query
}

async fn run(pool: &sqlx::SqlitePool, statement: &Statement) -> Result<u64, sqlx::Error> {
    bind(statement).execute(pool).await.map(|r| r.rows_affected())
}

async fn run_all(pool: &sqlx::SqlitePool, statements: &Vec<Statement>) {
    for s in statements {
        run(pool, s).await.unwrap();
    }
}

fn row_of(row: &sqlx::sqlite::SqliteRow) -> DocumentRow {
    DocumentRow {
        id: row.get("id"),
        content: row.get("content"),
        metadata: row.get("metadata"),
        tags: row.get("tags"),
        vector: row.get("vector"),
        created_at: row.get::<chrono::DateTime<chrono::Utc>, _>("created_at").timestamp_millis(),
        updated_at: row.get::<chrono::DateTime<chrono::Utc>, _>("updated_at").timestamp_millis(),
        is_embedded: row.get("is_embedded"),
        vectorize: row.get("vectorize"),
        is_chunk: row.get("is_chunk"),
        parent_id: row.get("parent_id"),
        chunk_index: row.get("chunk_index"),
        token_count: row.get("token_count"),
        is_vectorized: row.get("is_vectorized"),
    }
}

async fn rows(pool: &sqlx::SqlitePool, statement: &Statement) -> Vec<DocumentRow> {
    bind(statement).fetch_all(pool).await.unwrap().iter().map(row_of).collect()
}

async fn fts_ids(pool: &sqlx::SqlitePool, store: &DocumentStore, table: &str, query: &str) -> Vec<String> {
    let s = store.search_fts(table, query, 10).unwrap();
    bind(&s).fetch_all(pool).await.unwrap().iter().map(|r| r.get::<String, _>("id")).collect()
}

fn document(id: &str, content: &str) -> Document {
    Document {
        id: id.to_string(),
        db: "db".to_string(),
        table: "docs".to_string(),
        content: content.to_string(),
        metadata: "{\"k\":\"v\"}".to_string(),
        tags: vec!["red".to_string(), "green".to_string()],
        vector: None,
        created_at: 1_700_000_000_000,
        updated_at: 1_700_000_000_500,
        is_embedded: false,
        vectorize: true,
        is_chunk: false,
        parent_id: None,
        chunk_index: None,
        token_count: None,
        is_vectorized: false,
    }
}

fn chunk(id: &str, parent: &str, index: i32) -> Document {
    let mut d = document(id, &format!("part {} of the whole", index));
    d.is_chunk = true;
    d.parent_id = Some(parent.to_string());
    d.chunk_index = Some(index);
    d
}

async fn store(pool: &sqlx::SqlitePool, s: &DocumentStore, table: &str, doc: &Document) {
    run_all(pool, &s.ensure_table(table).unwrap()).await;
    run(pool, &s.store_document(table, doc).unwrap()).await.unwrap();
}

#[test]
fn table_names_are_letters_digits_and_underscores() {
    assert!(is_valid_table_name("docs"));
    assert!(is_valid_table_name("Docs_2024"));
    assert!(is_valid_table_name("_"));
    assert!(!is_valid_table_name(""));
    assert!(!is_valid_table_name("my table"));
    assert!(!is_valid_table_name("docs\"; DROP TABLE docs; --"));
    assert!(!is_valid_table_name("docs-1"));
    assert!(!is_valid_table_name("номер"));
    assert!(!is_valid_table_name("docs\n"));
}

#[test]
fn invalid_table_names_are_refused_everywhere() {
    let s = DocumentStore::new("./data".to_string());
    let bad = "no good";
    assert_eq!(s.ensure_table(bad).unwrap_err().kind, ErrorKind::InvalidName);
    assert_eq!(s.store_document(bad, &document("a", "b")).unwrap_err().kind, ErrorKind::InvalidName);
    assert_eq!(s.get_document(bad, "a").unwrap_err().kind, ErrorKind::InvalidName);
    assert_eq!(s.get_non_embedded_documents(bad, 1).unwrap_err().kind, ErrorKind::InvalidName);
    assert_eq!(s.get_all_documents(bad, 1).unwrap_err().kind, ErrorKind::InvalidName);
    assert_eq!(s.get_chunks(bad, "a").unwrap_err().kind, ErrorKind::InvalidName);
    assert_eq!(s.delete_chunks(bad, "a").unwrap_err().kind, ErrorKind::InvalidName);
    assert_eq!(s.count_embedded(bad).unwrap_err().kind, ErrorKind::InvalidName);
    assert_eq!(s.search_fts(bad, "q", 1).unwrap_err().kind, ErrorKind::InvalidName);
    assert_eq!(s.scan_vectors(bad).unwrap_err().kind, ErrorKind::InvalidName);
    assert_eq!(s.index_snapshot(bad).unwrap_err().kind, ErrorKind::InvalidName);
    assert_eq!(s.fetch_hit(bad, "a").unwrap_err().kind, ErrorKind::InvalidName);
    assert_eq!(s.find_parent(bad, "a").unwrap_err().kind, ErrorKind::InvalidName);
    assert_eq!(s.delete_document_by_id(bad, "a", None).unwrap_err().kind, ErrorKind::InvalidName);
    assert_eq!(s.delete_table(bad).unwrap_err().kind, ErrorKind::InvalidName);
    assert_eq!(
        s.update_document_vector(bad, "a", &vec![1], 0).unwrap_err().kind,
        ErrorKind::InvalidName
    );
}

#[test]
fn statements_quote_the_table_name() {
    let s = DocumentStore::new("./data".to_string());
    let get = s.get_document("docs", "id-1").unwrap();
    assert_eq!(
        get.sql,
        "SELECT id, content, metadata, tags, vector, created_at, updated_at, is_embedded, vectorize, is_chunk, parent_id, chunk_index, token_count, is_vectorized FROM \"docs\" WHERE id = ?"
    );
    assert!(matches!(&get.params[..], [SqlValue::Text(t)] if t == "id-1"));
    let drop = s.delete_table("docs").unwrap();
    assert_eq!(drop[0].sql, "DROP TABLE IF EXISTS \"docs\"");
    assert_eq!(drop[1].sql, "DROP TABLE IF EXISTS \"docs_fts\"");
    let schema = s.ensure_table("docs").unwrap();
    assert_eq!(schema.len(), 15);
    assert!(schema[0].sql.starts_with("CREATE TABLE IF NOT EXISTS \"docs\" (id TEXT PRIMARY KEY"));
    assert!(schema[0].sql.ends_with("REFERENCES \"docs\"(id) ON DELETE CASCADE)"));
    assert!(schema[1].sql.starts_with("CREATE VIRTUAL TABLE IF NOT EXISTS \"docs_fts\" USING fts5("));
    assert!(schema[14].sql.contains("UNIQUE INDEX"));
    assert!(schema.iter().all(|st| st.params.is_empty()));
    let fts = s.search_fts("docs", "fox", 10).unwrap();
    assert!(fts.sql.contains("FROM \"docs_fts\" AS fts JOIN \"docs\" AS d"));
    assert!(matches!(&fts.params[..], [SqlValue::Text(q), SqlValue::Integer(10)] if q == "fox"));
    assert_eq!(weave(&vec!["a", "b", "c"], "-"), "a-b-c");
    assert_eq!(weave(&vec!["a"], "-"), "a");
    assert_eq!(weave(&Vec::new(), "-"), "");
}

#[test]
fn paths_and_addresses() {
    let s = DocumentStore::new("/var/kuiper".to_string());
    assert_eq!(s.database_path("notes"), "/var/kuiper/notes.db");
    assert_eq!(s.get_global_pool(), "/var/kuiper/global.db");
    assert_eq!(s.get_pool("notes"), "sqlite:///var/kuiper/notes.db?mode=rwc");
    assert_eq!(s.delete_database("notes"), "/var/kuiper/notes.db");
}

#[test]
fn tags_are_stored_with_commas() {
    assert_eq!(join_tags(&vec!["a".to_string(), "b".to_string(), "c".to_string()]), "a,b,c");
    assert_eq!(join_tags(&vec!["solo".to_string()]), "solo");
    assert_eq!(join_tags(&Vec::new()), "");
    assert_eq!(split_tags("a,b,c"), vec!["a", "b", "c"]);
    assert_eq!(split_tags(""), Vec::<String>::new());
    assert_eq!(split_tags("a,,b,"), vec!["a", "", "b", ""]);
    assert_eq!(split_tags(","), vec!["", ""]);
    for tags in [vec![], vec!["x"], vec!["x", "y z"], vec!["", "x"], vec!["", ""]] {
        let owned: Vec<String> = tags.iter().map(|t| t.to_string()).collect();
        assert_eq!(split_tags(&join_tags(&owned)), owned);
    }
}

#[test]
fn token_count_defaults_to_a_quarter_of_the_length() {
    assert_eq!(estimate_tokens(0), 0);
    assert_eq!(estimate_tokens(1), 1);
    assert_eq!(estimate_tokens(4), 1);
    assert_eq!(estimate_tokens(5), 2);
    assert_eq!(estimate_tokens(43), 11);
    assert_eq!(estimate_tokens(usize::MAX), i32::MAX);
    let params = document_params(&document("a", "12345"));
    assert!(matches!(params[12], SqlValue::Integer(2)));
    let mut counted = document("a", "12345");
    counted.token_count = Some(77);
    assert!(matches!(document_params(&counted)[12], SqlValue::Integer(77)));
}

#[test]
fn a_vector_makes_a_document_embedded() {
    let mut doc = document("a", "text");
    let params = document_params(&doc);
    assert_eq!(params.len(), 14);
    assert!(matches!(params[4], SqlValue::Null));
    assert!(matches!(params[7], SqlValue::Integer(0)));
    assert!(matches!(params[13], SqlValue::Integer(0)));
    assert!(matches!(&params[3], SqlValue::Text(t) if t == "red,green"));
    assert!(matches!(params[5], SqlValue::Timestamp(1_700_000_000_000)));
    assert!(matches!(params[10], SqlValue::Null));
    assert!(matches!(params[11], SqlValue::Null));
    doc.vector = Some(vec![0x3f80_0000]);
    let params = document_params(&doc);
    assert!(matches!(&params[4], SqlValue::Blob(b) if *b == vec![0u8, 0, 0x80, 0x3f]));
    assert!(matches!(params[7], SqlValue::Integer(1)));
    assert!(matches!(params[13], SqlValue::Integer(1)));
    let c = chunk("c", "p", 2);
    let params = document_params(&c);
    assert!(matches!(params[9], SqlValue::Integer(1)));
    assert!(matches!(&params[10], SqlValue::Text(p) if p == "p"));
    assert!(matches!(params[11], SqlValue::Integer(2)));
}

#[test]
fn rows_become_documents() {
    let row = DocumentRow {
        id: "a".to_string(),
        content: "text".to_string(),
        metadata: "{}".to_string(),
        tags: "x,y".to_string(),
        vector: Some(vec![1, 2, 3, 4, 5, 6, 7, 8]),
        created_at: 10,
        updated_at: 20,
        is_embedded: 1,
        vectorize: 0,
        is_chunk: 2,
        parent_id: Some("p".to_string()),
        chunk_index: Some(3),
        token_count: None,
        is_vectorized: 1,
    };
    let doc = document_from_row("db", "docs", &row);
    assert_eq!((doc.db.as_str(), doc.table.as_str(), doc.id.as_str()), ("db", "docs", "a"));
    assert_eq!(doc.tags, vec!["x", "y"]);
    assert_eq!(doc.vector, Some(vec![0x0403_0201, 0x0807_0605]));
    assert!(doc.is_embedded && !doc.vectorize && doc.is_vectorized);
    // only 1 is a set flag
    assert!(!doc.is_chunk);
    assert_eq!(doc.parent_id.as_deref(), Some("p"));
    assert_eq!((doc.created_at, doc.updated_at, doc.chunk_index, doc.token_count), (10, 20, Some(3), None));
    let pending = pending_from_rows("db", "docs", &vec![row]);
    assert_eq!(pending.len(), 1);
    assert!(pending[0].vector.is_none() && !pending[0].is_embedded);
    assert_eq!(pending[0].tags, vec!["x", "y"]);
    assert!(documents_from_rows("db", "docs", &Vec::new()).is_empty());
    let relation = relation_from_row(&RelationRow {
        id: "r".to_string(),
        source_id: "a".to_string(),
        target_id: "b".to_string(),
        relation_type: "refs".to_string(),
        metadata: "{}".to_string(),
        created_at: 5,
    });
    assert_eq!((relation.source_id.as_str(), relation.target_id.as_str(), relation.created_at), ("a", "b", 5));
}

#[test]
fn missing_rows_are_not_found() {
    let s = DocumentStore::new("./data".to_string());
    let e = s.read_document("db", "docs", None).unwrap_err();
    assert_eq!(e.kind, ErrorKind::NotFound);
}

#[test]
fn chunks_are_not_deleted_directly() {
    let s = DocumentStore::new("./data".to_string());
    let refused = s
        .delete_document_by_id("docs", "chunk_0", Some(Some("P".to_string())))
        .unwrap_err();
    assert_eq!(refused.kind, ErrorKind::IntegrityViolation);
    let parent = s.delete_document_by_id("docs", "P", Some(None)).unwrap();
    assert_eq!(parent.sql, "DELETE FROM \"docs\" WHERE id = ?");
    assert!(matches!(&parent.params[..], [SqlValue::Text(t)] if t == "P"));
    // a document that does not exist is deleted without complaint
    assert!(s.delete_document_by_id("docs", "nobody", None).is_ok());
}

#[test]
fn new_documents_get_an_id_and_the_time() {
    let s = DocumentStore::new("./data".to_string());
    let request = StoreDocumentRequest {
        id: None,
        content: "hello".to_string(),
        metadata: "{\"a\":1}".to_string(),
        tags: vec!["t".to_string()],
        vectorize: false,
    };
    let doc = s.add_document("db", "docs", request);
    assert_eq!(doc.id.len(), 36);
    assert_eq!((doc.db.as_str(), doc.table.as_str(), doc.content.as_str()), ("db", "docs", "hello"));
    assert_eq!(doc.metadata, "{\"a\":1}");
    assert_eq!(doc.tags, vec!["t"]);
    assert!(!doc.vectorize && !doc.is_embedded && !doc.is_chunk && !doc.is_vectorized);
    assert!(doc.vector.is_none() && doc.parent_id.is_none() && doc.token_count.is_none());
    assert!(doc.created_at > 1_600_000_000_000);
    assert_eq!(doc.created_at, doc.updated_at);
    let named = s.add_document(
        "db",
        "docs",
        StoreDocumentRequest {
            id: Some("mine".to_string()),
            content: "x".to_string(),
            metadata: "{}".to_string(),
            tags: Vec::new(),
            vectorize: true,
        },
    );
    assert_eq!(named.id, "mine");
    let simple = s.add_simple_document("db", "docs", "just text".to_string());
    let other = s.add_simple_document("db", "docs", "just text".to_string());
    assert_ne!(simple.id, other.id);
    assert!(simple.vectorize);
    assert_eq!(simple.metadata, "{}");
    assert!(simple.tags.is_empty());
}

#[test]
fn databases_are_the_db_files_but_global() {
    let s = DocumentStore::new("./data".to_string());
    let files: Vec<String> = ["notes.db", "global.db", "readme.txt", "alpha.db", ".db", "b.a.db", "x.db.bak", "Zeta.db", "db"]
        .iter()
        .map(|f| f.to_string())
        .collect();
    assert_eq!(s.list_databases(&files), vec!["Zeta", "alpha", "b.a", "notes"]);
    assert!(s.list_databases(&Vec::new()).is_empty());
}

#[test]
fn internal_tables_are_not_listed() {
    let s = DocumentStore::new("./data".to_string());
    let names: Vec<String> = [
        "docs",
        "docs_fts",
        "docs_fts_config",
        "docs_fts_data",
        "docs_fts_idx",
        "docs_fts_docsize",
        "document_relations",
        "sqlite_sequence",
        "drafts",
        "metadata",
        "notes",
    ]
    .iter()
    .map(|f| f.to_string())
    .collect();
    assert_eq!(s.list_tables(&names), vec!["docs", "drafts", "metadata", "notes"]);
}

#[test]
fn vector_search_goes_by_mode_and_count() {
    let mut s = DocumentStore::new("./data".to_string());
    assert!(!s.needs_count());
    assert_eq!(s.search_vector("db", "docs", 1_000_000), VectorSearchPlan::BruteForce);
    s.configure_indexing(IndexMode::Auto, 3, IndexConfig::default());
    assert!(s.needs_count());
    // two embedded documents: a scan
    assert_eq!(s.search_vector("db", "docs", 2), VectorSearchPlan::BruteForce);
    assert!(s.index("db", "docs").is_none());
    // the third one calls for the index, which is built first
    assert_eq!(s.search_vector("db", "docs", 3), VectorSearchPlan::BuildIndex);
    let snapshot = vec![
        ("a".to_string(), vec![1u32, 2]),
        ("b".to_string(), vec![3u32, 4]),
        ("c".to_string(), vec![5u32, 6]),
    ];
    let points = s.build_index("db", "docs", &snapshot);
    assert_eq!(points.len(), 3);
    assert_eq!(s.index("db", "docs").unwrap().len(), 3);
    assert_eq!(s.index("db", "docs").unwrap().dimensions(), 2);
    assert_eq!(s.search_vector("db", "docs", 3), VectorSearchPlan::Index);
    assert_eq!(s.search_vector("db", "other", 3), VectorSearchPlan::BuildIndex);
    assert_eq!(s.search_vector("other", "docs", 3), VectorSearchPlan::BuildIndex);
    assert!(s.index("db", "docs").unwrap().is_built());
    // a vector that is written later joins the index, once it is written
    let statement = s.update_document_vector("docs", "d", &vec![7, 8], 1_700_000_000_000).unwrap();
    assert_eq!(statement.sql, "UPDATE \"docs\" SET vector = ?, is_embedded = 1, is_vectorized = 1, updated_at = ? WHERE id = ?");
    assert!(matches!(&statement.params[..], [SqlValue::Blob(b), SqlValue::Timestamp(1_700_000_000_000), SqlValue::Text(id)] if b.len() == 8 && id == "d"));
    assert_eq!(s.index("db", "docs").unwrap().len(), 3);
    assert_eq!(s.index_vector("db", "docs", "d", 2).unwrap(), Some(3));
    assert_eq!(s.index("db", "docs").unwrap().len(), 4);
    assert_eq!(s.index_vector("db", "docs", "d", 2).unwrap(), None);
    assert_eq!(s.index_vector("db", "docs", "e", 1).unwrap_err().kind, ErrorKind::DimensionMismatch);
    assert_eq!(s.index_vector("db", "other", "e", 1).unwrap(), None);
    assert_eq!(s.index("db", "docs").unwrap().len(), 4);
    // the index of another table is its own
    let others = s.build_index("db", "notes", &vec![("n".to_string(), vec![1u32, 2, 3])]);
    assert_eq!(others.len(), 1);
    assert_eq!(s.index_vector("db", "notes", "m", 3).unwrap(), Some(1));
    assert_eq!(s.index("db", "notes").unwrap().len(), 2);
    assert_eq!(s.index("db", "docs").unwrap().len(), 4);
    assert_eq!(s.index("db", "docs").unwrap().dimensions(), 2);
    s.configure_indexing(IndexMode::Always, 1000, IndexConfig::default());
    assert_eq!(s.search_vector("db", "docs", 1), VectorSearchPlan::Index);
    assert_eq!(s.search_vector("db", "docs", 0), VectorSearchPlan::BruteForce);
    s.configure_indexing(IndexMode::Never, 0, IndexConfig::default());
    assert_eq!(s.index_vector("db", "docs", "f", 2).unwrap(), None);
    assert_eq!(s.index("db", "docs").unwrap().len(), 4);
    assert!(s.build_index("db", "empty", &Vec::new()).is_empty());
    assert!(s.index("db", "empty").is_none());
}

#[test]
fn stored_documents_are_read_back() {
    block_on(async {
        let pool = memory_pool().await;
        let s = DocumentStore::new("./data".to_string());
        run(&pool, &enable_foreign_keys()).await.unwrap();
        let mut doc = document("a", "The quick brown fox jumps over the lazy dog");
        store(&pool, &s, "docs", &doc).await;
        let found = rows(&pool, &s.get_document("docs", "a").unwrap()).await;
        assert_eq!(found.len(), 1);
        let read = s.read_document("db", "docs", found.into_iter().next()).unwrap();
        assert_eq!(read.content, doc.content);
        assert_eq!(read.tags, doc.tags);
        assert_eq!(read.metadata, doc.metadata);
        assert_eq!((read.created_at, read.updated_at), (doc.created_at, doc.updated_at));
        assert_eq!(read.token_count, Some(11));
        assert!(read.vector.is_none() && !read.is_embedded && read.vectorize);
        // storing again overwrites everything but the id
        doc.content = "changed".to_string();
        doc.tags = Vec::new();
        doc.created_at += 7;
        doc.updated_at += 1000;
        store(&pool, &s, "docs", &doc).await;
        let all = rows(&pool, &s.get_all_documents("docs", 10).unwrap()).await;
        assert_eq!(all.len(), 1);
        let read = document_from_row("db", "docs", &all[0]);
        assert_eq!(read.content, "changed");
        assert!(read.tags.is_empty());
        assert_eq!(read.created_at, doc.created_at);
        assert_eq!(read.updated_at, doc.updated_at);
        let missing = rows(&pool, &s.get_document("docs", "zzz").unwrap()).await;
        assert!(s.read_document("db", "docs", missing.into_iter().next()).is_err());
    });
}

#[test]
fn a_written_vector_makes_the_document_embedded() {
    block_on(async {
        let pool = memory_pool().await;
        let mut s = DocumentStore::new("./data".to_string());
        let doc = document("a", "some content");
        store(&pool, &s, "docs", &doc).await;
        let pending = rows(&pool, &s.get_non_embedded_documents("docs", 5).unwrap()).await;
        assert_eq!(pending_from_rows("db", "docs", &pending).len(), 1);
        let vector: Vec<u32> = [0.5f32, -1.0, 2.0].iter().map(|x| x.to_bits()).collect();
        let update = s.update_document_vector("docs", "a", &vector, doc.updated_at + 5).unwrap();
        assert_eq!(run(&pool, &update).await.unwrap(), 1);
        assert_eq!(s.index_vector("db", "docs", "a", vector.len()).unwrap(), None);
        let found = rows(&pool, &s.get_document("docs", "a").unwrap()).await;
        let read = s.read_document("db", "docs", found.into_iter().next()).unwrap();
        assert!(read.is_embedded && read.is_vectorized);
        assert_eq!(read.vector.as_ref().unwrap().len(), 3);
        assert_eq!(read.vector, Some(vector.clone()));
        assert_eq!(read.updated_at, doc.updated_at + 5);
        assert!(read.updated_at >= read.created_at);
        // the document is no longer pending
        let pending = rows(&pool, &s.get_non_embedded_documents("docs", 5).unwrap()).await;
        assert!(pending.is_empty());
        let count: i64 = bind(&s.count_embedded("docs").unwrap())
            .fetch_one(&pool)
            .await
            .unwrap()
            .get("count");
        assert_eq!(count, 1);
        let snapshot = bind(&s.index_snapshot("docs").unwrap()).fetch_all(&pool).await.unwrap();
        assert_eq!(snapshot.len(), 1);
        let bytes: Vec<u8> = snapshot[0].get("vector");
        assert_eq!(deserialize_vector(&bytes), vector);
        assert_eq!(bytes, serialize_vector(&vector));
        let scanned = bind(&s.scan_vectors("docs").unwrap()).fetch_all(&pool).await.unwrap();
        assert_eq!(scanned.len(), 1);
        let hit = bind(&s.fetch_hit("docs", "a").unwrap()).fetch_all(&pool).await.unwrap();
        assert_eq!(hit[0].get::<String, _>("content"), "some content");
    });
}

#[test]
fn pending_documents_come_oldest_first_and_limited() {
    block_on(async {
        let pool = memory_pool().await;
        let s = DocumentStore::new("./data".to_string());
        for (id, at) in [("c", 300i64), ("a", 100), ("b", 200), ("d", 400)] {
            let mut doc = document(id, "text");
            doc.created_at = 1_700_000_000_000 + at;
            doc.updated_at = doc.created_at;
            if id == "b" {
                doc.vectorize = false;
            }
            store(&pool, &s, "docs", &doc).await;
        }
        let pending = rows(&pool, &s.get_non_embedded_documents("docs", 2).unwrap()).await;
        let ids: Vec<&str> = pending.iter().map(|r| r.id.as_str()).collect();
        assert_eq!(ids, vec!["a", "c"]);
        let all = rows(&pool, &s.get_all_documents("docs", 10).unwrap()).await;
        let ids: Vec<&str> = all.iter().map(|r| r.id.as_str()).collect();
        assert_eq!(ids, vec!["a", "b", "c", "d"]);
    });
}

#[test]
fn full_text_mirror_follows_the_table() {
    block_on(async {
        let pool = memory_pool().await;
        let s = DocumentStore::new("./data".to_string());
        store(&pool, &s, "docs", &document("a", "The quick brown fox jumps over the lazy dog")).await;
        store(&pool, &s, "docs", &document("b", "A slow green turtle rests")).await;
        store(&pool, &s, "docs", &document("c", "Nothing about animals here, only zeppelins")).await;
        assert_eq!(fts_ids(&pool, &s, "docs", "fox").await, vec!["a"]);
        assert_eq!(fts_ids(&pool, &s, "docs", "zeppelins").await, vec!["c"]);
        assert!(fts_ids(&pool, &s, "docs", "unicorn").await.is_empty());
        // new content replaces the old in the mirror
        store(&pool, &s, "docs", &document("b", "A swift purple heron wades")).await;
        assert!(fts_ids(&pool, &s, "docs", "turtle").await.is_empty());
        assert_eq!(fts_ids(&pool, &s, "docs", "heron").await, vec!["b"]);
        assert_eq!(fts_ids(&pool, &s, "docs", "fox").await, vec!["a"]);
        store(&pool, &s, "docs", &document("b", "A slow green turtle rests")).await;
        assert_eq!(fts_ids(&pool, &s, "docs", "turtle").await, vec!["b"]);
        assert!(fts_ids(&pool, &s, "docs", "heron").await.is_empty());
        // a deleted document is no longer found
        let parent: Option<(Option<String>,)> = sqlx::query_as(&s.find_parent("docs", "a").unwrap().sql)
            .bind("a")
            .fetch_optional(&pool)
            .await
            .unwrap();
        let delete = s.delete_document_by_id("docs", "a", parent.map(|p| p.0)).unwrap();
        assert_eq!(run(&pool, &delete).await.unwrap(), 1);
        assert!(fts_ids(&pool, &s, "docs", "fox").await.is_empty());
        assert_eq!(fts_ids(&pool, &s, "docs", "turtle").await, vec!["b"]);
        // tables are listed without the mirror's own tables
        let names: Vec<String> = bind(&select_tables())
            .fetch_all(&pool)
            .await
            .unwrap()
            .iter()
            .map(|r| r.get("name"))
            .collect();
        assert!(names.contains(&"docs_fts".to_string()));
        assert_eq!(s.list_tables(&names), vec!["docs"]);
        run_all(&pool, &s.delete_table("docs").unwrap()).await;
        let names: Vec<String> = bind(&select_tables())
            .fetch_all(&pool)
            .await
            .unwrap()
            .iter()
            .map(|r| r.get("name"))
            .collect();
        assert!(s.list_tables(&names).is_empty());
    });
}

#[test]
fn deleting_a_parent_removes_its_chunks() {
    block_on(async {
        let pool = memory_pool().await;
        let s = DocumentStore::new("./data".to_string());
        run(&pool, &enable_foreign_keys()).await.unwrap();
        let mut parent = document("P", "the whole text");
        parent.vectorize = false;
        store(&pool, &s, "docs", &parent).await;
        store(&pool, &s, "docs", &chunk("chunk_1", "P", 1)).await;
        store(&pool, &s, "docs", &chunk("chunk_0", "P", 0)).await;
        store(&pool, &s, "docs", &document("other", "unrelated")).await;
        let chunks = rows(&pool, &s.get_chunks("docs", "P").unwrap()).await;
        let ids: Vec<&str> = chunks.iter().map(|r| r.id.as_str()).collect();
        assert_eq!(ids, vec!["chunk_0", "chunk_1"]);
        assert!(documents_from_rows("db", "docs", &chunks).iter().all(|c| c.is_chunk));

        // the chunk itself is refused
        let lookup: Option<(Option<String>,)> =
            sqlx::query_as(&s.find_parent("docs", "chunk_0").unwrap().sql)
                .bind("chunk_0")
                .fetch_optional(&pool)
                .await
                .unwrap();
        let refused = s.delete_document_by_id("docs", "chunk_0", lookup.map(|p| p.0)).unwrap_err();
        assert_eq!(refused.kind, ErrorKind::IntegrityViolation);
        assert_eq!(rows(&pool, &s.get_chunks("docs", "P").unwrap()).await.len(), 2);

        // the parent goes, and its chunks with it
        let lookup: Option<(Option<String>,)> = sqlx::query_as(&s.find_parent("docs", "P").unwrap().sql)
            .bind("P")
            .fetch_optional(&pool)
            .await
            .unwrap();
        let delete = s.delete_document_by_id("docs", "P", lookup.map(|p| p.0)).unwrap();
        run(&pool, &delete).await.unwrap();
        assert!(rows(&pool, &s.get_chunks("docs", "P").unwrap()).await.is_empty());
        let left = rows(&pool, &s.get_all_documents("docs", 10).unwrap()).await;
        let ids: Vec<&str> = left.iter().map(|r| r.id.as_str()).collect();
        assert_eq!(ids, vec!["other"]);
    });
}

#[test]
fn chunks_can_be_deleted_for_rechunking() {
    block_on(async {
        let pool = memory_pool().await;
        let s = DocumentStore::new("./data".to_string());
        store(&pool, &s, "docs", &document("P", "the whole text")).await;
        store(&pool, &s, "docs", &chunk("c0", "P", 0)).await;
        store(&pool, &s, "docs", &chunk("c1", "P", 1)).await;
        assert_eq!(run(&pool, &s.delete_chunks("docs", "P").unwrap()).await.unwrap(), 2);
        assert!(rows(&pool, &s.get_chunks("docs", "P").unwrap()).await.is_empty());
        assert_eq!(rows(&pool, &s.get_all_documents("docs", 10).unwrap()).await.len(), 1);
    });
}

#[test]
fn a_relation_exists_once() {
    block_on(async {
        let pool = memory_pool().await;
        let s = DocumentStore::new("./data".to_string());
        run_all(&pool, &s.ensure_table("docs").unwrap()).await;
        let relation = DocumentRelation {
            id: "r1".to_string(),
            source_id: "a".to_string(),
            target_id: "b".to_string(),
            relation_type: "refs".to_string(),
            metadata: "{}".to_string(),
            created_at: 1_700_000_000_000,
        };
        run(&pool, &s.create_relation(&relation)).await.unwrap();
        let mut twin = relation.duplicate();
        twin.id = "r2".to_string();
        let refused = run(&pool, &s.create_relation(&twin)).await.unwrap_err();
        let unique = refused.as_database_error().map(|d| d.is_unique_violation()).unwrap_or(false);
        assert!(unique);
        let e = s.relation_refused(unique, &refused.to_string());
        assert_eq!(e.kind, ErrorKind::IntegrityViolation);
        assert_eq!(e.message, Some(refused.to_string()));
        assert_eq!(s.relation_refused(false, "disk full").kind, ErrorKind::BackendError);
        // another type between the same documents is another relation
        twin.relation_type = "contradicts".to_string();
        run(&pool, &s.create_relation(&twin)).await.unwrap();
        let all = bind(&s.get_all_relations()).fetch_all(&pool).await.unwrap();
        assert_eq!(all.len(), 2);
        let of_b = bind(&s.get_document_relations("b")).fetch_all(&pool).await.unwrap();
        assert_eq!(of_b.len(), 2);
        let of_c = bind(&s.get_document_relations("c")).fetch_all(&pool).await.unwrap();
        assert!(of_c.is_empty());
        let one = bind(&s.get_relation("r1")).fetch_one(&pool).await.unwrap();
        let read = relation_from_row(&RelationRow {
            id: one.get("id"),
            source_id: one.get("source_id"),
            target_id: one.get("target_id"),
            relation_type: one.get("relation_type"),
            metadata: one.get("metadata"),
            created_at: one.get::<chrono::DateTime<chrono::Utc>, _>("created_at").timestamp_millis(),
        });
        assert_eq!(read.relation_type, "refs");
        assert_eq!(read.created_at, 1_700_000_000_000);
        assert_eq!(s.read_relation(Some(RelationRow {
            id: "r1".to_string(),
            source_id: "a".to_string(),
            target_id: "b".to_string(),
            relation_type: "refs".to_string(),
            metadata: "{}".to_string(),
            created_at: 7,
        })).unwrap().created_at, 7);
        assert_eq!(run(&pool, &s.delete_relation("r1")).await.unwrap(), 1);
        let gone = bind(&s.get_relation("r1")).fetch_optional(&pool).await.unwrap();
        assert!(gone.is_none());
        assert_eq!(s.read_relation(None).unwrap_err().kind, ErrorKind::NotFound);
        // once it is gone it can be created again
        run(&pool, &s.create_relation(&relation)).await.unwrap();
    });
}

#[test]
fn the_disk_tier_keeps_one_vector_per_fingerprint() {
    block_on(async {
        let pool = memory_pool().await;
        run(&pool, &create_cache_table()).await.unwrap();
        run(&pool, &create_cache_index()).await.unwrap();
        let day = 86_400_000i64;
        run(&pool, &upsert_cached("h1", vec![1, 2, 3, 4], "default", 10 * day)).await.unwrap();
        run(&pool, &upsert_cached("h2", vec![5, 6, 7, 8], "default", 20 * day)).await.unwrap();
        run(&pool, &upsert_cached("h1", vec![9, 9, 9, 9], "default", 30 * day)).await.unwrap();
        let found = bind(&select_cached("h1", "default")).fetch_one(&pool).await.unwrap();
        assert_eq!(found.get::<Vec<u8>, _>("vector"), vec![9u8, 9, 9, 9]);
        assert!(bind(&select_cached("h1", "other")).fetch_optional(&pool).await.unwrap().is_none());
        assert!(bind(&select_cached("h3", "default")).fetch_optional(&pool).await.unwrap().is_none());
        let cache = EmbeddingCache::new("default".to_string(), 1);
        let evict = cache.evict_old(55 * day, 30).unwrap();
        assert!(matches!(&evict.params[..], [SqlValue::Timestamp(t)] if *t == 25 * day));
        assert!(cache.evict_old(i64::MIN, 1).is_none());
        assert_eq!(run(&pool, &evict).await.unwrap(), 1);
        assert!(bind(&select_cached("h2", "default")).fetch_optional(&pool).await.unwrap().is_none());
        assert!(bind(&select_cached("h1", "default")).fetch_optional(&pool).await.unwrap().is_some());
    });
}

fn cosine(a: &[f32], b: &[f32]) -> f64 {
    let dot: f64 = a.iter().zip(b).map(|(x, y)| (x * y) as f64).sum();
    let na: f64 = a.iter().map(|x| (x * x) as f64).sum();
    let nb: f64 = b.iter().map(|x| (x * x) as f64).sum();
    if a.len() != b.len() || na == 0.0 || nb == 0.0 {
        0.0
    } else {
        dot / (na.sqrt() * nb.sqrt())
    }
}

fn as_candidate(row: &sqlx::sqlite::SqliteRow, score: f64) -> Candidate {
    Candidate {
        id: row.get("id"),
        content: row.get("content"),
        metadata: row.get("metadata"),
        score: score.to_bits(),
        is_chunk: row.get::<i32, _>("is_chunk") == 1,
        parent_id: row.get("parent_id"),
        chunk_index: row.get("chunk_index"),
    }
}

#[test]
fn hybrid_search_finds_the_embedded_document() {
    block_on(async {
        let pool = memory_pool().await;
        let mut s = DocumentStore::new("./data".to_string());
        // a stub embedder: the query gets the document's vector
        let embed = |_text: &str| -> Vec<f32> { vec![0.6, 0.8, 0.0] };
        let doc = document("fox-doc", "The quick brown fox jumps over the lazy dog");
        store(&pool, &s, "docs", &doc).await;
        store(&pool, &s, "docs", &document("other", "An unrelated note")).await;
        let vector: Vec<u32> = embed(&doc.content).iter().map(|x| x.to_bits()).collect();
        let update = s.update_document_vector("docs", "fox-doc", &vector, doc.updated_at).unwrap();
        run(&pool, &update).await.unwrap();

        let searcher = HybridSearcher::new();
        let limit = 5;
        let wanted = searcher.candidate_limit(limit);
        let lexical: Vec<Candidate> = bind(&s.search_fts("docs", "fox", wanted).unwrap())
            .fetch_all(&pool)
            .await
            .unwrap()
            .iter()
            .map(|r| as_candidate(r, r.get("rank")))
            .collect();
        assert_eq!(s.search_vector("db", "docs", 1), VectorSearchPlan::BruteForce);
        let query = embed("fox");
        let mut nearest: Vec<(f64, Candidate)> = bind(&s.scan_vectors("docs").unwrap())
            .fetch_all(&pool)
            .await
            .unwrap()
            .iter()
            .map(|r| {
                let stored: Vec<f32> = deserialize_vector(&r.get::<Vec<u8>, _>("vector"))
                    .iter()
                    .map(|b| f32::from_bits(*b))
                    .collect();
                let similarity = cosine(&query, &stored);
                (similarity, as_candidate(r, similarity))
            })
            .collect();
        nearest.sort_by(|a, b| b.0.partial_cmp(&a.0).unwrap());
        nearest.truncate(wanted);
        let nearest: Vec<Candidate> = nearest.into_iter().map(|n| n.1).collect();

        let results = searcher.top(searcher.reciprocal_rank_fusion(&lexical, &nearest), limit);
        assert_eq!(results.len(), 1);
        assert_eq!(results[0].id, "fox-doc");
        assert!(results[0].fts_rank.is_some());
        assert!(f64::from_bits(results[0].vector_similarity.unwrap()) >= 0.99);
        assert_eq!(results[0].content, doc.content);
    });
}
