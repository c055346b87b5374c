//! The statements that the store sends to its relational engine.
//!
//! A table name is checked before it is written into a statement, and is
//! written between double quotes; everything else travels as a parameter.

use vstd::prelude::*;
use vstd::string::StringExecFns;

verus! {

/// A value bound to a placeholder of a statement.
#[derive(Debug)]
pub enum SqlValue {
    Text(String),
    Blob(Vec<u8>),
    Integer(i64),
    /// A time in milliseconds since the Unix epoch.
    Timestamp(i64),
    Null,
}

/// A statement with the values of its placeholders, in order.
#[derive(Debug)]
pub struct Statement {
    pub sql: String,
    pub params: Vec<SqlValue>,
}

/// A bound value as a mathematical value.
pub enum ValueView {
    Text(Seq<char>),
    Blob(Seq<u8>),
    Integer(int),
    Timestamp(int),
    Null,
}

impl View for SqlValue {
    type V = ValueView;

    open spec fn view(&self) -> ValueView {
        match self {
            SqlValue::Text(s) => ValueView::Text(s@),
            SqlValue::Blob(b) => ValueView::Blob(b@),
            SqlValue::Integer(i) => ValueView::Integer(*i as int),
            SqlValue::Timestamp(t) => ValueView::Timestamp(*t as int),
            SqlValue::Null => ValueView::Null,
        }
    }
}

/// The bound values of a statement as mathematical values.
pub open spec fn values(params: Seq<SqlValue>) -> Seq<ValueView> {
    params.map_values(|p: SqlValue| p@)
}

/// Whether `c` may stand in a table name.
pub open spec fn is_name_char(c: char) -> bool {
    ('a' <= c && c <= 'z') || ('A' <= c && c <= 'Z') || ('0' <= c && c <= '9') || c == '_'
}

/// Whether `name` is a table name: not empty, and made of ASCII letters,
/// digits and underscores.
pub open spec fn valid_table_name(name: Seq<char>) -> bool {
    name.len() > 0 && forall|i: int| 0 <= i < name.len() ==> is_name_char(#[trigger] name[i])
}

/// Decides `valid_table_name`.
pub fn is_valid_table_name(name: &str) -> (r: bool)
    ensures
        r == valid_table_name(name@),
{
    let chars = crate::text::chars_of(name);
    if chars.len() == 0 {
        return false;
    }
    let mut i: usize = 0;
    while i < chars.len()
        invariant
            i <= chars.len(),
            chars@ == name@,
            forall|k: int| 0 <= k < i ==> is_name_char(#[trigger] chars@[k]),
        decreases chars.len() - i,
    {
        let c: char = chars[i];
        let ok: bool = ('a' <= c && c <= 'z') || ('A' <= c && c <= 'Z') || ('0' <= c && c <= '9')
            || c == '_';
        if !ok {
            return false;
        }
        i = i + 1;
    }
    true
}

/// A valid table name holds no quote, so it cannot end the quoted name that
/// a statement puts it in.
pub proof fn lemma_valid_name_is_inert(name: Seq<char>)
    requires
        valid_table_name(name),
    ensures
        forall|i: int|
            0 <= i < name.len() ==> (#[trigger] name[i]) != '"' && name[i] != '\'' && name[i]
                != ';',
{
}

/// The text pieces joined by `name`: between each piece and the next stands
/// `name`.
pub open spec fn woven(parts: Seq<Seq<char>>, name: Seq<char>) -> Seq<char>
    decreases parts.len(),
{
    if parts.len() == 0 {
        Seq::<char>::empty()
    } else if parts.len() == 1 {
        parts[0]
    } else {
        woven(parts.drop_last(), name) + name + parts.last()
    }
}

/// The views of string slices.
pub open spec fn slices(parts: Seq<&'static str>) -> Seq<Seq<char>> {
    parts.map_values(|p: &'static str| p@)
}

/// Joins the pieces by `name`.
pub fn weave(parts: &Vec<&'static str>, name: &str) -> (text: String)
    ensures
        text@ == woven(slices(parts@), name@),
{
    let mut text = String::new();
    let mut i: usize = 0;
    let ghost all = slices(parts@);
    proof {
        assert(all.take(0) =~= Seq::<Seq<char>>::empty());
    }
    while i < parts.len()
        invariant
            i <= parts.len(),
            all == slices(parts@),
            text@ == woven(all.take(i as int), name@),
        decreases parts.len() - i,
    {
        proof {
            assert(all.take(i as int + 1).drop_last() =~= all.take(i as int));
            assert(all.take(i as int + 1).last() == parts@[i as int]@);
            if i == 0 {
                assert(text@ + parts@[0]@ =~= parts@[0]@);
            }
        }
        if i > 0 {
            text.append(name);
        }
        text.append(parts[i]);
        i = i + 1;
    }
    proof {
        assert(all.take(i as int) =~= all);
    }
    text
}

/// Builds a statement from its pieces, the table name and its values.
fn statement(parts: Vec<&'static str>, table: &str, params: Vec<SqlValue>) -> (s: Statement)
    ensures
        s.sql@ == woven(slices(parts@), table@),
        s.params == params,
{
    Statement { sql: weave(&parts, table), params }
}

pub const CREATE_TABLE_0: &'static str = "CREATE TABLE IF NOT EXISTS \"";

pub const CREATE_TABLE_1: &'static str = "\" (id TEXT PRIMARY KEY, content TEXT NOT NULL, metadata TEXT, tags TEXT, vector BLOB, created_at DATETIME NOT NULL, updated_at DATETIME NOT NULL, is_embedded INTEGER DEFAULT 0, vectorize INTEGER DEFAULT 1, is_chunk INTEGER DEFAULT 0, parent_id TEXT DEFAULT NULL, chunk_index INTEGER DEFAULT NULL, token_count INTEGER DEFAULT NULL, is_vectorized INTEGER DEFAULT 0, FOREIGN KEY (parent_id) REFERENCES \"";

pub const CREATE_TABLE_2: &'static str = "\"(id) ON DELETE CASCADE)";

/// The text of `create_table` for a table.
pub open spec fn create_table_text(table: Seq<char>) -> Seq<char> {
    woven(seq![CREATE_TABLE_0@, CREATE_TABLE_1@, CREATE_TABLE_2@], table)
}

/// Creates the document table.
pub(crate) fn create_table(table: &str) -> (s: Statement)
    requires
        valid_table_name(table@),
    ensures
        s.sql@ == create_table_text(table@),
        values(s.params@) == Seq::<ValueView>::empty(),
{
    let parts: Vec<&'static str> = vec![CREATE_TABLE_0, CREATE_TABLE_1, CREATE_TABLE_2];
    let mut params: Vec<SqlValue> = Vec::new();
    proof {
        assert(slices(parts@) =~= seq![CREATE_TABLE_0@, CREATE_TABLE_1@, CREATE_TABLE_2@]);
        assert(values(params@) =~= Seq::<ValueView>::empty());
    }
    statement(parts, table, params)
}

pub const CREATE_FTS_0: &'static str = "CREATE VIRTUAL TABLE IF NOT EXISTS \"";

pub const CREATE_FTS_1: &'static str = "_fts\" USING fts5(id UNINDEXED, content, content='";

pub const CREATE_FTS_2: &'static str = "', content_rowid='rowid')";

/// The text of `create_fts` for a table.
pub open spec fn create_fts_text(table: Seq<char>) -> Seq<char> {
    woven(seq![CREATE_FTS_0@, CREATE_FTS_1@, CREATE_FTS_2@], table)
}

/// Creates the full-text mirror of the document table, which reads the content from the table itself.
pub(crate) fn create_fts(table: &str) -> (s: Statement)
    requires
        valid_table_name(table@),
    ensures
        s.sql@ == create_fts_text(table@),
        values(s.params@) == Seq::<ValueView>::empty(),
{
    let parts: Vec<&'static str> = vec![CREATE_FTS_0, CREATE_FTS_1, CREATE_FTS_2];
    let mut params: Vec<SqlValue> = Vec::new();
    proof {
        assert(slices(parts@) =~= seq![CREATE_FTS_0@, CREATE_FTS_1@, CREATE_FTS_2@]);
        assert(values(params@) =~= Seq::<ValueView>::empty());
    }
    statement(parts, table, params)
}

pub const CREATE_INSERT_TRIGGER_0: &'static str = "CREATE TRIGGER IF NOT EXISTS ";

pub const CREATE_INSERT_TRIGGER_1: &'static str = "_ai AFTER INSERT ON \"";

pub const CREATE_INSERT_TRIGGER_2: &'static str = "\" BEGIN INSERT INTO \"";

pub const CREATE_INSERT_TRIGGER_3: &'static str = "_fts\"(rowid, id, content) VALUES (new.rowid, new.id, new.content); END";

/// The text of `create_insert_trigger` for a table.
pub open spec fn create_insert_trigger_text(table: Seq<char>) -> Seq<char> {
    woven(seq![CREATE_INSERT_TRIGGER_0@, CREATE_INSERT_TRIGGER_1@, CREATE_INSERT_TRIGGER_2@, CREATE_INSERT_TRIGGER_3@], table)
}

/// Mirrors an inserted document.
pub(crate) fn create_insert_trigger(table: &str) -> (s: Statement)
    requires
        valid_table_name(table@),
    ensures
        s.sql@ == create_insert_trigger_text(table@),
        values(s.params@) == Seq::<ValueView>::empty(),
{
    let parts: Vec<&'static str> = vec![CREATE_INSERT_TRIGGER_0, CREATE_INSERT_TRIGGER_1, CREATE_INSERT_TRIGGER_2, CREATE_INSERT_TRIGGER_3];
    let mut params: Vec<SqlValue> = Vec::new();
    proof {
        assert(slices(parts@) =~= seq![CREATE_INSERT_TRIGGER_0@, CREATE_INSERT_TRIGGER_1@, CREATE_INSERT_TRIGGER_2@, CREATE_INSERT_TRIGGER_3@]);
        assert(values(params@) =~= Seq::<ValueView>::empty());
    }
    statement(parts, table, params)
}

pub const CREATE_DELETE_TRIGGER_0: &'static str = "CREATE TRIGGER IF NOT EXISTS ";

pub const CREATE_DELETE_TRIGGER_1: &'static str = "_ad AFTER DELETE ON \"";

pub const CREATE_DELETE_TRIGGER_2: &'static str = "\" BEGIN INSERT INTO \"";

pub const CREATE_DELETE_TRIGGER_3: &'static str = "_fts\"(\"";

pub const CREATE_DELETE_TRIGGER_4: &'static str = "_fts\", rowid, id, content) VALUES ('delete', old.rowid, old.id, old.content); END";

/// The text of `create_delete_trigger` for a table.
pub open spec fn create_delete_trigger_text(table: Seq<char>) -> Seq<char> {
    woven(seq![CREATE_DELETE_TRIGGER_0@, CREATE_DELETE_TRIGGER_1@, CREATE_DELETE_TRIGGER_2@, CREATE_DELETE_TRIGGER_3@, CREATE_DELETE_TRIGGER_4@], table)
}

/// Removes a deleted document from the mirror, by its row.
pub(crate) fn create_delete_trigger(table: &str) -> (s: Statement)
    requires
        valid_table_name(table@),
    ensures
        s.sql@ == create_delete_trigger_text(table@),
        values(s.params@) == Seq::<ValueView>::empty(),
{
    let parts: Vec<&'static str> = vec![CREATE_DELETE_TRIGGER_0, CREATE_DELETE_TRIGGER_1, CREATE_DELETE_TRIGGER_2, CREATE_DELETE_TRIGGER_3, CREATE_DELETE_TRIGGER_4];
    let mut params: Vec<SqlValue> = Vec::new();
    proof {
        assert(slices(parts@) =~= seq![CREATE_DELETE_TRIGGER_0@, CREATE_DELETE_TRIGGER_1@, CREATE_DELETE_TRIGGER_2@, CREATE_DELETE_TRIGGER_3@, CREATE_DELETE_TRIGGER_4@]);
        assert(values(params@) =~= Seq::<ValueView>::empty());
    }
    statement(parts, table, params)
}

pub const CREATE_UPDATE_TRIGGER_0: &'static str = "CREATE TRIGGER IF NOT EXISTS ";

pub const CREATE_UPDATE_TRIGGER_1: &'static str = "_au AFTER UPDATE ON \"";

pub const CREATE_UPDATE_TRIGGER_2: &'static str = "\" BEGIN INSERT INTO \"";

pub const CREATE_UPDATE_TRIGGER_3: &'static str = "_fts\"(\"";

pub const CREATE_UPDATE_TRIGGER_4: &'static str = "_fts\", rowid, id, content) VALUES ('delete', old.rowid, old.id, old.content); INSERT INTO \"";

pub const CREATE_UPDATE_TRIGGER_5: &'static str = "_fts\"(rowid, id, content) VALUES (new.rowid, new.id, new.content); END";

/// The text of `create_update_trigger` for a table.
pub open spec fn create_update_trigger_text(table: Seq<char>) -> Seq<char> {
    woven(seq![CREATE_UPDATE_TRIGGER_0@, CREATE_UPDATE_TRIGGER_1@, CREATE_UPDATE_TRIGGER_2@, CREATE_UPDATE_TRIGGER_3@, CREATE_UPDATE_TRIGGER_4@, CREATE_UPDATE_TRIGGER_5@], table)
}

/// Replaces the old content of an updated document by the new in the mirror.
pub(crate) fn create_update_trigger(table: &str) -> (s: Statement)
    requires
        valid_table_name(table@),
    ensures
        s.sql@ == create_update_trigger_text(table@),
        values(s.params@) == Seq::<ValueView>::empty(),
{
    let parts: Vec<&'static str> = vec![CREATE_UPDATE_TRIGGER_0, CREATE_UPDATE_TRIGGER_1, CREATE_UPDATE_TRIGGER_2, CREATE_UPDATE_TRIGGER_3, CREATE_UPDATE_TRIGGER_4, CREATE_UPDATE_TRIGGER_5];
    let mut params: Vec<SqlValue> = Vec::new();
    proof {
        assert(slices(parts@) =~= seq![CREATE_UPDATE_TRIGGER_0@, CREATE_UPDATE_TRIGGER_1@, CREATE_UPDATE_TRIGGER_2@, CREATE_UPDATE_TRIGGER_3@, CREATE_UPDATE_TRIGGER_4@, CREATE_UPDATE_TRIGGER_5@]);
        assert(values(params@) =~= Seq::<ValueView>::empty());
    }
    statement(parts, table, params)
}

pub const CREATE_CREATED_INDEX_0: &'static str = "CREATE INDEX IF NOT EXISTS idx_";

pub const CREATE_CREATED_INDEX_1: &'static str = "_created_at ON \"";

pub const CREATE_CREATED_INDEX_2: &'static str = "\"(created_at)";

/// The text of `create_created_index` for a table.
pub open spec fn create_created_index_text(table: Seq<char>) -> Seq<char> {
    woven(seq![CREATE_CREATED_INDEX_0@, CREATE_CREATED_INDEX_1@, CREATE_CREATED_INDEX_2@], table)
}

/// Indexes the creation time.
pub(crate) fn create_created_index(table: &str) -> (s: Statement)
    requires
        valid_table_name(table@),
    ensures
        s.sql@ == create_created_index_text(table@),
        values(s.params@) == Seq::<ValueView>::empty(),
{
    let parts: Vec<&'static str> = vec![CREATE_CREATED_INDEX_0, CREATE_CREATED_INDEX_1, CREATE_CREATED_INDEX_2];
    let mut params: Vec<SqlValue> = Vec::new();
    proof {
        assert(slices(parts@) =~= seq![CREATE_CREATED_INDEX_0@, CREATE_CREATED_INDEX_1@, CREATE_CREATED_INDEX_2@]);
        assert(values(params@) =~= Seq::<ValueView>::empty());
    }
    statement(parts, table, params)
}

pub const CREATE_UPDATED_INDEX_0: &'static str = "CREATE INDEX IF NOT EXISTS idx_";

pub const CREATE_UPDATED_INDEX_1: &'static str = "_updated_at ON \"";

pub const CREATE_UPDATED_INDEX_2: &'static str = "\"(updated_at)";

/// The text of `create_updated_index` for a table.
pub open spec fn create_updated_index_text(table: Seq<char>) -> Seq<char> {
    woven(seq![CREATE_UPDATED_INDEX_0@, CREATE_UPDATED_INDEX_1@, CREATE_UPDATED_INDEX_2@], table)
}

/// Indexes the update time.
pub(crate) fn create_updated_index(table: &str) -> (s: Statement)
    requires
        valid_table_name(table@),
    ensures
        s.sql@ == create_updated_index_text(table@),
        values(s.params@) == Seq::<ValueView>::empty(),
{
    let parts: Vec<&'static str> = vec![CREATE_UPDATED_INDEX_0, CREATE_UPDATED_INDEX_1, CREATE_UPDATED_INDEX_2];
    let mut params: Vec<SqlValue> = Vec::new();
    proof {
        assert(slices(parts@) =~= seq![CREATE_UPDATED_INDEX_0@, CREATE_UPDATED_INDEX_1@, CREATE_UPDATED_INDEX_2@]);
        assert(values(params@) =~= Seq::<ValueView>::empty());
    }
    statement(parts, table, params)
}

pub const CREATE_EMBEDDED_INDEX_0: &'static str = "CREATE INDEX IF NOT EXISTS idx_";

pub const CREATE_EMBEDDED_INDEX_1: &'static str = "_embedded ON \"";

pub const CREATE_EMBEDDED_INDEX_2: &'static str = "\"(is_embedded)";

/// The text of `create_embedded_index` for a table.
pub open spec fn create_embedded_index_text(table: Seq<char>) -> Seq<char> {
    woven(seq![CREATE_EMBEDDED_INDEX_0@, CREATE_EMBEDDED_INDEX_1@, CREATE_EMBEDDED_INDEX_2@], table)
}

/// Indexes the embedded flag.
pub(crate) fn create_embedded_index(table: &str) -> (s: Statement)
    requires
        valid_table_name(table@),
    ensures
        s.sql@ == create_embedded_index_text(table@),
        values(s.params@) == Seq::<ValueView>::empty(),
{
    let parts: Vec<&'static str> = vec![CREATE_EMBEDDED_INDEX_0, CREATE_EMBEDDED_INDEX_1, CREATE_EMBEDDED_INDEX_2];
    let mut params: Vec<SqlValue> = Vec::new();
    proof {
        assert(slices(parts@) =~= seq![CREATE_EMBEDDED_INDEX_0@, CREATE_EMBEDDED_INDEX_1@, CREATE_EMBEDDED_INDEX_2@]);
        assert(values(params@) =~= Seq::<ValueView>::empty());
    }
    statement(parts, table, params)
}

pub const CREATE_PARENT_INDEX_0: &'static str = "CREATE INDEX IF NOT EXISTS idx_";

pub const CREATE_PARENT_INDEX_1: &'static str = "_parent ON \"";

pub const CREATE_PARENT_INDEX_2: &'static str = "\"(parent_id) WHERE parent_id IS NOT NULL";

/// The text of `create_parent_index` for a table.
pub open spec fn create_parent_index_text(table: Seq<char>) -> Seq<char> {
    woven(seq![CREATE_PARENT_INDEX_0@, CREATE_PARENT_INDEX_1@, CREATE_PARENT_INDEX_2@], table)
}

/// Indexes the parent of chunks.
pub(crate) fn create_parent_index(table: &str) -> (s: Statement)
    requires
        valid_table_name(table@),
    ensures
        s.sql@ == create_parent_index_text(table@),
        values(s.params@) == Seq::<ValueView>::empty(),
{
    let parts: Vec<&'static str> = vec![CREATE_PARENT_INDEX_0, CREATE_PARENT_INDEX_1, CREATE_PARENT_INDEX_2];
    let mut params: Vec<SqlValue> = Vec::new();
    proof {
        assert(slices(parts@) =~= seq![CREATE_PARENT_INDEX_0@, CREATE_PARENT_INDEX_1@, CREATE_PARENT_INDEX_2@]);
        assert(values(params@) =~= Seq::<ValueView>::empty());
    }
    statement(parts, table, params)
}

pub const CREATE_CHUNKS_INDEX_0: &'static str = "CREATE INDEX IF NOT EXISTS idx_";

pub const CREATE_CHUNKS_INDEX_1: &'static str = "_chunks ON \"";

pub const CREATE_CHUNKS_INDEX_2: &'static str = "\"(is_chunk, parent_id) WHERE is_chunk = 1";

/// The text of `create_chunks_index` for a table.
pub open spec fn create_chunks_index_text(table: Seq<char>) -> Seq<char> {
    woven(seq![CREATE_CHUNKS_INDEX_0@, CREATE_CHUNKS_INDEX_1@, CREATE_CHUNKS_INDEX_2@], table)
}

/// Indexes the chunks by parent.
pub(crate) fn create_chunks_index(table: &str) -> (s: Statement)
    requires
        valid_table_name(table@),
    ensures
        s.sql@ == create_chunks_index_text(table@),
        values(s.params@) == Seq::<ValueView>::empty(),
{
    let parts: Vec<&'static str> = vec![CREATE_CHUNKS_INDEX_0, CREATE_CHUNKS_INDEX_1, CREATE_CHUNKS_INDEX_2];
    let mut params: Vec<SqlValue> = Vec::new();
    proof {
        assert(slices(parts@) =~= seq![CREATE_CHUNKS_INDEX_0@, CREATE_CHUNKS_INDEX_1@, CREATE_CHUNKS_INDEX_2@]);
        assert(values(params@) =~= Seq::<ValueView>::empty());
    }
    statement(parts, table, params)
}

pub const UPSERT_DOCUMENT_0: &'static str = "INSERT INTO \"";

pub const UPSERT_DOCUMENT_1: &'static str = "\" (id, content, metadata, tags, vector, created_at, updated_at, is_embedded, vectorize, is_chunk, parent_id, chunk_index, token_count, is_vectorized) VALUES (?, ?, ?, ?, ?, ?, ?, ?, ?, ?, ?, ?, ?, ?) ON CONFLICT(id) DO UPDATE SET content = excluded.content, metadata = excluded.metadata, tags = excluded.tags, vector = excluded.vector, created_at = excluded.created_at, updated_at = excluded.updated_at, is_embedded = excluded.is_embedded, vectorize = excluded.vectorize, is_chunk = excluded.is_chunk, parent_id = excluded.parent_id, chunk_index = excluded.chunk_index, token_count = excluded.token_count, is_vectorized = excluded.is_vectorized";

/// The text of `upsert_document` for a table.
pub open spec fn upsert_document_text(table: Seq<char>) -> Seq<char> {
    woven(seq![UPSERT_DOCUMENT_0@, UPSERT_DOCUMENT_1@], table)
}

/// Inserts a document, or overwrites every column but the id of the document with that id.
pub(crate) fn upsert_document(table: &str, params: Vec<SqlValue>) -> (s: Statement)
    requires
        valid_table_name(table@),
    ensures
        s.sql@ == upsert_document_text(table@),
        s.params == params,
{
    let parts: Vec<&'static str> = vec![UPSERT_DOCUMENT_0, UPSERT_DOCUMENT_1];
    proof {
        assert(slices(parts@) =~= seq![UPSERT_DOCUMENT_0@, UPSERT_DOCUMENT_1@]);
    }
    statement(parts, table, params)
}

pub const SELECT_DOCUMENT_0: &'static str = "SELECT id, content, metadata, tags, vector, created_at, updated_at, is_embedded, vectorize, is_chunk, parent_id, chunk_index, token_count, is_vectorized FROM \"";

pub const SELECT_DOCUMENT_1: &'static str = "\" WHERE id = ?";

/// The text of `select_document` for a table.
pub open spec fn select_document_text(table: Seq<char>) -> Seq<char> {
    woven(seq![SELECT_DOCUMENT_0@, SELECT_DOCUMENT_1@], table)
}

/// Selects the document with an id.
pub(crate) fn select_document(table: &str, id: &str) -> (s: Statement)
    requires
        valid_table_name(table@),
    ensures
        s.sql@ == select_document_text(table@),
        values(s.params@) == seq![ValueView::Text(id@)],
{
    let parts: Vec<&'static str> = vec![SELECT_DOCUMENT_0, SELECT_DOCUMENT_1];
    let mut params: Vec<SqlValue> = Vec::new();
    params.push(SqlValue::Text(id.to_owned()));
    proof {
        assert(slices(parts@) =~= seq![SELECT_DOCUMENT_0@, SELECT_DOCUMENT_1@]);
        assert(values(params@) =~= seq![ValueView::Text(id@)]);
    }
    statement(parts, table, params)
}

pub const SELECT_PENDING_0: &'static str = "SELECT id, content, metadata, tags, vector, created_at, updated_at, is_embedded, vectorize, is_chunk, parent_id, chunk_index, token_count, is_vectorized FROM \"";

pub const SELECT_PENDING_1: &'static str = "\" WHERE is_embedded = 0 AND vectorize = 1 ORDER BY created_at ASC LIMIT ?";

/// The text of `select_pending` for a table.
pub open spec fn select_pending_text(table: Seq<char>) -> Seq<char> {
    woven(seq![SELECT_PENDING_0@, SELECT_PENDING_1@], table)
}

/// Selects the oldest documents that ask for an embedding and have none.
pub(crate) fn select_pending(table: &str, limit: i64) -> (s: Statement)
    requires
        valid_table_name(table@),
    ensures
        s.sql@ == select_pending_text(table@),
        values(s.params@) == seq![ValueView::Integer(limit as int)],
{
    let parts: Vec<&'static str> = vec![SELECT_PENDING_0, SELECT_PENDING_1];
    let mut params: Vec<SqlValue> = Vec::new();
    params.push(SqlValue::Integer(limit));
    proof {
        assert(slices(parts@) =~= seq![SELECT_PENDING_0@, SELECT_PENDING_1@]);
        assert(values(params@) =~= seq![ValueView::Integer(limit as int)]);
    }
    statement(parts, table, params)
}

pub const SELECT_ALL_0: &'static str = "SELECT id, content, metadata, tags, vector, created_at, updated_at, is_embedded, vectorize, is_chunk, parent_id, chunk_index, token_count, is_vectorized FROM \"";

pub const SELECT_ALL_1: &'static str = "\" ORDER BY created_at ASC LIMIT ?";

/// The text of `select_all` for a table.
pub open spec fn select_all_text(table: Seq<char>) -> Seq<char> {
    woven(seq![SELECT_ALL_0@, SELECT_ALL_1@], table)
}

/// Selects the oldest documents.
pub(crate) fn select_all(table: &str, limit: i64) -> (s: Statement)
    requires
        valid_table_name(table@),
    ensures
        s.sql@ == select_all_text(table@),
        values(s.params@) == seq![ValueView::Integer(limit as int)],
{
    let parts: Vec<&'static str> = vec![SELECT_ALL_0, SELECT_ALL_1];
    let mut params: Vec<SqlValue> = Vec::new();
    params.push(SqlValue::Integer(limit));
    proof {
        assert(slices(parts@) =~= seq![SELECT_ALL_0@, SELECT_ALL_1@]);
        assert(values(params@) =~= seq![ValueView::Integer(limit as int)]);
    }
    statement(parts, table, params)
}

pub const UPDATE_VECTOR_0: &'static str = "UPDATE \"";

pub const UPDATE_VECTOR_1: &'static str = "\" SET vector = ?, is_embedded = 1, is_vectorized = 1, updated_at = ? WHERE id = ?";

/// The text of `update_vector` for a table.
pub open spec fn update_vector_text(table: Seq<char>) -> Seq<char> {
    woven(seq![UPDATE_VECTOR_0@, UPDATE_VECTOR_1@], table)
}

/// Writes a document's vector and marks it embedded.
pub(crate) fn update_vector(table: &str, vector: Vec<u8>, now: i64, id: &str) -> (s: Statement)
    requires
        valid_table_name(table@),
    ensures
        s.sql@ == update_vector_text(table@),
        values(s.params@) == seq![ValueView::Blob(vector@), ValueView::Timestamp(now as int), ValueView::Text(id@)],
{
    let parts: Vec<&'static str> = vec![UPDATE_VECTOR_0, UPDATE_VECTOR_1];
    let mut params: Vec<SqlValue> = Vec::new();
    params.push(SqlValue::Blob(vector));
    params.push(SqlValue::Timestamp(now));
    params.push(SqlValue::Text(id.to_owned()));
    proof {
        assert(slices(parts@) =~= seq![UPDATE_VECTOR_0@, UPDATE_VECTOR_1@]);
        assert(values(params@) =~= seq![ValueView::Blob(vector@), ValueView::Timestamp(now as int), ValueView::Text(id@)]);
    }
    statement(parts, table, params)
}

pub const SELECT_VECTORS_0: &'static str = "SELECT id, vector FROM \"";

pub const SELECT_VECTORS_1: &'static str = "\" WHERE is_embedded = 1 AND vector IS NOT NULL";

/// The text of `select_vectors` for a table.
pub open spec fn select_vectors_text(table: Seq<char>) -> Seq<char> {
    woven(seq![SELECT_VECTORS_0@, SELECT_VECTORS_1@], table)
}

/// Selects the id and vector of every embedded document.
pub(crate) fn select_vectors(table: &str) -> (s: Statement)
    requires
        valid_table_name(table@),
    ensures
        s.sql@ == select_vectors_text(table@),
        values(s.params@) == Seq::<ValueView>::empty(),
{
    let parts: Vec<&'static str> = vec![SELECT_VECTORS_0, SELECT_VECTORS_1];
    let mut params: Vec<SqlValue> = Vec::new();
    proof {
        assert(slices(parts@) =~= seq![SELECT_VECTORS_0@, SELECT_VECTORS_1@]);
        assert(values(params@) =~= Seq::<ValueView>::empty());
    }
    statement(parts, table, params)
}

pub const COUNT_EMBEDDED_0: &'static str = "SELECT COUNT(*) as count FROM \"";

pub const COUNT_EMBEDDED_1: &'static str = "\" WHERE is_embedded = 1";

/// The text of `count_embedded` for a table.
pub open spec fn count_embedded_text(table: Seq<char>) -> Seq<char> {
    woven(seq![COUNT_EMBEDDED_0@, COUNT_EMBEDDED_1@], table)
}

/// Counts the embedded documents.
pub(crate) fn count_embedded(table: &str) -> (s: Statement)
    requires
        valid_table_name(table@),
    ensures
        s.sql@ == count_embedded_text(table@),
        values(s.params@) == Seq::<ValueView>::empty(),
{
    let parts: Vec<&'static str> = vec![COUNT_EMBEDDED_0, COUNT_EMBEDDED_1];
    let mut params: Vec<SqlValue> = Vec::new();
    proof {
        assert(slices(parts@) =~= seq![COUNT_EMBEDDED_0@, COUNT_EMBEDDED_1@]);
        assert(values(params@) =~= Seq::<ValueView>::empty());
    }
    statement(parts, table, params)
}

pub const SELECT_FTS_0: &'static str = "SELECT d.id, d.content, d.metadata, fts.rank, d.is_chunk, d.parent_id, d.chunk_index FROM \"";

pub const SELECT_FTS_1: &'static str = "_fts\" AS fts JOIN \"";

pub const SELECT_FTS_2: &'static str = "\" AS d ON fts.rowid = d.rowid WHERE fts.content MATCH ? ORDER BY fts.rank LIMIT ?";

/// The text of `select_fts` for a table.
pub open spec fn select_fts_text(table: Seq<char>) -> Seq<char> {
    woven(seq![SELECT_FTS_0@, SELECT_FTS_1@, SELECT_FTS_2@], table)
}

/// Selects the documents that match a full-text query, best rank first.
pub(crate) fn select_fts(table: &str, query: &str, limit: i64) -> (s: Statement)
    requires
        valid_table_name(table@),
    ensures
        s.sql@ == select_fts_text(table@),
        values(s.params@) == seq![ValueView::Text(query@), ValueView::Integer(limit as int)],
{
    let parts: Vec<&'static str> = vec![SELECT_FTS_0, SELECT_FTS_1, SELECT_FTS_2];
    let mut params: Vec<SqlValue> = Vec::new();
    params.push(SqlValue::Text(query.to_owned()));
    params.push(SqlValue::Integer(limit));
    proof {
        assert(slices(parts@) =~= seq![SELECT_FTS_0@, SELECT_FTS_1@, SELECT_FTS_2@]);
        assert(values(params@) =~= seq![ValueView::Text(query@), ValueView::Integer(limit as int)]);
    }
    statement(parts, table, params)
}

pub const SELECT_EMBEDDED_0: &'static str = "SELECT id, content, metadata, vector, is_chunk, parent_id, chunk_index FROM \"";

pub const SELECT_EMBEDDED_1: &'static str = "\" WHERE is_embedded = 1 AND vector IS NOT NULL";

/// The text of `select_embedded` for a table.
pub open spec fn select_embedded_text(table: Seq<char>) -> Seq<char> {
    woven(seq![SELECT_EMBEDDED_0@, SELECT_EMBEDDED_1@], table)
}

/// Selects every embedded document with its vector.
pub(crate) fn select_embedded(table: &str) -> (s: Statement)
    requires
        valid_table_name(table@),
    ensures
        s.sql@ == select_embedded_text(table@),
        values(s.params@) == Seq::<ValueView>::empty(),
{
    let parts: Vec<&'static str> = vec![SELECT_EMBEDDED_0, SELECT_EMBEDDED_1];
    let mut params: Vec<SqlValue> = Vec::new();
    proof {
        assert(slices(parts@) =~= seq![SELECT_EMBEDDED_0@, SELECT_EMBEDDED_1@]);
        assert(values(params@) =~= Seq::<ValueView>::empty());
    }
    statement(parts, table, params)
}

pub const SELECT_HIT_0: &'static str = "SELECT id, content, metadata, is_chunk, parent_id, chunk_index FROM \"";

pub const SELECT_HIT_1: &'static str = "\" WHERE id = ?";

/// The text of `select_hit` for a table.
pub open spec fn select_hit_text(table: Seq<char>) -> Seq<char> {
    woven(seq![SELECT_HIT_0@, SELECT_HIT_1@], table)
}

/// Selects what a search result shows of the document with an id.
pub(crate) fn select_hit(table: &str, id: &str) -> (s: Statement)
    requires
        valid_table_name(table@),
    ensures
        s.sql@ == select_hit_text(table@),
        values(s.params@) == seq![ValueView::Text(id@)],
{
    let parts: Vec<&'static str> = vec![SELECT_HIT_0, SELECT_HIT_1];
    let mut params: Vec<SqlValue> = Vec::new();
    params.push(SqlValue::Text(id.to_owned()));
    proof {
        assert(slices(parts@) =~= seq![SELECT_HIT_0@, SELECT_HIT_1@]);
        assert(values(params@) =~= seq![ValueView::Text(id@)]);
    }
    statement(parts, table, params)
}

pub const SELECT_CHUNKS_0: &'static str = "SELECT id, content, metadata, tags, vector, created_at, updated_at, is_embedded, vectorize, is_chunk, parent_id, chunk_index, token_count, is_vectorized FROM \"";

pub const SELECT_CHUNKS_1: &'static str = "\" WHERE parent_id = ? AND is_chunk = 1 ORDER BY chunk_index ASC";

/// The text of `select_chunks` for a table.
pub open spec fn select_chunks_text(table: Seq<char>) -> Seq<char> {
    woven(seq![SELECT_CHUNKS_0@, SELECT_CHUNKS_1@], table)
}

/// Selects the chunks of a parent in chunk order.
pub(crate) fn select_chunks(table: &str, parent_id: &str) -> (s: Statement)
    requires
        valid_table_name(table@),
    ensures
        s.sql@ == select_chunks_text(table@),
        values(s.params@) == seq![ValueView::Text(parent_id@)],
{
    let parts: Vec<&'static str> = vec![SELECT_CHUNKS_0, SELECT_CHUNKS_1];
    let mut params: Vec<SqlValue> = Vec::new();
    params.push(SqlValue::Text(parent_id.to_owned()));
    proof {
        assert(slices(parts@) =~= seq![SELECT_CHUNKS_0@, SELECT_CHUNKS_1@]);
        assert(values(params@) =~= seq![ValueView::Text(parent_id@)]);
    }
    statement(parts, table, params)
}

pub const DELETE_CHUNKS_0: &'static str = "DELETE FROM \"";

pub const DELETE_CHUNKS_1: &'static str = "\" WHERE parent_id = ? AND is_chunk = 1";

/// The text of `delete_chunks` for a table.
pub open spec fn delete_chunks_text(table: Seq<char>) -> Seq<char> {
    woven(seq![DELETE_CHUNKS_0@, DELETE_CHUNKS_1@], table)
}

/// Deletes the chunks of a parent.
pub(crate) fn delete_chunks(table: &str, parent_id: &str) -> (s: Statement)
    requires
        valid_table_name(table@),
    ensures
        s.sql@ == delete_chunks_text(table@),
        values(s.params@) == seq![ValueView::Text(parent_id@)],
{
    let parts: Vec<&'static str> = vec![DELETE_CHUNKS_0, DELETE_CHUNKS_1];
    let mut params: Vec<SqlValue> = Vec::new();
    params.push(SqlValue::Text(parent_id.to_owned()));
    proof {
        assert(slices(parts@) =~= seq![DELETE_CHUNKS_0@, DELETE_CHUNKS_1@]);
        assert(values(params@) =~= seq![ValueView::Text(parent_id@)]);
    }
    statement(parts, table, params)
}

pub const SELECT_PARENT_0: &'static str = "SELECT parent_id FROM \"";

pub const SELECT_PARENT_1: &'static str = "\" WHERE id = ?";

/// The text of `select_parent` for a table.
pub open spec fn select_parent_text(table: Seq<char>) -> Seq<char> {
    woven(seq![SELECT_PARENT_0@, SELECT_PARENT_1@], table)
}

/// Selects the parent of the document with an id.
pub(crate) fn select_parent(table: &str, id: &str) -> (s: Statement)
    requires
        valid_table_name(table@),
    ensures
        s.sql@ == select_parent_text(table@),
        values(s.params@) == seq![ValueView::Text(id@)],
{
    let parts: Vec<&'static str> = vec![SELECT_PARENT_0, SELECT_PARENT_1];
    let mut params: Vec<SqlValue> = Vec::new();
    params.push(SqlValue::Text(id.to_owned()));
    proof {
        assert(slices(parts@) =~= seq![SELECT_PARENT_0@, SELECT_PARENT_1@]);
        assert(values(params@) =~= seq![ValueView::Text(id@)]);
    }
    statement(parts, table, params)
}

pub const DELETE_DOCUMENT_0: &'static str = "DELETE FROM \"";

pub const DELETE_DOCUMENT_1: &'static str = "\" WHERE id = ?";

/// The text of `delete_document` for a table.
pub open spec fn delete_document_text(table: Seq<char>) -> Seq<char> {
    woven(seq![DELETE_DOCUMENT_0@, DELETE_DOCUMENT_1@], table)
}

/// Deletes the document with an id; its chunks go with it.
pub(crate) fn delete_document(table: &str, id: &str) -> (s: Statement)
    requires
        valid_table_name(table@),
    ensures
        s.sql@ == delete_document_text(table@),
        values(s.params@) == seq![ValueView::Text(id@)],
{
    let parts: Vec<&'static str> = vec![DELETE_DOCUMENT_0, DELETE_DOCUMENT_1];
    let mut params: Vec<SqlValue> = Vec::new();
    params.push(SqlValue::Text(id.to_owned()));
    proof {
        assert(slices(parts@) =~= seq![DELETE_DOCUMENT_0@, DELETE_DOCUMENT_1@]);
        assert(values(params@) =~= seq![ValueView::Text(id@)]);
    }
    statement(parts, table, params)
}

pub const DROP_TABLE_0: &'static str = "DROP TABLE IF EXISTS \"";

pub const DROP_TABLE_1: &'static str = "\"";

/// The text of `drop_table` for a table.
pub open spec fn drop_table_text(table: Seq<char>) -> Seq<char> {
    woven(seq![DROP_TABLE_0@, DROP_TABLE_1@], table)
}

/// Drops the document table.
pub(crate) fn drop_table(table: &str) -> (s: Statement)
    requires
        valid_table_name(table@),
    ensures
        s.sql@ == drop_table_text(table@),
        values(s.params@) == Seq::<ValueView>::empty(),
{
    let parts: Vec<&'static str> = vec![DROP_TABLE_0, DROP_TABLE_1];
    let mut params: Vec<SqlValue> = Vec::new();
    proof {
        assert(slices(parts@) =~= seq![DROP_TABLE_0@, DROP_TABLE_1@]);
        assert(values(params@) =~= Seq::<ValueView>::empty());
    }
    statement(parts, table, params)
}

pub const DROP_FTS_0: &'static str = "DROP TABLE IF EXISTS \"";

pub const DROP_FTS_1: &'static str = "_fts\"";

/// The text of `drop_fts` for a table.
pub open spec fn drop_fts_text(table: Seq<char>) -> Seq<char> {
    woven(seq![DROP_FTS_0@, DROP_FTS_1@], table)
}

/// Drops the full-text mirror.
pub(crate) fn drop_fts(table: &str) -> (s: Statement)
    requires
        valid_table_name(table@),
    ensures
        s.sql@ == drop_fts_text(table@),
        values(s.params@) == Seq::<ValueView>::empty(),
{
    let parts: Vec<&'static str> = vec![DROP_FTS_0, DROP_FTS_1];
    let mut params: Vec<SqlValue> = Vec::new();
    proof {
        assert(slices(parts@) =~= seq![DROP_FTS_0@, DROP_FTS_1@]);
        assert(values(params@) =~= Seq::<ValueView>::empty());
    }
    statement(parts, table, params)
}

pub const ENABLE_FOREIGN_KEYS: &'static str = "PRAGMA foreign_keys = ON";

/// Switches on the enforcement of foreign keys, on which the removal of chunks with their parent rests.
pub fn enable_foreign_keys() -> (s: Statement)
    ensures
        s.sql@ == ENABLE_FOREIGN_KEYS@,
        values(s.params@) == Seq::<ValueView>::empty(),
{
    let mut params: Vec<SqlValue> = Vec::new();
    proof {
        assert(values(params@) =~= Seq::<ValueView>::empty());
    }
    Statement { sql: ENABLE_FOREIGN_KEYS.to_owned(), params }
}

pub const CREATE_RELATIONS_TABLE: &'static str = "CREATE TABLE IF NOT EXISTS document_relations (id TEXT PRIMARY KEY, source_id TEXT NOT NULL, target_id TEXT NOT NULL, relation_type TEXT NOT NULL, metadata TEXT, created_at DATETIME NOT NULL)";

/// Creates the relations table of a database.
pub fn create_relations_table() -> (s: Statement)
    ensures
        s.sql@ == CREATE_RELATIONS_TABLE@,
        values(s.params@) == Seq::<ValueView>::empty(),
{
    let mut params: Vec<SqlValue> = Vec::new();
    proof {
        assert(values(params@) =~= Seq::<ValueView>::empty());
    }
    Statement { sql: CREATE_RELATIONS_TABLE.to_owned(), params }
}

pub const CREATE_RELATIONS_SOURCE_INDEX: &'static str = "CREATE INDEX IF NOT EXISTS idx_relations_source ON document_relations(source_id)";

/// Indexes relations by source.
pub fn create_relations_source_index() -> (s: Statement)
    ensures
        s.sql@ == CREATE_RELATIONS_SOURCE_INDEX@,
        values(s.params@) == Seq::<ValueView>::empty(),
{
    let mut params: Vec<SqlValue> = Vec::new();
    proof {
        assert(values(params@) =~= Seq::<ValueView>::empty());
    }
    Statement { sql: CREATE_RELATIONS_SOURCE_INDEX.to_owned(), params }
}

pub const CREATE_RELATIONS_TARGET_INDEX: &'static str = "CREATE INDEX IF NOT EXISTS idx_relations_target ON document_relations(target_id)";

/// Indexes relations by target.
pub fn create_relations_target_index() -> (s: Statement)
    ensures
        s.sql@ == CREATE_RELATIONS_TARGET_INDEX@,
        values(s.params@) == Seq::<ValueView>::empty(),
{
    let mut params: Vec<SqlValue> = Vec::new();
    proof {
        assert(values(params@) =~= Seq::<ValueView>::empty());
    }
    Statement { sql: CREATE_RELATIONS_TARGET_INDEX.to_owned(), params }
}

pub const CREATE_RELATIONS_TYPE_INDEX: &'static str = "CREATE INDEX IF NOT EXISTS idx_relations_type ON document_relations(relation_type)";

/// Indexes relations by type.
pub fn create_relations_type_index() -> (s: Statement)
    ensures
        s.sql@ == CREATE_RELATIONS_TYPE_INDEX@,
        values(s.params@) == Seq::<ValueView>::empty(),
{
    let mut params: Vec<SqlValue> = Vec::new();
    proof {
        assert(values(params@) =~= Seq::<ValueView>::empty());
    }
    Statement { sql: CREATE_RELATIONS_TYPE_INDEX.to_owned(), params }
}

pub const CREATE_RELATIONS_UNIQUE_INDEX: &'static str = "CREATE UNIQUE INDEX IF NOT EXISTS idx_relations_unique ON document_relations(source_id, target_id, relation_type)";

/// Lets no two relations share source, target and type.
pub fn create_relations_unique_index() -> (s: Statement)
    ensures
        s.sql@ == CREATE_RELATIONS_UNIQUE_INDEX@,
        values(s.params@) == Seq::<ValueView>::empty(),
{
    let mut params: Vec<SqlValue> = Vec::new();
    proof {
        assert(values(params@) =~= Seq::<ValueView>::empty());
    }
    Statement { sql: CREATE_RELATIONS_UNIQUE_INDEX.to_owned(), params }
}

pub const INSERT_RELATION: &'static str = "INSERT INTO document_relations (id, source_id, target_id, relation_type, metadata, created_at) VALUES (?, ?, ?, ?, ?, ?)";

/// Inserts a relation; the engine refuses a second one with the same source, target and type.
pub fn insert_relation(id: &str, source_id: &str, target_id: &str, relation_type: &str, metadata: &str, created_at: i64) -> (s: Statement)
    ensures
        s.sql@ == INSERT_RELATION@,
        values(s.params@) == seq![ValueView::Text(id@), ValueView::Text(source_id@), ValueView::Text(target_id@), ValueView::Text(relation_type@), ValueView::Text(metadata@), ValueView::Timestamp(created_at as int)],
{
    let mut params: Vec<SqlValue> = Vec::new();
    params.push(SqlValue::Text(id.to_owned()));
    params.push(SqlValue::Text(source_id.to_owned()));
    params.push(SqlValue::Text(target_id.to_owned()));
    params.push(SqlValue::Text(relation_type.to_owned()));
    params.push(SqlValue::Text(metadata.to_owned()));
    params.push(SqlValue::Timestamp(created_at));
    proof {
        assert(values(params@) =~= seq![ValueView::Text(id@), ValueView::Text(source_id@), ValueView::Text(target_id@), ValueView::Text(relation_type@), ValueView::Text(metadata@), ValueView::Timestamp(created_at as int)]);
    }
    Statement { sql: INSERT_RELATION.to_owned(), params }
}

pub const SELECT_RELATION: &'static str = "SELECT id, source_id, target_id, relation_type, metadata, created_at FROM document_relations WHERE id = ?";

/// Selects the relation with an id.
pub fn select_relation(id: &str) -> (s: Statement)
    ensures
        s.sql@ == SELECT_RELATION@,
        values(s.params@) == seq![ValueView::Text(id@)],
{
    let mut params: Vec<SqlValue> = Vec::new();
    params.push(SqlValue::Text(id.to_owned()));
    proof {
        assert(values(params@) =~= seq![ValueView::Text(id@)]);
    }
    Statement { sql: SELECT_RELATION.to_owned(), params }
}

pub const DELETE_RELATION: &'static str = "DELETE FROM document_relations WHERE id = ?";

/// Deletes the relation with an id.
pub fn delete_relation(id: &str) -> (s: Statement)
    ensures
        s.sql@ == DELETE_RELATION@,
        values(s.params@) == seq![ValueView::Text(id@)],
{
    let mut params: Vec<SqlValue> = Vec::new();
    params.push(SqlValue::Text(id.to_owned()));
    proof {
        assert(values(params@) =~= seq![ValueView::Text(id@)]);
    }
    Statement { sql: DELETE_RELATION.to_owned(), params }
}

pub const SELECT_DOCUMENT_RELATIONS: &'static str = "SELECT id, source_id, target_id, relation_type, metadata, created_at FROM document_relations WHERE source_id = ? OR target_id = ?";

/// Selects the relations that leave or enter a document.
pub fn select_document_relations(doc_id: &str) -> (s: Statement)
    ensures
        s.sql@ == SELECT_DOCUMENT_RELATIONS@,
        values(s.params@) == seq![ValueView::Text(doc_id@), ValueView::Text(doc_id@)],
{
    let mut params: Vec<SqlValue> = Vec::new();
    params.push(SqlValue::Text(doc_id.to_owned()));
    params.push(SqlValue::Text(doc_id.to_owned()));
    proof {
        assert(values(params@) =~= seq![ValueView::Text(doc_id@), ValueView::Text(doc_id@)]);
    }
    Statement { sql: SELECT_DOCUMENT_RELATIONS.to_owned(), params }
}

pub const SELECT_ALL_RELATIONS: &'static str = "SELECT id, source_id, target_id, relation_type, metadata, created_at FROM document_relations";

/// Selects every relation.
pub fn select_all_relations() -> (s: Statement)
    ensures
        s.sql@ == SELECT_ALL_RELATIONS@,
        values(s.params@) == Seq::<ValueView>::empty(),
{
    let mut params: Vec<SqlValue> = Vec::new();
    proof {
        assert(values(params@) =~= Seq::<ValueView>::empty());
    }
    Statement { sql: SELECT_ALL_RELATIONS.to_owned(), params }
}

pub const SELECT_TABLES: &'static str = "SELECT name FROM sqlite_master WHERE type = 'table' ORDER BY name";

/// Selects the names of all tables of a database.
pub fn select_tables() -> (s: Statement)
    ensures
        s.sql@ == SELECT_TABLES@,
        values(s.params@) == Seq::<ValueView>::empty(),
{
    let mut params: Vec<SqlValue> = Vec::new();
    proof {
        assert(values(params@) =~= Seq::<ValueView>::empty());
    }
    Statement { sql: SELECT_TABLES.to_owned(), params }
}

pub const CREATE_CACHE_TABLE: &'static str = "CREATE TABLE IF NOT EXISTS embedding_cache (content_hash TEXT PRIMARY KEY, vector BLOB NOT NULL, model TEXT NOT NULL, created_at DATETIME NOT NULL)";

/// Creates the disk tier of the embedding cache.
pub fn create_cache_table() -> (s: Statement)
    ensures
        s.sql@ == CREATE_CACHE_TABLE@,
        values(s.params@) == Seq::<ValueView>::empty(),
{
    let mut params: Vec<SqlValue> = Vec::new();
    proof {
        assert(values(params@) =~= Seq::<ValueView>::empty());
    }
    Statement { sql: CREATE_CACHE_TABLE.to_owned(), params }
}

pub const CREATE_CACHE_INDEX: &'static str = "CREATE INDEX IF NOT EXISTS idx_embedding_cache_model ON embedding_cache(model, created_at DESC)";

/// Indexes the disk tier by model and age.
pub fn create_cache_index() -> (s: Statement)
    ensures
        s.sql@ == CREATE_CACHE_INDEX@,
        values(s.params@) == Seq::<ValueView>::empty(),
{
    let mut params: Vec<SqlValue> = Vec::new();
    proof {
        assert(values(params@) =~= Seq::<ValueView>::empty());
    }
    Statement { sql: CREATE_CACHE_INDEX.to_owned(), params }
}

pub const SELECT_CACHED: &'static str = "SELECT vector FROM embedding_cache WHERE content_hash = ? AND model = ?";

/// Selects the cached vector of a fingerprint and model.
pub fn select_cached(hash: &str, model: &str) -> (s: Statement)
    ensures
        s.sql@ == SELECT_CACHED@,
        values(s.params@) == seq![ValueView::Text(hash@), ValueView::Text(model@)],
{
    let mut params: Vec<SqlValue> = Vec::new();
    params.push(SqlValue::Text(hash.to_owned()));
    params.push(SqlValue::Text(model.to_owned()));
    proof {
        assert(values(params@) =~= seq![ValueView::Text(hash@), ValueView::Text(model@)]);
    }
    Statement { sql: SELECT_CACHED.to_owned(), params }
}

pub const UPSERT_CACHED: &'static str = "INSERT INTO embedding_cache (content_hash, vector, model, created_at) VALUES (?, ?, ?, ?) ON CONFLICT(content_hash) DO UPDATE SET vector = excluded.vector, created_at = excluded.created_at";

/// Inserts a cached vector, or overwrites vector and time of the row with that fingerprint.
pub fn upsert_cached(hash: &str, vector: Vec<u8>, model: &str, now: i64) -> (s: Statement)
    ensures
        s.sql@ == UPSERT_CACHED@,
        values(s.params@) == seq![ValueView::Text(hash@), ValueView::Blob(vector@), ValueView::Text(model@), ValueView::Timestamp(now as int)],
{
    let mut params: Vec<SqlValue> = Vec::new();
    params.push(SqlValue::Text(hash.to_owned()));
    params.push(SqlValue::Blob(vector));
    params.push(SqlValue::Text(model.to_owned()));
    params.push(SqlValue::Timestamp(now));
    proof {
        assert(values(params@) =~= seq![ValueView::Text(hash@), ValueView::Blob(vector@), ValueView::Text(model@), ValueView::Timestamp(now as int)]);
    }
    Statement { sql: UPSERT_CACHED.to_owned(), params }
}

pub const DELETE_CACHED_BEFORE: &'static str = "DELETE FROM embedding_cache WHERE created_at < ?";

/// Deletes the cached vectors that are older than a time.
pub fn delete_cached_before(cutoff: i64) -> (s: Statement)
    ensures
        s.sql@ == DELETE_CACHED_BEFORE@,
        values(s.params@) == seq![ValueView::Timestamp(cutoff as int)],
{
    let mut params: Vec<SqlValue> = Vec::new();
    params.push(SqlValue::Timestamp(cutoff));
    proof {
        assert(values(params@) =~= seq![ValueView::Timestamp(cutoff as int)]);
    }
    Statement { sql: DELETE_CACHED_BEFORE.to_owned(), params }
}

} // verus!
