//! The document store's own part of every operation: which statements to
//! run, which answers to refuse, and which vector index serves a search.
//!
//! The store keeps one file per database under its base directory and one
//! more, `global`, for the embedding cache. Running a statement and opening
//! a file is the caller's work.

use vstd::prelude::*;
use vstd::string::StringExecFns;
use crate::ambient::{fresh_id, now_millis};
use crate::codec::{encode_words, serialize_vector};
use crate::error::{CoreError, ErrorKind};
use crate::index::{
    admitted, admitted_points, index_serves, use_index, IndexConfig, IndexMode, IndexPoint,
    VectorIndex,
};
use crate::models::{Document, DocumentRelation, StoreDocumentRequest};
use crate::rows::{
    document_from_row, document_of, document_params, document_values, relation_from_row,
    relation_of, DocumentRow, RelationRow,
};
use crate::sql::{
    count_embedded, count_embedded_text, create_chunks_index, create_chunks_index_text,
    create_created_index, create_created_index_text, create_delete_trigger,
    create_delete_trigger_text, create_embedded_index, create_embedded_index_text, create_fts,
    create_fts_text, create_insert_trigger, create_insert_trigger_text, create_parent_index,
    create_parent_index_text, create_relations_source_index, create_relations_table,
    create_relations_target_index, create_relations_type_index, create_relations_unique_index,
    create_table, create_table_text, create_update_trigger, create_update_trigger_text,
    create_updated_index, create_updated_index_text, delete_chunks, delete_chunks_text,
    delete_document, delete_document_text, drop_fts, drop_fts_text, drop_table, drop_table_text,
    delete_relation, insert_relation, is_valid_table_name, select_all, select_all_relations,
    select_all_text, select_chunks, select_document_relations, select_relation,
    select_chunks_text, select_document, select_document_text, select_embedded,
    select_embedded_text, select_fts, select_fts_text, select_hit, select_hit_text,
    select_parent, select_parent_text, select_pending, select_pending_text, select_vectors,
    select_vectors_text, update_vector, update_vector_text, upsert_document,
    upsert_document_text, valid_table_name, values, is_name_char, Statement, ValueView,
    CREATE_RELATIONS_SOURCE_INDEX, CREATE_RELATIONS_TABLE, CREATE_RELATIONS_TARGET_INDEX,
    CREATE_RELATIONS_TYPE_INDEX, CREATE_RELATIONS_UNIQUE_INDEX, DELETE_RELATION, INSERT_RELATION,
    SELECT_ALL_RELATIONS, SELECT_DOCUMENT_RELATIONS, SELECT_RELATION,
};
use crate::text::{chars_of, position, string_of_range, views};

verus! {

/// The texts of statements.
pub open spec fn texts(statements: Seq<Statement>) -> Seq<Seq<char>> {
    statements.map_values(|s: Statement| s.sql@)
}

/// The statements that make a table ready: the table, its full-text mirror,
/// the three triggers that keep the mirror, five indexes, and the relations
/// table of the database with its four indexes.
pub open spec fn schema_texts(table: Seq<char>) -> Seq<Seq<char>> {
    seq![
        create_table_text(table),
        create_fts_text(table),
        create_insert_trigger_text(table),
        create_delete_trigger_text(table),
        create_update_trigger_text(table),
        create_created_index_text(table),
        create_updated_index_text(table),
        create_embedded_index_text(table),
        create_parent_index_text(table),
        create_chunks_index_text(table),
        CREATE_RELATIONS_TABLE@,
        CREATE_RELATIONS_SOURCE_INDEX@,
        CREATE_RELATIONS_TARGET_INDEX@,
        CREATE_RELATIONS_TYPE_INDEX@,
        CREATE_RELATIONS_UNIQUE_INDEX@,
    ]
}

/// `r` is the statement with text `text` and values `params` for a valid
/// table name, and the invalid-name error for another.
pub open spec fn statement_for(
    r: Result<Statement, CoreError>,
    table: Seq<char>,
    text: Seq<char>,
    params: Seq<ValueView>,
) -> bool {
    match r {
        Ok(s) => valid_table_name(table) && s.sql@ == text && values(s.params@) == params,
        Err(e) => !valid_table_name(table) && e.kind == ErrorKind::InvalidName,
    }
}

fn invalid_name() -> (e: CoreError)
    ensures
        e.kind == ErrorKind::InvalidName,
{
    CoreError::with_message(ErrorKind::InvalidName, "invalid table name")
}

/// Whether `text` ends with `suffix`.
pub open spec fn has_suffix(text: Seq<char>, suffix: Seq<char>) -> bool {
    text.len() >= suffix.len() && text.subrange(text.len() - suffix.len(), text.len() as int)
        == suffix
}

/// Whether `text` begins with `prefix`.
pub open spec fn has_prefix(text: Seq<char>, prefix: Seq<char>) -> bool {
    text.len() >= prefix.len() && text.subrange(0, prefix.len() as int) == prefix
}

fn matches_at(text: &Vec<char>, at: usize, pattern: &str) -> (r: bool)
    requires
        at <= text@.len(),
    ensures
        r == (at + pattern@.len() <= text@.len() && text@.subrange(
            at as int,
            at + pattern@.len(),
        ) == pattern@),
{
    let p = chars_of(pattern);
    if p.len() > text.len() - at {
        return false;
    }
    let mut i: usize = 0;
    while i < p.len()
        invariant
            i <= p.len(),
            p@ == pattern@,
            at + p.len() <= text.len(),
            forall|k: int| 0 <= k < i ==> text@[at + k] == p@[k],
        decreases p.len() - i,
    {
        if text[at + i] != p[i] {
            proof {
                assert(text@.subrange(at as int, at + p@.len())[i as int] == text@[at + i]);
            }
            return false;
        }
        i = i + 1;
    }
    proof {
        assert(text@.subrange(at as int, at + p@.len()) =~= p@);
    }
    true
}

fn ends_with(text: &Vec<char>, suffix: &str) -> (r: bool)
    ensures
        r == has_suffix(text@, suffix@),
{
    let n: usize = suffix.unicode_len();
    if n > text.len() {
        false
    } else {
        matches_at(text, text.len() - n, suffix)
    }
}

fn starts_with(text: &Vec<char>, prefix: &str) -> (r: bool)
    ensures
        r == has_prefix(text@, prefix@),
{
    matches_at(text, 0, prefix)
}

/// Whether a table belongs to the engine or to the store itself: the
/// full-text mirrors and their shadow tables, the engine's private tables,
/// and the relations table.
pub open spec fn is_internal_table(name: Seq<char>) -> bool {
    ||| has_suffix(name, "_fts"@)
    ||| has_suffix(name, "_config"@)
    ||| has_suffix(name, "_data"@)
    ||| has_suffix(name, "_idx"@)
    ||| has_suffix(name, "_docsize"@)
    ||| has_prefix(name, "sqlite_"@)
    ||| name == "document_relations"@
}

/// The names of `names[..n]` that are no internal tables, in order.
pub open spec fn user_tables_of(names: Seq<Seq<char>>, n: int) -> Seq<Seq<char>>
    decreases n,
{
    if n <= 0 {
        Seq::<Seq<char>>::empty()
    } else if is_internal_table(names[n - 1]) {
        user_tables_of(names, n - 1)
    } else {
        user_tables_of(names, n - 1).push(names[n - 1])
    }
}

/// The database that a file holds: the file's name without `.db`, where it
/// ends so and something stands before.
pub open spec fn database_of(file: Seq<char>) -> Option<Seq<char>> {
    if file.len() > 3 && has_suffix(file, ".db"@) {
        Some(file.subrange(0, file.len() - 3))
    } else {
        None
    }
}

/// The databases of `files[..n]`, in order; the file of the embedding cache
/// holds none.
pub open spec fn databases_of(files: Seq<Seq<char>>, n: int) -> Seq<Seq<char>>
    decreases n,
{
    if n <= 0 {
        Seq::<Seq<char>>::empty()
    } else {
        match database_of(files[n - 1]) {
            Some(name) => if name == "global"@ {
                databases_of(files, n - 1)
            } else {
                databases_of(files, n - 1).push(name)
            },
            None => databases_of(files, n - 1),
        }
    }
}

/// Whether `a` comes before `b`, or is `b`, in the order of strings: at the
/// first place where they differ `a` has the smaller character, or `a` ends.
pub open spec fn lex_le(a: Seq<char>, b: Seq<char>) -> bool
    decreases a.len(),
{
    if a.len() == 0 {
        true
    } else if b.len() == 0 {
        false
    } else if a[0] != b[0] {
        (a[0] as u32) < (b[0] as u32)
    } else {
        lex_le(a.drop_first(), b.drop_first())
    }
}

/// Sorts with `<[String]>::sort`: the same strings, in the order of strings,
/// which compares them character by character.
#[verifier::external_body]
fn sort_strings(items: &mut Vec<String>)
    ensures
        views(final(items)@).to_multiset() == views(old(items)@).to_multiset(),
        forall|i: int, j: int|
            0 <= i <= j < final(items)@.len() ==> lex_le(
                #[trigger] final(items)@[i]@,
                #[trigger] final(items)@[j]@,
            ),
{
    items.sort();
}

/// What a vector search does.
#[derive(Clone, Copy, Debug, PartialEq, Eq, Structural)]
pub enum VectorSearchPlan {
    /// Scan every embedded document.
    BruteForce,
    /// Search the index of the table.
    Index,
    /// Build the index of the table from its embedded documents, then
    /// search it.
    BuildIndex,
}

/// The document store.
pub struct DocumentStore {
    base_dir: String,
    indexes: Vec<(String, VectorIndex)>,
    index_config: IndexConfig,
    mode: IndexMode,
    index_threshold: usize,
}

/// The key of the index of a table.
pub open spec fn index_key_of(db: Seq<char>, table: Seq<char>) -> Seq<char> {
    db + ":"@ + table
}

/// The path of the file of a database.
pub open spec fn path_of(base: Seq<char>, db: Seq<char>) -> Seq<char> {
    base + "/"@ + db + ".db"@
}

/// The length of the first vector that is not empty, or 0.
pub open spec fn first_dimension(documents: Seq<(String, Vec<u32>)>) -> nat
    decreases documents.len(),
{
    if documents.len() == 0 {
        0
    } else if documents[0].1@.len() > 0 {
        documents[0].1@.len()
    } else {
        first_dimension(documents.drop_first())
    }
}

/// The keys of keyed indexes.
pub open spec fn keys_of(indexes: Seq<(String, VectorIndex)>) -> Seq<Seq<char>> {
    indexes.map_values(|p: (String, VectorIndex)| p.0@)
}

impl DocumentStore {
    /// The base directory.
    pub closed spec fn base(&self) -> Seq<char> {
        self.base_dir@
    }

    /// The index mode.
    pub closed spec fn index_mode(&self) -> IndexMode {
        self.mode
    }

    /// The number of embedded documents from which `auto` uses the index.
    pub closed spec fn threshold(&self) -> nat {
        self.index_threshold as nat
    }

    /// The parameters of new indexes.
    pub closed spec fn parameters(&self) -> IndexConfig {
        self.index_config
    }

    /// The document ids of the index of a table by position, where the table
    /// has an index.
    pub closed spec fn index_ids(&self, db: Seq<char>, table: Seq<char>) -> Option<Seq<Seq<char>>> {
        let at = position(keys_of(self.indexes@), index_key_of(db, table));
        if 0 <= at < self.indexes@.len() {
            Some(self.indexes@[at].1.ids())
        } else {
            None
        }
    }

    /// The dimension of the index of a table, where the table has an index.
    pub closed spec fn index_dimension(&self, db: Seq<char>, table: Seq<char>) -> Option<nat> {
        let at = position(keys_of(self.indexes@), index_key_of(db, table));
        if 0 <= at < self.indexes@.len() {
            Some(self.indexes@[at].1.dimension())
        } else {
            None
        }
    }

    /// Whether the index of a table is built, where the table has an index.
    pub closed spec fn index_built(&self, db: Seq<char>, table: Seq<char>) -> Option<bool> {
        let at = position(keys_of(self.indexes@), index_key_of(db, table));
        if 0 <= at < self.indexes@.len() {
            Some(self.indexes@[at].1.built())
        } else {
            None
        }
    }

    /// Whether `self` holds for a table what `before` held for it: the same
    /// index, or none.
    pub open spec fn same_index(&self, before: DocumentStore, db: Seq<char>, table: Seq<char>) -> bool {
        &&& self.index_ids(db, table) == before.index_ids(db, table)
        &&& self.index_dimension(db, table) == before.index_dimension(db, table)
        &&& self.index_built(db, table) == before.index_built(db, table)
    }

    /// Whether `self` holds what `before` held for every table but the one
    /// whose index has the key of `table` in `db`.
    pub open spec fn other_indexes_kept(&self, before: DocumentStore, db: Seq<char>, table: Seq<char>) -> bool {
        forall|d: Seq<char>, t: Seq<char>|
            index_key_of(d, t) != index_key_of(db, table) ==> #[trigger] self.same_index(
                before,
                d,
                t,
            )
    }

    /// A store under `base_dir` that never uses an index until it is
    /// configured to.
    pub fn new(base_dir: String) -> (store: DocumentStore)
        ensures
            store.base() == base_dir@,
            store.index_mode() == IndexMode::Never,
            store.threshold() == 1000,
            store.parameters() == (IndexConfig {
                hnsw_m: 16,
                hnsw_ef_construction: 200,
                hnsw_ef_search: 100,
            }),
            forall|db: Seq<char>, table: Seq<char>| store.index_ids(db, table) is None,
    {
        let store = DocumentStore {
            base_dir,
            indexes: Vec::new(),
            index_config: IndexConfig::default(),
            mode: IndexMode::Never,
            index_threshold: 1000,
        };
        assert forall|db: Seq<char>, table: Seq<char>| store.index_ids(db, table) is None by {
            crate::text::lemma_position(keys_of(store.indexes@), index_key_of(db, table));
        }
        store
    }

    /// Sets when the index is used and how new indexes are built.
    pub fn configure_indexing(&mut self, mode: IndexMode, threshold: usize, config: IndexConfig)
        ensures
            final(self).base() == old(self).base(),
            final(self).index_mode() == mode,
            final(self).threshold() == threshold,
            final(self).parameters() == config,
            forall|db: Seq<char>, table: Seq<char>| #[trigger]
                final(self).same_index(*old(self), db, table),
    {
        self.mode = mode;
        self.index_threshold = threshold;
        self.index_config = config;
    }

    /// The base directory, whose files `list_databases` is given.
    pub fn base_dir(&self) -> (dir: &String)
        ensures
            dir@ == self.base(),
    {
        &self.base_dir
    }

    /// The path of the file of database `db_id`.
    pub fn database_path(&self, db_id: &str) -> (path: String)
        ensures
            path@ == path_of(self.base(), db_id@),
    {
        let mut path = self.base_dir.clone();
        path.append("/");
        path.append(db_id);
        path.append(".db");
        path
    }

    /// The path of the file of the embedding cache.
    pub fn get_global_pool(&self) -> (path: String)
        ensures
            path@ == path_of(self.base(), "global"@),
    {
        self.database_path("global")
    }

    /// The address under which the file of database `db_id` is opened, and
    /// created where it does not exist.
    pub fn get_pool(&self, db_id: &str) -> (address: String)
        ensures
            address@ == "sqlite://"@ + path_of(self.base(), db_id@) + "?mode=rwc"@,
    {
        let mut address = "sqlite://".to_owned();
        let path = self.database_path(db_id);
        address.append(path.as_str());
        address.append("?mode=rwc");
        address
    }

    /// The statements that make `table_name` ready. An invalid name is
    /// refused.
    pub fn ensure_table(&self, table_name: &str) -> (r: Result<Vec<Statement>, CoreError>)
        ensures
            match r {
                Ok(statements) => {
                    &&& valid_table_name(table_name@)
                    &&& texts(statements@) == schema_texts(table_name@)
                    &&& forall|i: int|
                        0 <= i < statements@.len() ==> (#[trigger] statements@[i]).params@.len()
                            == 0
                },
                Err(e) => !valid_table_name(table_name@) && e.kind == ErrorKind::InvalidName,
            },
    {
        if !is_valid_table_name(table_name) {
            return Err(invalid_name());
        }
        let mut statements: Vec<Statement> = Vec::new();
        statements.push(create_table(table_name));
        statements.push(create_fts(table_name));
        statements.push(create_insert_trigger(table_name));
        statements.push(create_delete_trigger(table_name));
        statements.push(create_update_trigger(table_name));
        statements.push(create_created_index(table_name));
        statements.push(create_updated_index(table_name));
        statements.push(create_embedded_index(table_name));
        statements.push(create_parent_index(table_name));
        statements.push(create_chunks_index(table_name));
        statements.push(create_relations_table());
        statements.push(create_relations_source_index());
        statements.push(create_relations_target_index());
        statements.push(create_relations_type_index());
        statements.push(create_relations_unique_index());
        proof {
            assert(texts(statements@) =~= schema_texts(table_name@));
            assert forall|i: int| 0 <= i < statements@.len() implies (
            #[trigger] statements@[i]).params@.len() == 0 by {
                assert(values(statements@[i].params@).len() == 0);
            }
        }
        Ok(statements)
    }

    /// The statement that stores `doc` in `table_name`, to run once the
    /// table is ready: an insert that overwrites the document with the same
    /// id. An invalid name is refused.
    pub fn store_document(&self, table_name: &str, doc: &Document) -> (r: Result<Statement, CoreError>)
        ensures
            statement_for(r, table_name@, upsert_document_text(table_name@), document_values(*doc)),
    {
        if !is_valid_table_name(table_name) {
            return Err(invalid_name());
        }
        Ok(upsert_document(table_name, document_params(doc)))
    }

    /// The statement that selects the document `id`.
    pub fn get_document(&self, table_name: &str, id: &str) -> (r: Result<Statement, CoreError>)
        ensures
            statement_for(
                r,
                table_name@,
                select_document_text(table_name@),
                seq![ValueView::Text(id@)],
            ),
    {
        if !is_valid_table_name(table_name) {
            return Err(invalid_name());
        }
        Ok(select_document(table_name, id))
    }

    /// The document of the row that the engine found, or the not-found
    /// error where it found none.
    pub fn read_document(&self, db_id: &str, table_name: &str, row: Option<DocumentRow>) -> (r: Result<
        Document,
        CoreError,
    >)
        ensures
            match r {
                Ok(doc) => row matches Some(found) && doc@ == document_of(
                    db_id@,
                    table_name@,
                    found,
                ),
                Err(e) => row is None && e.kind == ErrorKind::NotFound,
            },
    {
        match row {
            Some(found) => Ok(document_from_row(db_id, table_name, &found)),
            None => Err(CoreError::with_message(ErrorKind::NotFound, "Document not found")),
        }
    }

    /// The relation of the row that the engine found, or the not-found
    /// error where it found none.
    pub fn read_relation(&self, row: Option<RelationRow>) -> (r: Result<DocumentRelation, CoreError>)
        ensures
            match r {
                Ok(relation) => row matches Some(found) && relation_of(relation, found),
                Err(e) => row is None && e.kind == ErrorKind::NotFound,
            },
    {
        match row {
            Some(found) => Ok(relation_from_row(&found)),
            None => Err(CoreError::with_message(ErrorKind::NotFound, "Relation not found")),
        }
    }

    /// The error of a relation that the engine did not store: an integrity
    /// violation where the engine refused it for its unique index, because a
    /// relation with the same source, target and type exists; a backend
    /// error for any other failure. The error carries the engine's message.
    pub fn relation_refused(&self, unique_violation: bool, message: &str) -> (e: CoreError)
        ensures
            e.kind == if unique_violation {
                ErrorKind::IntegrityViolation
            } else {
                ErrorKind::BackendError
            },
            e.message matches Some(m) && m@ == message@,
    {
        if unique_violation {
            CoreError::with_message(ErrorKind::IntegrityViolation, message)
        } else {
            CoreError::with_message(ErrorKind::BackendError, message)
        }
    }

    /// The statement that selects up to `limit` pending documents, oldest
    /// first.
    pub fn get_non_embedded_documents(&self, table_name: &str, limit: i32) -> (r: Result<
        Statement,
        CoreError,
    >)
        ensures
            statement_for(
                r,
                table_name@,
                select_pending_text(table_name@),
                seq![ValueView::Integer(limit as int)],
            ),
    {
        if !is_valid_table_name(table_name) {
            return Err(invalid_name());
        }
        Ok(select_pending(table_name, limit as i64))
    }

    /// The statement that selects up to `limit` documents, oldest first.
    pub fn get_all_documents(&self, table_name: &str, limit: i32) -> (r: Result<Statement, CoreError>)
        ensures
            statement_for(
                r,
                table_name@,
                select_all_text(table_name@),
                seq![ValueView::Integer(limit as int)],
            ),
    {
        if !is_valid_table_name(table_name) {
            return Err(invalid_name());
        }
        Ok(select_all(table_name, limit as i64))
    }

    /// The statement that selects the chunks of `parent_id` in chunk order.
    pub fn get_chunks(&self, table_name: &str, parent_id: &str) -> (r: Result<Statement, CoreError>)
        ensures
            statement_for(
                r,
                table_name@,
                select_chunks_text(table_name@),
                seq![ValueView::Text(parent_id@)],
            ),
    {
        if !is_valid_table_name(table_name) {
            return Err(invalid_name());
        }
        Ok(select_chunks(table_name, parent_id))
    }

    /// The statement that deletes the chunks of `parent_id`.
    pub fn delete_chunks(&self, table_name: &str, parent_id: &str) -> (r: Result<Statement, CoreError>)
        ensures
            statement_for(
                r,
                table_name@,
                delete_chunks_text(table_name@),
                seq![ValueView::Text(parent_id@)],
            ),
    {
        if !is_valid_table_name(table_name) {
            return Err(invalid_name());
        }
        Ok(delete_chunks(table_name, parent_id))
    }

    /// The statement that counts the embedded documents of a table.
    pub fn count_embedded(&self, table_name: &str) -> (r: Result<Statement, CoreError>)
        ensures
            statement_for(
                r,
                table_name@,
                count_embedded_text(table_name@),
                Seq::<ValueView>::empty(),
            ),
    {
        if !is_valid_table_name(table_name) {
            return Err(invalid_name());
        }
        Ok(count_embedded(table_name))
    }

    /// The statement of a full-text search for `query` with up to `limit`
    /// results, best rank first. The query is passed on as it is.
    pub fn search_fts(&self, table_name: &str, query: &str, limit: usize) -> (r: Result<
        Statement,
        CoreError,
    >)
        ensures
            statement_for(
                r,
                table_name@,
                select_fts_text(table_name@),
                seq![
                    ValueView::Text(query@),
                    ValueView::Integer(
                        if limit <= i64::MAX {
                            limit as int
                        } else {
                            i64::MAX as int
                        },
                    ),
                ],
            ),
    {
        if !is_valid_table_name(table_name) {
            return Err(invalid_name());
        }
        let bound: i64 = if limit as u128 <= i64::MAX as u128 {
            limit as i64
        } else {
            i64::MAX
        };
        Ok(select_fts(table_name, query, bound))
    }

    /// The statement that selects every embedded document with its vector,
    /// for a scan.
    pub fn scan_vectors(&self, table_name: &str) -> (r: Result<Statement, CoreError>)
        ensures
            statement_for(
                r,
                table_name@,
                select_embedded_text(table_name@),
                Seq::<ValueView>::empty(),
            ),
    {
        if !is_valid_table_name(table_name) {
            return Err(invalid_name());
        }
        Ok(select_embedded(table_name))
    }

    /// The statement that selects id and vector of every embedded document,
    /// for building the index.
    pub fn index_snapshot(&self, table_name: &str) -> (r: Result<Statement, CoreError>)
        ensures
            statement_for(
                r,
                table_name@,
                select_vectors_text(table_name@),
                Seq::<ValueView>::empty(),
            ),
    {
        if !is_valid_table_name(table_name) {
            return Err(invalid_name());
        }
        Ok(select_vectors(table_name))
    }

    /// The statement that selects what a search result shows of document
    /// `id`.
    pub fn fetch_hit(&self, table_name: &str, id: &str) -> (r: Result<Statement, CoreError>)
        ensures
            statement_for(r, table_name@, select_hit_text(table_name@), seq![ValueView::Text(id@)]),
    {
        if !is_valid_table_name(table_name) {
            return Err(invalid_name());
        }
        Ok(select_hit(table_name, id))
    }

    /// Whether a vector search needs the number of embedded documents to
    /// choose its way.
    pub fn needs_count(&self) -> (r: bool)
        ensures
            r == (self.index_mode() != IndexMode::Never),
    {
        match self.mode {
            IndexMode::Never => false,
            _ => true,
        }
    }

    fn index_at(&self, db_id: &str, table_name: &str) -> (r: Option<usize>)
        ensures
            match r {
                Some(at) => at < self.indexes@.len() && at == position(
                    keys_of(self.indexes@),
                    index_key_of(db_id@, table_name@),
                ),
                None => position(keys_of(self.indexes@), index_key_of(db_id@, table_name@)) < 0,
            },
    {
        let mut key = db_id.to_owned();
        key.append(":");
        key.append(table_name);
        let ghost keys = keys_of(self.indexes@);
        let mut i: usize = 0;
        while i < self.indexes.len()
            invariant
                i <= self.indexes.len(),
                keys == keys_of(self.indexes@),
                key@ == index_key_of(db_id@, table_name@),
                position(keys.take(i as int), key@) == -1,
            decreases self.indexes.len() - i,
        {
            proof {
                assert(keys.take(i as int + 1).drop_last() =~= keys.take(i as int));
                assert(keys[i as int] == self.indexes@[i as int].0@);
            }
            if self.indexes[i].0 == key {
                proof {
                    assert(keys =~= keys.take(i as int + 1) + keys.skip(i as int + 1));
                    crate::text::lemma_position_grows(
                        keys.take(i as int + 1),
                        keys.skip(i as int + 1),
                        key@,
                    );
                }
                return Some(i);
            }
            i = i + 1;
        }
        proof {
            assert(keys.take(i as int) =~= keys);
        }
        None
    }

    /// Chooses the way of a vector search over a table with `embedded`
    /// embedded documents: a scan unless the mode and the number call for
    /// the index, which is built first where the table has none.
    pub fn search_vector(&self, db_id: &str, table_name: &str, embedded: u64) -> (plan:
        VectorSearchPlan)
        ensures
            plan == if !index_serves(self.index_mode(), embedded as nat, self.threshold()) {
                VectorSearchPlan::BruteForce
            } else if self.index_ids(db_id@, table_name@) is Some {
                VectorSearchPlan::Index
            } else {
                VectorSearchPlan::BuildIndex
            },
    {
        if !use_index(self.mode, embedded, self.index_threshold) {
            VectorSearchPlan::BruteForce
        } else {
            match self.index_at(db_id, table_name) {
                Some(_) => VectorSearchPlan::Index,
                None => VectorSearchPlan::BuildIndex,
            }
        }
    }

    /// The index of a table.
    pub fn index(&self, db_id: &str, table_name: &str) -> (r: Option<&VectorIndex>)
        ensures
            match r {
                Some(index) => self.index_ids(db_id@, table_name@) == Some(index.ids())
                    && self.index_dimension(db_id@, table_name@) == Some(index.dimension())
                    && self.index_built(db_id@, table_name@) == Some(index.built()),
                None => self.index_ids(db_id@, table_name@) is None,
            },
    {
        match self.index_at(db_id, table_name) {
            Some(at) => Some(&self.indexes[at].1),
            None => None,
        }
    }

    /// Builds the index of a table from a snapshot of its embedded
    /// documents and returns the points to put into the nearest-neighbour
    /// structure. The dimension is that of the first vector that is not
    /// empty. An empty snapshot builds nothing.
    pub fn build_index(&mut self, db_id: &str, table_name: &str, documents: &Vec<(String, Vec<u32>)>) -> (points:
        Vec<IndexPoint>)
        requires
            old(self).index_ids(db_id@, table_name@) is None,
        ensures
            final(self).base() == old(self).base(),
            final(self).index_mode() == old(self).index_mode(),
            final(self).threshold() == old(self).threshold(),
            final(self).parameters() == old(self).parameters(),
            documents@.len() == 0 ==> points@.len() == 0 && final(self).index_ids(
                db_id@,
                table_name@,
            ) is None,
            documents@.len() > 0 ==> points@ == admitted_points(
                documents@,
                first_dimension(documents@),
                documents@.len() as int,
            ) && final(self).index_ids(db_id@, table_name@) == Some(
                admitted(documents@, first_dimension(documents@), documents@.len() as int),
            ) && final(self).index_dimension(db_id@, table_name@) == Some(
                first_dimension(documents@),
            ) && final(self).index_built(db_id@, table_name@) == Some(true),
            final(self).other_indexes_kept(*old(self), db_id@, table_name@),
    {
        if documents.len() == 0 {
            assert(self.other_indexes_kept(*old(self), db_id@, table_name@));
            return Vec::new();
        }
        let mut dimensions: usize = 0;
        let mut n: usize = 0;
        proof {
            assert(documents@.skip(0) =~= documents@);
        }
        while n < documents.len() && dimensions == 0
            invariant
                n <= documents.len(),
                dimensions == 0 ==> first_dimension(documents@) == first_dimension(
                    documents@.skip(n as int),
                ),
                dimensions > 0 ==> first_dimension(documents@) == dimensions,
            decreases documents.len() - n,
        {
            proof {
                assert(documents@.skip(n as int).drop_first() =~= documents@.skip(n as int + 1));
                assert(documents@.skip(n as int)[0] == documents@[n as int]);
            }
            dimensions = documents[n].1.len();
            n = n + 1;
        }
        let mut index = VectorIndex::new(dimensions, self.index_config);
        let points = index.build(documents);
        let mut key = db_id.to_owned();
        key.append(":");
        key.append(table_name);
        let ghost keys = keys_of(self.indexes@);
        proof {
            crate::text::lemma_position(keys, key@);
        }
        self.indexes.push((key, index));
        proof {
            let grown = keys_of(self.indexes@);
            assert(grown =~= keys.push(key@));
            assert(grown.drop_last() =~= keys);
            assert forall|d: Seq<char>, t: Seq<char>|
                index_key_of(d, t) != index_key_of(db_id@, table_name@) implies #[trigger] self.same_index(
                *old(self),
                d,
                t,
            ) by {
                crate::text::lemma_position(keys, index_key_of(d, t));
                let at = position(keys, index_key_of(d, t));
                if at >= 0 {
                    assert(self.indexes@[at] == old(self).indexes@[at]);
                }
            }
        }
        points
    }

    /// The statement that writes the vector of document `doc_id` at time
    /// `now` and marks the document embedded. Once it ran, `index_vector`
    /// tells the table's index of the vector.
    pub fn update_document_vector(&self, table_name: &str, doc_id: &str, vector: &Vec<u32>, now: i64) -> (r:
        Result<Statement, CoreError>)
        ensures
            statement_for(
                r,
                table_name@,
                update_vector_text(table_name@),
                seq![
                    ValueView::Blob(encode_words(vector@)),
                    ValueView::Timestamp(now as int),
                    ValueView::Text(doc_id@),
                ],
            ),
    {
        if !is_valid_table_name(table_name) {
            return Err(invalid_name());
        }
        Ok(update_vector(table_name, serialize_vector(vector), now, doc_id))
    }

    /// Tells the index of a table that document `doc_id` has a vector of
    /// `vector_len` values, after that vector was written. Where the index
    /// is in use and the table has one, the document gets the next position
    /// in it, unless it has one already or the length is not the index's
    /// dimension. The indexes of other tables stay as they are.
    pub fn index_vector(&mut self, db_id: &str, table_name: &str, doc_id: &str, vector_len: usize) -> (point:
        Result<Option<usize>, CoreError>)
        ensures
            final(self).base() == old(self).base(),
            final(self).index_mode() == old(self).index_mode(),
            final(self).threshold() == old(self).threshold(),
            final(self).parameters() == old(self).parameters(),
            vector_indexed(
                old(self).index_mode(),
                old(self).index_ids(db_id@, table_name@),
                old(self).index_dimension(db_id@, table_name@),
                doc_id@,
                vector_len as nat,
                point,
                final(self).index_ids(db_id@, table_name@),
            ),
            final(self).index_dimension(db_id@, table_name@) == old(self).index_dimension(
                db_id@,
                table_name@,
            ),
            final(self).index_built(db_id@, table_name@) == if point matches Ok(Some(_)) {
                Some(true)
            } else {
                old(self).index_built(db_id@, table_name@)
            },
            final(self).other_indexes_kept(*old(self), db_id@, table_name@),
    {
        let live: bool = match self.mode {
            IndexMode::Never => false,
            _ => true,
        };
        if !live {
            assert(self.other_indexes_kept(*old(self), db_id@, table_name@));
            return Ok(None);
        }
        match self.index_at(db_id, table_name) {
            None => {
                assert(self.other_indexes_kept(*old(self), db_id@, table_name@));
                Ok(None)
            },
            Some(at) => {
                let ghost keys = keys_of(self.indexes@);
                let (key, mut index) = self.indexes.remove(at);
                let added = index.add(doc_id.to_owned(), vector_len);
                self.indexes.insert(at, (key, index));
                proof {
                    assert(keys_of(self.indexes@) =~= keys);
                    crate::text::lemma_position(keys, index_key_of(db_id@, table_name@));
                    assert forall|d: Seq<char>, t: Seq<char>|
                        index_key_of(d, t) != index_key_of(db_id@, table_name@) implies #[trigger] self.same_index(
                        *old(self),
                        d,
                        t,
                    ) by {
                        crate::text::lemma_position(keys, index_key_of(d, t));
                        let other = position(keys, index_key_of(d, t));
                        if other >= 0 {
                            assert(keys[other] == old(self).indexes@[other].0@);
                            assert(other != at);
                            assert(self.indexes@[other] == old(self).indexes@[other]);
                        }
                    }
                }
                added
            },
        }
    }

    /// The databases of the files of the base directory, by name.
    pub fn list_databases(&self, files: &Vec<String>) -> (databases: Vec<String>)
        ensures
            views(databases@).to_multiset() == databases_of(
                views(files@),
                files@.len() as int,
            ).to_multiset(),
            forall|i: int, j: int|
                0 <= i <= j < databases@.len() ==> lex_le(
                    #[trigger] databases@[i]@,
                    #[trigger] databases@[j]@,
                ),
    {
        let mut databases: Vec<String> = Vec::new();
        let mut n: usize = 0;
        let global = chars_of("global");
        proof {
            assert(views(databases@) =~= Seq::<Seq<char>>::empty());
        }
        while n < files.len()
            invariant
                n <= files.len(),
                global@ == "global"@,
                views(databases@) == databases_of(views(files@), n as int),
            decreases files.len() - n,
        {
            let name = chars_of(files[n].as_str());
            if name.len() > 3 && ends_with(&name, ".db") {
                let stem = string_of_range(&name, 0, name.len() - 3);
                if stem != string_of_range(&global, 0, global.len()) {
                    let ghost before = views(databases@);
                    databases.push(stem);
                    proof {
                        assert(global@.subrange(0, global@.len() as int) =~= global@);
                        assert(views(databases@) =~= before.push(stem@));
                    }
                } else {
                    proof {
                        assert(global@.subrange(0, global@.len() as int) =~= global@);
                    }
                }
            }
            n = n + 1;
        }
        sort_strings(&mut databases);
        databases
    }

    /// The user tables among the names of all tables of a database.
    pub fn list_tables(&self, names: &Vec<String>) -> (tables: Vec<String>)
        ensures
            views(tables@) == user_tables_of(views(names@), names@.len() as int),
    {
        let mut tables: Vec<String> = Vec::new();
        let mut n: usize = 0;
        proof {
            assert(views(tables@) =~= Seq::<Seq<char>>::empty());
        }
        while n < names.len()
            invariant
                n <= names.len(),
                views(tables@) == user_tables_of(views(names@), n as int),
            decreases names.len() - n,
        {
            let name = chars_of(names[n].as_str());
            let internal: bool = ends_with(&name, "_fts") || ends_with(&name, "_config")
                || ends_with(&name, "_data") || ends_with(&name, "_idx") || ends_with(
                &name,
                "_docsize",
            ) || starts_with(&name, "sqlite_") || names[n] == "document_relations".to_owned();
            if !internal {
                let ghost before = views(tables@);
                tables.push(names[n].clone());
                proof {
                    assert(views(tables@) =~= before.push(names@[n as int]@));
                }
            }
            n = n + 1;
        }
        tables
    }

    /// The statement that stores a relation.
    pub fn create_relation(&self, relation: &DocumentRelation) -> (s: Statement)
        ensures
            s.sql@ == INSERT_RELATION@,
            values(s.params@) == seq![
                ValueView::Text(relation.id@),
                ValueView::Text(relation.source_id@),
                ValueView::Text(relation.target_id@),
                ValueView::Text(relation.relation_type@),
                ValueView::Text(relation.metadata@),
                ValueView::Timestamp(relation.created_at as int),
            ],
    {
        insert_relation(
            relation.id.as_str(),
            relation.source_id.as_str(),
            relation.target_id.as_str(),
            relation.relation_type.as_str(),
            relation.metadata.as_str(),
            relation.created_at,
        )
    }

    /// The statement that selects relation `relation_id`.
    pub fn get_relation(&self, relation_id: &str) -> (s: Statement)
        ensures
            s.sql@ == SELECT_RELATION@,
            values(s.params@) == seq![ValueView::Text(relation_id@)],
    {
        select_relation(relation_id)
    }

    /// The statement that deletes relation `relation_id`.
    pub fn delete_relation(&self, relation_id: &str) -> (s: Statement)
        ensures
            s.sql@ == DELETE_RELATION@,
            values(s.params@) == seq![ValueView::Text(relation_id@)],
    {
        delete_relation(relation_id)
    }

    /// The statement that selects the relations that leave or enter
    /// document `doc_id`.
    pub fn get_document_relations(&self, doc_id: &str) -> (s: Statement)
        ensures
            s.sql@ == SELECT_DOCUMENT_RELATIONS@,
            values(s.params@) == seq![ValueView::Text(doc_id@), ValueView::Text(doc_id@)],
    {
        select_document_relations(doc_id)
    }

    /// The statement that selects every relation of a database, the
    /// snapshot that graph queries work on.
    pub fn get_all_relations(&self) -> (s: Statement)
        ensures
            s.sql@ == SELECT_ALL_RELATIONS@,
            values(s.params@).len() == 0,
    {
        select_all_relations()
    }

    /// A new document for a request: the request's id or a new one, the
    /// request's content, metadata, tags and toggle, the current time, and
    /// no vector.
    pub fn add_document(&self, db_id: &str, table_name: &str, request: StoreDocumentRequest) -> (doc:
        Document)
        ensures
            request.id matches Some(id) ==> doc.id@ == id@,
            doc.db@ == db_id@,
            doc.table@ == table_name@,
            doc.content@ == request.content@,
            doc.metadata@ == request.metadata@,
            views(doc.tags@) == views(request.tags@),
            doc.vector is None,
            doc.updated_at == doc.created_at,
            !doc.is_embedded,
            doc.vectorize == request.vectorize,
            !doc.is_chunk,
            doc.parent_id is None,
            doc.chunk_index is None,
            doc.token_count is None,
            !doc.is_vectorized,
            doc.well_formed(),
    {
        let id: String = match request.id {
            Some(id) => id,
            None => fresh_id(),
        };
        let now: i64 = now_millis();
        Document {
            id,
            db: db_id.to_owned(),
            table: table_name.to_owned(),
            content: request.content,
            metadata: request.metadata,
            tags: request.tags,
            vector: None,
            created_at: now,
            updated_at: now,
            is_embedded: false,
            vectorize: request.vectorize,
            is_chunk: false,
            parent_id: None,
            chunk_index: None,
            token_count: None,
            is_vectorized: false,
        }
    }

    /// A new document with `content` only: empty metadata, no tags, and the
    /// wish to be embedded.
    pub fn add_simple_document(&self, db_id: &str, table_name: &str, content: String) -> (doc: Document)
        ensures
            doc.db@ == db_id@,
            doc.table@ == table_name@,
            doc.content@ == content@,
            doc.metadata@ == "{}"@,
            doc.tags@.len() == 0,
            doc.vectorize,
            doc.vector is None,
            !doc.is_chunk,
            doc.well_formed(),
    {
        let request = StoreDocumentRequest {
            id: None,
            content,
            metadata: "{}".to_owned(),
            tags: Vec::new(),
            vectorize: true,
        };
        let doc = self.add_document(db_id, table_name, request);
        proof {
            assert(views(doc.tags@).len() == 0);
        }
        doc
    }

    /// The statement that selects the parent of document `doc_id`, whose
    /// answer decides whether the document may be deleted.
    pub fn find_parent(&self, table_name: &str, doc_id: &str) -> (r: Result<Statement, CoreError>)
        ensures
            statement_for(
                r,
                table_name@,
                select_parent_text(table_name@),
                seq![ValueView::Text(doc_id@)],
            ),
    {
        if !is_valid_table_name(table_name) {
            return Err(invalid_name());
        }
        Ok(select_parent(table_name, doc_id))
    }

    /// The statement that deletes document `doc_id`, given what the engine
    /// answered to `find_parent`: no row, or the row's parent. A document
    /// with a parent is a chunk and is not deleted: its parent is to be
    /// deleted, which removes the chunks with it.
    pub fn delete_document_by_id(&self, table_name: &str, doc_id: &str, parent: Option<Option<String>>) -> (r:
        Result<Statement, CoreError>)
        ensures
            match r {
                Ok(s) => {
                    &&& valid_table_name(table_name@)
                    &&& !(parent matches Some(Some(_)))
                    &&& s.sql@ == delete_document_text(table_name@)
                    &&& values(s.params@) == seq![ValueView::Text(doc_id@)]
                },
                Err(e) => if !valid_table_name(table_name@) {
                    e.kind == ErrorKind::InvalidName
                } else {
                    (parent matches Some(Some(_))) && e.kind == ErrorKind::IntegrityViolation
                },
            },
    {
        if !is_valid_table_name(table_name) {
            return Err(invalid_name());
        }
        match parent {
            Some(Some(_)) => Err(
                CoreError::with_message(
                    ErrorKind::IntegrityViolation,
                    "Cannot delete child document. Delete the parent document instead, which will cascade delete all children.",
                ),
            ),
            _ => Ok(delete_document(table_name, doc_id)),
        }
    }

    /// The statements that drop a table and its full-text mirror. An invalid
    /// name is refused.
    pub fn delete_table(&self, table_name: &str) -> (r: Result<Vec<Statement>, CoreError>)
        ensures
            match r {
                Ok(statements) => valid_table_name(table_name@) && texts(statements@) == seq![
                    drop_table_text(table_name@),
                    drop_fts_text(table_name@),
                ],
                Err(e) => !valid_table_name(table_name@) && e.kind == ErrorKind::InvalidName,
            },
    {
        if !is_valid_table_name(table_name) {
            return Err(invalid_name());
        }
        let mut statements: Vec<Statement> = Vec::new();
        statements.push(drop_table(table_name));
        statements.push(drop_fts(table_name));
        proof {
            assert(texts(statements@) =~= seq![
                drop_table_text(table_name@),
                drop_fts_text(table_name@),
            ]);
        }
        Ok(statements)
    }

    /// The path of the file to remove when database `db_id` is deleted.
    pub fn delete_database(&self, db_id: &str) -> (path: String)
        ensures
            path@ == path_of(self.base(), db_id@),
    {
        self.database_path(db_id)
    }
}

/// What comes of a table's index when a vector of `len` values is written
/// for document `id`.
pub open spec fn vector_indexed(
    mode: IndexMode,
    ids: Option<Seq<Seq<char>>>,
    dimension: Option<nat>,
    id: Seq<char>,
    len: nat,
    point: Result<Option<usize>, CoreError>,
    after: Option<Seq<Seq<char>>>,
) -> bool {
    if mode == IndexMode::Never || ids is None {
        point == Ok::<Option<usize>, CoreError>(None) && after == ids
    } else if dimension != Some(len) {
        (point matches Err(e) && e.kind == ErrorKind::DimensionMismatch) && after == ids
    } else if position(ids->0, id) >= 0 {
        point == Ok::<Option<usize>, CoreError>(None) && after == ids
    } else {
        point == Ok::<Option<usize>, CoreError>(Some(ids->0.len() as usize)) && after == Some(
            ids->0.push(id),
        )
    }
}


/// The tables of two indexes with the same key are the same table of the
/// same database, where the table names are valid: no two such tables share
/// an index.
pub proof fn lemma_index_keys_differ(db: Seq<char>, table: Seq<char>, other_db: Seq<char>, other_table: Seq<char>)
    requires
        valid_table_name(table),
        valid_table_name(other_table),
        index_key_of(db, table) == index_key_of(other_db, other_table),
    ensures
        db == other_db,
        table == other_table,
{
    reveal_strlit(":");
    let colon = ":"@;
    assert(colon.len() == 1 && colon[0] == ':');
    let key = index_key_of(db, table);
    let other = index_key_of(other_db, other_table);
    let n = db.len() as int;
    let m = other_db.len() as int;
    assert(key.len() == n + 1 + table.len());
    assert(other.len() == m + 1 + other_table.len());
    assert(key[n] == ':');
    assert(other[m] == ':');
    if n < m {
        assert(key[m] == table[m - n - 1]);
        assert(is_name_char(table[m - n - 1]));
    } else if m < n {
        assert(other[n] == other_table[n - m - 1]);
        assert(is_name_char(other_table[n - m - 1]));
    } else {
        assert(db =~= key.subrange(0, n));
        assert(other_db =~= other.subrange(0, n));
        assert(table =~= key.subrange(n + 1, key.len() as int));
        assert(other_table =~= other.subrange(n + 1, other.len() as int));
    }
}

} // verus!
