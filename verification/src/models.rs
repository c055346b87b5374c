//! The records the store keeps and the requests it accepts.

use vstd::prelude::*;
use crate::text::{clone_opt_string, clone_strings, views};

verus! {

/// A stored document.
///
/// `metadata` is the JSON text of a string-keyed mapping. `vector` holds the
/// bit patterns of 32-bit IEEE-754 values. Timestamps are UTC milliseconds.
#[derive(Debug)]
pub struct Document {
    pub id: String,
    pub db: String,
    pub table: String,
    pub content: String,
    pub metadata: String,
    pub tags: Vec<String>,
    pub vector: Option<Vec<u32>>,
    pub created_at: i64,
    pub updated_at: i64,
    pub is_embedded: bool,
    /// Per-document toggle that asks for an embedding.
    pub vectorize: bool,
    pub is_chunk: bool,
    pub parent_id: Option<String>,
    pub chunk_index: Option<i32>,
    pub token_count: Option<i32>,
    pub is_vectorized: bool,
}

/// What a document holds, as mathematical values.
pub struct DocumentView {
    pub id: Seq<char>,
    pub db: Seq<char>,
    pub table: Seq<char>,
    pub content: Seq<char>,
    pub metadata: Seq<char>,
    pub tags: Seq<Seq<char>>,
    pub vector: Option<Seq<u32>>,
    pub created_at: i64,
    pub updated_at: i64,
    pub is_embedded: bool,
    pub vectorize: bool,
    pub is_chunk: bool,
    pub parent_id: Option<Seq<char>>,
    pub chunk_index: Option<i32>,
    pub token_count: Option<i32>,
    pub is_vectorized: bool,
}

/// The characters of an optional string.
pub open spec fn opt_view(s: Option<String>) -> Option<Seq<char>> {
    match s {
        Some(t) => Some(t@),
        None => None,
    }
}

/// The words of an optional vector.
pub open spec fn opt_words(v: Option<Vec<u32>>) -> Option<Seq<u32>> {
    match v {
        Some(w) => Some(w@),
        None => None,
    }
}

impl View for Document {
    type V = DocumentView;

    open spec fn view(&self) -> DocumentView {
        DocumentView {
            id: self.id@,
            db: self.db@,
            table: self.table@,
            content: self.content@,
            metadata: self.metadata@,
            tags: views(self.tags@),
            vector: opt_words(self.vector),
            created_at: self.created_at,
            updated_at: self.updated_at,
            is_embedded: self.is_embedded,
            vectorize: self.vectorize,
            is_chunk: self.is_chunk,
            parent_id: opt_view(self.parent_id),
            chunk_index: self.chunk_index,
            token_count: self.token_count,
            is_vectorized: self.is_vectorized,
        }
    }
}

impl Document {
    /// The invariants of a document: it is embedded exactly when it carries a
    /// vector, a chunk names its parent and has a non-negative index, and it
    /// was not updated before it was created.
    pub open spec fn well_formed(&self) -> bool {
        &&& self.is_embedded <==> self.vector is Some
        &&& self.is_chunk ==> self.parent_id is Some && self.chunk_index is Some
        &&& self.chunk_index matches Some(i) ==> i >= 0
        &&& self.updated_at >= self.created_at
    }

    /// A field-by-field copy.
    pub fn duplicate(&self) -> (copy: Document)
        ensures
            copy@ == self@,
            copy.well_formed() == self.well_formed(),
    {
        let vector = match &self.vector {
            Some(v) => {
                let w = v.clone();
                assert(w@ =~= v@);
                Some(w)
            },
            None => None,
        };
        Document {
            id: self.id.clone(),
            db: self.db.clone(),
            table: self.table.clone(),
            content: self.content.clone(),
            metadata: self.metadata.clone(),
            tags: clone_strings(&self.tags),
            vector,
            created_at: self.created_at,
            updated_at: self.updated_at,
            is_embedded: self.is_embedded,
            vectorize: self.vectorize,
            is_chunk: self.is_chunk,
            parent_id: clone_opt_string(&self.parent_id),
            chunk_index: self.chunk_index,
            token_count: self.token_count,
            is_vectorized: self.is_vectorized,
        }
    }
}

/// The value of a flag that is on unless it is switched off.
pub fn default_true() -> (r: bool)
    ensures
        r,
{
    true
}

/// A request to store a document. Without an id one is generated.
#[derive(Debug)]
pub struct StoreDocumentRequest {
    pub id: Option<String>,
    pub content: String,
    pub metadata: String,
    pub tags: Vec<String>,
    pub vectorize: bool,
}

/// Which retrieval mode a search uses.
#[derive(Clone, Copy, Debug, PartialEq, Eq, Structural)]
pub enum SearchType {
    Vector,
    FullText,
    Hybrid,
}

impl Default for SearchType {
    fn default() -> (r: SearchType)
        ensures
            r == SearchType::Hybrid,
    {
        SearchType::Hybrid
    }
}

/// A search query. `filters` is the JSON text of a string-keyed mapping.
#[derive(Debug)]
pub struct SearchRequest {
    pub query: String,
    pub search_type: SearchType,
    pub limit: Option<usize>,
    pub filters: String,
    pub include_chunks: bool,
    pub group_by_parent: bool,
}

/// The results of a search.
#[derive(Debug)]
pub struct SearchResponse {
    pub results: Vec<crate::search::SearchResult>,
    pub query: String,
    pub search_type: SearchType,
    pub db: String,
    pub total: usize,
}

/// Facts about one database.
#[derive(Debug)]
pub struct DBInfo {
    pub name: String,
    pub document_count: i64,
    pub embedded_count: i64,
    pub created_at: i64,
    pub last_updated: i64,
    pub size_bytes: i64,
}

/// An error as it is reported to a client.
#[derive(Debug)]
pub struct ErrorResponse {
    pub error: String,
    pub message: Option<String>,
}

/// A directed, typed edge between two documents.
#[derive(Debug)]
pub struct DocumentRelation {
    pub id: String,
    pub source_id: String,
    pub target_id: String,
    pub relation_type: String,
    pub metadata: String,
    pub created_at: i64,
}

impl DocumentRelation {
    /// A field-by-field copy.
    pub fn duplicate(&self) -> (copy: DocumentRelation)
        ensures
            copy == *self,
    {
        DocumentRelation {
            id: self.id.clone(),
            source_id: self.source_id.clone(),
            target_id: self.target_id.clone(),
            relation_type: self.relation_type.clone(),
            metadata: self.metadata.clone(),
            created_at: self.created_at,
        }
    }
}

/// A request to relate two documents.
#[derive(Debug)]
pub struct CreateRelationRequest {
    pub source_id: String,
    pub target_id: String,
    pub relation_type: String,
    pub metadata: String,
}

/// A request to traverse the relation graph. An empty `relation_types`
/// follows every type.
#[derive(Debug)]
pub struct GraphTraversalRequest {
    pub start_id: String,
    pub depth: usize,
    pub relation_types: Vec<String>,
}

/// The depth of a traversal that names none.
pub fn default_depth() -> (d: usize)
    ensures
        d == 3,
{
    3
}

} // verus!
