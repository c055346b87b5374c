//! An embeddable document store core: the rules of storage, retrieval, chunking,
//! caching and graph queries, stated and proved over plain values.
//!
//! Vectors are sequences of 32-bit IEEE-754 bit patterns, timestamps are
//! milliseconds since the Unix epoch, and free-form metadata is JSON text.
//! Reading and writing files, talking to the embedding service and running
//! statements against the relational engine are the caller's work: the
//! library says what to ask and what to make of the answers.

pub mod ambient;
pub mod cache;
pub mod chunking;
pub mod codec;
pub mod config;
pub mod embedder;
pub mod error;
pub mod graph;
pub mod index;
pub mod ingest;
pub mod models;
pub mod rows;
pub mod search;
pub mod sql;
pub mod store;
pub mod text;
pub mod worker;

pub use cache::EmbeddingCache;
pub use config::Config;
pub use error::{CoreError, ErrorKind};
pub use graph::GraphStatistics;
pub use index::VectorIndex;
pub use models::{
    CreateRelationRequest, DBInfo, Document, DocumentRelation, ErrorResponse,
    GraphTraversalRequest, SearchRequest, SearchResponse, SearchType, StoreDocumentRequest,
};
pub use search::{HybridSearcher, SearchResult};
pub use store::DocumentStore;
pub use worker::BackgroundWorker;
