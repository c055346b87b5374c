//! Recognised configuration options and their defaults.

use vstd::prelude::*;
use vstd::string::StringExecFns;

verus! {

/// The configuration of an installation.
#[derive(Debug)]
pub struct Config {
    pub embedding_url: String,
    pub embedding_dimensions: usize,
    pub data_dir: String,
    pub port: String,
    pub insecure_skip_verify: bool,
    pub ca_cert_path: String,
    pub features: Features,
    pub cors: CorsConfig,
    pub vector_index: VectorIndexConfig,
    pub num_embedding_workers: usize,
    pub embedding_batch_size: usize,
    pub chunking: ChunkingConfig,
}

/// Which origins may call the service from a browser.
#[derive(Debug)]
pub struct CorsConfig {
    pub enabled: bool,
    pub allowed_origins: Vec<String>,
}

/// Feature switches; all are off unless named.
#[derive(Clone, Copy, Debug)]
pub struct Features {
    pub embedding: bool,
    pub embedding_job: bool,
    pub embedding_cache: bool,
    pub vector_index: bool,
    pub hybrid_search: bool,
    pub chunking: bool,
    pub document_relations: bool,
}

/// When and how the approximate index is used.
#[derive(Debug)]
pub struct VectorIndexConfig {
    /// `auto` (index from `threshold` embedded documents on), `always` or `never`.
    pub mode: String,
    pub threshold: usize,
    pub hnsw_m: usize,
    pub hnsw_ef_construction: usize,
    pub hnsw_ef_search: usize,
}

/// When and how documents are split into chunks.
#[derive(Debug)]
pub struct ChunkingConfig {
    pub enabled: bool,
    /// Documents with more tokens than this are chunked.
    pub token_threshold: usize,
    pub chunk_size: usize,
    pub chunk_overlap: usize,
    /// `fixed_tokens`, `markdown` or `custom`.
    pub strategy: String,
}

pub fn default_cors_enabled() -> (r: bool)
    ensures
        r,
{
    true
}

pub fn default_allowed_origins() -> (origins: Vec<String>)
    ensures
        origins@.len() == 3,
        origins@[0]@ == "http://localhost:5173"@,
        origins@[1]@ == "http://localhost:5174"@,
        origins@[2]@ == "http://localhost:5175"@,
{
    let mut origins: Vec<String> = Vec::new();
    origins.push("http://localhost:5173".to_owned());
    origins.push("http://localhost:5174".to_owned());
    origins.push("http://localhost:5175".to_owned());
    origins
}

impl Default for CorsConfig {
    fn default() -> (c: CorsConfig)
        ensures
            c.enabled,
            c.allowed_origins@.len() == 3,
    {
        CorsConfig { enabled: default_cors_enabled(), allowed_origins: default_allowed_origins() }
    }
}

pub fn default_num_workers() -> (n: usize)
    ensures
        n == 10,
{
    10
}

pub fn default_batch_size() -> (n: usize)
    ensures
        n == 1,
{
    1
}

pub fn default_index_mode() -> (mode: String)
    ensures
        mode@ == "auto"@,
{
    "auto".to_owned()
}

pub fn default_index_threshold() -> (n: usize)
    ensures
        n == 1000,
{
    1000
}

pub fn default_hnsw_m() -> (n: usize)
    ensures
        n == 16,
{
    16
}

pub fn default_hnsw_ef_construction() -> (n: usize)
    ensures
        n == 200,
{
    200
}

pub fn default_hnsw_ef_search() -> (n: usize)
    ensures
        n == 100,
{
    100
}

pub fn default_token_threshold() -> (n: usize)
    ensures
        n == 512,
{
    512
}

pub fn default_chunk_size() -> (n: usize)
    ensures
        n == 512,
{
    512
}

pub fn default_chunk_overlap() -> (n: usize)
    ensures
        n == 50,
{
    50
}

pub fn default_chunk_strategy() -> (strategy: String)
    ensures
        strategy@ == "fixed_tokens"@,
{
    "fixed_tokens".to_owned()
}

impl Default for ChunkingConfig {
    fn default() -> (c: ChunkingConfig)
        ensures
            !c.enabled,
            c.token_threshold == 512,
            c.chunk_size == 512,
            c.chunk_overlap == 50,
            c.strategy@ == "fixed_tokens"@,
    {
        ChunkingConfig {
            enabled: false,
            token_threshold: default_token_threshold(),
            chunk_size: default_chunk_size(),
            chunk_overlap: default_chunk_overlap(),
            strategy: default_chunk_strategy(),
        }
    }
}

impl Default for VectorIndexConfig {
    fn default() -> (c: VectorIndexConfig)
        ensures
            c.mode@ == "auto"@,
            c.threshold == 1000,
            c.hnsw_m == 16,
            c.hnsw_ef_construction == 200,
            c.hnsw_ef_search == 100,
    {
        VectorIndexConfig {
            mode: default_index_mode(),
            threshold: default_index_threshold(),
            hnsw_m: default_hnsw_m(),
            hnsw_ef_construction: default_hnsw_ef_construction(),
            hnsw_ef_search: default_hnsw_ef_search(),
        }
    }
}

impl Default for Features {
    fn default() -> (f: Features)
        ensures
            !f.embedding,
            !f.embedding_job,
            !f.embedding_cache,
            !f.vector_index,
            !f.hybrid_search,
            !f.chunking,
            !f.document_relations,
    {
        Features {
            embedding: false,
            embedding_job: false,
            embedding_cache: false,
            vector_index: false,
            hybrid_search: false,
            chunking: false,
            document_relations: false,
        }
    }
}

/// The path of the file that holds database `db_name` under `data_dir`.
pub open spec fn database_path_of(data_dir: Seq<char>, db_name: Seq<char>) -> Seq<char> {
    data_dir + "/"@ + db_name + ".db"@
}

impl Config {
    /// The path of the file that holds database `db_name`.
    pub fn database_path(&self, db_name: &str) -> (path: String)
        ensures
            path@ == database_path_of(self.data_dir@, db_name@),
    {
        let mut path = self.data_dir.clone();
        path.append("/");
        path.append(db_name);
        path.append(".db");
        path
    }
}

impl Default for Config {
    fn default() -> (c: Config)
        ensures
            c.embedding_url@ == "http://localhost:1234"@,
            c.embedding_dimensions == 2560,
            c.data_dir@ == "./data"@,
            c.port@ == "8080"@,
            !c.insecure_skip_verify,
            c.ca_cert_path@.len() == 0,
            !c.features.embedding && !c.features.chunking,
            c.cors.enabled,
            c.vector_index.mode@ == "auto"@,
            c.vector_index.threshold == 1000,
            c.num_embedding_workers == 10,
            c.embedding_batch_size == 1,
            !c.chunking.enabled,
            c.chunking.chunk_size == 512,
    {
        Config {
            embedding_url: "http://localhost:1234".to_owned(),
            embedding_dimensions: 2560,
            data_dir: "./data".to_owned(),
            port: "8080".to_owned(),
            insecure_skip_verify: false,
            ca_cert_path: String::new(),
            features: Features::default(),
            cors: CorsConfig::default(),
            vector_index: VectorIndexConfig::default(),
            num_embedding_workers: default_num_workers(),
            embedding_batch_size: default_batch_size(),
            chunking: ChunkingConfig::default(),
        }
    }
}

} // verus!
