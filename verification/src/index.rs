//! The directory of the approximate vector index and the policy that decides
//! when the index is used.
//!
//! The index numbers its points: position `p` holds the vector of document
//! `ids()[p]`. Positions are handed out in order and never reused; the
//! nearest-neighbour structure itself is kept by the caller under these
//! positions.

use vstd::prelude::*;
use crate::error::{CoreError, ErrorKind};
use crate::text::{distinct, find_id, lemma_position, position, views};

verus! {

/// Parameters of the approximate index.
#[derive(Clone, Copy, Debug, PartialEq, Eq, Structural)]
pub struct IndexConfig {
    /// Connections per layer.
    pub hnsw_m: usize,
    /// Build quality.
    pub hnsw_ef_construction: usize,
    /// Query quality.
    pub hnsw_ef_search: usize,
}

impl Default for IndexConfig {
    fn default() -> (c: IndexConfig)
        ensures
            c == (IndexConfig { hnsw_m: 16, hnsw_ef_construction: 200, hnsw_ef_search: 100 }),
    {
        IndexConfig { hnsw_m: 16, hnsw_ef_construction: 200, hnsw_ef_search: 100 }
    }
}

/// When the approximate index serves vector searches.
#[derive(Clone, Copy, Debug, PartialEq, Eq, Structural)]
pub enum IndexMode {
    /// Always scan.
    Never,
    /// Use the index once the table holds `threshold` embedded documents.
    Auto,
    /// Use the index whenever the table holds an embedded document.
    Always,
}

/// Whether a vector search over a table with `embedded` embedded documents
/// uses the index.
pub open spec fn index_serves(mode: IndexMode, embedded: nat, threshold: nat) -> bool {
    match mode {
        IndexMode::Never => false,
        IndexMode::Always => embedded >= 1,
        IndexMode::Auto => embedded >= threshold,
    }
}

/// Decides `index_serves`.
pub fn use_index(mode: IndexMode, embedded: u64, threshold: usize) -> (r: bool)
    ensures
        r == index_serves(mode, embedded as nat, threshold as nat),
{
    match mode {
        IndexMode::Never => false,
        IndexMode::Always => embedded >= 1,
        IndexMode::Auto => threshold as u128 <= embedded as u128,
    }
}

/// The mode that a configuration names: `never`, `always`, and `auto` for
/// anything else.
pub open spec fn mode_named(name: Seq<char>) -> IndexMode {
    if name == "never"@ {
        IndexMode::Never
    } else if name == "always"@ {
        IndexMode::Always
    } else {
        IndexMode::Auto
    }
}

/// Reads a mode name.
pub fn parse_mode(name: &String) -> (mode: IndexMode)
    ensures
        mode == mode_named(name@),
{
    if *name == "never".to_owned() {
        IndexMode::Never
    } else if *name == "always".to_owned() {
        IndexMode::Always
    } else {
        IndexMode::Auto
    }
}

/// One point to put into the nearest-neighbour structure: the vector of
/// `documents[source]` under `position`.
#[derive(Clone, Copy, Debug, PartialEq, Eq, Structural)]
pub struct IndexPoint {
    pub position: usize,
    pub source: usize,
}

/// The directory of a vector index.
pub struct VectorIndex {
    id_map: Vec<String>,
    dimensions: usize,
    config: IndexConfig,
    built: bool,
}

/// The ids of the documents of `documents[..n]` that get a position when an
/// index of dimension `d` is built: those with a vector of length `d` whose
/// id did not come before, in order.
pub open spec fn admitted(documents: Seq<(String, Vec<u32>)>, d: nat, n: int) -> Seq<Seq<char>>
    decreases n,
{
    if n <= 0 {
        Seq::<Seq<char>>::empty()
    } else {
        let before = admitted(documents, d, n - 1);
        let doc = documents[n - 1];
        if doc.1@.len() == d && position(before, doc.0@) < 0 {
            before.push(doc.0@)
        } else {
            before
        }
    }
}

/// The points of `documents[..n]` for an index of dimension `d`.
pub open spec fn admitted_points(documents: Seq<(String, Vec<u32>)>, d: nat, n: int) -> Seq<IndexPoint>
    decreases n,
{
    if n <= 0 {
        Seq::<IndexPoint>::empty()
    } else {
        let before = admitted_points(documents, d, n - 1);
        let ids = admitted(documents, d, n - 1);
        let doc = documents[n - 1];
        if doc.1@.len() == d && position(ids, doc.0@) < 0 {
            before.push(IndexPoint { position: ids.len() as usize, source: (n - 1) as usize })
        } else {
            before
        }
    }
}

/// The hits whose position the directory knows, each as its place among the
/// hits and the document at its position.
pub open spec fn resolved(ids: Seq<Seq<char>>, hits: Seq<usize>, n: int) -> Seq<(int, Seq<char>)>
    decreases n,
{
    if n <= 0 {
        Seq::<(int, Seq<char>)>::empty()
    } else {
        let before = resolved(ids, hits, n - 1);
        if hits[n - 1] < ids.len() {
            before.push((n - 1, ids[hits[n - 1] as int]))
        } else {
            before
        }
    }
}

/// Places among hits with document ids, as mathematical values.
pub open spec fn hit_views(v: Seq<(usize, String)>) -> Seq<(int, Seq<char>)> {
    v.map_values(|h: (usize, String)| (h.0 as int, h.1@))
}

proof fn lemma_push_distinct(ids: Seq<Seq<char>>, id: Seq<char>)
    requires
        distinct(ids),
        position(ids, id) < 0,
    ensures
        distinct(ids.push(id)),
{
    lemma_position(ids, id);
}

impl VectorIndex {
    #[verifier::type_invariant]
    spec fn well_formed(self) -> bool {
        distinct(views(self.id_map@))
    }

    /// The document ids by position.
    pub closed spec fn ids(&self) -> Seq<Seq<char>> {
        views(self.id_map@)
    }

    /// The dimension of the indexed vectors.
    pub closed spec fn dimension(&self) -> nat {
        self.dimensions as nat
    }

    /// Whether the nearest-neighbour structure exists.
    pub closed spec fn built(&self) -> bool {
        self.built
    }

    /// The parameters.
    pub closed spec fn parameters(&self) -> IndexConfig {
        self.config
    }

    /// An empty index that is not built yet.
    pub fn new(dimensions: usize, config: IndexConfig) -> (index: VectorIndex)
        ensures
            index.ids().len() == 0,
            index.dimension() == dimensions,
            !index.built(),
            index.parameters() == config,
    {
        let id_map: Vec<String> = Vec::new();
        VectorIndex { id_map, dimensions, config, built: false }
    }

    /// Builds the directory from a snapshot and returns the points to put
    /// into a new nearest-neighbour structure. A vector of the wrong
    /// dimension is skipped, and so is an id that came before. An empty
    /// snapshot changes nothing.
    pub fn build(&mut self, documents: &Vec<(String, Vec<u32>)>) -> (points: Vec<IndexPoint>)
        ensures
            final(self).dimension() == old(self).dimension(),
            final(self).parameters() == old(self).parameters(),
            documents@.len() == 0 ==> final(self).ids() == old(self).ids() && final(self).built()
                == old(self).built() && points@.len() == 0,
            documents@.len() > 0 ==> final(self).built() && final(self).ids() == admitted(
                documents@,
                old(self).dimension(),
                documents@.len() as int,
            ) && points@ == admitted_points(
                documents@,
                old(self).dimension(),
                documents@.len() as int,
            ),
    {
        let mut points: Vec<IndexPoint> = Vec::new();
        if documents.len() == 0 {
            return points;
        }
        let mut ids: Vec<String> = Vec::new();
        let d: usize = self.dimensions;
        let mut n: usize = 0;
        proof {
            assert(views(ids@) =~= Seq::<Seq<char>>::empty());
        }
        while n < documents.len()
            invariant
                n <= documents.len(),
                views(ids@) == admitted(documents@, d as nat, n as int),
                points@ == admitted_points(documents@, d as nat, n as int),
                distinct(views(ids@)),
            decreases documents.len() - n,
        {
            let doc: &(String, Vec<u32>) = &documents[n];
            if doc.1.len() == d {
                match find_id(&ids, &doc.0) {
                    Some(_) => {},
                    None => {
                        let ghost before = views(ids@);
                        points.push(IndexPoint { position: ids.len(), source: n });
                        ids.push(doc.0.clone());
                        proof {
                            assert(views(ids@) =~= before.push(doc.0@));
                            lemma_push_distinct(before, doc.0@);
                        }
                    },
                }
            }
            n = n + 1;
        }
        self.id_map = ids;
        self.built = true;
        points
    }

    /// Gives `doc_id` the next position for a vector of `vector_len` values.
    /// A vector of the wrong dimension is refused; an id that has a position
    /// keeps it and gets none anew.
    pub fn add(&mut self, doc_id: String, vector_len: usize) -> (r: Result<Option<usize>, CoreError>)
        ensures
            final(self).dimension() == old(self).dimension(),
            final(self).parameters() == old(self).parameters(),
            match r {
                Err(e) => {
                    &&& vector_len != old(self).dimension()
                    &&& e.kind == ErrorKind::DimensionMismatch
                    &&& final(self).ids() == old(self).ids()
                    &&& final(self).built() == old(self).built()
                },
                Ok(None) => {
                    &&& vector_len == old(self).dimension()
                    &&& position(old(self).ids(), doc_id@) >= 0
                    &&& final(self).ids() == old(self).ids()
                    &&& final(self).built() == old(self).built()
                },
                Ok(Some(p)) => {
                    &&& vector_len == old(self).dimension()
                    &&& position(old(self).ids(), doc_id@) < 0
                    &&& p == old(self).ids().len()
                    &&& final(self).ids() == old(self).ids().push(doc_id@)
                    &&& final(self).built()
                },
            },
    {
        proof {
            use_type_invariant(&*self);
        }
        if vector_len != self.dimensions {
            return Err(
                CoreError::with_message(ErrorKind::DimensionMismatch, "vector dimension mismatch"),
            );
        }
        match find_id(&self.id_map, &doc_id) {
            Some(_) => Ok(None),
            None => {
                let p: usize = self.id_map.len();
                let ghost before = views(self.id_map@);
                proof {
                    lemma_push_distinct(before, doc_id@);
                }
                let mut ids: Vec<String> = Vec::new();
                core::mem::swap(&mut ids, &mut self.id_map);
                ids.push(doc_id);
                proof {
                    assert(views(ids@) =~= before.push(doc_id@));
                }
                self.id_map = ids;
                self.built = true;
                Ok(Some(p))
            },
        }
    }

    /// Checks a query of `query_len` values: a wrong dimension is refused;
    /// otherwise the answer says whether there is a structure to search. An
    /// index that is not built answers every query with no neighbours.
    pub fn check_query(&self, query_len: usize) -> (r: Result<bool, CoreError>)
        ensures
            match r {
                Err(e) => query_len != self.dimension() && e.kind == ErrorKind::DimensionMismatch,
                Ok(ask) => query_len == self.dimension() && ask == self.built(),
            },
    {
        if query_len != self.dimensions {
            Err(CoreError::with_message(ErrorKind::DimensionMismatch, "query dimension mismatch"))
        } else {
            Ok(self.built)
        }
    }

    /// Names the documents of the positions that a search returned. A
    /// position that the directory does not know is dropped.
    pub fn resolve(&self, hits: &Vec<usize>) -> (found: Vec<(usize, String)>)
        ensures
            hit_views(found@) == resolved(self.ids(), hits@, hits@.len() as int),
    {
        let mut found: Vec<(usize, String)> = Vec::new();
        let mut n: usize = 0;
        proof {
            assert(hit_views(found@) =~= Seq::<(int, Seq<char>)>::empty());
        }
        while n < hits.len()
            invariant
                n <= hits.len(),
                hit_views(found@) == resolved(views(self.id_map@), hits@, n as int),
            decreases hits.len() - n,
        {
            let p: usize = hits[n];
            if p < self.id_map.len() {
                let ghost before = hit_views(found@);
                found.push((n, self.id_map[p].clone()));
                proof {
                    assert(hit_views(found@) =~= before.push((n as int, self.id_map@[p as int]@)));
                }
            }
            n = n + 1;
        }
        found
    }

    /// Answers a query of `query_len` values for which the nearest-neighbour
    /// structure returned the positions `hits`, nearest first: the known
    /// documents among them. A query of the wrong dimension is refused; an
    /// index that is not built has no neighbours.
    pub fn search(&self, query_len: usize, hits: &Vec<usize>) -> (r: Result<
        Vec<(usize, String)>,
        CoreError,
    >)
        ensures
            match r {
                Err(e) => query_len != self.dimension() && e.kind == ErrorKind::DimensionMismatch,
                Ok(found) => query_len == self.dimension() && hit_views(found@) == if self.built() {
                    resolved(self.ids(), hits@, hits@.len() as int)
                } else {
                    Seq::<(int, Seq<char>)>::empty()
                },
            },
    {
        match self.check_query(query_len) {
            Err(e) => Err(e),
            Ok(true) => Ok(self.resolve(hits)),
            Ok(false) => {
                let none: Vec<(usize, String)> = Vec::new();
                proof {
                    assert(hit_views(none@) =~= Seq::<(int, Seq<char>)>::empty());
                }
                Ok(none)
            },
        }
    }

    /// The number of indexed documents.
    pub fn len(&self) -> (n: usize)
        ensures
            n == self.ids().len(),
    {
        self.id_map.len()
    }

    /// Whether no document is indexed.
    pub fn is_empty(&self) -> (r: bool)
        ensures
            r == (self.ids().len() == 0),
    {
        self.id_map.len() == 0
    }

    /// Whether the nearest-neighbour structure exists.
    pub fn is_built(&self) -> (r: bool)
        ensures
            r == self.built(),
    {
        self.built
    }

    /// The dimension of the indexed vectors.
    pub fn dimensions(&self) -> (d: usize)
        ensures
            d == self.dimension(),
    {
        self.dimensions
    }

    /// The parameters.
    pub fn config(&self) -> (c: IndexConfig)
        ensures
            c == self.parameters(),
    {
        self.config
    }

    /// Forgets every document and the structure.
    pub fn clear(&mut self)
        ensures
            final(self).ids().len() == 0,
            !final(self).built(),
            final(self).dimension() == old(self).dimension(),
            final(self).parameters() == old(self).parameters(),
    {
        self.id_map = Vec::new();
        self.built = false;
    }
}

} // verus!
