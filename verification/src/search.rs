//! Hybrid search: reciprocal-rank fusion of a lexical and a vector candidate
//! list.
//!
//! A fused score is a sum of reciprocals and is kept as an exact fraction.
//! The raw lexical rank and the raw similarity of a candidate are carried
//! through as the bit patterns of 64-bit IEEE-754 values.

use vstd::prelude::*;
use crate::text::clone_opt_string;

verus! {

/// One entry of a ranked candidate list, best first.
#[derive(Debug)]
pub struct Candidate {
    pub id: String,
    pub content: String,
    pub metadata: String,
    /// The list's own score of the candidate, as bits.
    pub score: u64,
    pub is_chunk: bool,
    pub parent_id: Option<String>,
    pub chunk_index: Option<i32>,
}

/// A fused score: the fraction `numerator / denominator`.
#[derive(Clone, Copy, Debug, PartialEq, Eq, Structural)]
pub struct FusedScore {
    pub numerator: u128,
    pub denominator: u128,
}

/// One fused search result.
#[derive(Debug)]
pub struct SearchResult {
    pub id: String,
    pub content: String,
    pub metadata: String,
    pub score: FusedScore,
    /// The raw lexical rank, where the lexical list holds the document.
    pub fts_rank: Option<u64>,
    /// The raw similarity, where the vector list holds the document.
    pub vector_similarity: Option<u64>,
    pub is_chunk: bool,
    pub parent_id: Option<String>,
    pub chunk_index: Option<i32>,
}

/// The most candidates a list may hold for the fused scores to be exact.
pub const MAX_CANDIDATES: usize = 0x7fff_0000;

/// The denominator of the score that a list gives to its entry at `rank`
/// (counted from zero): `1 / (k + rank + 1)`.
pub open spec fn term(k: int, rank: int) -> int {
    k + rank + 1
}

/// The score of a document at `rank` in one list only.
pub open spec fn single_score(k: int, rank: int) -> FusedScore {
    FusedScore { numerator: 1, denominator: term(k, rank) as u128 }
}

/// The score of a document at `rank` in one list and at `other` in the
/// other: the sum of the two reciprocals.
pub open spec fn double_score(k: int, rank: int, other: int) -> FusedScore {
    FusedScore {
        numerator: (term(k, rank) + term(k, other)) as u128,
        denominator: (term(k, rank) * term(k, other)) as u128,
    }
}

/// Whether the fraction `a` is smaller than the fraction `b`.
pub open spec fn score_lt(a: FusedScore, b: FusedScore) -> bool {
    a.numerator * b.denominator < b.numerator * a.denominator
}

/// The first position of `id` among the candidates' ids, or -1.
pub open spec fn find_id(list: Seq<Candidate>, id: Seq<char>) -> int
    decreases list.len(),
{
    if list.len() == 0 {
        -1
    } else {
        let before = find_id(list.drop_last(), id);
        if before >= 0 {
            before
        } else if list.last().id@ == id {
            list.len() - 1
        } else {
            -1
        }
    }
}

/// No id occurs twice in the list.
pub open spec fn distinct_ids(list: Seq<Candidate>) -> bool {
    forall|i: int, j: int|
        0 <= i < j < list.len() ==> (#[trigger] list[i]).id@ != (#[trigger] list[j]).id@
}

/// Whether two candidate lists can be fused: neither is too long, and
/// neither names a document twice.
pub open spec fn can_fuse(fts: Seq<Candidate>, vector: Seq<Candidate>) -> bool {
    &&& fts.len() <= MAX_CANDIDATES
    &&& vector.len() <= MAX_CANDIDATES
    &&& distinct_ids(fts)
    &&& distinct_ids(vector)
}

/// Decides `distinct_ids`.
pub fn has_distinct_ids(list: &Vec<Candidate>) -> (r: bool)
    ensures
        r == distinct_ids(list@),
{
    let mut j: usize = 0;
    while j < list.len()
        invariant
            j <= list.len(),
            forall|a: int, b: int|
                0 <= a < b < j ==> (#[trigger] list@[a]).id@ != (#[trigger] list@[b]).id@,
        decreases list.len() - j,
    {
        let mut a: usize = 0;
        while a < j
            invariant
                a <= j < list.len(),
                forall|x: int| 0 <= x < a ==> (#[trigger] list@[x]).id@ != list@[j as int].id@,
            decreases j - a,
        {
            if list[a].id == list[j].id {
                assert(list@[a as int].id@ == list@[j as int].id@);
                return false;
            }
            a = a + 1;
        }
        j = j + 1;
    }
    true
}

/// The fused entry of the lexical candidate at `i`: its own fields, the
/// score of its rank, and, where the vector list holds the same id, that
/// list's score and raw similarity as well.
pub open spec fn fused_from_fts(fts: Seq<Candidate>, vector: Seq<Candidate>, k: int, i: int) -> SearchResult {
    let c = fts[i];
    let j = find_id(vector, c.id@);
    SearchResult {
        id: c.id,
        content: c.content,
        metadata: c.metadata,
        score: if j >= 0 {
            double_score(k, i, j)
        } else {
            single_score(k, i)
        },
        fts_rank: Some(c.score),
        vector_similarity: if j >= 0 {
            Some(vector[j].score)
        } else {
            None
        },
        is_chunk: c.is_chunk,
        parent_id: c.parent_id,
        chunk_index: c.chunk_index,
    }
}

/// The fused entry of a vector candidate that the lexical list does not hold.
pub open spec fn fused_from_vector(vector: Seq<Candidate>, k: int, j: int) -> SearchResult {
    let c = vector[j];
    SearchResult {
        id: c.id,
        content: c.content,
        metadata: c.metadata,
        score: single_score(k, j),
        fts_rank: None,
        vector_similarity: Some(c.score),
        is_chunk: c.is_chunk,
        parent_id: c.parent_id,
        chunk_index: c.chunk_index,
    }
}

/// The fused entries of the first `n` vector candidates that the lexical
/// list does not hold, in order.
pub open spec fn vector_only(fts: Seq<Candidate>, vector: Seq<Candidate>, k: int, n: int) -> Seq<
    SearchResult,
>
    decreases n,
{
    if n <= 0 {
        Seq::<SearchResult>::empty()
    } else {
        let before = vector_only(fts, vector, k, n - 1);
        if find_id(fts, vector[n - 1].id@) >= 0 {
            before
        } else {
            before.push(fused_from_vector(vector, k, n - 1))
        }
    }
}

/// Every document of either list once, before ranking: the lexical
/// candidates in order, then the vector candidates that are new.
pub open spec fn fused_entries(fts: Seq<Candidate>, vector: Seq<Candidate>, k: int) -> Seq<
    SearchResult,
> {
    Seq::new(fts.len(), |i: int| fused_from_fts(fts, vector, k, i)) + vector_only(
        fts,
        vector,
        k,
        vector.len() as int,
    )
}

/// Where `x` goes in a list ranked by falling score: before the first entry
/// with a smaller score, so behind every entry with the same score.
pub open spec fn rank_position(ranked: Seq<SearchResult>, x: SearchResult) -> int
    decreases ranked.len(),
{
    if ranked.len() == 0 {
        0
    } else if score_lt(ranked[0].score, x.score) {
        0
    } else {
        1 + rank_position(ranked.drop_first(), x)
    }
}

/// The entries ranked by falling score; entries with the same score keep
/// their order.
pub open spec fn ranked(entries: Seq<SearchResult>) -> Seq<SearchResult>
    decreases entries.len(),
{
    if entries.len() == 0 {
        Seq::<SearchResult>::empty()
    } else {
        let before = ranked(entries.drop_last());
        before.insert(rank_position(before, entries.last()), entries.last())
    }
}

/// The first `limit` results, or all where there are fewer.
pub open spec fn best_of(results: Seq<SearchResult>, limit: int) -> Seq<SearchResult> {
    results.take(if limit <= results.len() {
        limit
    } else {
        results.len() as int
    })
}

/// The result of reciprocal-rank fusion.
pub open spec fn fused_ranking(fts: Seq<Candidate>, vector: Seq<Candidate>, k: int) -> Seq<
    SearchResult,
> {
    ranked(fused_entries(fts, vector, k))
}

proof fn lemma_rank_position_bounds(ranked: Seq<SearchResult>, x: SearchResult)
    ensures
        0 <= rank_position(ranked, x) <= ranked.len(),
        forall|i: int|
            0 <= i < rank_position(ranked, x) ==> !score_lt((#[trigger] ranked[i]).score, x.score),
        rank_position(ranked, x) < ranked.len() ==> score_lt(
            ranked[rank_position(ranked, x)].score,
            x.score,
        ),
    decreases ranked.len(),
{
    if ranked.len() > 0 && !score_lt(ranked[0].score, x.score) {
        let rest = ranked.drop_first();
        lemma_rank_position_bounds(rest, x);
        assert forall|i: int| 0 <= i < rank_position(ranked, x) implies !score_lt(
            (#[trigger] ranked[i]).score,
            x.score,
        ) by {
            if i > 0 {
                assert(ranked[i] == rest[i - 1]);
            }
        }
        if rank_position(ranked, x) < ranked.len() {
            assert(ranked[rank_position(ranked, x)] == rest[rank_position(rest, x)]);
        }
    }
}

/// The position before which no entry is smaller than `x` and at which one
/// is (or the list ends) is the rank position.
proof fn lemma_rank_position_is(ranked: Seq<SearchResult>, x: SearchResult, p: int)
    requires
        0 <= p <= ranked.len(),
        forall|i: int| 0 <= i < p ==> !score_lt((#[trigger] ranked[i]).score, x.score),
        p < ranked.len() ==> score_lt(ranked[p].score, x.score),
    ensures
        rank_position(ranked, x) == p,
    decreases p,
{
    if p > 0 {
        let rest = ranked.drop_first();
        assert(!score_lt(ranked[0].score, x.score));
        assert forall|i: int| 0 <= i < p - 1 implies !score_lt(
            (#[trigger] rest[i]).score,
            x.score,
        ) by {
            assert(rest[i] == ranked[i + 1]);
        }
        if p - 1 < rest.len() {
            assert(rest[p - 1] == ranked[p]);
        }
        lemma_rank_position_is(rest, x, p - 1);
    }
}

/// Every fused score is a positive fraction whose parts stay small.
pub open spec fn score_in_range(s: FusedScore) -> bool {
    1 <= s.numerator <= 0x2_0000_0000 && 1 <= s.denominator <= 0x1_0000_0000_0000_0000
}

/// All scores of the entries have a positive denominator.
pub open spec fn positive_scores(entries: Seq<SearchResult>) -> bool {
    forall|i: int| 0 <= i < entries.len() ==> (#[trigger] entries[i]).score.denominator > 0
}

/// No entry of the list has a smaller score than an entry behind it.
pub open spec fn falling(entries: Seq<SearchResult>) -> bool {
    forall|i: int, j: int|
        0 <= i < j < entries.len() ==> !score_lt(
            (#[trigger] entries[i]).score,
            (#[trigger] entries[j]).score,
        )
}

/// Ranking keeps every entry, as often as it occurs, and orders the entries
/// by falling score.
pub proof fn lemma_ranked_is_sorted(entries: Seq<SearchResult>)
    requires
        positive_scores(entries),
    ensures
        ranked(entries).len() == entries.len(),
        ranked(entries).to_multiset() == entries.to_multiset(),
        positive_scores(ranked(entries)),
        falling(ranked(entries)),
    decreases entries.len(),
{
    if entries.len() == 0 {
        assert(entries =~= Seq::<SearchResult>::empty());
    } else {
        let init = entries.drop_last();
        let x = entries.last();
        assert(positive_scores(init)) by {
            assert forall|i: int| 0 <= i < init.len() implies (#[trigger] init[i]).score.denominator
                > 0 by {
                assert(init[i] == entries[i]);
            }
        }
        lemma_ranked_is_sorted(init);
        let before = ranked(init);
        let p = rank_position(before, x);
        lemma_rank_position_bounds(before, x);
        let after = before.insert(p, x);
        assert(after == ranked(entries));
        vstd::seq_lib::to_multiset_insert(before, p, x);
        assert(entries =~= init.push(x));
        vstd::seq_lib::to_multiset_build(init, x);
        assert(after.to_multiset() =~= before.to_multiset().insert(x));
        assert(entries.to_multiset() =~= init.to_multiset().insert(x));
        assert(positive_scores(after)) by {
            assert forall|i: int| 0 <= i < after.len() implies (#[trigger] after[i]).score.denominator
                > 0 by {
                if i < p {
                    assert(after[i] == before[i]);
                } else if i > p {
                    assert(after[i] == before[i - 1]);
                }
            }
        }
        assert forall|i: int, j: int| 0 <= i < j < after.len() implies !score_lt(
            (#[trigger] after[i]).score,
            (#[trigger] after[j]).score,
        ) by {
            if j < p {
                assert(after[i] == before[i] && after[j] == before[j]);
            } else if j == p {
                assert(after[i] == before[i]);
            } else if i == p {
                // x stands before an entry at or behind the first smaller one
                assert(after[j] == before[j - 1]);
                if j - 1 > p {
                    assert(!score_lt(before[p].score, before[j - 1].score));
                }
                let lo = before[j - 1].score;
                let mid = before[p].score;
                let hi = x.score;
                // hi > mid >= lo
                lemma_score_lt_chain(hi, mid, lo);
            } else if i > p {
                assert(after[i] == before[i - 1] && after[j] == before[j - 1]);
            } else {
                assert(after[i] == before[i] && after[j] == before[j - 1]);
                if i == j - 1 {
                } else {
                    assert(!score_lt(before[i].score, before[j - 1].score));
                }
            }
        }
    }
}

/// Where `mid` is smaller than `hi` and `lo` is not larger than `mid`, `hi`
/// is not smaller than `lo`.
proof fn lemma_score_lt_chain(hi: FusedScore, mid: FusedScore, lo: FusedScore)
    requires
        hi.denominator > 0,
        mid.denominator > 0,
        lo.denominator > 0,
        score_lt(mid, hi),
        !score_lt(mid, lo),
    ensures
        !score_lt(hi, lo),
{
    let hn = hi.numerator as int;
    let hd = hi.denominator as int;
    let mn = mid.numerator as int;
    let md = mid.denominator as int;
    let ln = lo.numerator as int;
    let ld = lo.denominator as int;
    assert(mn * hd < hn * md);
    assert(mn * ld >= ln * md);
    assert(hn * ld >= ln * hd) by (nonlinear_arith)
        requires
            mn * hd < hn * md,
            mn * ld >= ln * md,
            hd > 0,
            md > 0,
            ld > 0,
            hn >= 0,
            mn >= 0,
            ln >= 0,
    {
        assert(hn * md * ld >= mn * hd * ld);
        assert(mn * ld * hd >= ln * md * hd);
        assert(mn * hd * ld == mn * ld * hd);
        assert(hn * ld * md == hn * md * ld);
        assert(ln * hd * md == ln * md * hd);
        assert(hn * ld * md >= ln * hd * md);
    }
}

/// Dominance: a document that both lists rank scores more than a document
/// that only one list ranks at the same rank.
pub proof fn lemma_rrf_dominance(k: int, rank: int, other: int)
    requires
        0 <= k,
        0 <= rank,
        0 <= other,
        term(k, rank) <= u32::MAX,
        term(k, other) <= u32::MAX,
    ensures
        score_lt(single_score(k, rank), double_score(k, rank, other)),
{
    let a = term(k, rank);
    let b = term(k, other);
    assert(a * b <= 0xffff_ffff * 0xffff_ffff) by (nonlinear_arith)
        requires
            0 <= a <= 0xffff_ffff,
            0 <= b <= 0xffff_ffff,
    ;
    assert(1 * (a * b) < (a + b) * a) by (nonlinear_arith)
        requires
            a >= 1,
            b >= 1,
    ;
    assert(a * b >= 1) by (nonlinear_arith)
        requires
            a >= 1,
            b >= 1,
    ;
}

/// Hybrid search over a lexical and a vector candidate list.
pub struct HybridSearcher {
    k: usize,
}

impl HybridSearcher {
    #[verifier::type_invariant]
    spec fn well_formed(self) -> bool {
        self.k == 60
    }

    /// The fusion constant.
    pub closed spec fn constant(&self) -> int {
        self.k as int
    }

    /// A searcher with the fusion constant 60.
    pub fn new() -> (s: HybridSearcher)
        ensures
            s.constant() == 60,
    {
        HybridSearcher { k: 60 }
    }

    /// How many candidates each list is asked for when `limit` results are
    /// wanted: twice as many, as far as that can be counted.
    pub fn candidate_limit(&self, limit: usize) -> (n: usize)
        ensures
            n == if 2 * limit <= usize::MAX {
                2 * limit
            } else {
                usize::MAX as int
            },
    {
        if limit > usize::MAX / 2 {
            usize::MAX
        } else {
            limit * 2
        }
    }

    fn find(list: &Vec<Candidate>, id: &String) -> (r: Option<usize>)
        ensures
            match r {
                Some(j) => j == find_id(list@, id@) && j < list@.len(),
                None => find_id(list@, id@) == -1,
            },
    {
        let mut j: usize = 0;
        while j < list.len()
            invariant
                j <= list.len(),
                find_id(list@.take(j as int), id@) == -1,
            decreases list.len() - j,
        {
            proof {
                assert(list@.take(j as int + 1).drop_last() =~= list@.take(j as int));
            }
            if list[j].id == *id {
                proof {
                    Self::lemma_find_prefix(list@, id@, j as int + 1);
                }
                return Some(j);
            }
            j = j + 1;
        }
        proof {
            assert(list@.take(j as int) =~= list@);
        }
        None
    }

    /// A position found in a prefix is the position in the whole list.
    proof fn lemma_find_prefix(list: Seq<Candidate>, id: Seq<char>, n: int)
        requires
            0 <= n <= list.len(),
            find_id(list.take(n), id) >= 0,
        ensures
            find_id(list, id) == find_id(list.take(n), id),
        decreases list.len(),
    {
        if n < list.len() {
            assert(list.drop_last().take(n) =~= list.take(n));
            Self::lemma_find_prefix(list.drop_last(), id, n);
        } else {
            assert(list.take(n) =~= list);
        }
    }

    /// Fuses the two ranked lists: every document of either list once, with
    /// the sum of the reciprocal-rank scores of the lists that hold it,
    /// ordered by falling score; documents with the same score stay in the
    /// order lexical list first, then vector list.
    pub fn reciprocal_rank_fusion(&self, fts_results: &Vec<Candidate>, vector_results: &Vec<Candidate>) -> (results:
        Vec<SearchResult>)
        requires
            fts_results@.len() <= MAX_CANDIDATES,
            vector_results@.len() <= MAX_CANDIDATES,
            distinct_ids(fts_results@),
            distinct_ids(vector_results@),
        ensures
            results@ == fused_ranking(fts_results@, vector_results@, self.constant()),
    {
        proof {
            use_type_invariant(self);
        }
        let ghost fts = fts_results@;
        let ghost vector = vector_results@;
        let ghost k = self.k as int;
        let mut entries: Vec<SearchResult> = Vec::new();
        let mut i: usize = 0;
        while i < fts_results.len()
            invariant
                i <= fts_results.len(),
                fts == fts_results@,
                vector == vector_results@,
                k == self.k,
                k <= 0x1_0000,
                fts.len() <= MAX_CANDIDATES,
                vector.len() <= MAX_CANDIDATES,
                entries@.len() == i,
                forall|n: int| 0 <= n < i ==> entries@[n] == fused_from_fts(fts, vector, k, n),
                forall|n: int| 0 <= n < i ==> score_in_range((#[trigger] entries@[n]).score),
            decreases fts_results.len() - i,
        {
            let c: &Candidate = &fts_results[i];
            let a: u128 = self.k as u128 + i as u128 + 1;
            let found = Self::find(vector_results, &c.id);
            let (score, similarity): (FusedScore, Option<u64>) = match found {
                Some(j) => {
                    let b: u128 = self.k as u128 + j as u128 + 1;
                    assert(a * b <= 0x1_0000_0000_0000_0000) by (nonlinear_arith)
                        requires
                            0 <= a <= 0x1_0000_0000,
                            0 <= b <= 0x1_0000_0000,
                    ;
                    assert(a * b >= 1) by (nonlinear_arith)
                        requires
                            a >= 1,
                            b >= 1,
                    ;
                    (FusedScore { numerator: a + b, denominator: a * b }, Some(vector_results[j].score))
                },
                None => (FusedScore { numerator: 1, denominator: a }, None),
            };
            entries.push(
                SearchResult {
                    id: c.id.clone(),
                    content: c.content.clone(),
                    metadata: c.metadata.clone(),
                    score,
                    fts_rank: Some(c.score),
                    vector_similarity: similarity,
                    is_chunk: c.is_chunk,
                    parent_id: clone_opt_string(&c.parent_id),
                    chunk_index: c.chunk_index,
                },
            );
            i = i + 1;
        }
        let ghost head = entries@;
        assert(head =~= Seq::new(fts.len(), |n: int| fused_from_fts(fts, vector, k, n)));
        let mut j: usize = 0;
        while j < vector_results.len()
            invariant
                j <= vector_results.len(),
                fts == fts_results@,
                vector == vector_results@,
                k == self.k,
                k <= 0x1_0000,
                vector.len() <= MAX_CANDIDATES,
                entries@ == head + vector_only(fts, vector, k, j as int),
                forall|n: int|
                    0 <= n < entries@.len() ==> score_in_range((#[trigger] entries@[n]).score),
            decreases vector_results.len() - j,
        {
            let c: &Candidate = &vector_results[j];
            match Self::find(fts_results, &c.id) {
                Some(_) => {},
                None => {
                    let b: u128 = self.k as u128 + j as u128 + 1;
                    entries.push(
                        SearchResult {
                            id: c.id.clone(),
                            content: c.content.clone(),
                            metadata: c.metadata.clone(),
                            score: FusedScore { numerator: 1, denominator: b },
                            fts_rank: None,
                            vector_similarity: Some(c.score),
                            is_chunk: c.is_chunk,
                            parent_id: clone_opt_string(&c.parent_id),
                            chunk_index: c.chunk_index,
                        },
                    );
                    proof {
                        assert(entries@ =~= head + vector_only(fts, vector, k, j as int + 1));
                    }
                },
            }
            j = j + 1;
        }
        assert(entries@ == fused_entries(fts, vector, k));
        Self::rank(entries)
    }

    /// Orders entries by falling score, keeping the order of equal scores.
    fn rank(entries: Vec<SearchResult>) -> (results: Vec<SearchResult>)
        requires
            forall|n: int| 0 <= n < entries@.len() ==> score_in_range((#[trigger] entries@[n]).score),
        ensures
            results@ == ranked(entries@),
    {
        let ghost all = entries@;
        let mut rest = entries;
        let mut results: Vec<SearchResult> = Vec::new();
        let ghost mut done: int = 0;
        proof {
            assert(all.take(0) =~= Seq::<SearchResult>::empty());
            assert(all.skip(0) =~= all);
        }
        while rest.len() > 0
            invariant
                0 <= done <= all.len(),
                rest@ == all.skip(done),
                results@ == ranked(all.take(done)),
                forall|n: int| 0 <= n < all.len() ==> score_in_range((#[trigger] all[n]).score),
                forall|n: int|
                    0 <= n < results@.len() ==> score_in_range((#[trigger] results@[n]).score),
            decreases rest.len(),
        {
            let x = rest.remove(0);
            proof {
                assert(x == all[done]);
                assert(all.skip(done).remove(0) =~= all.skip(done + 1));
                assert(all.take(done + 1).drop_last() =~= all.take(done));
                assert(all.take(done + 1).last() == x);
            }
            let mut p: usize = 0;
            while p < results.len() && !Self::less(&results[p].score, &x.score)
                invariant
                    p <= results.len(),
                    score_in_range(x.score),
                    forall|n: int|
                        0 <= n < results@.len() ==> score_in_range((#[trigger] results@[n]).score),
                    forall|n: int| 0 <= n < p ==> !score_lt((#[trigger] results@[n]).score, x.score),
                decreases results.len() - p,
            {
                p = p + 1;
            }
            proof {
                lemma_rank_position_is(results@, x, p as int);
            }
            let ghost before = results@;
            results.insert(p, x);
            proof {
                done = done + 1;
                assert forall|n: int| 0 <= n < results@.len() implies score_in_range(
                    (#[trigger] results@[n]).score,
                ) by {
                    if n < p {
                        assert(results@[n] == before[n]);
                    } else if n > p {
                        assert(results@[n] == before[n - 1]);
                    }
                }
            }
        }
        proof {
            assert(all.take(done) =~= all);
        }
        results
    }

    /// Decides `score_lt` on scores in range.
    fn less(a: &FusedScore, b: &FusedScore) -> (r: bool)
        requires
            score_in_range(*a),
            score_in_range(*b),
        ensures
            r == score_lt(*a, *b),
    {
        assert(a.numerator * b.denominator <= 0x2_0000_0000 * 0x1_0000_0000_0000_0000)
            by (nonlinear_arith)
            requires
                0 <= a.numerator <= 0x2_0000_0000,
                0 <= b.denominator <= 0x1_0000_0000_0000_0000,
        ;
        assert(b.numerator * a.denominator <= 0x2_0000_0000 * 0x1_0000_0000_0000_0000)
            by (nonlinear_arith)
            requires
                0 <= b.numerator <= 0x2_0000_0000,
                0 <= a.denominator <= 0x1_0000_0000_0000_0000,
        ;
        a.numerator * b.denominator < b.numerator * a.denominator
    }

    /// The best `limit` results of the fusion of a lexical and a vector
    /// candidate list.
    pub fn search(&self, fts_results: &Vec<Candidate>, vector_results: &Vec<Candidate>, limit: usize) -> (results:
        Vec<SearchResult>)
        requires
            fts_results@.len() <= MAX_CANDIDATES,
            vector_results@.len() <= MAX_CANDIDATES,
            distinct_ids(fts_results@),
            distinct_ids(vector_results@),
        ensures
            results@ == best_of(
                fused_ranking(fts_results@, vector_results@, self.constant()),
                limit as int,
            ),
    {
        let fused = self.reciprocal_rank_fusion(fts_results, vector_results);
        self.top(fused, limit)
    }

    /// As `search`, for any two lists: `None` where a list is too long or
    /// names a document twice, and the fusion cannot be had.
    pub fn try_search(&self, fts_results: &Vec<Candidate>, vector_results: &Vec<Candidate>, limit: usize) -> (results:
        Option<Vec<SearchResult>>)
        ensures
            match results {
                Some(best) => {
                    &&& can_fuse(fts_results@, vector_results@)
                    &&& best@ == best_of(
                        fused_ranking(fts_results@, vector_results@, self.constant()),
                        limit as int,
                    )
                },
                None => !can_fuse(fts_results@, vector_results@),
            },
    {
        if fts_results.len() <= MAX_CANDIDATES && vector_results.len() <= MAX_CANDIDATES
            && has_distinct_ids(fts_results) && has_distinct_ids(vector_results) {
            Some(self.search(fts_results, vector_results, limit))
        } else {
            None
        }
    }

    /// Keeps the first `limit` results.
    pub fn top(&self, results: Vec<SearchResult>, limit: usize) -> (best: Vec<SearchResult>)
        ensures
            best@ == best_of(results@, limit as int),
    {
        let mut best = results;
        if limit < best.len() {
            best.truncate(limit);
        } else {
            proof {
                assert(best@.take(best@.len() as int) =~= best@);
            }
        }
        assert(best@ =~= results@.take(if limit <= results@.len() {
            limit as int
        } else {
            results@.len() as int
        }));
        best
    }
}

impl Default for HybridSearcher {
    fn default() -> (s: HybridSearcher)
        ensures
            s.constant() == 60,
    {
        HybridSearcher::new()
    }
}


proof fn lemma_find_id_bounds(list: Seq<Candidate>, id: Seq<char>)
    ensures
        -1 <= find_id(list, id) < list.len(),
    decreases list.len(),
{
    if list.len() > 0 {
        lemma_find_id_bounds(list.drop_last(), id);
    }
}

proof fn lemma_vector_only_positive(fts: Seq<Candidate>, vector: Seq<Candidate>, k: int, n: int)
    requires
        0 <= k <= 0x1_0000,
        n <= vector.len() <= MAX_CANDIDATES,
    ensures
        positive_scores(vector_only(fts, vector, k, n)),
    decreases n,
{
    if n > 0 {
        lemma_vector_only_positive(fts, vector, k, n - 1);
        let before = vector_only(fts, vector, k, n - 1);
        let after = vector_only(fts, vector, k, n);
        assert forall|i: int| 0 <= i < after.len() implies (#[trigger] after[i]).score.denominator
            > 0 by {
            if i < before.len() {
                assert(after[i] == before[i]);
            }
        }
    }
}

/// The result of the fusion holds every fused entry, as often as it occurs,
/// and no entry has a smaller score than one behind it.
pub proof fn lemma_fusion_is_ranked(fts: Seq<Candidate>, vector: Seq<Candidate>, k: int)
    requires
        0 <= k <= 0x1_0000,
        fts.len() <= MAX_CANDIDATES,
        vector.len() <= MAX_CANDIDATES,
    ensures
        falling(fused_ranking(fts, vector, k)),
        fused_ranking(fts, vector, k).len() == fused_entries(fts, vector, k).len(),
        fused_ranking(fts, vector, k).to_multiset() == fused_entries(fts, vector, k).to_multiset(),
{
    let entries = fused_entries(fts, vector, k);
    let head = Seq::new(fts.len(), |i: int| fused_from_fts(fts, vector, k, i));
    let tail = vector_only(fts, vector, k, vector.len() as int);
    lemma_vector_only_positive(fts, vector, k, vector.len() as int);
    assert forall|i: int| 0 <= i < entries.len() implies (#[trigger] entries[i]).score.denominator
        > 0 by {
        if i < head.len() {
            let j = find_id(vector, fts[i].id@);
            lemma_find_id_bounds(vector, fts[i].id@);
            assert(entries[i] == fused_from_fts(fts, vector, k, i));
            if j >= 0 {
                let a = term(k, i);
                let b = term(k, j);
                assert(1 <= a * b <= 0x1_0000_0000 * 0x1_0000_0000) by (nonlinear_arith)
                    requires
                        1 <= a <= 0x1_0000_0000,
                        1 <= b <= 0x1_0000_0000,
                ;
            }
        } else {
            assert(entries[i] == tail[i - head.len()]);
        }
    }
    lemma_ranked_is_sorted(entries);
}

/// In the fusion a document of both lists scores more than a document that
/// only one list holds at the same rank: the entry of the lexical candidate
/// at `rank` that the vector list holds too has the sum of both reciprocal
/// ranks as its score, which is more than the score of an entry that stands
/// at `rank` in one list alone.
pub proof fn lemma_both_lists_dominate(fts: Seq<Candidate>, vector: Seq<Candidate>, k: int, rank: int)
    requires
        0 <= k <= 0x1_0000,
        fts.len() <= MAX_CANDIDATES,
        vector.len() <= MAX_CANDIDATES,
        0 <= rank < fts.len(),
        find_id(vector, fts[rank].id@) >= 0,
    ensures
        ({
            let both = fused_entries(fts, vector, k)[rank];
            let other = find_id(vector, fts[rank].id@);
            &&& both == fused_from_fts(fts, vector, k, rank)
            &&& both.score == double_score(k, rank, other)
            &&& score_lt(single_score(k, rank), both.score)
            &&& fused_ranking(fts, vector, k).to_multiset().count(both) >= 1
        }),
{
    let entries = fused_entries(fts, vector, k);
    let both = entries[rank];
    let other = find_id(vector, fts[rank].id@);
    lemma_find_id_bounds(vector, fts[rank].id@);
    lemma_rrf_dominance(k, rank, other);
    lemma_fusion_is_ranked(fts, vector, k);
    entries.to_multiset_ensures();
    assert(entries.contains(both));
}

/// A single document that both lists hold is returned once, with the raw
/// score of each list and, for the fusion constant 60, the fused score
/// `1/61 + 1/61`.
pub proof fn lemma_one_document_in_both_lists(lexical: Candidate, nearest: Candidate)
    requires
        lexical.id@ == nearest.id@,
    ensures
        ({
            let results = fused_ranking(seq![lexical], seq![nearest], 60);
            &&& results.len() == 1
            &&& results[0].id == lexical.id
            &&& results[0].fts_rank == Some(lexical.score)
            &&& results[0].vector_similarity == Some(nearest.score)
            &&& results[0].score == (FusedScore { numerator: 122, denominator: 3721 })
        }),
{
    let fts = seq![lexical];
    let vector = seq![nearest];
    let none = Seq::<Candidate>::empty();
    assert(fts.drop_last() =~= none);
    assert(vector.drop_last() =~= none);
    assert(find_id(none, lexical.id@) == -1);
    assert(find_id(vector, lexical.id@) == 0);
    assert(find_id(fts, nearest.id@) == 0);
    assert(vector_only(fts, vector, 60, 0) =~= Seq::<SearchResult>::empty());
    assert(vector_only(fts, vector, 60, 1) =~= Seq::<SearchResult>::empty());
    let entry = fused_from_fts(fts, vector, 60, 0);
    let entries = fused_entries(fts, vector, 60);
    assert(entries =~= seq![entry]);
    assert(entries.drop_last() =~= Seq::<SearchResult>::empty());
    assert(ranked(entries.drop_last()) =~= Seq::<SearchResult>::empty());
    assert(ranked(entries) =~= seq![entry]);
    assert(term(60, 0) == 61);
    assert(entry.score == double_score(60, 0, 0));
    let t = term(60, 0);
    assert(t * t == 3721) by (nonlinear_arith)
        requires
            t == 61,
    ;
    assert(entry.score.numerator == 122);
    assert(entry.score.denominator == 3721);
    let results = fused_ranking(fts, vector, 60);
    assert(results[0] == entry);
    assert(entry.id == lexical.id);
}

} // verus!
