use kuiperdb::search::{has_distinct_ids, Candidate, FusedScore, HybridSearcher, SearchResult};

fn candidate(id: &str, score: f64) -> Candidate {
    Candidate {
        id: id.to_string(),
        content: format!("content of {}", id),
        metadata: "{}".to_string(),
        score: score.to_bits(),
        is_chunk: false,
        parent_id: None,
        chunk_index: None,
    }
}

fn value(s: &FusedScore) -> f64 {
    s.numerator as f64 / s.denominator as f64
}

fn ids(results: &Vec<SearchResult>) -> Vec<String> {
    results.iter().map(|r| r.id.clone()).collect()
}

#[test]
fn fusion_constant_is_sixty() {
    let searcher = HybridSearcher::new();
    let fused = searcher.reciprocal_rank_fusion(&vec![candidate("a", -1.0)], &Vec::new());
    assert_eq!(fused.len(), 1);
    assert_eq!(fused[0].score, FusedScore { numerator: 1, denominator: 61 });
    let again = HybridSearcher::default().reciprocal_rank_fusion(&vec![candidate("a", -1.0)], &Vec::new());
    assert_eq!(again[0].score, FusedScore { numerator: 1, denominator: 61 });
}

#[test]
fn fused_score_is_the_sum_of_reciprocal_ranks() {
    let searcher = HybridSearcher::new();
    let fts = vec![candidate("a", -3.0), candidate("b", -2.0), candidate("c", -1.0)];
    let vector = vec![candidate("c", 0.9), candidate("a", 0.8), candidate("d", 0.7)];
    let fused = searcher.reciprocal_rank_fusion(&fts, &vector);
    // a: 1/61 + 1/62, c: 1/63 + 1/61, b: 1/62, d: 1/63
    assert_eq!(ids(&fused), vec!["a", "c", "b", "d"]);
    assert_eq!(fused[0].score, FusedScore { numerator: 123, denominator: 61 * 62 });
    assert_eq!(fused[1].score, FusedScore { numerator: 124, denominator: 63 * 61 });
    assert_eq!(fused[2].score, FusedScore { numerator: 1, denominator: 62 });
    assert_eq!(fused[3].score, FusedScore { numerator: 1, denominator: 63 });
    assert!((value(&fused[0].score) - (1.0 / 61.0 + 1.0 / 62.0)).abs() < 1e-15);
    assert_eq!(fused[0].fts_rank, Some((-3.0f64).to_bits()));
    assert_eq!(fused[0].vector_similarity, Some(0.8f64.to_bits()));
    assert_eq!(fused[2].fts_rank, Some((-2.0f64).to_bits()));
    assert_eq!(fused[2].vector_similarity, None);
    assert_eq!(fused[3].fts_rank, None);
    assert_eq!(fused[3].vector_similarity, Some(0.7f64.to_bits()));
    assert_eq!(fused[0].content, "content of a");
}

#[test]
fn a_document_in_both_lists_beats_one_in_a_single_list_at_the_same_rank() {
    let searcher = HybridSearcher::new();
    for rank in 0..5usize {
        let mut fts: Vec<Candidate> = (0..rank).map(|i| candidate(&format!("f{}", i), 0.0)).collect();
        fts.push(candidate("both", 0.0));
        let mut vector: Vec<Candidate> = (0..rank).map(|i| candidate(&format!("v{}", i), 0.0)).collect();
        vector.push(candidate("single", 0.0));
        // `single` stands at `rank` in the vector list, `both` at `rank` and far behind
        for i in 0..40 {
            vector.push(candidate(&format!("w{}", i), 0.0));
        }
        vector.push(candidate("both", 0.0));
        let fused = searcher.reciprocal_rank_fusion(&fts, &vector);
        let both = fused.iter().position(|r| r.id == "both").unwrap();
        let single = fused.iter().position(|r| r.id == "single").unwrap();
        assert!(both < single);
        assert!(value(&fused[both].score) > value(&fused[single].score));
    }
}

#[test]
fn equal_scores_keep_the_lexical_list_first() {
    let searcher = HybridSearcher::new();
    let fts = vec![candidate("f0", 0.0), candidate("f1", 0.0)];
    let vector = vec![candidate("v0", 0.0), candidate("v1", 0.0)];
    let fused = searcher.reciprocal_rank_fusion(&fts, &vector);
    assert_eq!(ids(&fused), vec!["f0", "v0", "f1", "v1"]);
    for pair in fused.windows(2) {
        assert!(value(&pair[0].score) >= value(&pair[1].score));
    }
}

#[test]
fn fusion_of_empty_lists() {
    let searcher = HybridSearcher::new();
    assert!(searcher.reciprocal_rank_fusion(&Vec::new(), &Vec::new()).is_empty());
    let only_vector = searcher.reciprocal_rank_fusion(&Vec::new(), &vec![candidate("x", 0.5)]);
    assert_eq!(ids(&only_vector), vec!["x"]);
    assert_eq!(only_vector[0].fts_rank, None);
}

#[test]
fn hybrid_result_carries_rank_and_similarity() {
    // one document, found by both the lexical and the vector search
    let searcher = HybridSearcher::new();
    let content = "The quick brown fox jumps over the lazy dog";
    let mut lexical = candidate("doc", -0.000001);
    lexical.content = content.to_string();
    let mut nearest = candidate("doc", 1.0);
    nearest.content = content.to_string();
    let limit = 5;
    assert_eq!(searcher.candidate_limit(limit), 10);
    let fused = searcher.reciprocal_rank_fusion(&vec![lexical], &vec![nearest]);
    let best = searcher.top(fused, limit);
    assert_eq!(best.len(), 1);
    assert_eq!(best[0].id, "doc");
    assert_eq!(best[0].content, content);
    assert!(best[0].fts_rank.is_some());
    assert!(f64::from_bits(best[0].vector_similarity.unwrap()) >= 0.99);
    assert_eq!(best[0].score, FusedScore { numerator: 122, denominator: 61 * 61 });
}

#[test]
fn top_keeps_the_first_results() {
    let searcher = HybridSearcher::new();
    let fts: Vec<Candidate> = (0..7).map(|i| candidate(&format!("d{}", i), 0.0)).collect();
    let fused = searcher.reciprocal_rank_fusion(&fts, &Vec::new());
    let best = searcher.top(fused, 3);
    assert_eq!(ids(&best), vec!["d0", "d1", "d2"]);
    assert_eq!(ids(&searcher.search(&fts, &Vec::new(), 2)), vec!["d0", "d1"]);
    let all = searcher.top(best, 10);
    assert_eq!(all.len(), 3);
    let none = searcher.top(all, 0);
    assert!(none.is_empty());
    assert_eq!(searcher.candidate_limit(0), 0);
    assert_eq!(searcher.candidate_limit(usize::MAX), usize::MAX);
}

#[test]
fn chunk_fields_are_carried_through() {
    let searcher = HybridSearcher::new();
    let mut c = candidate("chunk", 0.0);
    c.is_chunk = true;
    c.parent_id = Some("parent".to_string());
    c.chunk_index = Some(3);
    c.metadata = "{\"k\":1}".to_string();
    let fused = searcher.reciprocal_rank_fusion(&Vec::new(), &vec![c]);
    assert!(fused[0].is_chunk);
    assert_eq!(fused[0].parent_id.as_deref(), Some("parent"));
    assert_eq!(fused[0].chunk_index, Some(3));
    assert_eq!(fused[0].metadata, "{\"k\":1}");
}

#[test]
fn lists_that_name_a_document_twice_are_not_fused() {
    let searcher = HybridSearcher::new();
    let twice = vec![candidate("a", 0.0), candidate("b", 0.0), candidate("a", 0.0)];
    let once = vec![candidate("a", 0.0), candidate("b", 0.0)];
    assert!(!has_distinct_ids(&twice));
    assert!(has_distinct_ids(&once));
    assert!(has_distinct_ids(&Vec::new()));
    assert!(searcher.try_search(&twice, &once, 5).is_none());
    assert!(searcher.try_search(&once, &twice, 5).is_none());
    let fused = searcher.try_search(&once, &once, 1).unwrap();
    assert_eq!(ids(&fused), vec!["a"]);
    assert_eq!(fused[0].score, FusedScore { numerator: 122, denominator: 61 * 61 });
}
