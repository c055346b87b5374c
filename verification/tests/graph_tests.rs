use kuiperdb::graph::DocumentGraph;
use kuiperdb::models::DocumentRelation;

fn create_test_relation(source: &str, target: &str, rel_type: &str) -> DocumentRelation {
    DocumentRelation {
        id: uuid::Uuid::new_v4().to_string(),
        source_id: source.to_string(),
        target_id: target.to_string(),
        relation_type: rel_type.to_string(),
        metadata: "{}".to_string(),
        created_at: chrono::Utc::now().timestamp_millis(),
    }
}

#[test]
fn test_traverse_bfs_simple() {
    let graph = DocumentGraph::new();

    // Create simple graph: A -> B -> C
    let relations = vec![
        create_test_relation("A", "B", "references"),
        create_test_relation("B", "C", "references"),
    ];

    let result = graph.traverse_bfs("A", &relations, 10, None).unwrap();

    assert_eq!(result.document_ids.len(), 3);
    assert!(result.document_ids.contains(&"A".to_string()));
    assert!(result.document_ids.contains(&"B".to_string()));
    assert!(result.document_ids.contains(&"C".to_string()));
    assert_eq!(result.depth_of("A"), Some(0));
    assert_eq!(result.depth_of("B"), Some(1));
    assert_eq!(result.depth_of("C"), Some(2));
}

#[test]
fn test_traverse_bfs_with_depth_limit() {
    let graph = DocumentGraph::new();

    let relations = vec![
        create_test_relation("A", "B", "references"),
        create_test_relation("B", "C", "references"),
    ];

    let result = graph.traverse_bfs("A", &relations, 1, None).unwrap();

    // Should only reach depth 1 (A and B)
    assert_eq!(result.document_ids.len(), 2);
    assert!(result.document_ids.contains(&"A".to_string()));
    assert!(result.document_ids.contains(&"B".to_string()));
    assert!(!result.document_ids.contains(&"C".to_string()));
}

#[test]
fn test_traverse_bfs_with_filter() {
    let graph = DocumentGraph::new();

    let relations = vec![
        create_test_relation("A", "B", "references"),
        create_test_relation("A", "C", "contradicts"),
    ];

    let filter = vec!["references".to_string()];
    let result = graph
        .traverse_bfs("A", &relations, 10, Some(&filter))
        .unwrap();

    assert_eq!(result.document_ids.len(), 2);
    assert!(result.document_ids.contains(&"A".to_string()));
    assert!(result.document_ids.contains(&"B".to_string()));
    assert!(!result.document_ids.contains(&"C".to_string()));
}

#[test]
fn test_shortest_path_simple() {
    let graph = DocumentGraph::new();

    let relations = vec![
        create_test_relation("A", "B", "references"),
        create_test_relation("B", "C", "references"),
    ];

    let result = graph.shortest_path("A", "C", &relations).unwrap();

    assert!(result.is_some());
    let path = result.unwrap();
    assert_eq!(path.path, vec!["A", "B", "C"]);
    assert_eq!(path.total_weight, 2);
}

#[test]
fn test_shortest_path_no_path() {
    let graph = DocumentGraph::new();

    let relations = vec![create_test_relation("A", "B", "references")];

    let result = graph.shortest_path("A", "C", &relations).unwrap();
    assert!(result.is_none());
}

#[test]
fn test_has_cycles_true() {
    let graph = DocumentGraph::new();

    // Create cycle: A -> B -> C -> A
    let relations = vec![
        create_test_relation("A", "B", "references"),
        create_test_relation("B", "C", "references"),
        create_test_relation("C", "A", "references"),
    ];

    assert!(graph.has_cycles(&relations));
}

#[test]
fn test_has_cycles_false() {
    let graph = DocumentGraph::new();

    // No cycle: A -> B -> C
    let relations = vec![
        create_test_relation("A", "B", "references"),
        create_test_relation("B", "C", "references"),
    ];

    assert!(!graph.has_cycles(&relations));
}

#[test]
fn test_graph_statistics() {
    let graph = DocumentGraph::new();

    let relations = vec![
        create_test_relation("A", "B", "references"),
        create_test_relation("A", "C", "references"),
        create_test_relation("B", "C", "references"),
    ];

    let stats = graph.statistics(&relations);

    assert_eq!(stats.node_count, 3);
    assert_eq!(stats.edge_count, 3);
    assert!(!stats.has_cycles);

    // A has out-degree 2, in-degree 0
    assert_eq!(stats.out_degree("A"), Some(2));
    assert_eq!(stats.in_degree("A"), Some(0));

    // C has in-degree 2, out-degree 0
    assert_eq!(stats.in_degree("C"), Some(2));
    assert_eq!(stats.out_degree("C"), Some(0));
}

#[test]
fn traversal_with_two_kinds_of_edges() {
    let graph = DocumentGraph::new();
    let relations = vec![
        create_test_relation("A", "B", "refs"),
        create_test_relation("B", "C", "refs"),
        create_test_relation("A", "C", "contradicts"),
    ];
    let result = graph.traverse_bfs("A", &relations, 2, None).unwrap();
    let mut ids = result.document_ids.clone();
    ids.sort();
    assert_eq!(ids, vec!["A", "B", "C"]);
    assert_eq!(result.depth_of("A"), Some(0));
    assert_eq!(result.depth_of("B"), Some(1));
    assert_eq!(result.depth_of("C"), Some(1));
    assert_eq!(result.relations.len(), 3);

    let direct = graph.shortest_path("A", "C", &relations).unwrap().unwrap();
    assert_eq!(direct.path, vec!["A", "C"]);
    assert_eq!(direct.total_weight, 1);
    assert_eq!(direct.relations.len(), 1);
    assert_eq!(direct.relations[0].relation_type, "contradicts");

    let refs: Vec<DocumentRelation> = relations
        .iter()
        .filter(|r| r.relation_type == "refs")
        .map(|r| r.duplicate())
        .collect();
    let around = graph.shortest_path("A", "C", &refs).unwrap().unwrap();
    assert_eq!(around.path, vec!["A", "B", "C"]);
    assert_eq!(around.total_weight, 2);
    assert_eq!(around.relations.len(), 2);
    assert_eq!(around.relations[0].id, relations[0].id);
    assert_eq!(around.relations[1].id, relations[1].id);
}

#[test]
fn traversal_discovers_the_newest_edge_first() {
    let graph = DocumentGraph::new();
    let relations = vec![
        create_test_relation("A", "B", "r"),
        create_test_relation("A", "C", "r"),
        create_test_relation("A", "D", "r"),
        create_test_relation("B", "E", "r"),
        create_test_relation("D", "F", "r"),
    ];
    let result = graph.traverse_bfs("A", &relations, 5, None).unwrap();
    assert_eq!(result.document_ids, vec!["A", "D", "C", "B", "F", "E"]);
    let depths: Vec<usize> = result.depth_map.iter().map(|p| p.1).collect();
    assert_eq!(depths, vec![0, 1, 1, 1, 2, 2]);
    let ids: Vec<String> = result.depth_map.iter().map(|p| p.0.clone()).collect();
    assert_eq!(ids, result.document_ids);
}

#[test]
fn traversal_of_an_unknown_or_lonely_start() {
    let graph = DocumentGraph::new();
    let relations = vec![create_test_relation("A", "B", "kept"), create_test_relation("C", "D", "dropped")];
    let none = graph.traverse_bfs("Z", &relations, 3, None).unwrap();
    assert!(none.document_ids.is_empty() && none.relations.is_empty() && none.depth_map.is_empty());
    assert_eq!(none.depth_of("Z"), None);
    // the filter removes every edge of C, so C is visited alone
    let filter = vec!["kept".to_string()];
    let filtered = graph.traverse_bfs("C", &relations, 3, Some(&filter)).unwrap();
    assert_eq!(filtered.document_ids, vec!["C"]);
    assert_eq!(filtered.depth_map, vec![("C".to_string(), 0)]);
    assert_eq!(filtered.depth_of("C"), Some(0));
    assert!(filtered.relations.is_empty());
    // so is the target of a relation that is not followed
    let target = graph.traverse_bfs("D", &relations, 0, Some(&filter)).unwrap();
    assert_eq!(target.document_ids, vec!["D"]);
    // a filter does not bring in a document that no relation names
    let unknown = graph.traverse_bfs("Z", &relations, 3, Some(&filter)).unwrap();
    assert!(unknown.document_ids.is_empty() && unknown.depth_map.is_empty());
    // depth 0 visits the start only
    let start = graph.traverse_bfs("A", &relations, 0, None).unwrap();
    assert_eq!(start.document_ids, vec!["A"]);
    assert!(start.relations.is_empty());
    // a node without outgoing edges
    let leaf = graph.traverse_bfs("B", &relations, 3, None).unwrap();
    assert_eq!(leaf.document_ids, vec!["B"]);
    let empty = graph.traverse_bfs("A", &Vec::new(), 3, None).unwrap();
    assert!(empty.document_ids.is_empty());
}

#[test]
fn traversal_depths_grow_by_at_most_one_along_relations() {
    let graph = DocumentGraph::new();
    let relations = vec![
        create_test_relation("A", "B", "r"),
        create_test_relation("B", "C", "r"),
        create_test_relation("C", "A", "r"),
        create_test_relation("A", "C", "r"),
        create_test_relation("C", "D", "r"),
        create_test_relation("D", "D", "r"),
        create_test_relation("E", "A", "r"),
    ];
    for depth in 0..4 {
        let result = graph.traverse_bfs("A", &relations, depth, None).unwrap();
        for r in &result.relations {
            let from = result.depth_of(&r.source_id).unwrap();
            let to = result.depth_of(&r.target_id).unwrap();
            assert!(to <= from + 1);
        }
        assert!(!result.document_ids.contains(&"E".to_string()));
        let mut unique = result.document_ids.clone();
        unique.sort();
        unique.dedup();
        assert_eq!(unique.len(), result.document_ids.len());
    }
    let all = graph.traverse_bfs("A", &relations, 3, None).unwrap();
    assert_eq!(all.document_ids, vec!["A", "C", "B", "D"]);
    assert_eq!(all.relations.len(), 6);
}

#[test]
fn shortest_path_is_as_short_as_the_distance() {
    let graph = DocumentGraph::new();
    let relations = vec![
        create_test_relation("A", "B", "r"),
        create_test_relation("B", "C", "r"),
        create_test_relation("C", "D", "r"),
        create_test_relation("A", "X", "r"),
        create_test_relation("X", "D", "r"),
        create_test_relation("D", "A", "r"),
    ];
    let found = graph.shortest_path("A", "D", &relations).unwrap().unwrap();
    assert_eq!(found.path, vec!["A", "X", "D"]);
    assert_eq!(found.total_weight, 2);
    assert_eq!(found.relations.len(), 2);
    let back = graph.shortest_path("D", "A", &relations).unwrap().unwrap();
    assert_eq!(back.path, vec!["D", "A"]);
    assert_eq!(back.total_weight, 1);
    let same = graph.shortest_path("A", "A", &relations).unwrap().unwrap();
    assert_eq!(same.path, vec!["A"]);
    assert_eq!(same.total_weight, 0);
    assert!(same.relations.is_empty());
    // edges are directed
    let one_way = vec![create_test_relation("A", "B", "r")];
    assert!(graph.shortest_path("B", "A", &one_way).unwrap().is_none());
    assert!(graph.shortest_path("Q", "Q", &one_way).unwrap().is_none());
    assert!(graph.shortest_path("A", "Q", &one_way).unwrap().is_none());
}

#[test]
fn shortest_path_takes_the_first_relation_of_a_step() {
    let graph = DocumentGraph::new();
    let relations = vec![
        create_test_relation("A", "B", "first"),
        create_test_relation("A", "B", "second"),
    ];
    let found = graph.shortest_path("A", "B", &relations).unwrap().unwrap();
    assert_eq!(found.relations.len(), 1);
    assert_eq!(found.relations[0].relation_type, "first");
}

#[test]
fn reconstruct_path_follows_the_costs_it_is_given() {
    let graph = DocumentGraph::new();
    let relations = vec![
        create_test_relation("A", "B", "r"),
        create_test_relation("B", "C", "r"),
        create_test_relation("A", "C", "r"),
    ];
    // nodes are numbered A, B, C
    let costs = vec![Some(0usize), Some(1), Some(1)];
    let direct = graph.reconstruct_path(&relations, 0, 2, &costs).unwrap();
    assert_eq!(direct.path, vec!["A", "C"]);
    assert_eq!(direct.total_weight, 1);
    // costs that no edge explains break the way back off
    let odd = vec![Some(0usize), Some(1), Some(5)];
    assert!(graph.reconstruct_path(&relations, 0, 2, &odd).is_none());
    let missing = vec![Some(0usize), Some(1), None];
    assert!(graph.reconstruct_path(&relations, 0, 2, &missing).is_none());
    let long = vec![Some(0usize), Some(1), Some(2)];
    let around = graph.reconstruct_path(&relations, 0, 2, &long).unwrap();
    assert_eq!(around.path, vec!["A", "B", "C"]);
    assert_eq!(around.total_weight, 2);
}

#[test]
fn a_loop_on_one_document_is_a_cycle() {
    let graph = DocumentGraph::new();
    assert!(graph.has_cycles(&vec![create_test_relation("A", "A", "r")]));
    assert!(!graph.has_cycles(&Vec::new()));
    let diamond = vec![
        create_test_relation("A", "B", "r"),
        create_test_relation("A", "C", "r"),
        create_test_relation("B", "D", "r"),
        create_test_relation("C", "D", "r"),
    ];
    assert!(!graph.has_cycles(&diamond));
    assert!(!graph.statistics(&diamond).has_cycles);
}

#[test]
fn statistics_count_parallel_edges_and_loops() {
    let graph = DocumentGraph::new();
    let relations = vec![
        create_test_relation("A", "B", "x"),
        create_test_relation("A", "B", "y"),
        create_test_relation("B", "B", "z"),
    ];
    let stats = graph.statistics(&relations);
    assert_eq!(stats.node_count, 2);
    assert_eq!(stats.edge_count, 3);
    assert!(stats.has_cycles);
    assert_eq!(stats.out_degree("A"), Some(2));
    assert_eq!(stats.in_degree("B"), Some(3));
    assert_eq!(stats.out_degree("B"), Some(1));
    assert_eq!(stats.in_degree("Q"), None);
    let ids: Vec<&str> = stats.in_degrees.iter().map(|p| p.0.as_str()).collect();
    assert_eq!(ids, vec!["A", "B"]);
    let empty = graph.statistics(&Vec::new());
    assert_eq!((empty.node_count, empty.edge_count, empty.has_cycles), (0, 0, false));
}

#[test]
fn shortest_path_goes_back_over_the_newest_relation() {
    let graph = DocumentGraph::new();
    let relations = vec![
        create_test_relation("A", "B", "r"),
        create_test_relation("A", "C", "r"),
        create_test_relation("B", "D", "r"),
        create_test_relation("C", "D", "r"),
    ];
    // B and C are both one step from A; the relation from C was added last
    let found = graph.shortest_path("A", "D", &relations).unwrap().unwrap();
    assert_eq!(found.path, vec!["A", "C", "D"]);
    assert_eq!(found.total_weight, 2);
    assert_eq!(found.relations[0].id, relations[1].id);
    assert_eq!(found.relations[1].id, relations[3].id);
}

#[test]
fn a_start_that_only_other_relations_name_is_visited_alone() {
    let graph = DocumentGraph::new();
    let relations = vec![create_test_relation("A", "C", "contradicts")];
    let filter = vec!["references".to_string()];
    let result = graph.traverse_bfs("A", &relations, 10, Some(&filter)).unwrap();
    assert_eq!(result.document_ids, vec!["A"]);
    assert_eq!(result.depth_map, vec![("A".to_string(), 0)]);
    assert!(result.relations.is_empty());
    let followed = graph.traverse_bfs("A", &relations, 10, None).unwrap();
    assert_eq!(followed.document_ids, vec!["A", "C"]);
}

#[test]
fn a_path_is_found_wherever_a_chain_leads() {
    let graph = DocumentGraph::new();
    // a ring with chords: every document reaches every other
    let names = ["A", "B", "C", "D", "E", "F"];
    let mut relations = Vec::new();
    for i in 0..names.len() {
        relations.push(create_test_relation(names[i], names[(i + 1) % names.len()], "next"));
    }
    relations.push(create_test_relation("A", "D", "chord"));
    relations.push(create_test_relation("E", "B", "chord"));
    for from in names {
        for to in names {
            let found = graph.shortest_path(from, to, &relations).unwrap().unwrap();
            assert_eq!(found.path.len(), found.total_weight + 1);
            assert_eq!(found.relations.len(), found.total_weight);
            assert_eq!(found.path[0], from);
            assert_eq!(found.path[found.path.len() - 1], to);
            for (step, r) in found.relations.iter().enumerate() {
                assert_eq!(r.source_id, found.path[step]);
                assert_eq!(r.target_id, found.path[step + 1]);
            }
        }
    }
    assert_eq!(graph.shortest_path("A", "E", &relations).unwrap().unwrap().total_weight, 2);
    assert_eq!(graph.shortest_path("F", "D", &relations).unwrap().unwrap().total_weight, 2);
    assert_eq!(graph.shortest_path("B", "A", &relations).unwrap().unwrap().total_weight, 5);
}
