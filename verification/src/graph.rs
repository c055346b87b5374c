//! Graph queries over a snapshot of relations: breadth-first traversal,
//! shortest paths, cycle detection and degree statistics.
//!
//! Every query builds a directed graph from the snapshot. A node stands for
//! each document id that occurs in a relation, numbered in order of first
//! appearance; an edge stands for each relation, in order.

use vstd::prelude::*;
use crate::error::CoreError;
use crate::models::DocumentRelation;
use crate::text::{distinct, find_id, lemma_position, lemma_position_grows, lemma_position_of_member, position, views};

verus! {

/// The adjacency-list graph of `petgraph`; what it holds is named by
/// `graph_labels` and `graph_edges`.
#[verifier::external_type_specification]
#[verifier::external_body]
#[verifier::reject_recursive_types(N)]
#[verifier::reject_recursive_types(E)]
#[verifier::reject_recursive_types(Ty)]
#[verifier::reject_recursive_types(Ix)]
pub struct ExGraph<N, E, Ty, Ix>(petgraph::graph::Graph<N, E, Ty, Ix>);

/// The marker of `petgraph` for graphs whose edges have a direction.
#[verifier::external_type_specification]
#[verifier::external_body]
pub struct ExDirected(petgraph::Directed);

/// The labels of a graph's nodes, by node number.
pub uninterp spec fn graph_labels(
    g: petgraph::graph::Graph<String, String, petgraph::Directed, u32>,
) -> Seq<Seq<char>>;

/// The ends of a graph's edges, as node numbers, in the order in which the
/// edges were added.
pub uninterp spec fn graph_edges(
    g: petgraph::graph::Graph<String, String, petgraph::Directed, u32>,
) -> Seq<(int, int)>;

/// The costs that `petgraph::algo::dijkstra` returns for a graph with
/// `nodes` nodes and the given edges, each of cost 1, from `start` with goal
/// `goal`: for each node its cost, where the returned map holds one.
pub uninterp spec fn dijkstra_costs(nodes: nat, edges: Seq<(int, int)>, start: int, goal: int) -> Seq<
    Option<usize>,
>;

/// Whether an edge leads from `a` to `b`.
pub open spec fn has_edge(edges: Seq<(int, int)>, a: int, b: int) -> bool {
    exists|k: int| 0 <= k < edges.len() && #[trigger] edges[k] == (a, b)
}

/// Whether `p` is a walk: at least one node, and an edge from each node to
/// the next.
pub open spec fn is_walk(edges: Seq<(int, int)>, p: Seq<int>) -> bool {
    &&& p.len() >= 1
    &&& forall|i: int| 0 <= i < p.len() - 1 ==> has_edge(edges, #[trigger] p[i], p[i + 1])
}

/// Whether `p` is a walk from `a` to `b`.
pub open spec fn walk_between(edges: Seq<(int, int)>, p: Seq<int>, a: int, b: int) -> bool {
    is_walk(edges, p) && p[0] == a && p.last() == b
}

/// Whether a walk leads from `a` to `b`.
pub open spec fn reachable(edges: Seq<(int, int)>, a: int, b: int) -> bool {
    exists|p: Seq<int>| walk_between(edges, p, a, b)
}

/// Whether `d` is the number of edges of a shortest walk from `a` to `b`.
pub open spec fn is_distance(edges: Seq<(int, int)>, a: int, b: int, d: int) -> bool {
    &&& exists|p: Seq<int>| walk_between(edges, p, a, b) && p.len() == d + 1
    &&& forall|p: Seq<int>| walk_between(edges, p, a, b) ==> p.len() >= d + 1
}

/// Whether the edges hold a cycle: a walk over at least one edge that ends
/// where it begins.
pub open spec fn has_cycle(edges: Seq<(int, int)>) -> bool {
    exists|p: Seq<int>| is_walk(edges, p) && p.len() >= 2 && p[0] == p.last()
}

/// The targets of the edges that leave `a`, the most recently added edge
/// first.
pub open spec fn successors_of(edges: Seq<(int, int)>, a: int) -> Seq<int>
    decreases edges.len(),
{
    if edges.len() == 0 {
        Seq::<int>::empty()
    } else if edges.last().0 == a {
        seq![edges.last().1] + successors_of(edges.drop_last(), a)
    } else {
        successors_of(edges.drop_last(), a)
    }
}

/// The sources of the edges that enter `a`, the most recently added edge
/// first.
pub open spec fn predecessors_of(edges: Seq<(int, int)>, a: int) -> Seq<int>
    decreases edges.len(),
{
    if edges.len() == 0 {
        Seq::<int>::empty()
    } else if edges.last().1 == a {
        seq![edges.last().0] + predecessors_of(edges.drop_last(), a)
    } else {
        predecessors_of(edges.drop_last(), a)
    }
}

/// Node numbers as integers.
pub open spec fn numbers(v: Seq<usize>) -> Seq<int> {
    v.map_values(|n: usize| n as int)
}

/// An empty graph, made with `Graph::new`.
#[verifier::external_body]
fn graph_new() -> (g: petgraph::graph::Graph<String, String, petgraph::Directed, u32>)
    ensures
        graph_labels(g).len() == 0,
        graph_edges(g).len() == 0,
{
    petgraph::graph::Graph::new()
}

/// Adds a node with `Graph::add_node`, which numbers nodes in the order in
/// which they are added and fails where the 32-bit numbers run out.
#[verifier::external_body]
fn graph_add_node(
    g: &mut petgraph::graph::Graph<String, String, petgraph::Directed, u32>,
    label: String,
) -> (node: usize)
    requires
        graph_labels(*old(g)).len() < u32::MAX,
    ensures
        node == graph_labels(*old(g)).len(),
        graph_labels(*final(g)) == graph_labels(*old(g)).push(label@),
        graph_edges(*final(g)) == graph_edges(*old(g)),
{
    g.add_node(label).index()
}

/// Adds an edge with `Graph::add_edge`, which fails where a node does not
/// exist or the 32-bit edge numbers run out. Parallel edges are kept.
#[verifier::external_body]
fn graph_add_edge(
    g: &mut petgraph::graph::Graph<String, String, petgraph::Directed, u32>,
    from: usize,
    to: usize,
    label: String,
)
    requires
        from < graph_labels(*old(g)).len(),
        to < graph_labels(*old(g)).len(),
        graph_edges(*old(g)).len() < u32::MAX,
    ensures
        graph_labels(*final(g)) == graph_labels(*old(g)),
        graph_edges(*final(g)) == graph_edges(*old(g)).push((from as int, to as int)),
{
    g.add_edge(petgraph::graph::NodeIndex::new(from), petgraph::graph::NodeIndex::new(to), label);
}

/// The nodes that `Graph::neighbors` lists for `node`: the targets of its
/// outgoing edges, in reverse order of their addition.
#[verifier::external_body]
fn graph_successors(
    g: &petgraph::graph::Graph<String, String, petgraph::Directed, u32>,
    node: usize,
) -> (next: Vec<usize>)
    requires
        node < graph_labels(*g).len(),
    ensures
        numbers(next@) == successors_of(graph_edges(*g), node as int),
{
    g.neighbors(petgraph::graph::NodeIndex::new(node)).map(|n| n.index()).collect()
}

/// The nodes that `Graph::neighbors_directed` lists for `node` and the
/// incoming direction: the sources of its incoming edges, in reverse order
/// of their addition.
#[verifier::external_body]
fn graph_predecessors(
    g: &petgraph::graph::Graph<String, String, petgraph::Directed, u32>,
    node: usize,
) -> (previous: Vec<usize>)
    requires
        node < graph_labels(*g).len(),
    ensures
        numbers(previous@) == predecessors_of(graph_edges(*g), node as int),
{
    g.neighbors_directed(petgraph::graph::NodeIndex::new(node), petgraph::Direction::Incoming).map(
        |n| n.index(),
    ).collect()
}

/// Whether node `p` has a cost one less than `cost`.
pub open spec fn is_nearer(costs: Seq<Option<usize>>, p: int, cost: int) -> bool {
    &&& 0 <= p < costs.len()
    &&& costs[p] matches Some(c) && c + 1 == cost
}

/// Every node with a cost other than 0 has a predecessor whose cost is one
/// less.
pub open spec fn costs_linked(edges: Seq<(int, int)>, costs: Seq<Option<usize>>) -> bool {
    forall|v: int|
        0 <= v < costs.len() && (#[trigger] costs[v]) is Some && costs[v]->0 > 0 ==> exists|p: int|
            #[trigger] has_edge(edges, p, v) && is_nearer(costs, p, costs[v]->0 as int)
}

/// The cost of one step along a relation.
pub fn step_cost() -> (cost: usize)
    ensures
        cost == 1,
{
    1
}

/// The costs of `petgraph::algo::dijkstra` from `start` with goal `goal`,
/// every edge costing 1, as one entry per node. The costs are the ones named
/// `dijkstra_costs`. As the function is documented, each cost it returns is
/// the length of a shortest path from `start`, and a goal without a cost
/// cannot be reached. As its source shows, a node gets its cost from a node
/// that was settled before and from which an edge leads to it: a cost other
/// than 0 is one more than the cost of such a node.
#[verifier::external_body]
fn graph_costs(
    g: &petgraph::graph::Graph<String, String, petgraph::Directed, u32>,
    start: usize,
    goal: usize,
) -> (costs: Vec<Option<usize>>)
    requires
        start < graph_labels(*g).len(),
        goal < graph_labels(*g).len(),
    ensures
        costs@ == dijkstra_costs(graph_labels(*g).len(), graph_edges(*g), start as int, goal as int),
        costs@.len() == graph_labels(*g).len(),
        forall|v: int|
            0 <= v < costs@.len() && (#[trigger] costs@[v]) is Some ==> is_distance(
                graph_edges(*g),
                start as int,
                v,
                costs@[v]->0 as int,
            ),
        costs@[goal as int] is None ==> !reachable(graph_edges(*g), start as int, goal as int),
        costs_linked(graph_edges(*g), costs@),
{
    let found = petgraph::algo::dijkstra(
        g,
        petgraph::graph::NodeIndex::new(start),
        Some(petgraph::graph::NodeIndex::new(goal)),
        |_| step_cost(),
    );
    (0..g.node_count()).map(|v| found.get(&petgraph::graph::NodeIndex::new(v)).copied()).collect()
}

/// The number of nodes, from `Graph::node_count`.
#[verifier::external_body]
fn graph_node_count(g: &petgraph::graph::Graph<String, String, petgraph::Directed, u32>) -> (n:
    usize)
    ensures
        n == graph_labels(*g).len(),
{
    g.node_count()
}

/// The number of edges, from `Graph::edge_count`.
#[verifier::external_body]
fn graph_edge_count(g: &petgraph::graph::Graph<String, String, petgraph::Directed, u32>) -> (n:
    usize)
    ensures
        n == graph_edges(*g).len(),
{
    g.edge_count()
}

/// Whether `petgraph::algo::is_cyclic_directed` finds a cycle; a loop from a
/// node to itself counts. The search is recursive and as deep as the longest
/// simple path.
#[verifier::external_body]
fn graph_is_cyclic(g: &petgraph::graph::Graph<String, String, petgraph::Directed, u32>) -> (cyclic:
    bool)
    ensures
        cyclic == has_cycle(graph_edges(*g)),
{
    petgraph::algo::is_cyclic_directed(g)
}

/// `ids` with `id` added behind, unless it is there already.
pub open spec fn with_id(ids: Seq<Seq<char>>, id: Seq<char>) -> Seq<Seq<char>> {
    if position(ids, id) >= 0 {
        ids
    } else {
        ids.push(id)
    }
}

/// The ids that occur in the relations, each once, in order of first
/// appearance; a relation's source comes before its target.
pub open spec fn node_ids(relations: Seq<DocumentRelation>) -> Seq<Seq<char>>
    decreases relations.len(),
{
    if relations.len() == 0 {
        Seq::<Seq<char>>::empty()
    } else {
        let r = relations.last();
        with_id(with_id(node_ids(relations.drop_last()), r.source_id@), r.target_id@)
    }
}

/// The relations as edges between positions in `ids`.
pub open spec fn edges_over(relations: Seq<DocumentRelation>, ids: Seq<Seq<char>>) -> Seq<
    (int, int),
> {
    Seq::new(
        relations.len(),
        |i: int| (position(ids, relations[i].source_id@), position(ids, relations[i].target_id@)),
    )
}

/// The relations as edges between node numbers.
pub open spec fn edge_list(relations: Seq<DocumentRelation>) -> Seq<(int, int)> {
    edges_over(relations, node_ids(relations))
}

proof fn lemma_with_id(ids: Seq<Seq<char>>, id: Seq<char>)
    requires
        distinct(ids),
    ensures
        distinct(with_id(ids, id)),
        position(with_id(ids, id), id) >= 0,
        exists|more: Seq<Seq<char>>| with_id(ids, id) == ids + more,
{
    lemma_position(ids, id);
    if position(ids, id) >= 0 {
        assert(with_id(ids, id) == ids + Seq::<Seq<char>>::empty()) by {
            assert(ids + Seq::<Seq<char>>::empty() =~= ids);
        }
    } else {
        let grown = ids.push(id);
        assert(grown.drop_last() =~= ids);
        assert(grown == ids + seq![id]) by {
            assert(grown =~= ids + seq![id]);
        }
    }
}

/// The node ids hold no id twice, and every end of a relation has a node.
pub proof fn lemma_node_ids(relations: Seq<DocumentRelation>)
    ensures
        distinct(node_ids(relations)),
        node_ids(relations).len() <= 2 * relations.len(),
        forall|i: int|
            0 <= i < relations.len() ==> 0 <= position(
                node_ids(relations),
                (#[trigger] relations[i]).source_id@,
            ) < node_ids(relations).len(),
        forall|i: int|
            0 <= i < relations.len() ==> 0 <= position(
                node_ids(relations),
                (#[trigger] relations[i]).target_id@,
            ) < node_ids(relations).len(),
    decreases relations.len(),
{
    if relations.len() > 0 {
        let init = relations.drop_last();
        let r = relations.last();
        lemma_node_ids(init);
        let a = node_ids(init);
        let b = with_id(a, r.source_id@);
        let c = with_id(b, r.target_id@);
        lemma_with_id(a, r.source_id@);
        lemma_with_id(b, r.target_id@);
        let more_b = choose|more: Seq<Seq<char>>| b == a + more;
        let more_c = choose|more: Seq<Seq<char>>| c == b + more;
        assert forall|i: int| 0 <= i < relations.len() implies 0 <= position(
            c,
            (#[trigger] relations[i]).source_id@,
        ) < c.len() by {
            if i < init.len() {
                assert(relations[i] == init[i]);
                lemma_position_grows(a, more_b, relations[i].source_id@);
                lemma_position_grows(b, more_c, relations[i].source_id@);
            } else {
                lemma_position_grows(b, more_c, r.source_id@);
            }
            lemma_position(c, relations[i].source_id@);
        }
        assert forall|i: int| 0 <= i < relations.len() implies 0 <= position(
            c,
            (#[trigger] relations[i]).target_id@,
        ) < c.len() by {
            if i < init.len() {
                assert(relations[i] == init[i]);
                lemma_position_grows(a, more_b, relations[i].target_id@);
                lemma_position_grows(b, more_c, relations[i].target_id@);
            }
            lemma_position(c, relations[i].target_id@);
        }
    }
}

/// Graph algorithms for document relations. The graph is built anew from the
/// relations handed to each query.
#[derive(Default)]
pub struct DocumentGraph {}

/// The most relations a query takes: twice as many nodes must have a 32-bit
/// number.
pub const MAX_RELATIONS: usize = 0x7fff_ffff;

/// The position of `id` in `ids`, which gets it added behind where it is new.
fn intern(ids: &mut Vec<String>, id: &String) -> (at: usize)
    ensures
        views(final(ids)@) == with_id(views(old(ids)@), id@),
        at == position(views(final(ids)@), id@),
        at < final(ids)@.len(),
{
    match find_id(ids, id) {
        Some(at) => at,
        None => {
            let ghost before = views(ids@);
            ids.push(id.clone());
            proof {
                assert(views(ids@) =~= before.push(id@));
                assert(views(ids@).drop_last() =~= before);
            }
            ids.len() - 1
        },
    }
}

impl DocumentGraph {
    pub fn new() -> (g: DocumentGraph) {
        DocumentGraph {  }
    }

    /// Builds the graph of the relations: its node ids, and the graph with a
    /// node for each id and an edge for each relation.
    fn build_graph(&self, relations: &Vec<DocumentRelation>) -> (built: (
        petgraph::graph::Graph<String, String, petgraph::Directed, u32>,
        Vec<String>,
    ))
        requires
            relations@.len() <= MAX_RELATIONS,
        ensures
            views(built.1@) == node_ids(relations@),
            graph_labels(built.0) == node_ids(relations@),
            graph_edges(built.0) == edge_list(relations@),
    {
        let mut ids: Vec<String> = Vec::new();
        let mut ends: Vec<(usize, usize)> = Vec::new();
        let mut i: usize = 0;
        proof {
            assert(relations@.take(0) =~= Seq::<DocumentRelation>::empty());
            assert(views(ids@) =~= Seq::<Seq<char>>::empty());
        }
        while i < relations.len()
            invariant
                i <= relations.len(),
                ends@.len() == i,
                views(ids@) == node_ids(relations@.take(i as int)),
                forall|k: int|
                    0 <= k < i ==> (#[trigger] ends@[k]).0 == position(
                        views(ids@),
                        relations@[k].source_id@,
                    ) && ends@[k].1 == position(views(ids@), relations@[k].target_id@),
            decreases relations.len() - i,
        {
            let ghost before = views(ids@);
            let from = intern(&mut ids, &relations[i].source_id);
            let ghost middle = views(ids@);
            let to = intern(&mut ids, &relations[i].target_id);
            proof {
                let r = relations@[i as int];
                let grown = views(ids@);
                assert(relations@.take(i as int + 1).drop_last() =~= relations@.take(i as int));
                assert(relations@.take(i as int + 1).last() == r);
                lemma_node_ids(relations@.take(i as int));
                lemma_with_id(before, r.source_id@);
                lemma_with_id(middle, r.target_id@);
                let more_b = choose|more: Seq<Seq<char>>| middle == before + more;
                let more_c = choose|more: Seq<Seq<char>>| grown == middle + more;
                lemma_position_grows(middle, more_c, r.source_id@);
                assert forall|k: int| 0 <= k < i implies (#[trigger] ends@[k]).0 == position(
                    grown,
                    relations@[k].source_id@,
                ) && ends@[k].1 == position(grown, relations@[k].target_id@) by {
                    lemma_position(before, relations@[k].source_id@);
                    lemma_position(before, relations@[k].target_id@);
                    assert(relations@.take(i as int)[k] == relations@[k]);
                    lemma_position_grows(before, more_b, relations@[k].source_id@);
                    lemma_position_grows(middle, more_c, relations@[k].source_id@);
                    lemma_position_grows(before, more_b, relations@[k].target_id@);
                    lemma_position_grows(middle, more_c, relations@[k].target_id@);
                }
            }
            ends.push((from, to));
            i = i + 1;
        }
        proof {
            assert(relations@.take(i as int) =~= relations@);
            lemma_node_ids(relations@);
        }
        let mut graph = graph_new();
        let mut n: usize = 0;
        while n < ids.len()
            invariant
                n <= ids.len(),
                ids@.len() <= 2 * relations@.len(),
                relations@.len() <= MAX_RELATIONS,
                graph_labels(graph) == views(ids@).take(n as int),
                graph_edges(graph).len() == 0,
            decreases ids.len() - n,
        {
            let label = ids[n].clone();
            graph_add_node(&mut graph, label);
            proof {
                assert(views(ids@).take(n as int + 1) =~= views(ids@).take(n as int).push(
                    ids@[n as int]@,
                ));
            }
            n = n + 1;
        }
        proof {
            assert(views(ids@).take(n as int) =~= views(ids@));
        }
        let mut e: usize = 0;
        while e < relations.len()
            invariant
                e <= relations.len(),
                relations@.len() <= MAX_RELATIONS,
                ends@.len() == relations@.len(),
                views(ids@) == node_ids(relations@),
                graph_labels(graph) == views(ids@),
                forall|k: int|
                    0 <= k < relations@.len() ==> (#[trigger] ends@[k]).0 == position(
                        views(ids@),
                        relations@[k].source_id@,
                    ) && ends@[k].1 == position(views(ids@), relations@[k].target_id@),
                graph_edges(graph) == edge_list(relations@).take(e as int),
            decreases relations.len() - e,
        {
            let (from, to) = ends[e];
            proof {
                lemma_position(views(ids@), relations@[e as int].source_id@);
                lemma_position(views(ids@), relations@[e as int].target_id@);
            }
            graph_add_edge(&mut graph, from, to, relations[e].relation_type.clone());
            proof {
                assert(edge_list(relations@).take(e as int + 1) =~= edge_list(relations@).take(
                    e as int,
                ).push((from as int, to as int)));
            }
            e = e + 1;
        }
        proof {
            assert(edge_list(relations@).take(e as int) =~= edge_list(relations@));
        }
        (graph, ids)
    }
}


/// Every end of every edge is a node number below `n`.
pub open spec fn edges_within(edges: Seq<(int, int)>, n: int) -> bool {
    forall|k: int|
        0 <= k < edges.len() ==> 0 <= (#[trigger] edges[k]).0 < n && 0 <= edges[k].1 < n
}

/// The edges of a set of relations lie within its nodes.
pub proof fn lemma_edge_list_within(relations: Seq<DocumentRelation>)
    ensures
        edges_within(edge_list(relations), node_ids(relations).len() as int),
        edge_list(relations).len() == relations.len(),
{
    lemma_node_ids(relations);
}

/// Each successor of `a` is the target of an edge from `a`, and each target
/// of an edge from `a` is a successor.
pub proof fn lemma_successors(edges: Seq<(int, int)>, a: int)
    ensures
        forall|i: int|
            0 <= i < successors_of(edges, a).len() ==> has_edge(
                edges,
                a,
                #[trigger] successors_of(edges, a)[i],
            ),
        forall|k: int|
            0 <= k < edges.len() && (#[trigger] edges[k]).0 == a ==> successors_of(
                edges,
                a,
            ).contains(edges[k].1),
    decreases edges.len(),
{
    if edges.len() > 0 {
        let init = edges.drop_last();
        lemma_successors(init, a);
        let s = successors_of(edges, a);
        let t = successors_of(init, a);
        assert forall|i: int| 0 <= i < s.len() implies has_edge(edges, a, #[trigger] s[i]) by {
            if edges.last().0 == a {
                if i == 0 {
                    assert(edges[edges.len() - 1] == (a, s[0]));
                } else {
                    assert(s[i] == t[i - 1]);
                    let k = choose|k: int| 0 <= k < init.len() && #[trigger] init[k] == (a, t[i - 1]);
                    assert(edges[k] == init[k]);
                }
            } else {
                let k = choose|k: int| 0 <= k < init.len() && #[trigger] init[k] == (a, t[i]);
                assert(edges[k] == init[k]);
            }
        }
        assert forall|k: int| 0 <= k < edges.len() && (#[trigger] edges[k]).0 == a implies s.contains(
            edges[k].1,
        ) by {
            if k == edges.len() - 1 {
                assert(s[0] == edges[k].1);
            } else {
                assert(init[k] == edges[k]);
                let i = choose|i: int| 0 <= i < t.len() && t[i] == edges[k].1;
                if edges.last().0 == a {
                    assert(s[i + 1] == t[i]);
                } else {
                    assert(s[i] == t[i]);
                }
            }
        }
    }
}

/// Each predecessor of `a` is the source of an edge into `a`, and each
/// source of an edge into `a` is a predecessor.
pub proof fn lemma_predecessors(edges: Seq<(int, int)>, a: int)
    ensures
        forall|i: int|
            0 <= i < predecessors_of(edges, a).len() ==> has_edge(
                edges,
                #[trigger] predecessors_of(edges, a)[i],
                a,
            ),
        forall|k: int|
            0 <= k < edges.len() && (#[trigger] edges[k]).1 == a ==> predecessors_of(
                edges,
                a,
            ).contains(edges[k].0),
    decreases edges.len(),
{
    if edges.len() > 0 {
        let init = edges.drop_last();
        lemma_predecessors(init, a);
        let s = predecessors_of(edges, a);
        let t = predecessors_of(init, a);
        assert forall|i: int| 0 <= i < s.len() implies has_edge(edges, #[trigger] s[i], a) by {
            if edges.last().1 == a {
                if i == 0 {
                    assert(edges[edges.len() - 1] == (s[0], a));
                } else {
                    assert(s[i] == t[i - 1]);
                    let k = choose|k: int| 0 <= k < init.len() && #[trigger] init[k] == (t[i - 1], a);
                    assert(edges[k] == init[k]);
                }
            } else {
                let k = choose|k: int| 0 <= k < init.len() && #[trigger] init[k] == (t[i], a);
                assert(edges[k] == init[k]);
            }
        }
        assert forall|k: int| 0 <= k < edges.len() && (#[trigger] edges[k]).1 == a implies s.contains(
            edges[k].0,
        ) by {
            if k == edges.len() - 1 {
                assert(s[0] == edges[k].0);
            } else {
                assert(init[k] == edges[k]);
                let i = choose|i: int| 0 <= i < t.len() && t[i] == edges[k].0;
                if edges.last().1 == a {
                    assert(s[i + 1] == t[i]);
                } else {
                    assert(s[i] == t[i]);
                }
            }
        }
    }
}

/// Whether `seen` holds node `v`.
pub open spec fn has_node(seen: Seq<(int, int)>, v: int) -> bool {
    exists|i: int| 0 <= i < seen.len() && (#[trigger] seen[i]).0 == v
}

/// `seen` with each candidate that it does not hold yet added behind at
/// `depth`, in the candidates' order.
pub open spec fn absorb(seen: Seq<(int, int)>, candidates: Seq<int>, depth: int) -> Seq<(int, int)>
    decreases candidates.len(),
{
    if candidates.len() == 0 {
        seen
    } else {
        let before = absorb(seen, candidates.drop_last(), depth);
        if has_node(before, candidates.last()) {
            before
        } else {
            before.push((candidates.last(), depth))
        }
    }
}

/// `seen` after the successors of its nodes at positions `from..to` were
/// absorbed at `depth`, node by node.
pub open spec fn expand(edges: Seq<(int, int)>, seen: Seq<(int, int)>, from: int, to: int, depth: int) -> Seq<
    (int, int),
>
    decreases to - from,
{
    if to <= from {
        seen
    } else {
        absorb(expand(edges, seen, from, to - 1, depth), successors_of(edges, seen[to - 1].0), depth)
    }
}

/// The nodes found level by level: `seen` holds the nodes found so far with
/// their depths, those from position `from` on being the nodes at `depth`.
pub open spec fn bfs_levels(
    edges: Seq<(int, int)>,
    seen: Seq<(int, int)>,
    from: int,
    depth: int,
    max_depth: int,
) -> Seq<(int, int)>
    decreases max_depth - depth,
{
    if depth >= max_depth || from >= seen.len() {
        seen
    } else {
        bfs_levels(
            edges,
            expand(edges, seen, from, seen.len() as int, depth + 1),
            seen.len() as int,
            depth + 1,
            max_depth,
        )
    }
}

/// The nodes within `max_depth` edges of `start`, each with its depth, in
/// the order in which a breadth-first search finds them.
pub open spec fn bfs(edges: Seq<(int, int)>, start: int, max_depth: int) -> Seq<(int, int)> {
    bfs_levels(edges, seq![(start, 0int)], 0, 0, max_depth)
}

/// Pairs of numbers as integers.
pub open spec fn pairs(v: Seq<(usize, usize)>) -> Seq<(int, int)> {
    v.map_values(|p: (usize, usize)| (p.0 as int, p.1 as int))
}

/// The relations whose type is one of `types`, in order.
pub open spec fn of_types(relations: Seq<DocumentRelation>, types: Seq<Seq<char>>) -> Seq<
    DocumentRelation,
>
    decreases relations.len(),
{
    if relations.len() == 0 {
        Seq::<DocumentRelation>::empty()
    } else {
        let before = of_types(relations.drop_last(), types);
        if position(types, relations.last().relation_type@) >= 0 {
            before.push(relations.last())
        } else {
            before
        }
    }
}

/// The relations that a traversal follows: all without a filter, else those
/// of the filter's types.
pub open spec fn followed(relations: Seq<DocumentRelation>, filter: Option<Seq<Seq<char>>>) -> Seq<
    DocumentRelation,
> {
    match filter {
        Some(types) => of_types(relations, types),
        None => relations,
    }
}

/// The relations whose source and target are both among `ids`, in order.
pub open spec fn among(relations: Seq<DocumentRelation>, ids: Seq<Seq<char>>) -> Seq<DocumentRelation>
    decreases relations.len(),
{
    if relations.len() == 0 {
        Seq::<DocumentRelation>::empty()
    } else {
        let before = among(relations.drop_last(), ids);
        let r = relations.last();
        if position(ids, r.source_id@) >= 0 && position(ids, r.target_id@) >= 0 {
            before.push(r)
        } else {
            before
        }
    }
}

proof fn lemma_of_types_len(relations: Seq<DocumentRelation>, types: Seq<Seq<char>>)
    ensures
        of_types(relations, types).len() <= relations.len(),
    decreases relations.len(),
{
    if relations.len() > 0 {
        lemma_of_types_len(relations.drop_last(), types);
    }
}

/// The result of a traversal.
#[derive(Debug)]
pub struct TraversalResult {
    /// The visited documents in the order of their discovery.
    pub document_ids: Vec<String>,
    /// The followed relations between visited documents.
    pub relations: Vec<DocumentRelation>,
    /// Each visited document with its depth, in the order of discovery.
    pub depth_map: Vec<(String, usize)>,
}

/// Ids with depths as mathematical values.
pub open spec fn depth_views(v: Seq<(String, usize)>) -> Seq<(Seq<char>, int)> {
    v.map_values(|p: (String, usize)| (p.0@, p.1 as int))
}

/// The depth that `map` gives for `id`: that of its first entry for it.
pub open spec fn depth_in(map: Seq<(Seq<char>, int)>, id: Seq<char>) -> Option<int>
    decreases map.len(),
{
    if map.len() == 0 {
        None
    } else if map[0].0 == id {
        Some(map[0].1)
    } else {
        depth_in(map.drop_first(), id)
    }
}

impl TraversalResult {
    /// The depth of document `id`, where the traversal visited it.
    pub fn depth_of(&self, id: &str) -> (depth: Option<usize>)
        ensures
            match depth {
                Some(d) => depth_in(depth_views(self.depth_map@), id@) == Some(d as int),
                None => depth_in(depth_views(self.depth_map@), id@) is None,
            },
    {
        let ghost map = depth_views(self.depth_map@);
        let key = id.to_owned();
        let mut i: usize = 0;
        proof {
            assert(map.skip(0) =~= map);
        }
        while i < self.depth_map.len()
            invariant
                i <= self.depth_map.len(),
                map == depth_views(self.depth_map@),
                key@ == id@,
                depth_in(map, id@) == depth_in(map.skip(i as int), id@),
            decreases self.depth_map.len() - i,
        {
            proof {
                assert(map.skip(i as int).drop_first() =~= map.skip(i as int + 1));
                assert(map.skip(i as int)[0] == map[i as int]);
                assert(map[i as int] == (self.depth_map@[i as int].0@, self.depth_map@[i as int].1 as int));
            }
            if self.depth_map[i].0 == key {
                return Some(self.depth_map[i].1);
            }
            i = i + 1;
        }
        None
    }
}

/// What a traversal from `start` returns, `kept` being the relations it
/// follows among `relations`. A start that a followed relation names is
/// searched from. A start that only other relations name is visited alone,
/// at depth 0. A start that no relation names yields nothing.
pub open spec fn traversal_of(
    relations: Seq<DocumentRelation>,
    kept: Seq<DocumentRelation>,
    start: Seq<char>,
    max_depth: int,
    t: TraversalResult,
) -> bool {
    let ids = node_ids(kept);
    let s = position(ids, start);
    if s >= 0 {
        let order = bfs(edge_list(kept), s, max_depth);
        &&& views(t.document_ids@) == Seq::new(order.len(), |i: int| ids[order[i].0])
        &&& depth_views(t.depth_map@) == Seq::new(order.len(), |i: int| (ids[order[i].0], order[i].1))
        &&& t.relations@ == among(kept, views(t.document_ids@))
    } else if position(node_ids(relations), start) >= 0 {
        &&& views(t.document_ids@) == seq![start]
        &&& depth_views(t.depth_map@) == seq![(start, 0int)]
        &&& t.relations@.len() == 0
    } else {
        t.document_ids@.len() == 0 && t.relations@.len() == 0 && t.depth_map@.len() == 0
    }
}

/// An id is among `ids` with `x` added exactly when it is among `ids` or is
/// `x`.
proof fn lemma_with_id_holds(ids: Seq<Seq<char>>, x: Seq<char>, id: Seq<char>)
    ensures
        (position(with_id(ids, x), id) >= 0) == (position(ids, id) >= 0 || x == id),
{
    lemma_position(ids, x);
    lemma_position(ids, id);
    if position(ids, x) < 0 {
        assert(ids.push(x).drop_last() =~= ids);
    }
}

/// Whether a relation names document `id` as its source or its target.
fn names(relations: &Vec<DocumentRelation>, id: &String) -> (r: bool)
    ensures
        r == (position(node_ids(relations@), id@) >= 0),
{
    let mut i: usize = 0;
    proof {
        assert(relations@.take(0) =~= Seq::<DocumentRelation>::empty());
    }
    while i < relations.len()
        invariant
            i <= relations.len(),
            position(node_ids(relations@.take(i as int)), id@) < 0,
        decreases relations.len() - i,
    {
        proof {
            let upto = relations@.take(i as int + 1);
            let r = relations@[i as int];
            assert(upto.drop_last() =~= relations@.take(i as int));
            assert(upto.last() == r);
            let a = node_ids(relations@.take(i as int));
            lemma_with_id_holds(a, r.source_id@, id@);
            lemma_with_id_holds(with_id(a, r.source_id@), r.target_id@, id@);
        }
        if relations[i].source_id == *id || relations[i].target_id == *id {
            proof {
                lemma_names_grows(relations@, id@, i as int + 1);
            }
            return true;
        }
        i = i + 1;
    }
    proof {
        assert(relations@.take(i as int) =~= relations@);
    }
    false
}

/// A document that the first `n` relations name is named by all of them.
proof fn lemma_names_grows(relations: Seq<DocumentRelation>, id: Seq<char>, n: int)
    requires
        0 <= n <= relations.len(),
        position(node_ids(relations.take(n)), id) >= 0,
    ensures
        position(node_ids(relations), id) >= 0,
    decreases relations.len(),
{
    if n < relations.len() {
        let init = relations.drop_last();
        assert(init.take(n) =~= relations.take(n));
        lemma_names_grows(init, id, n);
        let r = relations.last();
        lemma_with_id_holds(node_ids(init), r.source_id@, id);
        lemma_with_id_holds(with_id(node_ids(init), r.source_id@), r.target_id@, id);
    } else {
        assert(relations.take(n) =~= relations);
    }
}

/// Every node of `seen` has a number below `n` and a depth of at most `d`.
pub open spec fn seen_within(seen: Seq<(int, int)>, n: int, d: int) -> bool {
    forall|i: int| 0 <= i < seen.len() ==> 0 <= (#[trigger] seen[i]).0 < n && 0 <= seen[i].1 <= d
}

fn holds_node(seen: &Vec<(usize, usize)>, v: usize) -> (r: bool)
    ensures
        r == has_node(pairs(seen@), v as int),
{
    let mut i: usize = 0;
    while i < seen.len()
        invariant
            i <= seen.len(),
            forall|k: int| 0 <= k < i ==> (#[trigger] pairs(seen@)[k]).0 != v,
        decreases seen.len() - i,
    {
        if seen[i].0 == v {
            assert(pairs(seen@)[i as int].0 == v);
            return true;
        }
        i = i + 1;
    }
    false
}

fn holds_string(items: &Vec<String>, s: &String) -> (r: bool)
    ensures
        r == (position(views(items@), s@) >= 0),
{
    match find_id(items, s) {
        Some(_) => true,
        None => false,
    }
}

/// A shortest path.
#[derive(Debug)]
pub struct ShortestPath {
    /// The documents of the path, in order.
    pub path: Vec<String>,
    /// For each step of the path the first relation that makes it.
    pub relations: Vec<DocumentRelation>,
    /// The number of steps.
    pub total_weight: usize,
}

/// The first of `previous` whose cost is one less than `cost`, or -1.
pub open spec fn first_nearer(previous: Seq<int>, costs: Seq<Option<usize>>, cost: int) -> int
    decreases previous.len(),
{
    if previous.len() == 0 {
        -1
    } else if is_nearer(costs, previous[0], cost) {
        previous[0]
    } else {
        first_nearer(previous.drop_first(), costs, cost)
    }
}

/// The way back from `current` to `from`: from each node to the first of its
/// predecessors whose cost is one less, `cost` being the cost of `current`.
/// `None` where a node short of `from` has no such predecessor.
pub open spec fn trail(
    edges: Seq<(int, int)>,
    costs: Seq<Option<usize>>,
    from: int,
    current: int,
    cost: nat,
) -> Option<Seq<int>>
    decreases cost,
{
    if current == from {
        Some(seq![current])
    } else if cost == 0 {
        None
    } else {
        let p = first_nearer(predecessors_of(edges, current), costs, cost as int);
        if p < 0 {
            None
        } else {
            match trail(edges, costs, from, p, (cost - 1) as nat) {
                Some(rest) => Some(seq![current] + rest),
                None => None,
            }
        }
    }
}

/// The position of the first relation from `a` to `b`, or -1.
pub open spec fn first_link(relations: Seq<DocumentRelation>, a: Seq<char>, b: Seq<char>) -> int
    decreases relations.len(),
{
    if relations.len() == 0 {
        -1
    } else {
        let before = first_link(relations.drop_last(), a, b);
        if before >= 0 {
            before
        } else if relations.last().source_id@ == a && relations.last().target_id@ == b {
            relations.len() - 1
        } else {
            -1
        }
    }
}

/// For each of the first `steps` steps of `path` the first relation that
/// makes it, where there is one.
pub open spec fn links(relations: Seq<DocumentRelation>, path: Seq<Seq<char>>, steps: int) -> Seq<
    DocumentRelation,
>
    decreases steps,
{
    if steps <= 0 {
        Seq::<DocumentRelation>::empty()
    } else {
        let before = links(relations, path, steps - 1);
        let k = first_link(relations, path[steps - 1], path[steps]);
        if k >= 0 {
            before.push(relations[k])
        } else {
            before
        }
    }
}

/// What a shortest-path query returns, given the costs that the search for
/// shortest paths found.
pub open spec fn path_from_costs(
    relations: Seq<DocumentRelation>,
    from: int,
    to: int,
    costs: Seq<Option<usize>>,
    found: Option<ShortestPath>,
) -> bool {
    let ids = node_ids(relations);
    match costs[to] {
        None => found is None,
        Some(d) => match trail(edge_list(relations), costs, from, to, d as nat) {
            None => found is None,
            Some(back) => {
                &&& found matches Some(sp)
                &&& views(sp.path@) == Seq::new(back.len(), |i: int| ids[back[back.len() - 1 - i]])
                &&& sp.total_weight == d
                &&& sp.relations@ == links(relations, views(sp.path@), sp.path@.len() - 1)
            },
        },
    }
}

/// The way back, put behind the part of the way that was gone already.
pub open spec fn continued(gone: Seq<int>, rest: Option<Seq<int>>) -> Option<Seq<int>> {
    match rest {
        Some(r) => Some(gone + r),
        None => None,
    }
}

/// Every cost is the length of a shortest walk from `start`.
pub open spec fn costs_sound(edges: Seq<(int, int)>, costs: Seq<Option<usize>>, start: int) -> bool {
    forall|v: int|
        0 <= v < costs.len() && (#[trigger] costs[v]) is Some ==> is_distance(
            edges,
            start,
            v,
            costs[v]->0 as int,
        )
}

proof fn lemma_first_nearer(previous: Seq<int>, costs: Seq<Option<usize>>, cost: int)
    ensures
        first_nearer(previous, costs, cost) >= 0 ==> is_nearer(
            costs,
            first_nearer(previous, costs, cost),
            cost,
        ) && previous.contains(first_nearer(previous, costs, cost)),
        first_nearer(previous, costs, cost) < 0 ==> first_nearer(previous, costs, cost) == -1,
    decreases previous.len(),
{
    if previous.len() > 0 && !is_nearer(costs, previous[0], cost) {
        let rest = previous.drop_first();
        lemma_first_nearer(rest, costs, cost);
        let p = first_nearer(rest, costs, cost);
        if p >= 0 {
            let i = choose|i: int| 0 <= i < rest.len() && rest[i] == p;
            assert(previous[i + 1] == p);
        }
    } else if previous.len() > 0 {
        assert(previous[0] == first_nearer(previous, costs, cost));
    }
}

/// A way back that exists, read from its end, is a walk from `from` to
/// `current` with as many steps as `current` costs.
pub proof fn lemma_trail_is_walk(
    edges: Seq<(int, int)>,
    costs: Seq<Option<usize>>,
    from: int,
    current: int,
    cost: nat,
)
    requires
        costs_sound(edges, costs, from),
        0 <= current < costs.len(),
        costs[current] == Some(cost as usize),
        cost <= usize::MAX,
        trail(edges, costs, from, current, cost) is Some,
    ensures
        ({
            let back = trail(edges, costs, from, current, cost)->0;
            &&& back.len() == cost + 1
            &&& back[0] == current
            &&& back.last() == from
            &&& walk_between(edges, back.reverse(), from, current)
            &&& forall|i: int| 0 <= i < back.len() ==> 0 <= #[trigger] back[i] < costs.len()
        }),
    decreases cost,
{
    let back = trail(edges, costs, from, current, cost)->0;
    if current == from {
        assert(is_distance(edges, from, current, cost as int));
        let single = seq![from];
        assert(walk_between(edges, single, from, from));
        assert(cost == 0);
        assert(back.reverse() =~= single);
    } else {
        let previous = predecessors_of(edges, current);
        let p = first_nearer(previous, costs, cost as int);
        lemma_first_nearer(previous, costs, cost as int);
        lemma_predecessors(edges, current);
        let at = choose|i: int| 0 <= i < previous.len() && previous[i] == p;
        assert(has_edge(edges, previous[at], current));
        lemma_trail_is_walk(edges, costs, from, p, (cost - 1) as nat);
        let rest = trail(edges, costs, from, p, (cost - 1) as nat)->0;
        assert(back == seq![current] + rest);
        let walk = back.reverse();
        let before = rest.reverse();
        assert(walk =~= before.push(current));
        assert forall|i: int| 0 <= i < walk.len() - 1 implies has_edge(
            edges,
            #[trigger] walk[i],
            walk[i + 1],
        ) by {
            if i < before.len() - 1 {
                assert(walk[i] == before[i]);
                assert(walk[i + 1] == before[i + 1]);
            } else {
                assert(walk[i] == before.last());
                assert(before.last() == rest[0]);
            }
        }
        assert(walk[0] == before[0]);
        assert forall|i: int| 0 <= i < back.len() implies 0 <= #[trigger] back[i] < costs.len() by {
            if i > 0 {
                assert(back[i] == rest[i - 1]);
            }
        }
    }
}

/// Where one of `previous` has a cost one less than `cost`, the first such
/// is found.
proof fn lemma_first_nearer_found(previous: Seq<int>, costs: Seq<Option<usize>>, cost: int, at: int)
    requires
        0 <= at < previous.len(),
        is_nearer(costs, previous[at], cost),
    ensures
        first_nearer(previous, costs, cost) >= 0,
    decreases previous.len(),
{
    if !is_nearer(costs, previous[0], cost) {
        let rest = previous.drop_first();
        assert(rest[at - 1] == previous[at]);
        lemma_first_nearer_found(rest, costs, cost, at - 1);
        lemma_first_nearer(rest, costs, cost);
    } else {
        assert(0 <= previous[0]);
    }
}

/// With costs that are distances and that are linked from node to node, the
/// way back from a node with a cost never breaks off.
pub proof fn lemma_trail_exists(
    edges: Seq<(int, int)>,
    costs: Seq<Option<usize>>,
    from: int,
    current: int,
    cost: nat,
)
    requires
        costs_sound(edges, costs, from),
        costs_linked(edges, costs),
        0 <= current < costs.len(),
        costs[current] == Some(cost as usize),
        cost <= usize::MAX,
    ensures
        trail(edges, costs, from, current, cost) is Some,
    decreases cost,
{
    if current != from {
        if cost == 0 {
            assert(is_distance(edges, from, current, 0));
            let p = choose|p: Seq<int>| walk_between(edges, p, from, current) && p.len() == 0 + 1;
            assert(p[0] == p.last());
        }
        let p = choose|p: int|
            #[trigger] has_edge(edges, p, current) && is_nearer(costs, p, cost as int);
        let k = choose|k: int| 0 <= k < edges.len() && #[trigger] edges[k] == (p, current);
        lemma_predecessors(edges, current);
        let previous = predecessors_of(edges, current);
        assert(previous.contains(edges[k].0));
        let at = choose|i: int| 0 <= i < previous.len() && previous[i] == p;
        lemma_first_nearer_found(previous, costs, cost as int, at);
        lemma_first_nearer(previous, costs, cost as int);
        let q = first_nearer(previous, costs, cost as int);
        lemma_trail_exists(edges, costs, from, q, (cost - 1) as nat);
    }
}

impl DocumentGraph {
    /// The nodes within `max_depth` edges of `start` with their depths, in
    /// breadth-first order.
    fn search_levels(
        graph: &petgraph::graph::Graph<String, String, petgraph::Directed, u32>,
        start: usize,
        max_depth: usize,
    ) -> (seen: Vec<(usize, usize)>)
        requires
            start < graph_labels(*graph).len(),
            edges_within(graph_edges(*graph), graph_labels(*graph).len() as int),
        ensures
            pairs(seen@) == bfs(graph_edges(*graph), start as int, max_depth as int),
            seen_within(pairs(seen@), graph_labels(*graph).len() as int, max_depth as int),
    {
        let ghost edges = graph_edges(*graph);
        let ghost n = graph_labels(*graph).len() as int;
        let mut seen: Vec<(usize, usize)> = Vec::new();
        seen.push((start, 0));
        let mut from: usize = 0;
        let mut depth: usize = 0;
        proof {
            assert(pairs(seen@) =~= seq![(start as int, 0int)]);
        }
        while depth < max_depth && from < seen.len()
            invariant
                edges == graph_edges(*graph),
                n == graph_labels(*graph).len(),
                edges_within(edges, n),
                from <= seen.len(),
                depth <= max_depth,
                seen_within(pairs(seen@), n, depth as int),
                bfs_levels(edges, pairs(seen@), from as int, depth as int, max_depth as int) == bfs(
                    edges,
                    start as int,
                    max_depth as int,
                ),
            decreases max_depth - depth,
        {
            let to: usize = seen.len();
            let ghost base = pairs(seen@);
            let mut at: usize = from;
            while at < to
                invariant
                    edges == graph_edges(*graph),
                    n == graph_labels(*graph).len(),
                    edges_within(edges, n),
                    from <= at <= to,
                    to == base.len(),
                    to <= seen.len(),
                    depth < max_depth,
                    forall|k: int| 0 <= k < to ==> pairs(seen@)[k] == base[k],
                    seen_within(pairs(seen@), n, depth as int + 1),
                    pairs(seen@) == expand(edges, base, from as int, at as int, depth as int + 1),
                decreases to - at,
            {
                let node: usize = seen[at].0;
                assert(pairs(seen@)[at as int].0 == node);
                let next = graph_successors(graph, node);
                let ghost before = pairs(seen@);
                let ghost candidates = numbers(next@);
                proof {
                    lemma_successors(edges, node as int);
                    assert(candidates.take(0) =~= Seq::<int>::empty());
                }
                let mut c: usize = 0;
                while c < next.len()
                    invariant
                        c <= next.len(),
                        candidates == numbers(next@),
                        candidates == successors_of(edges, node as int),
                        edges_within(edges, n),
                        forall|i: int|
                            0 <= i < candidates.len() ==> has_edge(
                                edges,
                                node as int,
                                #[trigger] candidates[i],
                            ),
                        to <= before.len(),
                        to <= seen.len(),
                        depth < max_depth,
                        forall|k: int| 0 <= k < to ==> pairs(seen@)[k] == before[k],
                        seen_within(pairs(seen@), n, depth as int + 1),
                        pairs(seen@) == absorb(before, candidates.take(c as int), depth as int + 1),
                    decreases next.len() - c,
                {
                    let v: usize = next[c];
                    proof {
                        assert(candidates[c as int] == v);
                        assert(candidates.take(c as int + 1).drop_last() =~= candidates.take(
                            c as int,
                        ));
                        assert(candidates.take(c as int + 1).last() == v);
                        assert(has_edge(edges, node as int, candidates[c as int]));
                        let k = choose|k: int|
                            0 <= k < edges.len() && #[trigger] edges[k] == (node as int, v as int);
                        assert(0 <= edges[k].1 < n);
                    }
                    if !holds_node(&seen, v) {
                        let ghost old_pairs = pairs(seen@);
                        seen.push((v, depth + 1));
                        proof {
                            assert(pairs(seen@) =~= old_pairs.push((v as int, depth as int + 1)));
                        }
                    }
                    c = c + 1;
                }
                proof {
                    assert(candidates.take(c as int) =~= candidates);
                    assert(base[at as int].0 == node);
                }
                at = at + 1;
            }
            from = to;
            depth = depth + 1;
        }
        seen
    }

    /// Breadth-first traversal from `start_id` over the relations, or over
    /// those of the filter's types: the documents within `max_depth` steps
    /// in the order of their discovery, their depths, and the followed
    /// relations between them. A start that only relations of other types
    /// name is visited alone, at depth 0; a start that no relation names
    /// yields an empty result.
    pub fn traverse_bfs(
        &self,
        start_id: &str,
        relations: &Vec<DocumentRelation>,
        max_depth: usize,
        relation_type_filter: Option<&Vec<String>>,
    ) -> (r: Result<TraversalResult, CoreError>)
        requires
            relations@.len() <= MAX_RELATIONS,
        ensures
            r matches Ok(t) && traversal_of(
                relations@,
                followed(
                    relations@,
                    match relation_type_filter {
                        Some(types) => Some(views(types@)),
                        None => None,
                    },
                ),
                start_id@,
                max_depth as int,
                t,
            ),
    {
        let mut kept: Vec<DocumentRelation> = Vec::new();
        let mut i: usize = 0;
        let ghost filter: Option<Seq<Seq<char>>> = match relation_type_filter {
            Some(types) => Some(views(types@)),
            None => None,
        };
        proof {
            assert(relations@.take(0) =~= Seq::<DocumentRelation>::empty());
        }
        while i < relations.len()
            invariant
                i <= relations.len(),
                filter == (match relation_type_filter {
                    Some(types) => Some(views(types@)),
                    None => None,
                }),
                kept@ == followed(relations@.take(i as int), filter),
            decreases relations.len() - i,
        {
            proof {
                assert(relations@.take(i as int + 1).drop_last() =~= relations@.take(i as int));
                assert(relations@.take(i as int + 1) =~= relations@.take(i as int).push(
                    relations@[i as int],
                ));
            }
            let keep: bool = match relation_type_filter {
                Some(types) => holds_string(types, &relations[i].relation_type),
                None => true,
            };
            if keep {
                kept.push(relations[i].duplicate());
            }
            i = i + 1;
        }
        proof {
            assert(relations@.take(i as int) =~= relations@);
            if let Some(types) = filter {
                lemma_of_types_len(relations@, types);
            }
            lemma_edge_list_within(kept@);
            lemma_node_ids(kept@);
        }
        let (graph, ids) = self.build_graph(&kept);
        let start_name = start_id.to_owned();
        let start = match find_id(&ids, &start_name) {
            Some(s) => s,
            None => {
                let mut document_ids: Vec<String> = Vec::new();
                let mut depth_map: Vec<(String, usize)> = Vec::new();
                if names(relations, &start_name) {
                    document_ids.push(start_name.clone());
                    depth_map.push((start_name, 0));
                    proof {
                        assert(views(document_ids@) =~= seq![start_id@]);
                        assert(depth_views(depth_map@) =~= seq![(start_id@, 0int)]);
                    }
                }
                return Ok(TraversalResult { document_ids, relations: Vec::new(), depth_map });
            },
        };
        let seen = Self::search_levels(&graph, start, max_depth);
        let ghost order = pairs(seen@);
        let ghost labels = node_ids(kept@);
        let mut document_ids: Vec<String> = Vec::new();
        let mut depth_map: Vec<(String, usize)> = Vec::new();
        let mut k: usize = 0;
        while k < seen.len()
            invariant
                k <= seen.len(),
                order == pairs(seen@),
                labels == views(ids@),
                seen_within(order, labels.len() as int, max_depth as int),
                views(document_ids@) == Seq::new(k as nat, |i: int| labels[order[i].0]),
                depth_views(depth_map@) == Seq::new(
                    k as nat,
                    |i: int| (labels[order[i].0], order[i].1),
                ),
            decreases seen.len() - k,
        {
            let (node, depth) = seen[k];
            proof {
                assert(order[k as int] == (node as int, depth as int));
                assert(0 <= order[k as int].0 < labels.len());
            }
            let ghost ids_before = views(document_ids@);
            let ghost map_before = depth_views(depth_map@);
            document_ids.push(ids[node].clone());
            depth_map.push((ids[node].clone(), depth));
            proof {
                assert(views(document_ids@) =~= ids_before.push(labels[node as int]));
                assert(depth_views(depth_map@) =~= map_before.push(
                    (labels[node as int], depth as int),
                ));
                assert(views(document_ids@) =~= Seq::new(
                    (k + 1) as nat,
                    |i: int| labels[order[i].0],
                ));
                assert(depth_views(depth_map@) =~= Seq::new(
                    (k + 1) as nat,
                    |i: int| (labels[order[i].0], order[i].1),
                ));
            }
            k = k + 1;
        }
        let mut between: Vec<DocumentRelation> = Vec::new();
        let mut j: usize = 0;
        proof {
            assert(kept@.take(0) =~= Seq::<DocumentRelation>::empty());
        }
        while j < kept.len()
            invariant
                j <= kept.len(),
                between@ == among(kept@.take(j as int), views(document_ids@)),
            decreases kept.len() - j,
        {
            proof {
                assert(kept@.take(j as int + 1).drop_last() =~= kept@.take(j as int));
            }
            if holds_string(&document_ids, &kept[j].source_id) && holds_string(
                &document_ids,
                &kept[j].target_id,
            ) {
                between.push(kept[j].duplicate());
            }
            j = j + 1;
        }
        proof {
            assert(kept@.take(j as int) =~= kept@);
        }
        Ok(TraversalResult { document_ids, relations: between, depth_map })
    }

    /// The first of `previous` whose cost is one less than `cost`.
    fn nearer(previous: &Vec<usize>, costs: &Vec<Option<usize>>, cost: usize) -> (r: Option<usize>)
        ensures
            match r {
                Some(p) => p == first_nearer(numbers(previous@), costs@, cost as int) && p
                    < costs@.len(),
                None => first_nearer(numbers(previous@), costs@, cost as int) < 0,
            },
    {
        let ghost all = numbers(previous@);
        let mut i: usize = 0;
        proof {
            assert(all.skip(0) =~= all);
        }
        while i < previous.len()
            invariant
                i <= previous.len(),
                all == numbers(previous@),
                first_nearer(all, costs@, cost as int) == first_nearer(
                    all.skip(i as int),
                    costs@,
                    cost as int,
                ),
            decreases previous.len() - i,
        {
            let p: usize = previous[i];
            proof {
                assert(all.skip(i as int)[0] == p);
                assert(all.skip(i as int).drop_first() =~= all.skip(i as int + 1));
            }
            if p < costs.len() {
                match costs[p] {
                    Some(c) => {
                        if c < cost && c + 1 == cost {
                            return Some(p);
                        }
                    },
                    None => {},
                }
            }
            i = i + 1;
        }
        None
    }

    /// Reads a shortest path off the costs that a search from `from` with
    /// goal `to` found: from `to` back to `from`, each time to the first
    /// predecessor whose cost is one less. No path where `to` has no cost or
    /// the way back breaks off.
    pub fn reconstruct_path(
        &self,
        relations: &Vec<DocumentRelation>,
        from: usize,
        to: usize,
        costs: &Vec<Option<usize>>,
    ) -> (found: Option<ShortestPath>)
        requires
            relations@.len() <= MAX_RELATIONS,
            from < node_ids(relations@).len(),
            to < node_ids(relations@).len(),
            costs@.len() == node_ids(relations@).len(),
        ensures
            path_from_costs(relations@, from as int, to as int, costs@, found),
    {
        let (graph, ids) = self.build_graph(relations);
        self.path_in(&graph, &ids, relations, from, to, costs)
    }

    fn path_in(
        &self,
        graph: &petgraph::graph::Graph<String, String, petgraph::Directed, u32>,
        ids: &Vec<String>,
        relations: &Vec<DocumentRelation>,
        from: usize,
        to: usize,
        costs: &Vec<Option<usize>>,
    ) -> (found: Option<ShortestPath>)
        requires
            views(ids@) == node_ids(relations@),
            graph_labels(*graph) == node_ids(relations@),
            graph_edges(*graph) == edge_list(relations@),
            from < ids@.len(),
            to < ids@.len(),
            costs@.len() == ids@.len(),
        ensures
            path_from_costs(relations@, from as int, to as int, costs@, found),
    {
        let ghost edges = edge_list(relations@);
        let ghost labels = node_ids(relations@);
        let total: usize = match costs[to] {
            Some(d) => d,
            None => {
                return None;
            },
        };
        let mut back: Vec<usize> = Vec::new();
        let mut current: usize = to;
        let mut cost: usize = total;
        proof {
            lemma_edge_list_within(relations@);
            assert(numbers(back@) + trail(edges, costs@, from as int, to as int, total as nat)->0
                =~= trail(edges, costs@, from as int, to as int, total as nat)->0);
        }
        while current != from
            invariant
                edges == edge_list(relations@),
                graph_edges(*graph) == edges,
                graph_labels(*graph).len() == costs@.len(),
                edges_within(edges, costs@.len() as int),
                current < costs@.len(),
                to < costs@.len(),
                costs@[to as int] == Some(total),
                forall|i: int| 0 <= i < back@.len() ==> (#[trigger] back@[i]) < costs@.len(),
                trail(edges, costs@, from as int, to as int, total as nat) == continued(
                    numbers(back@),
                    trail(edges, costs@, from as int, current as int, cost as nat),
                ),
            decreases cost,
        {
            if cost == 0 {
                return None;
            }
            let previous = graph_predecessors(graph, current);
            match Self::nearer(&previous, costs, cost) {
                None => {
                    return None;
                },
                Some(p) => {
                    let ghost gone = numbers(back@);
                    back.push(current);
                    proof {
                        let rest = trail(edges, costs@, from as int, p as int, (cost - 1) as nat);
                        assert(numbers(back@) =~= gone.push(current as int));
                        if let Some(r) = rest {
                            assert(gone + (seq![current as int] + r) =~= gone.push(current as int)
                                + r);
                        }
                    }
                    current = p;
                    cost = cost - 1;
                },
            }
        }
        let ghost gone = numbers(back@);
        back.push(from);
        proof {
            assert(numbers(back@) =~= gone + seq![from as int]);
        }
        let ghost way = numbers(back@);
        assert(trail(edges, costs@, from as int, to as int, total as nat) == Some(way));
        let mut path: Vec<String> = Vec::new();
        let mut n: usize = back.len();
        while n > 0
            invariant
                n <= back.len(),
                way == numbers(back@),
                labels == views(ids@),
                forall|i: int| 0 <= i < back@.len() ==> (#[trigger] back@[i]) < ids@.len(),
                views(path@) == Seq::new(
                    (back.len() - n) as nat,
                    |i: int| labels[way[way.len() - 1 - i]],
                ),
            decreases n,
        {
            n = n - 1;
            let node: usize = back[n];
            let ghost before = views(path@);
            path.push(ids[node].clone());
            proof {
                assert(way[n as int] == node);
                assert(views(path@) =~= before.push(labels[node as int]));
                assert(views(path@) =~= Seq::new(
                    (back.len() - n) as nat,
                    |i: int| labels[way[way.len() - 1 - i]],
                ));
            }
        }
        let mut along: Vec<DocumentRelation> = Vec::new();
        let mut step: usize = 0;
        while step + 1 < path.len()
            invariant
                step < path.len(),
                along@ == links(relations@, views(path@), step as int),
            decreases path.len() - step,
        {
            match Self::link(relations, &path[step], &path[step + 1]) {
                Some(k) => {
                    along.push(relations[k].duplicate());
                },
                None => {},
            }
            step = step + 1;
        }
        Some(ShortestPath { path, relations: along, total_weight: total })
    }

    /// The first relation from `a` to `b`.
    fn link(relations: &Vec<DocumentRelation>, a: &String, b: &String) -> (r: Option<usize>)
        ensures
            match r {
                Some(k) => k == first_link(relations@, a@, b@) && k < relations@.len(),
                None => first_link(relations@, a@, b@) < 0,
            },
    {
        let mut k: usize = 0;
        proof {
            assert(relations@.take(0) =~= Seq::<DocumentRelation>::empty());
        }
        while k < relations.len()
            invariant
                k <= relations.len(),
                first_link(relations@.take(k as int), a@, b@) < 0,
            decreases relations.len() - k,
        {
            proof {
                assert(relations@.take(k as int + 1).drop_last() =~= relations@.take(k as int));
            }
            if relations[k].source_id == *a && relations[k].target_id == *b {
                proof {
                    Self::lemma_link_grows(relations@, a@, b@, k as int + 1);
                }
                return Some(k);
            }
            k = k + 1;
        }
        proof {
            assert(relations@.take(k as int) =~= relations@);
        }
        None
    }

    proof fn lemma_link_grows(relations: Seq<DocumentRelation>, a: Seq<char>, b: Seq<char>, n: int)
        requires
            0 <= n <= relations.len(),
            first_link(relations.take(n), a, b) >= 0,
        ensures
            first_link(relations, a, b) == first_link(relations.take(n), a, b),
        decreases relations.len(),
    {
        if n < relations.len() {
            assert(relations.drop_last().take(n) =~= relations.take(n));
            Self::lemma_link_grows(relations.drop_last(), a, b, n);
        } else {
            assert(relations.take(n) =~= relations);
        }
    }
}


/// Whether a relation leads from `a` to `b`.
pub open spec fn linked(relations: Seq<DocumentRelation>, a: Seq<char>, b: Seq<char>) -> bool {
    exists|k: int|
        0 <= k < relations.len() && (#[trigger] relations[k]).source_id@ == a
            && relations[k].target_id@ == b
}

/// Whether `p` is a chain of documents: at least one, and a relation from
/// each to the next.
pub open spec fn is_chain(relations: Seq<DocumentRelation>, p: Seq<Seq<char>>) -> bool {
    &&& p.len() >= 1
    &&& forall|i: int| 0 <= i < p.len() - 1 ==> linked(relations, #[trigger] p[i], p[i + 1])
}

/// Whether the relations hold a cycle: a chain over at least one relation
/// that ends at the document at which it begins.
pub open spec fn cyclic(relations: Seq<DocumentRelation>) -> bool {
    exists|p: Seq<Seq<char>>| is_chain(relations, p) && p.len() >= 2 && p[0] == p.last()
}

/// Whether `d` is the number of relations of a shortest chain from `a` to `b`.
pub open spec fn chain_distance(relations: Seq<DocumentRelation>, a: Seq<char>, b: Seq<char>, d: int) -> bool {
    &&& exists|p: Seq<Seq<char>>|
        is_chain(relations, p) && p[0] == a && p.last() == b && p.len() == d + 1
    &&& forall|p: Seq<Seq<char>>|
        is_chain(relations, p) && p[0] == a && p.last() == b ==> p.len() >= d + 1
}

/// A relation from `a` to `b` is an edge between their nodes, and an edge
/// between two nodes is a relation between their documents.
pub proof fn lemma_linked_is_edge(relations: Seq<DocumentRelation>)
    ensures
        forall|a: Seq<char>, b: Seq<char>| #[trigger]
            linked(relations, a, b) ==> has_edge(
                edge_list(relations),
                position(node_ids(relations), a),
                position(node_ids(relations), b),
            ) && position(node_ids(relations), a) >= 0 && position(node_ids(relations), b) >= 0,
        forall|x: int, y: int| #[trigger]
            has_edge(edge_list(relations), x, y) ==> 0 <= x < node_ids(relations).len() && 0 <= y
                < node_ids(relations).len() && linked(
                relations,
                node_ids(relations)[x],
                node_ids(relations)[y],
            ),
{
    let ids = node_ids(relations);
    let edges = edge_list(relations);
    lemma_node_ids(relations);
    assert forall|a: Seq<char>, b: Seq<char>| #[trigger] linked(relations, a, b) implies has_edge(
        edges,
        position(ids, a),
        position(ids, b),
    ) && position(ids, a) >= 0 && position(ids, b) >= 0 by {
        let k = choose|k: int|
            0 <= k < relations.len() && (#[trigger] relations[k]).source_id@ == a
                && relations[k].target_id@ == b;
        assert(edges[k] == (position(ids, a), position(ids, b)));
    }
    assert forall|x: int, y: int| #[trigger] has_edge(edges, x, y) implies 0 <= x < ids.len() && 0
        <= y < ids.len() && linked(relations, ids[x], ids[y]) by {
        let k = choose|k: int| 0 <= k < edges.len() && #[trigger] edges[k] == (x, y);
        let r = relations[k];
        lemma_position(ids, r.source_id@);
        lemma_position(ids, r.target_id@);
        assert(relations[k].source_id@ == ids[x] && relations[k].target_id@ == ids[y]);
    }
}

/// The nodes of a chain of documents that are all nodes form a walk.
pub proof fn lemma_chain_is_walk(relations: Seq<DocumentRelation>, p: Seq<Seq<char>>)
    requires
        is_chain(relations, p),
        position(node_ids(relations), p[0]) >= 0,
    ensures
        is_walk(edge_list(relations), p.map_values(|id: Seq<char>| position(node_ids(relations), id))),
        forall|i: int| 0 <= i < p.len() ==> position(node_ids(relations), #[trigger] p[i]) >= 0,
{
    let ids = node_ids(relations);
    let w = p.map_values(|id: Seq<char>| position(ids, id));
    lemma_linked_is_edge(relations);
    assert forall|i: int| 0 <= i < w.len() - 1 implies has_edge(
        edge_list(relations),
        #[trigger] w[i],
        w[i + 1],
    ) by {
        assert(linked(relations, p[i], p[i + 1]));
    }
    assert forall|i: int| 0 <= i < p.len() implies position(ids, #[trigger] p[i]) >= 0 by {
        if i > 0 {
            assert(linked(relations, p[i - 1], p[i - 1 + 1]));
        }
    }
}

/// The documents of a walk whose first node exists form a chain.
pub proof fn lemma_walk_is_chain(relations: Seq<DocumentRelation>, w: Seq<int>)
    requires
        is_walk(edge_list(relations), w),
        0 <= w[0] < node_ids(relations).len(),
    ensures
        is_chain(relations, w.map_values(|x: int| node_ids(relations)[x])),
        forall|i: int| 0 <= i < w.len() ==> 0 <= #[trigger] w[i] < node_ids(relations).len(),
{
    let ids = node_ids(relations);
    let p = w.map_values(|x: int| ids[x]);
    lemma_linked_is_edge(relations);
    assert forall|i: int| 0 <= i < p.len() - 1 implies linked(relations, #[trigger] p[i], p[i + 1]) by {
        assert(has_edge(edge_list(relations), w[i], w[i + 1]));
    }
    assert forall|i: int| 0 <= i < w.len() implies 0 <= #[trigger] w[i] < ids.len() by {
        if i > 0 {
            assert(has_edge(edge_list(relations), w[i - 1], w[i - 1 + 1]));
        }
    }
}

/// The relations hold a cycle exactly when their edges do.
pub proof fn lemma_cyclic_is_has_cycle(relations: Seq<DocumentRelation>)
    ensures
        cyclic(relations) == has_cycle(edge_list(relations)),
{
    let ids = node_ids(relations);
    let edges = edge_list(relations);
    lemma_linked_is_edge(relations);
    if cyclic(relations) {
        let p = choose|p: Seq<Seq<char>>| is_chain(relations, p) && p.len() >= 2 && p[0] == p.last();
        assert(linked(relations, p[0], p[0int + 1]));
        lemma_chain_is_walk(relations, p);
        let w = p.map_values(|id: Seq<char>| position(ids, id));
        assert(is_walk(edges, w) && w.len() >= 2 && w[0] == w.last());
    }
    if has_cycle(edges) {
        let w = choose|w: Seq<int>| is_walk(edges, w) && w.len() >= 2 && w[0] == w.last();
        assert(has_edge(edges, w[0], w[0int + 1]));
        lemma_walk_is_chain(relations, w);
        let p = w.map_values(|x: int| ids[x]);
        assert(is_chain(relations, p) && p.len() >= 2 && p[0] == p.last());
    }
}

/// A distance between two nodes is the distance between their documents.
pub proof fn lemma_distance_is_chain_distance(relations: Seq<DocumentRelation>, from: int, to: int, d: int)
    requires
        0 <= from < node_ids(relations).len(),
        0 <= to < node_ids(relations).len(),
        is_distance(edge_list(relations), from, to, d),
    ensures
        chain_distance(relations, node_ids(relations)[from], node_ids(relations)[to], d),
{
    let ids = node_ids(relations);
    let edges = edge_list(relations);
    lemma_node_ids(relations);
    let w = choose|w: Seq<int>| walk_between(edges, w, from, to) && w.len() == d + 1;
    lemma_walk_is_chain(relations, w);
    let p = w.map_values(|x: int| ids[x]);
    assert(is_chain(relations, p) && p[0] == ids[from] && p.last() == ids[to] && p.len() == d + 1);
    assert forall|q: Seq<Seq<char>>|
        is_chain(relations, q) && q[0] == ids[from] && q.last() == ids[to] implies q.len() >= d
        + 1 by {
        lemma_position_of_member(ids, from);
        lemma_position_of_member(ids, to);
        lemma_chain_is_walk(relations, q);
        let v = q.map_values(|id: Seq<char>| position(ids, id));
        assert(walk_between(edges, v, from, to));
    }
}

/// The number of relations that leave `id`.
pub open spec fn count_from(relations: Seq<DocumentRelation>, id: Seq<char>) -> nat
    decreases relations.len(),
{
    if relations.len() == 0 {
        0
    } else {
        count_from(relations.drop_last(), id) + if relations.last().source_id@ == id {
            1nat
        } else {
            0nat
        }
    }
}

/// The number of relations that enter `id`.
pub open spec fn count_into(relations: Seq<DocumentRelation>, id: Seq<char>) -> nat
    decreases relations.len(),
{
    if relations.len() == 0 {
        0
    } else {
        count_into(relations.drop_last(), id) + if relations.last().target_id@ == id {
            1nat
        } else {
            0nat
        }
    }
}

/// A node has as many successors as relations leave its document, and as
/// many predecessors as relations enter it.
pub proof fn lemma_degrees(relations: Seq<DocumentRelation>, ids: Seq<Seq<char>>, node: int)
    requires
        distinct(ids),
        0 <= node < ids.len(),
    ensures
        successors_of(edges_over(relations, ids), node).len() == count_from(relations, ids[node]),
        predecessors_of(edges_over(relations, ids), node).len() == count_into(relations, ids[node]),
    decreases relations.len(),
{
    if relations.len() > 0 {
        let init = relations.drop_last();
        lemma_degrees(init, ids, node);
        assert(edges_over(relations, ids).drop_last() =~= edges_over(init, ids));
        let r = relations.last();
        lemma_position(ids, r.source_id@);
        lemma_position(ids, r.target_id@);
        lemma_position_of_member(ids, node);
    }
}

/// Counts over a graph of relations.
#[derive(Debug)]
pub struct GraphStatistics {
    pub node_count: usize,
    pub edge_count: usize,
    pub has_cycles: bool,
    /// For each document, in node order, the number of relations that enter it.
    pub in_degrees: Vec<(String, usize)>,
    /// For each document, in node order, the number of relations that leave it.
    pub out_degrees: Vec<(String, usize)>,
}

impl GraphStatistics {
    fn degree_in(map: &Vec<(String, usize)>, id: &str) -> (degree: Option<usize>)
        ensures
            match degree {
                Some(d) => depth_in(depth_views(map@), id@) == Some(d as int),
                None => depth_in(depth_views(map@), id@) is None,
            },
    {
        let ghost all = depth_views(map@);
        let key = id.to_owned();
        let mut i: usize = 0;
        proof {
            assert(all.skip(0) =~= all);
        }
        while i < map.len()
            invariant
                i <= map.len(),
                all == depth_views(map@),
                key@ == id@,
                depth_in(all, id@) == depth_in(all.skip(i as int), id@),
            decreases map.len() - i,
        {
            proof {
                assert(all.skip(i as int).drop_first() =~= all.skip(i as int + 1));
                assert(all.skip(i as int)[0] == all[i as int]);
                assert(all[i as int] == (map@[i as int].0@, map@[i as int].1 as int));
            }
            if map[i].0 == key {
                return Some(map[i].1);
            }
            i = i + 1;
        }
        None
    }

    /// The number of relations that enter document `id`, where it is a node.
    pub fn in_degree(&self, id: &str) -> (degree: Option<usize>)
        ensures
            match degree {
                Some(d) => depth_in(depth_views(self.in_degrees@), id@) == Some(d as int),
                None => depth_in(depth_views(self.in_degrees@), id@) is None,
            },
    {
        Self::degree_in(&self.in_degrees, id)
    }

    /// The number of relations that leave document `id`, where it is a node.
    pub fn out_degree(&self, id: &str) -> (degree: Option<usize>)
        ensures
            match degree {
                Some(d) => depth_in(depth_views(self.out_degrees@), id@) == Some(d as int),
                None => depth_in(depth_views(self.out_degrees@), id@) is None,
            },
    {
        Self::degree_in(&self.out_degrees, id)
    }
}

/// Whether a path from `from_id` to `to_id` is owed: relations name both
/// documents, and a chain leads from the one to the other.
pub open spec fn path_owed(relations: Seq<DocumentRelation>, from_id: Seq<char>, to_id: Seq<char>) -> bool {
    &&& position(node_ids(relations), from_id) >= 0
    &&& position(node_ids(relations), to_id) >= 0
    &&& exists|p: Seq<Seq<char>>|
        is_chain(relations, p) && p[0] == from_id && p.last() == to_id
}

/// What a shortest-path query returns.
pub open spec fn shortest_path_of(
    relations: Seq<DocumentRelation>,
    from_id: Seq<char>,
    to_id: Seq<char>,
    found: Option<ShortestPath>,
) -> bool {
    let ids = node_ids(relations);
    let from = position(ids, from_id);
    let to = position(ids, to_id);
    if from < 0 || to < 0 {
        found is None
    } else {
        path_from_costs(
            relations,
            from,
            to,
            dijkstra_costs(ids.len(), edge_list(relations), from, to),
            found,
        )
    }
}

/// The steps of `path` are relations.
pub open spec fn steps_linked(relations: Seq<DocumentRelation>, path: Seq<Seq<char>>) -> bool {
    forall|i: int| 0 <= i < path.len() - 1 ==> linked(relations, #[trigger] path[i], path[i + 1])
}

proof fn lemma_first_link(relations: Seq<DocumentRelation>, a: Seq<char>, b: Seq<char>)
    ensures
        -1 <= first_link(relations, a, b) < relations.len(),
        linked(relations, a, b) ==> 0 <= first_link(relations, a, b),
    decreases relations.len(),
{
    if relations.len() > 0 {
        let init = relations.drop_last();
        lemma_first_link(init, a, b);
        if linked(relations, a, b) {
            let k = choose|k: int|
                0 <= k < relations.len() && (#[trigger] relations[k]).source_id@ == a
                    && relations[k].target_id@ == b;
            if k < init.len() {
                assert(init[k] == relations[k]);
                assert(linked(init, a, b));
            }
        }
    }
}

proof fn lemma_links_len(relations: Seq<DocumentRelation>, path: Seq<Seq<char>>, steps: int)
    requires
        steps_linked(relations, path),
        0 <= steps <= path.len() - 1,
    ensures
        links(relations, path, steps).len() == steps,
    decreases steps,
{
    if steps > 0 {
        lemma_links_len(relations, path, steps - 1);
        assert(linked(relations, path[steps - 1], path[steps - 1 + 1]));
        lemma_first_link(relations, path[steps - 1], path[steps]);
    }
}

impl DocumentGraph {
    /// The shortest path from `from_id` to `to_id` along the relations, as
    /// the search for shortest paths finds it: the documents in order, the
    /// first relation of each step, and the number of steps. A path that is
    /// returned is a chain from `from_id` to `to_id` of the least possible
    /// length. No path where a document occurs in no relation or `to_id`
    /// cannot be reached.
    pub fn shortest_path(&self, from_id: &str, to_id: &str, relations: &Vec<DocumentRelation>) -> (r:
        Result<Option<ShortestPath>, CoreError>)
        requires
            relations@.len() <= MAX_RELATIONS,
        ensures
            r matches Ok(found) && shortest_path_of(relations@, from_id@, to_id@, found),
            r matches Ok(Some(sp)) ==> {
                &&& sp.path@.len() == sp.total_weight + 1
                &&& views(sp.path@)[0] == from_id@
                &&& views(sp.path@).last() == to_id@
                &&& steps_linked(relations@, views(sp.path@))
                &&& sp.relations@.len() == sp.total_weight
                &&& chain_distance(relations@, from_id@, to_id@, sp.total_weight as int)
            },
            !(exists|p: Seq<Seq<char>>|
                is_chain(relations@, p) && p[0] == from_id@ && p.last() == to_id@) ==> r
                == Ok::<Option<ShortestPath>, CoreError>(None),
            path_owed(relations@, from_id@, to_id@) ==> r matches Ok(Some(_)),
    {
        let (graph, ids) = self.build_graph(relations);
        let ghost labels = node_ids(relations@);
        let ghost edges = edge_list(relations@);
        let from = match find_id(&ids, &from_id.to_owned()) {
            Some(i) => i,
            None => {
                return Ok(None);
            },
        };
        let to = match find_id(&ids, &to_id.to_owned()) {
            Some(i) => i,
            None => {
                return Ok(None);
            },
        };
        let costs = graph_costs(&graph, from, to);
        let found = self.path_in(&graph, &ids, relations, from, to, &costs);
        proof {
            lemma_position(labels, from_id@);
            lemma_position(labels, to_id@);
            lemma_node_ids(relations@);
            if path_owed(relations@, from_id@, to_id@) {
                let p = choose|p: Seq<Seq<char>>|
                    is_chain(relations@, p) && p[0] == from_id@ && p.last() == to_id@;
                lemma_chain_is_walk(relations@, p);
                let w = p.map_values(|id: Seq<char>| position(labels, id));
                assert(walk_between(edges, w, from as int, to as int));
                assert(reachable(edges, from as int, to as int));
                let d = costs@[to as int]->0;
                lemma_trail_exists(edges, costs@, from as int, to as int, d as nat);
            }
            if found is Some {
                    let sp = found->0;
                    let d = costs@[to as int]->0;
                    lemma_trail_is_walk(edges, costs@, from as int, to as int, d as nat);
                    let back = trail(edges, costs@, from as int, to as int, d as nat)->0;
                    let walk = back.reverse();
                    let path = views(sp.path@);
                    lemma_walk_is_chain(relations@, walk);
                    assert(path =~= walk.map_values(|x: int| labels[x]));
                    lemma_links_len(relations@, path, path.len() - 1);
                    lemma_distance_is_chain_distance(relations@, from as int, to as int, d as int);
            }
            if exists|p: Seq<Seq<char>>|
                is_chain(relations@, p) && p[0] == from_id@ && p.last() == to_id@ {
            } else {
                if costs@[to as int] is Some {
                    let d = costs@[to as int]->0;
                    assert(is_distance(edges, from as int, to as int, d as int));
                    lemma_distance_is_chain_distance(relations@, from as int, to as int, d as int);
                    assert(false);
                }
            }
        }
        Ok(found)
    }

    /// Whether the relations hold a cycle.
    pub fn has_cycles(&self, relations: &Vec<DocumentRelation>) -> (r: bool)
        requires
            relations@.len() <= MAX_RELATIONS,
        ensures
            r == cyclic(relations@),
    {
        let (graph, _ids) = self.build_graph(relations);
        proof {
            lemma_cyclic_is_has_cycle(relations@);
        }
        graph_is_cyclic(&graph)
    }

    /// Node count, edge count, cycle flag and the degrees of every document.
    pub fn statistics(&self, relations: &Vec<DocumentRelation>) -> (stats: GraphStatistics)
        requires
            relations@.len() <= MAX_RELATIONS,
        ensures
            stats.node_count == node_ids(relations@).len(),
            stats.edge_count == relations@.len(),
            stats.has_cycles == cyclic(relations@),
            depth_views(stats.in_degrees@) == Seq::new(
                node_ids(relations@).len(),
                |i: int| (node_ids(relations@)[i], count_into(relations@, node_ids(relations@)[i]) as int),
            ),
            depth_views(stats.out_degrees@) == Seq::new(
                node_ids(relations@).len(),
                |i: int| (node_ids(relations@)[i], count_from(relations@, node_ids(relations@)[i]) as int),
            ),
    {
        let (graph, ids) = self.build_graph(relations);
        let ghost labels = node_ids(relations@);
        let node_count = graph_node_count(&graph);
        let edge_count = graph_edge_count(&graph);
        let mut in_degrees: Vec<(String, usize)> = Vec::new();
        let mut out_degrees: Vec<(String, usize)> = Vec::new();
        let mut node: usize = 0;
        proof {
            lemma_node_ids(relations@);
            lemma_edge_list_within(relations@);
        }
        while node < ids.len()
            invariant
                node <= ids.len(),
                labels == node_ids(relations@),
                labels == views(ids@),
                distinct(labels),
                graph_labels(graph) == labels,
                graph_edges(graph) == edge_list(relations@),
                depth_views(in_degrees@) == Seq::new(
                    node as nat,
                    |i: int| (labels[i], count_into(relations@, labels[i]) as int),
                ),
                depth_views(out_degrees@) == Seq::new(
                    node as nat,
                    |i: int| (labels[i], count_from(relations@, labels[i]) as int),
                ),
            decreases ids.len() - node,
        {
            let incoming = graph_predecessors(&graph, node);
            let outgoing = graph_successors(&graph, node);
            let ghost in_before = depth_views(in_degrees@);
            let ghost out_before = depth_views(out_degrees@);
            in_degrees.push((ids[node].clone(), incoming.len()));
            out_degrees.push((ids[node].clone(), outgoing.len()));
            proof {
                lemma_degrees(relations@, labels, node as int);
                assert(numbers(incoming@).len() == incoming@.len());
                assert(numbers(outgoing@).len() == outgoing@.len());
                assert(depth_views(in_degrees@) =~= in_before.push(
                    (labels[node as int], incoming@.len() as int),
                ));
                assert(depth_views(out_degrees@) =~= out_before.push(
                    (labels[node as int], outgoing@.len() as int),
                ));
                assert(depth_views(in_degrees@) =~= Seq::new(
                    (node + 1) as nat,
                    |i: int| (labels[i], count_into(relations@, labels[i]) as int),
                ));
                assert(depth_views(out_degrees@) =~= Seq::new(
                    (node + 1) as nat,
                    |i: int| (labels[i], count_from(relations@, labels[i]) as int),
                ));
            }
            node = node + 1;
        }
        proof {
            lemma_cyclic_is_has_cycle(relations@);
        }
        let has_cycles = graph_is_cyclic(&graph);
        GraphStatistics { node_count, edge_count, has_cycles, in_degrees, out_degrees }
    }
}


/// No node occurs twice in `seen`.
pub open spec fn distinct_nodes(seen: Seq<(int, int)>) -> bool {
    forall|i: int, j: int|
        0 <= i < j < seen.len() ==> (#[trigger] seen[i]).0 != (#[trigger] seen[j]).0
}

/// Depths never fall along `seen`.
pub open spec fn rising(seen: Seq<(int, int)>) -> bool {
    forall|i: int, j: int|
        0 <= i <= j < seen.len() ==> (#[trigger] seen[i]).1 <= (#[trigger] seen[j]).1
}

/// Along every edge between nodes of `seen` the depth grows by at most one.
pub open spec fn stepwise(edges: Seq<(int, int)>, seen: Seq<(int, int)>) -> bool {
    forall|i: int, j: int, k: int|
        0 <= i < seen.len() && 0 <= j < seen.len() && 0 <= k < edges.len() && #[trigger] edges[k]
            == ((#[trigger] seen[i]).0, (#[trigger] seen[j]).0) ==> seen[j].1 <= seen[i].1 + 1
}

/// `seen` holds the target of every edge that leaves one of its first
/// `upto` nodes.
pub open spec fn closed(edges: Seq<(int, int)>, seen: Seq<(int, int)>, upto: int) -> bool {
    forall|i: int, k: int|
        0 <= i < upto && i < seen.len() && 0 <= k < edges.len() && (#[trigger] edges[k]).0 == (
        #[trigger] seen[i]).0 ==> has_node(seen, edges[k].1)
}

/// The state of a search while the nodes at `depth` are expanded: the nodes
/// before `from` are nearer than `depth`, those from `from` up to `base` are
/// at `depth`, the later ones one deeper.
pub open spec fn in_layers(seen: Seq<(int, int)>, from: int, base: int, depth: int) -> bool {
    &&& 0 <= from <= base <= seen.len()
    &&& forall|i: int| 0 <= i < from ==> 0 <= (#[trigger] seen[i]).1 < depth
    &&& forall|i: int| from <= i < base ==> (#[trigger] seen[i]).1 == depth
    &&& forall|i: int| base <= i < seen.len() ==> (#[trigger] seen[i]).1 == depth + 1
    &&& distinct_nodes(seen)
}

proof fn lemma_has_node_push(seen: Seq<(int, int)>, entry: (int, int), v: int)
    ensures
        has_node(seen.push(entry), v) == (has_node(seen, v) || entry.0 == v),
{
    let grown = seen.push(entry);
    if has_node(seen, v) {
        let i = choose|i: int| 0 <= i < seen.len() && (#[trigger] seen[i]).0 == v;
        assert(grown[i].0 == v);
    }
    if entry.0 == v {
        assert(grown[seen.len() as int].0 == v);
    }
    if has_node(grown, v) {
        let i = choose|i: int| 0 <= i < grown.len() && (#[trigger] grown[i]).0 == v;
        if i < seen.len() {
            assert(seen[i].0 == v);
        }
    }
}

/// Absorbing successors of a node at `depth` keeps the layers, the closure
/// and the step bound, leaves what was seen where it was, and takes every
/// candidate in.
proof fn lemma_absorb(
    edges: Seq<(int, int)>,
    seen: Seq<(int, int)>,
    candidates: Seq<int>,
    from: int,
    base: int,
    depth: int,
    at: int,
)
    requires
        depth >= 0,
        in_layers(seen, from, base, depth),
        closed(edges, seen, from),
        stepwise(edges, seen),
        from <= at < base,
        forall|c: int|
            0 <= c < candidates.len() ==> has_edge(edges, seen[at].0, #[trigger] candidates[c]),
    ensures
        ({
            let after = absorb(seen, candidates, depth + 1);
            &&& in_layers(after, from, base, depth)
            &&& closed(edges, after, from)
            &&& stepwise(edges, after)
            &&& after.len() >= seen.len()
            &&& after.take(seen.len() as int) == seen
            &&& forall|c: int| 0 <= c < candidates.len() ==> has_node(after, #[trigger] candidates[c])
            &&& forall|v: int| has_node(seen, v) ==> has_node(after, v)
        }),
    decreases candidates.len(),
{
    let after = absorb(seen, candidates, depth + 1);
    if candidates.len() == 0 {
        assert(after.take(seen.len() as int) =~= seen);
    } else {
        let init = candidates.drop_last();
        let v = candidates.last();
        assert forall|c: int| 0 <= c < init.len() implies has_edge(
            edges,
            seen[at].0,
            #[trigger] init[c],
        ) by {
            assert(init[c] == candidates[c]);
        }
        lemma_absorb(edges, seen, init, from, base, depth, at);
        let before = absorb(seen, init, depth + 1);
        assert(before.take(seen.len() as int) == seen);
        assert forall|i: int| 0 <= i < seen.len() implies before[i] == seen[i] by {
            assert(before.take(seen.len() as int)[i] == before[i]);
        }
        if has_node(before, v) {
            assert forall|c: int| 0 <= c < candidates.len() implies has_node(
                after,
                #[trigger] candidates[c],
            ) by {
                if c < init.len() {
                    assert(init[c] == candidates[c]);
                }
            }
        } else {
            let entry = (v, depth + 1);
            assert(after == before.push(entry));
            assert(after.take(seen.len() as int) =~= seen);
            assert forall|x: int| has_node(before, x) implies has_node(after, x) by {
                lemma_has_node_push(before, entry, x);
            }
            assert(has_node(after, v)) by {
                lemma_has_node_push(before, entry, v);
            }
            assert(distinct_nodes(after)) by {
                assert forall|i: int, j: int| 0 <= i < j < after.len() implies (
                #[trigger] after[i]).0 != (#[trigger] after[j]).0 by {
                    if j == before.len() {
                        assert(after[i] == before[i]);
                        if before[i].0 == v {
                            assert(has_node(before, v));
                        }
                    } else {
                        assert(after[i] == before[i] && after[j] == before[j]);
                    }
                }
            }
            assert(in_layers(after, from, base, depth)) by {
                assert forall|i: int| 0 <= i < from implies 0 <= (#[trigger] after[i]).1 < depth by {
                    assert(after[i] == before[i]);
                }
                assert forall|i: int| from <= i < base implies (#[trigger] after[i]).1 == depth by {
                    assert(after[i] == before[i]);
                }
                assert forall|i: int| base <= i < after.len() implies (#[trigger] after[i]).1
                    == depth + 1 by {
                    if i < before.len() {
                        assert(after[i] == before[i]);
                    }
                }
            }
            assert(closed(edges, after, from)) by {
                assert forall|i: int, k: int|
                    0 <= i < from && i < after.len() && 0 <= k < edges.len() && (
                    #[trigger] edges[k]).0 == (#[trigger] after[i]).0 implies has_node(
                    after,
                    edges[k].1,
                ) by {
                    assert(after[i] == before[i]);
                    assert(has_node(before, edges[k].1));
                }
            }
            assert(stepwise(edges, after)) by {
                assert forall|i: int, j: int, k: int|
                    0 <= i < after.len() && 0 <= j < after.len() && 0 <= k < edges.len()
                        && #[trigger] edges[k] == ((#[trigger] after[i]).0, (
                    #[trigger] after[j]).0) implies after[j].1 <= after[i].1 + 1 by {
                    if i < before.len() && j < before.len() {
                        assert(after[i] == before[i] && after[j] == before[j]);
                    } else if j == before.len() && i < before.len() {
                        assert(after[i] == before[i]);
                        if i < from {
                            assert(edges[k].0 == before[i].0);
                            assert(has_node(before, edges[k].1));
                        }
                    } else {
                        if j < before.len() {
                            assert(after[j] == before[j]);
                        }
                    }
                }
            }
            assert forall|c: int| 0 <= c < candidates.len() implies has_node(
                after,
                #[trigger] candidates[c],
            ) by {
                if c < init.len() {
                    assert(init[c] == candidates[c]);
                    assert(has_node(before, init[c]));
                }
            }
        }
    }
}

/// Expanding the nodes at `depth` from position `from` up to `to` keeps the
/// layers and the step bound and closes `seen` under the edges of all nodes
/// before `to`.
proof fn lemma_expand(edges: Seq<(int, int)>, seen: Seq<(int, int)>, from: int, to: int, depth: int)
    requires
        depth >= 0,
        in_layers(seen, from, seen.len() as int, depth),
        closed(edges, seen, from),
        stepwise(edges, seen),
        from <= to <= seen.len(),
    ensures
        ({
            let after = expand(edges, seen, from, to, depth + 1);
            &&& in_layers(after, from, seen.len() as int, depth)
            &&& closed(edges, after, to)
            &&& stepwise(edges, after)
            &&& after.len() >= seen.len()
            &&& after.take(seen.len() as int) == seen
        }),
    decreases to - from,
{
    let after = expand(edges, seen, from, to, depth + 1);
    if to <= from {
        assert(after.take(seen.len() as int) =~= seen);
    } else {
        lemma_expand(edges, seen, from, to - 1, depth);
        let before = expand(edges, seen, from, to - 1, depth + 1);
        let node = seen[to - 1].0;
        let candidates = successors_of(edges, node);
        lemma_successors(edges, node);
        assert(before.take(seen.len() as int)[to - 1] == before[to - 1]);
        assert(before[to - 1] == seen[to - 1]);
        assert(closed(edges, before, from)) by {
            assert forall|i: int, k: int|
                0 <= i < from && i < before.len() && 0 <= k < edges.len() && (
                #[trigger] edges[k]).0 == (#[trigger] before[i]).0 implies has_node(
                before,
                edges[k].1,
            ) by {}
        }
        lemma_absorb(edges, before, candidates, from, seen.len() as int, depth, to - 1);
        assert(after.take(seen.len() as int) =~= seen) by {
            assert forall|i: int| 0 <= i < seen.len() implies after[i] == seen[i] by {
                assert(after.take(before.len() as int)[i] == after[i]);
                assert(before.take(seen.len() as int)[i] == before[i]);
            }
        }
        assert(closed(edges, after, to)) by {
            assert forall|i: int, k: int|
                0 <= i < to && i < after.len() && 0 <= k < edges.len() && (#[trigger] edges[k]).0
                    == (#[trigger] after[i]).0 implies has_node(after, edges[k].1) by {
                assert(after.take(before.len() as int)[i] == after[i]);
                if i < to - 1 {
                    assert(has_node(before, edges[k].1));
                } else {
                    assert(after[i].0 == node);
                    assert(candidates.contains(edges[k].1));
                    let c = choose|c: int| 0 <= c < candidates.len() && candidates[c] == edges[k].1;
                    assert(has_node(after, candidates[c]));
                }
            }
        }
    }
}

/// Every node but the first is deeper than 0.
pub open spec fn below_start(seen: Seq<(int, int)>) -> bool {
    forall|i: int| 1 <= i < seen.len() ==> (#[trigger] seen[i]).1 >= 1
}

/// What holds of a finished search.
pub open spec fn searched(edges: Seq<(int, int)>, order: Seq<(int, int)>, start: int, max_depth: int) -> bool {
    &&& order.len() >= 1
    &&& order[0] == (start, 0int)
    &&& below_start(order)
    &&& distinct_nodes(order)
    &&& rising(order)
    &&& forall|i: int| 0 <= i < order.len() ==> 0 <= (#[trigger] order[i]).1 <= max_depth
    &&& stepwise(edges, order)
    &&& forall|i: int, k: int|
        0 <= i < order.len() && 0 <= k < edges.len() && (#[trigger] order[i]).1 < max_depth && (
        #[trigger] edges[k]).0 == order[i].0 ==> has_node(order, edges[k].1)
}

proof fn lemma_bfs_levels(
    edges: Seq<(int, int)>,
    seen: Seq<(int, int)>,
    from: int,
    depth: int,
    max_depth: int,
    start: int,
)
    requires
        0 <= depth <= max_depth,
        seen.len() >= 1,
        seen[0] == (start, 0int),
        in_layers(seen, from, seen.len() as int, depth),
        rising(seen),
        below_start(seen),
        closed(edges, seen, from),
        stepwise(edges, seen),
    ensures
        searched(edges, bfs_levels(edges, seen, from, depth, max_depth), start, max_depth),
    decreases max_depth - depth,
{
    if depth >= max_depth || from >= seen.len() {
        assert forall|i: int, k: int|
            0 <= i < seen.len() && 0 <= k < edges.len() && (#[trigger] seen[i]).1 < max_depth && (
            #[trigger] edges[k]).0 == seen[i].0 implies has_node(seen, edges[k].1) by {
            if i >= from {
                assert(seen[i].1 == depth);
            }
        }
    } else {
        let next = expand(edges, seen, from, seen.len() as int, depth + 1);
        lemma_expand(edges, seen, from, seen.len() as int, depth);
        assert forall|i: int| 0 <= i < seen.len() implies next[i] == seen[i] by {
            assert(next.take(seen.len() as int)[i] == next[i]);
        }
        assert(in_layers(next, seen.len() as int, next.len() as int, depth + 1)) by {
            assert forall|i: int| 0 <= i < seen.len() implies 0 <= (#[trigger] next[i]).1 < depth
                + 1 by {
                if i < from {
                } else {
                    assert(next[i].1 == depth);
                }
            }
        }
        assert(rising(next)) by {
            assert forall|i: int, j: int| 0 <= i <= j < next.len() implies (#[trigger] next[i]).1
                <= (#[trigger] next[j]).1 by {
                if j < seen.len() {
                    assert(seen[i].1 <= seen[j].1);
                } else if i < seen.len() {
                    assert(next[j].1 == depth + 1);
                    if i < from {
                    } else {
                        assert(next[i].1 == depth);
                    }
                }
            }
        }
        assert(below_start(next)) by {
            assert forall|i: int| 1 <= i < next.len() implies (#[trigger] next[i]).1 >= 1 by {
                if i < seen.len() {
                    assert(seen[i].1 >= 1);
                } else {
                    assert(next[i].1 == depth + 1);
                }
            }
        }
        lemma_bfs_levels(edges, next, seen.len() as int, depth + 1, max_depth, start);
    }
}

/// A breadth-first search begins with its start at depth 0, which no other
/// node has. It finds no node twice and none deeper than the limit, finds
/// nearer nodes first, and finds
/// every node that an edge reaches from a node above the limit. The depth is
/// monotone along every edge between nodes that were found: the target is at
/// most one deeper than the source.
pub proof fn lemma_bfs_depths(edges: Seq<(int, int)>, start: int, max_depth: int)
    requires
        max_depth >= 0,
    ensures
        searched(edges, bfs(edges, start, max_depth), start, max_depth),
{
    let seen = seq![(start, 0int)];
    assert(stepwise(edges, seen));
    assert(closed(edges, seen, 0));
    lemma_bfs_levels(edges, seen, 0, 0, max_depth, start);
}


/// Every node of `seen` has a number from 0 up to `n`.
pub open spec fn bounded(seen: Seq<(int, int)>, n: int) -> bool {
    forall|i: int| 0 <= i < seen.len() ==> 0 <= (#[trigger] seen[i]).0 < n
}

proof fn lemma_absorb_bounded(seen: Seq<(int, int)>, candidates: Seq<int>, depth: int, n: int)
    requires
        bounded(seen, n),
        forall|c: int| 0 <= c < candidates.len() ==> 0 <= #[trigger] candidates[c] < n,
    ensures
        bounded(absorb(seen, candidates, depth), n),
    decreases candidates.len(),
{
    if candidates.len() > 0 {
        let init = candidates.drop_last();
        assert forall|c: int| 0 <= c < init.len() implies 0 <= #[trigger] init[c] < n by {
            assert(init[c] == candidates[c]);
        }
        lemma_absorb_bounded(seen, init, depth, n);
        let before = absorb(seen, init, depth);
        let after = absorb(seen, candidates, depth);
        assert forall|i: int| 0 <= i < after.len() implies 0 <= (#[trigger] after[i]).0 < n by {
            if i < before.len() {
                assert(after[i] == before[i]);
            } else {
                assert(after[i].0 == candidates[candidates.len() - 1]);
            }
        }
    }
}

proof fn lemma_expand_bounded(
    edges: Seq<(int, int)>,
    seen: Seq<(int, int)>,
    from: int,
    to: int,
    depth: int,
    n: int,
)
    requires
        edges_within(edges, n),
        bounded(seen, n),
        0 <= from,
        to <= seen.len(),
    ensures
        bounded(expand(edges, seen, from, to, depth), n),
    decreases to - from,
{
    if to > from {
        lemma_expand_bounded(edges, seen, from, to - 1, depth, n);
        let node = seen[to - 1].0;
        let candidates = successors_of(edges, node);
        lemma_successors(edges, node);
        assert forall|c: int| 0 <= c < candidates.len() implies 0 <= #[trigger] candidates[c]
            < n by {
            assert(has_edge(edges, node, candidates[c]));
            let k = choose|k: int| 0 <= k < edges.len() && #[trigger] edges[k] == (node, candidates[c]);
            assert(0 <= edges[k].1 < n);
        }
        lemma_absorb_bounded(expand(edges, seen, from, to - 1, depth), candidates, depth, n);
    }
}

proof fn lemma_bfs_levels_bounded(
    edges: Seq<(int, int)>,
    seen: Seq<(int, int)>,
    from: int,
    depth: int,
    max_depth: int,
    n: int,
)
    requires
        edges_within(edges, n),
        bounded(seen, n),
        0 <= from,
    ensures
        bounded(bfs_levels(edges, seen, from, depth, max_depth), n),
    decreases max_depth - depth,
{
    if !(depth >= max_depth || from >= seen.len()) {
        lemma_expand_bounded(edges, seen, from, seen.len() as int, depth + 1, n);
        lemma_bfs_levels_bounded(
            edges,
            expand(edges, seen, from, seen.len() as int, depth + 1),
            seen.len() as int,
            depth + 1,
            max_depth,
            n,
        );
    }
}

/// A search over edges between the first `n` nodes that starts at one of
/// them finds only such nodes.
pub proof fn lemma_bfs_bounded(edges: Seq<(int, int)>, start: int, max_depth: int, n: int)
    requires
        edges_within(edges, n),
        0 <= start < n,
    ensures
        bounded(bfs(edges, start, max_depth), n),
{
    lemma_bfs_levels_bounded(edges, seq![(start, 0int)], 0, 0, max_depth, n);
}

/// The first entry of a key is found by `depth_in`, and a key that is found
/// has an entry.
proof fn lemma_depth_in(map: Seq<(Seq<char>, int)>, id: Seq<char>)
    ensures
        depth_in(map, id) is Some ==> exists|i: int|
            0 <= i < map.len() && #[trigger] map[i] == (id, depth_in(map, id)->0),
        depth_in(map, id) is None ==> forall|i: int| 0 <= i < map.len() ==> (#[trigger] map[i]).0
            != id,
    decreases map.len(),
{
    if map.len() > 0 {
        if map[0].0 == id {
            assert(map[0] == (id, depth_in(map, id)->0));
        } else {
            let rest = map.drop_first();
            lemma_depth_in(rest, id);
            if depth_in(rest, id) is Some {
                let i = choose|i: int|
                    0 <= i < rest.len() && #[trigger] rest[i] == (id, depth_in(rest, id)->0);
                assert(map[i + 1] == rest[i]);
            } else {
                assert forall|i: int| 0 <= i < map.len() implies (#[trigger] map[i]).0 != id by {
                    if i > 0 {
                        assert(map[i] == rest[i - 1]);
                    }
                }
            }
        }
    }
}

/// The depths of a traversal are monotone along the relations it followed:
/// the start has depth 0; a followed relation between two visited documents
/// leads at most one level down; and a followed relation that leaves a
/// document above the depth limit leads to a visited document.
pub proof fn lemma_traversal_depths(
    relations: Seq<DocumentRelation>,
    kept: Seq<DocumentRelation>,
    start: Seq<char>,
    max_depth: int,
    t: TraversalResult,
)
    requires
        max_depth >= 0,
        traversal_of(relations, kept, start, max_depth, t),
    ensures
        position(node_ids(kept), start) >= 0 || position(node_ids(relations), start) >= 0
            ==> depth_in(depth_views(t.depth_map@), start) == Some(0int),
        forall|k: int|
            0 <= k < kept.len() ==> {
                let from = depth_in(depth_views(t.depth_map@), (#[trigger] kept[k]).source_id@);
                let to = depth_in(depth_views(t.depth_map@), kept[k].target_id@);
                &&& (from is Some && to is Some ==> to->0 <= from->0 + 1)
                &&& (from is Some && from->0 < max_depth ==> to is Some)
            },
        forall|id: Seq<char>| #[trigger]
            depth_in(depth_views(t.depth_map@), id) is Some ==> 0 <= depth_in(
                depth_views(t.depth_map@),
                id,
            )->0 <= max_depth,
        forall|id: Seq<char>| #[trigger]
            depth_in(depth_views(t.depth_map@), id) == Some(0int) ==> id == start,
{
    let ids = node_ids(kept);
    let edges = edge_list(kept);
    let s = position(ids, start);
    let map = depth_views(t.depth_map@);
    lemma_node_ids(kept);
    lemma_edge_list_within(kept);
    if s < 0 {
        if position(node_ids(relations), start) >= 0 {
            // only the start is visited, and no followed relation names it
            assert(map[0] == (start, 0int));
            assert(map.drop_first() =~= Seq::<(Seq<char>, int)>::empty());
            assert forall|id: Seq<char>| #[trigger] depth_in(map, id) is Some implies id == start
                && depth_in(map, id) == Some(0int) by {
                lemma_depth_in(map, id);
            }
            assert forall|k: int| 0 <= k < kept.len() implies depth_in(
                map,
                (#[trigger] kept[k]).source_id@,
            ) is None && depth_in(map, kept[k].target_id@) is None by {
                lemma_depth_in(map, kept[k].source_id@);
                lemma_depth_in(map, kept[k].target_id@);
            }
        } else {
            assert(map.len() == 0);
        }
    } else {
        let order = bfs(edges, s, max_depth);
        lemma_position(ids, start);
        lemma_bfs_depths(edges, s, max_depth);
        lemma_bfs_bounded(edges, s, max_depth, ids.len() as int);
        assert(map.len() == order.len());
        assert forall|i: int| 0 <= i < map.len() implies #[trigger] map[i] == (
            ids[order[i].0],
            order[i].1,
        ) by {}
        assert(map[0] == (start, 0int));
        assert forall|id: Seq<char>| #[trigger] depth_in(map, id) == Some(0int) implies id
            == start by {
            lemma_depth_in(map, id);
            let i = choose|i: int| 0 <= i < map.len() && #[trigger] map[i] == (id, 0int);
            if i >= 1 {
                assert(order[i].1 >= 1);
            }
        }
        assert forall|id: Seq<char>| #[trigger] depth_in(map, id) is Some implies 0 <= depth_in(
            map,
            id,
        )->0 <= max_depth by {
            lemma_depth_in(map, id);
            let i = choose|i: int| 0 <= i < map.len() && #[trigger] map[i] == (id, depth_in(map, id)->0);
            assert(0 <= order[i].1 <= max_depth);
        }
        assert forall|k: int| 0 <= k < kept.len() implies {
            let from = depth_in(map, (#[trigger] kept[k]).source_id@);
            let to = depth_in(map, kept[k].target_id@);
            &&& (from is Some && to is Some ==> to->0 <= from->0 + 1)
            &&& (from is Some && from->0 < max_depth ==> to is Some)
        } by {
            let a = kept[k].source_id@;
            let b = kept[k].target_id@;
            let from = depth_in(map, a);
            let to = depth_in(map, b);
            lemma_depth_in(map, a);
            lemma_depth_in(map, b);
            lemma_position(ids, a);
            lemma_position(ids, b);
            assert(edges[k] == (position(ids, a), position(ids, b)));
            if from is Some {
                let i = choose|i: int| 0 <= i < map.len() && #[trigger] map[i] == (a, from->0);
                assert(0 <= order[i].0 < ids.len());
                lemma_position_of_member(ids, order[i].0);
                assert(order[i].0 == position(ids, a));
                if to is Some {
                    let j = choose|j: int| 0 <= j < map.len() && #[trigger] map[j] == (b, to->0);
                    assert(0 <= order[j].0 < ids.len());
                    lemma_position_of_member(ids, order[j].0);
                    assert(edges[k] == (order[i].0, order[j].0));
                }
                if from->0 < max_depth {
                    assert(order[i].1 < max_depth && edges[k].0 == order[i].0);
                    assert(has_node(order, edges[k].1));
                    let j = choose|j: int| 0 <= j < order.len() && (#[trigger] order[j]).0 == edges[k].1;
                    assert(map[j].0 == ids[order[j].0]);
                    assert(map[j].0 == b);
                }
            }
        }
        lemma_depth_in(map, start);
        if depth_in(map, start) is Some {
            // the first entry for the start is the entry at depth 0
            assert(map.len() > 0);
        }
    }
}

} // verus!
