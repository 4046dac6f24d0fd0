use spanning_tree::kruskal::find;
use spanning_tree::kruskal::make_set;
use spanning_tree::kruskal::transform_edges;
use spanning_tree::kruskal::transform_vertices;
use spanning_tree::kruskal::union;
use spanning_tree::kruskal::Kruskal;
use spanning_tree::kruskal::Node;
use spanning_tree::kruskal::NoddedEdge;
use spanning_tree::prim::Prim;
use spanning_tree::solv::Edge;
use spanning_tree::solv::Network;
use spanning_tree::solv::Solver;
use spanning_tree::solv::VerticeId;
use std::collections::HashSet;

fn triples(network: &Network) -> Vec<(usize, usize, usize)> {
    network.edges().iter().map(|e| (e.u.id, e.v.id, e.weight)).collect()
}

fn graph(list: &[(usize, usize, usize)]) -> Network {
    let mut network = Network::default();
    for (u, v, w) in list {
        network.insert_edge(Edge::new(*u, *v, *w));
    }
    network
}

#[test]
fn triangle_both_solvers() {
    let network = graph(&[(0, 1, 1), (1, 2, 2), (0, 2, 3)]);
    let kruskal = Kruskal::solve(network.clone());
    assert_eq!(triples(&kruskal), vec![(0, 1, 1), (1, 2, 2)]);
    assert_eq!(kruskal.cost(), 3);
    let prim = Prim::solve(network.clone());
    assert_eq!(triples(&prim), vec![(0, 1, 1), (1, 2, 2)]);
    assert_eq!(prim.cost(), 3);
    // the input is left as it was
    assert_eq!(triples(&network), vec![(0, 1, 1), (1, 2, 2), (0, 2, 3)]);
}

#[test]
fn two_disjoint_edges() {
    let network = graph(&[(0, 1, 5), (2, 3, 7)]);
    let kruskal = Kruskal::solve(network.clone());
    assert_eq!(triples(&kruskal), vec![(0, 1, 5), (2, 3, 7)]);
    assert_eq!(kruskal.cost(), 12);
    assert_eq!(kruskal.edges().len(), 2);
    assert_eq!(network.vertices_set().len(), 4);
    let prim = Prim::solve(network);
    assert_eq!(triples(&prim), vec![(0, 1, 5)]);
}

#[test]
fn kruskal_on_empty_network() {
    let tree = Kruskal::solve(Network::default());
    assert!(tree.edges().is_empty());
    assert_eq!(tree.cost(), 0);
}

#[test]
fn prim_reaches_across_the_second_end() {
    // B is reached from C, the second end of the edge B-C.
    let network = graph(&[(0, 2, 1), (1, 2, 1)]);
    let prim = Prim::solve(network.clone());
    assert_eq!(triples(&prim), vec![(0, 2, 1), (1, 2, 1)]);
    let kruskal = Kruskal::solve(network);
    assert_eq!(triples(&kruskal), vec![(0, 2, 1), (1, 2, 1)]);
}

#[test]
fn kruskal_follows_parents_to_the_root() {
    // Two pairs are joined first, then the pairs; the last edge would close a cycle
    // between vertices whose nodes stand two steps below their root.
    let network = graph(&[(0, 1, 1), (2, 3, 2), (1, 3, 3), (0, 2, 4), (1, 2, 5)]);
    let kruskal = Kruskal::solve(network.clone());
    assert_eq!(triples(&kruskal), vec![(0, 1, 1), (2, 3, 2), (1, 3, 3)]);
    assert_eq!(kruskal.cost(), 6);
    let prim = Prim::solve(network);
    assert_eq!(triples(&prim), vec![(0, 1, 1), (1, 3, 3), (2, 3, 2)]);
    assert_eq!(prim.cost(), 6);
}

#[test]
fn solvers_agree_on_cost_and_size() {
    let network = graph(&[
        (0, 1, 7), (0, 3, 5), (1, 2, 8), (1, 3, 9), (1, 4, 7), (2, 4, 5),
        (3, 4, 15), (3, 5, 6), (4, 5, 8), (4, 6, 9), (5, 6, 11),
    ]);
    let kruskal = Kruskal::solve(network.clone());
    let prim = Prim::solve(network.clone());
    assert_eq!(kruskal.cost(), 39);
    assert_eq!(prim.cost(), 39);
    assert_eq!(kruskal.edges().len(), 6);
    assert_eq!(prim.edges().len(), 6);
    assert_eq!(network.vertices_set().len(), 7);
}

#[test]
fn solvers_skip_loops_and_heavier_twins() {
    let network = graph(&[(0, 0, 1), (0, 1, 9), (0, 1, 2), (1, 1, 0)]);
    let kruskal = Kruskal::solve(network.clone());
    assert_eq!(triples(&kruskal), vec![(0, 1, 2)]);
    let prim = Prim::solve(network);
    assert_eq!(triples(&prim), vec![(0, 1, 2)]);
}

#[test]
fn prim_takes_the_first_of_equal_edges() {
    let network = graph(&[(0, 2, 4), (0, 1, 4), (1, 2, 4)]);
    let prim = Prim::solve(network);
    assert_eq!(triples(&prim), vec![(0, 2, 4), (0, 1, 4)]);
}

#[test]
fn find_cheaper_edge_picks_the_cheapest_crossing() {
    let edges = vec![Edge::new(0, 1, 9), Edge::new(1, 2, 1), Edge::new(0, 2, 3), Edge::new(0, 3, 3)];
    let mut visited: HashSet<usize> = HashSet::new();
    visited.insert(0);
    let found = Prim::find_cheaper_edge(&visited, &edges).unwrap();
    assert_eq!((found.u.id, found.v.id, found.weight), (0, 2, 3));
    visited.insert(2);
    let found = Prim::find_cheaper_edge(&visited, &edges).unwrap();
    assert_eq!((found.u.id, found.v.id, found.weight), (1, 2, 1));
    visited.insert(1);
    visited.insert(3);
    assert!(Prim::find_cheaper_edge(&visited, &edges).is_none());
    assert!(Prim::find_cheaper_edge(&HashSet::new(), &edges).is_none());
}

#[test]
fn union_by_rank() {
    let mut nodes: Vec<Node> = transform_vertices(vec![
        VerticeId::new(0),
        VerticeId::new(1),
        VerticeId::new(2),
        VerticeId::new(3),
    ]);
    for i in 0..4 {
        assert_eq!(find(&nodes, i), i);
        assert_eq!(nodes[i].rank, 0);
        assert!(nodes[i].parent.is_none());
        assert_eq!(nodes[i].vertice.id, i);
    }
    union(&mut nodes, 0, 1);
    assert_eq!(find(&nodes, 1), 0);
    assert_eq!(nodes[0].rank, 1);
    assert_eq!(nodes[1].parent, Some(0));
    union(&mut nodes, 2, 3);
    assert_eq!(find(&nodes, 3), 2);
    // equal ranks: the root of the second goes under the root of the first
    union(&mut nodes, 3, 1);
    assert_eq!(nodes[0].parent, Some(2));
    assert_eq!(nodes[2].rank, 2);
    for i in 0..4 {
        assert_eq!(find(&nodes, i), 2);
    }
    // already one set: nothing changes
    union(&mut nodes, 0, 3);
    assert_eq!(nodes[2].rank, 2);
    assert!(nodes[2].parent.is_none());
}

#[test]
fn union_puts_the_lower_rank_below() {
    let mut nodes: Vec<Node> =
        transform_vertices(vec![VerticeId::new(4), VerticeId::new(5), VerticeId::new(6)]);
    union(&mut nodes, 1, 2);
    assert_eq!(nodes[1].rank, 1);
    union(&mut nodes, 0, 2);
    assert_eq!(nodes[0].parent, Some(1));
    assert_eq!(nodes[1].rank, 1);
    assert_eq!(find(&nodes, 0), 1);
}

#[test]
fn make_set_is_alone() {
    let node = make_set(VerticeId::new(8));
    assert_eq!(node.vertice.id, 8);
    assert!(node.parent.is_none());
    assert_eq!(node.rank, 0);
    let node = Node::new(VerticeId::new(9));
    assert_eq!(node.vertice.id, 9);
    assert!(node.parent.is_none());
    assert_eq!(node.rank, 0);
}

#[test]
fn nodded_edges_point_at_their_nodes() {
    let nodes = transform_vertices(vec![VerticeId::new(2), VerticeId::new(5), VerticeId::new(9)]);
    let nodded = NoddedEdge::from_edge(Edge::new(9, 2, 4), &nodes);
    assert_eq!((nodded.u, nodded.v, nodded.weight), (0, 2, 4));
    assert_eq!(nodded.raw_edge.to_string(), "C<-4->J");
    let loop_edge = NoddedEdge::from_edge(Edge::new(5, 5, 1), &nodes);
    assert_eq!((loop_edge.u, loop_edge.v), (1, 1));
}

#[test]
fn transform_edges_sorts_by_weight() {
    let nodes = transform_vertices(vec![VerticeId::new(2), VerticeId::new(5), VerticeId::new(9)]);
    let all = transform_edges(vec![Edge::new(5, 9, 3), Edge::new(2, 5, 1)], &nodes);
    assert_eq!(all.len(), 2);
    assert_eq!((all[0].u, all[0].v, all[0].weight), (0, 1, 1));
    assert_eq!((all[1].u, all[1].v, all[1].weight), (1, 2, 3));
    assert_eq!(all[0].raw_edge.to_string(), "C<-1->F");
    assert_eq!(all[1].raw_edge.to_string(), "F<-3->J");
}

#[test]
fn transform_edges_keeps_the_order_of_equal_weights() {
    let nodes = transform_vertices(vec![
        VerticeId::new(0),
        VerticeId::new(1),
        VerticeId::new(2),
        VerticeId::new(3),
    ]);
    let edges = vec![
        Edge::new(2, 3, 5),
        Edge::new(0, 1, 7),
        Edge::new(1, 2, 5),
        Edge::new(0, 3, 1),
        Edge::new(0, 2, 5),
        Edge::new(1, 3, 7),
        Edge::new(0, 1, 5),
    ];
    let all = transform_edges(edges, &nodes);
    let got: Vec<(usize, usize, usize)> = all.iter().map(|n| (n.u, n.v, n.weight)).collect();
    assert_eq!(
        got,
        vec![(0, 3, 1), (2, 3, 5), (1, 2, 5), (0, 2, 5), (0, 1, 5), (0, 1, 7), (1, 3, 7)]
    );
    for nodded in &all {
        assert_eq!(nodded.weight, nodded.raw_edge.weight);
        assert_eq!(nodded.u, nodded.raw_edge.u.id);
        assert_eq!(nodded.v, nodded.raw_edge.v.id);
    }
}

#[test]
fn transform_edges_leaves_an_ascending_list_as_it_is() {
    let nodes = transform_vertices(vec![VerticeId::new(0), VerticeId::new(1), VerticeId::new(2)]);
    let edges = vec![Edge::new(1, 2, 1), Edge::new(0, 1, 1), Edge::new(0, 2, 4), Edge::new(0, 1, 9)];
    let all = transform_edges(edges, &nodes);
    let got: Vec<(usize, usize, usize)> = all.iter().map(|n| (n.u, n.v, n.weight)).collect();
    assert_eq!(got, vec![(1, 2, 1), (0, 1, 1), (0, 2, 4), (0, 1, 9)]);
}
