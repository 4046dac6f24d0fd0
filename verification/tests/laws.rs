use spanning_tree::kruskal::Kruskal;
use spanning_tree::prim::Prim;
use spanning_tree::solv::Edge;
use spanning_tree::solv::Network;
use spanning_tree::solv::Solver;
use spanning_tree::solv::VerticeId;

struct Dice(u64);

impl Dice {
    fn roll(&mut self, sides: usize) -> usize {
        self.0 = self.0.wrapping_mul(6364136223846793005).wrapping_add(1442695040888963407);
        ((self.0 >> 33) as usize) % sides
    }
}

fn network_of(list: &[(usize, usize, usize)]) -> Network {
    let mut network = Network::default();
    for (u, v, w) in list {
        network.insert_edge(Edge::new(*u, *v, *w));
    }
    network
}

fn root(parents: &mut Vec<usize>, x: usize) -> usize {
    let mut r = x;
    while parents[r] != r {
        r = parents[r];
    }
    parents[x] = r;
    r
}

/// The number of components that the chosen edges leave among the vertices below `n`.
fn components(n: usize, edges: &[(usize, usize, usize)]) -> usize {
    let mut parents: Vec<usize> = (0..n).collect();
    let mut count = n;
    for (u, v, _) in edges {
        let a = root(&mut parents, *u);
        let b = root(&mut parents, *v);
        if a != b {
            parents[a] = b;
            count -= 1;
        }
    }
    count
}

/// The least weight of a choice of edges that leaves as few components as all edges do.
fn least_weight(n: usize, edges: &[(usize, usize, usize)]) -> usize {
    let goal = components(n, edges);
    let mut best = usize::MAX;
    for mask in 0u32..(1u32 << edges.len()) {
        let chosen: Vec<(usize, usize, usize)> = edges
            .iter()
            .enumerate()
            .filter(|(i, _)| mask & (1 << i) != 0)
            .map(|(_, e)| *e)
            .collect();
        if components(n, &chosen) == goal {
            let weight: usize = chosen.iter().map(|e| e.2).sum();
            if weight < best {
                best = weight;
            }
        }
    }
    best
}

fn random_graph(dice: &mut Dice, n: usize, extra: usize, connect: bool) -> Vec<(usize, usize, usize)> {
    let mut edges = Vec::new();
    if connect {
        for v in 1..n {
            let u = dice.roll(v);
            edges.push((u, v, dice.roll(9)));
        }
    }
    for _ in 0..extra {
        let u = dice.roll(n);
        let v = dice.roll(n);
        edges.push((u.min(v), u.max(v), dice.roll(9)));
    }
    // shuffle
    for i in (1..edges.len()).rev() {
        let j = dice.roll(i + 1);
        edges.swap(i, j);
    }
    edges
}

#[test]
fn connected_graphs_both_trees_are_lightest() {
    let mut dice = Dice(7);
    for round in 0..300 {
        let n = 2 + round % 5;
        let extra = dice.roll(6);
        let edges = random_graph(&mut dice, n, extra, true);
        let mut network = network_of(&edges);
        network.remove_duplicate();
        assert_eq!(network.vertices_set().len(), n);
        let kruskal = Kruskal::solve(network.clone());
        let prim = Prim::solve(network.clone());
        let least = least_weight(n, &edges);
        assert_eq!(kruskal.cost(), least);
        assert_eq!(prim.cost(), least);
        assert_eq!(kruskal.edges().len(), n - 1);
        assert_eq!(prim.edges().len(), n - 1);
    }
}

#[test]
fn any_graph_kruskal_forest_is_lightest() {
    let mut dice = Dice(11);
    for round in 0..300 {
        let n = 2 + round % 6;
        let extra = 1 + dice.roll(7);
        let edges = random_graph(&mut dice, n, extra, false);
        let network = network_of(&edges);
        let kruskal = Kruskal::solve(network.clone());
        let tree: Vec<(usize, usize, usize)> =
            kruskal.edges().iter().map(|e| (e.u.id, e.v.id, e.weight)).collect();
        assert_eq!(kruskal.cost(), least_weight(n, &edges));
        assert_eq!(components(n, &tree), components(n, &edges));
        assert_eq!(tree.len(), n - components(n, &edges));
        for edge in &tree {
            assert!(edges.contains(edge));
        }
    }
}

#[test]
fn any_graph_prim_tree_covers_the_first_component() {
    let mut dice = Dice(13);
    for round in 0..300 {
        let n = 2 + round % 6;
        let extra = 1 + dice.roll(7);
        let edges = random_graph(&mut dice, n, extra, false);
        let network = network_of(&edges);
        let first = network.vertices_sorted()[0].id;
        let prim = Prim::solve(network.clone());
        let tree: Vec<(usize, usize, usize)> =
            prim.edges().iter().map(|e| (e.u.id, e.v.id, e.weight)).collect();
        // the vertices that the graph connects with the first one
        let mut parents: Vec<usize> = (0..n).collect();
        for (u, v, _) in &edges {
            let a = root(&mut parents, *u);
            let b = root(&mut parents, *v);
            parents[a] = b;
        }
        let home = root(&mut parents, first);
        let inside: Vec<usize> = (0..n).filter(|x| root(&mut parents, *x) == home).collect();
        let within: Vec<(usize, usize, usize)> =
            edges.iter().filter(|e| inside.contains(&e.0)).cloned().collect();
        // the tree lies in that component, reaches all of it, and is the lightest to do so
        for edge in &tree {
            assert!(within.contains(edge));
        }
        assert_eq!(tree.len(), inside.len() - 1);
        assert_eq!(components(n, &tree), n - (inside.len() - 1));
        let weight: usize = tree.iter().map(|e| e.2).sum();
        assert_eq!(weight, least_weight(n, &within));
    }
}

#[test]
fn disconnected_graph_of_three_components() {
    let network = network_of(&[(4, 5, 2), (1, 2, 9), (0, 1, 3), (0, 2, 4), (7, 8, 1), (5, 6, 2), (4, 6, 2)]);
    let kruskal = Kruskal::solve(network.clone());
    assert_eq!(kruskal.cost(), 1 + 2 + 2 + 3 + 4);
    assert_eq!(kruskal.edges().len(), 5);
    assert_eq!(network.vertices_set().len(), 8);
    let prim = Prim::solve(network);
    let tree: Vec<(usize, usize, usize)> =
        prim.edges().iter().map(|e| (e.u.id, e.v.id, e.weight)).collect();
    assert_eq!(tree, vec![(0, 1, 3), (0, 2, 4)]);
}

#[test]
fn stored_ends_are_in_order_whatever_is_passed() {
    let mut dice = Dice(17);
    for _ in 0..500 {
        let u = dice.roll(200);
        let v = dice.roll(200);
        let edge = Edge::from_vertices(VerticeId::new(u), VerticeId::new(v), 1);
        assert!(edge.u.id <= edge.v.id);
        assert_eq!(edge.u.id, u.min(v));
        assert_eq!(edge.v.id, u.max(v));
        let edge = Edge::new(u, v, 1);
        assert!(edge.u <= edge.v);
    }
}

#[test]
fn remove_duplicate_is_idempotent() {
    let mut dice = Dice(19);
    for _ in 0..200 {
        let edges = random_graph(&mut dice, 4, 12, false);
        let mut network = network_of(&edges);
        network.remove_duplicate();
        let once: Vec<(usize, usize, usize)> =
            network.edges().iter().map(|e| (e.u.id, e.v.id, e.weight)).collect();
        network.remove_duplicate();
        let twice: Vec<(usize, usize, usize)> =
            network.edges().iter().map(|e| (e.u.id, e.v.id, e.weight)).collect();
        assert_eq!(once, twice);
        let mut sorted = once.clone();
        sorted.sort();
        sorted.dedup();
        assert_eq!(sorted.len(), once.len());
        for edge in &edges {
            assert!(once.contains(edge));
        }
    }
}

#[test]
fn edges_sorted_agrees_with_a_sort_of_triples() {
    let mut dice = Dice(23);
    for _ in 0..200 {
        let edges = random_graph(&mut dice, 6, 15, false);
        let network = network_of(&edges);
        let sorted: Vec<(usize, usize, usize)> =
            network.edges_sorted().iter().map(|e| (e.weight, e.u.id, e.v.id)).collect();
        let mut expected: Vec<(usize, usize, usize)> =
            edges.iter().map(|e| (e.2, e.0, e.1)).collect();
        expected.sort();
        assert_eq!(sorted, expected);
    }
}

#[test]
fn edges_compare_by_weight() {
    assert!(Edge::new(5, 6, 1) < Edge::new(0, 1, 2));
    assert!(Edge::new(0, 1, 3) > Edge::new(0, 1, 2));
    assert!(!(Edge::new(0, 1, 2) < Edge::new(3, 4, 2)));
    assert!(Edge::new(0, 1, 2) <= Edge::new(3, 4, 2));
}
