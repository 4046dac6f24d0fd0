use spanning_tree::solv::Edge;
use spanning_tree::solv::Network;

fn ends(edges: &[Edge]) -> Vec<(usize, usize, usize)> {
    edges.iter().map(|e| (e.u.id, e.v.id, e.weight)).collect()
}

fn network_of(triples: &[(usize, usize, usize)]) -> Network {
    let mut network = Network::default();
    for (u, v, w) in triples {
        network.insert_edge(Edge::new(*u, *v, *w));
    }
    network
}

#[test]
fn empty_network() {
    let network = Network::default();
    assert_eq!(network.cost(), 0);
    assert_eq!(network.checked_cost(), Some(0));
    assert!(network.vertices_set().is_empty());
    assert!(network.vertices().is_empty());
    assert!(network.vertices_sorted().is_empty());
    assert!(network.edges().is_empty());
    assert!(network.edges_sorted().is_empty());
}

#[test]
fn insert_edge_appends() {
    let mut network = Network::default();
    network.insert_edge(Edge::new(1, 0, 4));
    network.insert_edge(Edge::new(1, 0, 4));
    network.insert_edge(Edge::new(2, 1, 3));
    assert_eq!(ends(&network.edges()), vec![(0, 1, 4), (0, 1, 4), (1, 2, 3)]);
}

#[test]
fn remove_duplicate_keeps_first_of_each() {
    let mut network = network_of(&[(0, 1, 4), (1, 2, 3), (1, 0, 4), (0, 1, 5), (2, 1, 3), (0, 1, 4)]);
    network.remove_duplicate();
    assert_eq!(ends(&network.edges()), vec![(0, 1, 4), (1, 2, 3), (0, 1, 5)]);
}

#[test]
fn remove_duplicate_twice_is_once() {
    let mut network = network_of(&[(3, 1, 4), (1, 3, 4), (1, 2, 3), (2, 1, 3), (7, 7, 1), (7, 7, 1)]);
    network.remove_duplicate();
    let once = ends(&network.edges());
    network.remove_duplicate();
    assert_eq!(ends(&network.edges()), once);
    assert_eq!(once, vec![(1, 3, 4), (1, 2, 3), (7, 7, 1)]);
}

#[test]
fn cost_sums_weights() {
    let network = network_of(&[(0, 1, 4), (1, 2, 3), (0, 2, 10)]);
    assert_eq!(network.cost(), 17);
    assert_eq!(network.checked_cost(), Some(17));
}

#[test]
fn checked_cost_beyond_the_machine() {
    let network = network_of(&[(0, 1, usize::MAX), (1, 2, 1)]);
    assert_eq!(network.checked_cost(), None);
    let network = network_of(&[(0, 1, usize::MAX - 1), (1, 2, 1)]);
    assert_eq!(network.checked_cost(), Some(usize::MAX));
}

#[test]
fn edges_sorted_by_weight_then_ends() {
    let network = network_of(&[(2, 3, 5), (0, 1, 7), (1, 2, 5), (0, 3, 1), (0, 2, 5), (1, 2, 5)]);
    assert_eq!(
        ends(&network.edges_sorted()),
        vec![(0, 3, 1), (0, 2, 5), (1, 2, 5), (1, 2, 5), (2, 3, 5), (0, 1, 7)]
    );
    // the network itself keeps its order
    assert_eq!(ends(&network.edges())[0], (2, 3, 5));
}

#[test]
fn vertices_in_order_of_first_mention() {
    let network = network_of(&[(5, 2, 1), (2, 9, 1), (0, 5, 1)]);
    let ids: Vec<usize> = network.vertices().iter().map(|v| v.id).collect();
    assert_eq!(ids, vec![2, 5, 9, 0]);
    let names: Vec<String> = network.vertices().iter().map(|v| v.name.clone()).collect();
    assert_eq!(names, vec!["C", "F", "J", "A"]);
}

#[test]
fn vertices_sorted_by_id() {
    let network = network_of(&[(5, 2, 1), (2, 9, 1), (0, 5, 1), (9, 9, 3)]);
    let ids: Vec<usize> = network.vertices_sorted().iter().map(|v| v.id).collect();
    assert_eq!(ids, vec![0, 2, 5, 9]);
}

#[test]
fn vertices_set_holds_the_ends() {
    let network = network_of(&[(5, 2, 1), (2, 9, 1), (0, 5, 1)]);
    let set = network.vertices_set();
    assert_eq!(set.len(), 4);
    for id in [0, 2, 5, 9] {
        assert!(set.contains(&id));
    }
    assert!(!set.contains(&1));
}

#[test]
fn clone_keeps_the_edges() {
    let network = network_of(&[(5, 2, 1), (2, 9, 1)]);
    let copy = network.clone();
    assert_eq!(ends(&copy.edges()), ends(&network.edges()));
}

#[test]
fn remove_duplicate_tells_weights_and_ends_apart() {
    let mut network = network_of(&[
        (0, 1, 4),
        (0, 1, 5),
        (1, 0, 4),
        (0, 1, 6),
        (1, 0, 5),
        (0, 2, 4),
        (1, 2, 4),
        (2, 0, 4),
        (0, 1, 6),
        (0, 0, 4),
        (0, 0, 4),
    ]);
    network.remove_duplicate();
    assert_eq!(
        ends(&network.edges()),
        vec![(0, 1, 4), (0, 1, 5), (0, 1, 6), (0, 2, 4), (1, 2, 4), (0, 0, 4)]
    );
}

#[test]
fn remove_duplicate_of_large_numbers() {
    let big = usize::MAX;
    let mut network = network_of(&[(big, 0, 1), (0, big, 1), (big, big, 1), (big - 1, big, 1), (0, big, 1)]);
    network.remove_duplicate();
    assert_eq!(
        ends(&network.edges()),
        vec![(0, big, 1), (big, big, 1), (big - 1, big, 1)]
    );
}

#[test]
fn remove_duplicate_agrees_with_a_scan() {
    let mut state: u64 = 5;
    for _ in 0..200 {
        let mut list = Vec::new();
        for _ in 0..40 {
            state = state.wrapping_mul(6364136223846793005).wrapping_add(1442695040888963407);
            let u = ((state >> 33) % 4) as usize;
            let v = ((state >> 40) % 4) as usize;
            let w = ((state >> 50) % 3) as usize;
            list.push((u, v, w));
        }
        let mut network = network_of(&list);
        network.remove_duplicate();
        let mut expected: Vec<(usize, usize, usize)> = Vec::new();
        for (u, v, w) in &list {
            let triple = (*u.min(v), *u.max(v), *w);
            if !expected.contains(&triple) {
                expected.push(triple);
            }
        }
        assert_eq!(ends(&network.edges()), expected);
    }
}
