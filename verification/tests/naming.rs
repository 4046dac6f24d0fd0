use spanning_tree::naming::decimal_text;
use spanning_tree::solv::Edge;
use spanning_tree::solv::VerticeId;

#[test]
fn test_vertice_name_generator() {
    assert_eq!(VerticeId::name_from_id(0), "A");
    assert_eq!(VerticeId::name_from_id(1), "B");
    assert_eq!(VerticeId::name_from_id(42), "q");
    assert_eq!(VerticeId::name_from_id(61), "9");
    assert_eq!(VerticeId::name_from_id(62), "AB");
    assert_eq!(VerticeId::name_from_id(62 * 4), "AE");
    assert_eq!(VerticeId::name_from_id(62 * 42), "Aq");
}

#[test]
fn name_of_letters_and_digits() {
    assert_eq!(VerticeId::name_from_id(25), "Z");
    assert_eq!(VerticeId::name_from_id(26), "a");
    assert_eq!(VerticeId::name_from_id(51), "z");
    assert_eq!(VerticeId::name_from_id(52), "0");
}

#[test]
fn name_of_three_characters() {
    // 62 * 62 = 3844: remainder 0, then 62, whose remainder is 0 and quotient 1.
    assert_eq!(VerticeId::name_from_id(62 * 62), "AAB");
    assert_eq!(VerticeId::name_from_id(62 * 62 + 63), "BBB");
    assert_eq!(VerticeId::name_from_id(63), "BB");
    assert_eq!(VerticeId::name_from_id(123), "9B");
}

#[test]
fn names_differ_for_different_ids() {
    let mut names: Vec<String> = Vec::new();
    for id in 0..5000 {
        names.push(VerticeId::name_from_id(id));
    }
    names.sort();
    names.dedup();
    assert_eq!(names.len(), 5000);
}

#[test]
fn new_vertice_has_id_and_name() {
    let vertice = VerticeId::new(62);
    assert_eq!(vertice.id, 62);
    assert_eq!(vertice.name, "AB");
    assert_eq!(vertice.to_string(), "AB");
}

#[test]
fn vertices_compare_by_id() {
    let a = VerticeId::new(3);
    let b = VerticeId::new(7);
    assert!(a < b);
    assert!(b > a);
    assert!(a != b);
    assert!(a == VerticeId::new(3));
    let renamed = VerticeId { name: String::from("other"), id: 3 };
    assert!(a == renamed);
    assert_eq!(a.clone().id, 3);
    assert_eq!(a.clone().name, "D");
}

#[test]
fn decimal_text_of_numbers() {
    assert_eq!(decimal_text(0), "0");
    assert_eq!(decimal_text(7), "7");
    assert_eq!(decimal_text(10), "10");
    assert_eq!(decimal_text(1205), "1205");
    assert_eq!(decimal_text(usize::MAX), usize::MAX.to_string());
}

#[test]
fn edge_new_orders_ends() {
    let edge = Edge::new(5, 2, 9);
    assert_eq!(edge.u.id, 2);
    assert_eq!(edge.v.id, 5);
    assert_eq!(edge.weight, 9);
    assert_eq!(edge.u.name, "C");
    assert_eq!(edge.v.name, "F");
    let same = Edge::new(2, 5, 9);
    assert_eq!(same.u.id, 2);
    assert_eq!(same.v.id, 5);
    assert!(edge == same);
}

#[test]
fn edge_from_vertices_orders_ends() {
    let edge = Edge::from_vertices(VerticeId::new(9), VerticeId::new(4), 1);
    assert_eq!(edge.u.id, 4);
    assert_eq!(edge.v.id, 9);
    let edge = Edge::from_vertices(VerticeId::new(4), VerticeId::new(9), 1);
    assert_eq!(edge.u.id, 4);
    assert_eq!(edge.v.id, 9);
    let edge = Edge::from_vertices(VerticeId::new(4), VerticeId::new(4), 1);
    assert_eq!(edge.u.id, 4);
    assert_eq!(edge.v.id, 4);
}

#[test]
fn edge_text() {
    assert_eq!(Edge::new(0, 1, 5).to_string(), "A<-5->B");
    assert_eq!(Edge::new(62, 1, 120).to_string(), "B<-120->AB");
    assert_eq!(Edge::new(3, 3, 0).to_string(), "D<-0->D");
}

#[test]
fn edges_equal_by_ends_and_weight() {
    assert!(Edge::new(0, 1, 5) == Edge::new(1, 0, 5));
    assert!(Edge::new(0, 1, 5) != Edge::new(0, 1, 6));
    assert!(Edge::new(0, 1, 5) != Edge::new(0, 2, 5));
    assert!(Edge::new(0, 2, 5) != Edge::new(1, 2, 5));
}

#[test]
fn equal_edges_and_vertices_hash_alike() {
    let mut edges: std::collections::HashSet<Edge> = std::collections::HashSet::new();
    assert!(edges.insert(Edge::new(0, 1, 5)));
    assert!(!edges.insert(Edge::new(1, 0, 5)));
    assert!(edges.insert(Edge::new(0, 1, 6)));
    assert!(edges.insert(Edge::new(0, 2, 5)));
    assert_eq!(edges.len(), 3);
    let mut vertices: std::collections::HashSet<VerticeId> = std::collections::HashSet::new();
    assert!(vertices.insert(VerticeId::new(62)));
    assert!(!vertices.insert(VerticeId::new(62)));
    assert!(vertices.insert(VerticeId::new(1)));
    assert_eq!(vertices.len(), 2);
}
