use crate::graph::numbers;
use crate::graph::vertex_set;
use crate::graph::Link;
use crate::solv::drawn;
use crate::solv::ids_of;
use crate::solv::lemma_drawn_push;
use crate::solv::links_of;
use crate::solv::Edge;
use crate::solv::Network;
use crate::solv::Solver;
use std::collections::HashSet;
use vstd::prelude::*;

verus! {

/// The link has one end among the `visited` vertices and the other end outside.
pub open spec fn crossing(visited: Set<nat>, link: Link) -> bool {
    visited.contains(link.u) != visited.contains(link.v)
}

/// The place of the cheapest of the links that cross the border of `visited`, the first of
/// them where several weigh the same; none where no link crosses.
pub open spec fn cheaper_edge(visited: Set<nat>, links: Seq<Link>) -> Option<int>
    decreases links.len(),
{
    if links.len() == 0 {
        None
    } else {
        let best = cheaper_edge(visited, links.drop_last());
        if crossing(visited, links.last()) && (best matches Some(i) ==> links[i].weight
            > links.last().weight) {
            Some(links.len() - 1)
        } else {
            best
        }
    }
}

/// Where the search stands: the vertices reached, and the edges the tree has.
pub ghost struct Frontier {
    pub visited: Set<nat>,
    pub tree: Seq<Link>,
}

/// One step of the search: the cheapest crossing link joins the tree and both its ends are
/// reached; without a crossing link nothing changes.
pub open spec fn grow(links: Seq<Link>, at: Frontier) -> Frontier {
    match cheaper_edge(at.visited, links) {
        Some(i) => Frontier {
            visited: at.visited.insert(links[i].u).insert(links[i].v),
            tree: at.tree.push(links[i]),
        },
        None => at,
    }
}

/// The search after `steps` steps from the vertex `seed`.
pub open spec fn search(links: Seq<Link>, seed: nat, steps: nat) -> Frontier
    decreases steps,
{
    if steps == 0 {
        Frontier { visited: set![seed], tree: Seq::empty() }
    } else {
        grow(links, search(links, seed, (steps - 1) as nat))
    }
}

/// The lowest number of a vertex of the graph; 0 for the graph without links.
pub open spec fn least_vertex(links: Seq<Link>) -> nat
    decreases links.len(),
{
    if links.len() == 0 {
        0
    } else {
        let here = if links.last().u <= links.last().v {
            links.last().u
        } else {
            links.last().v
        };
        if links.len() == 1 || here <= least_vertex(links.drop_last()) {
            here
        } else {
            least_vertex(links.drop_last())
        }
    }
}

/// The place that `cheaper_edge` gives is that of a crossing link that no crossing link
/// weighs less than, and that every crossing link before it weighs more than.
pub proof fn lemma_cheaper_edge(visited: Set<nat>, links: Seq<Link>)
    ensures
        match cheaper_edge(visited, links) {
            Some(i) => {
                &&& 0 <= i < links.len()
                &&& crossing(visited, links[i])
                &&& forall|j: int|
                    0 <= j < links.len() && crossing(visited, #[trigger] links[j])
                        ==> links[i].weight <= links[j].weight
                &&& forall|j: int|
                    0 <= j < i && crossing(visited, #[trigger] links[j]) ==> links[i].weight
                        < links[j].weight
            },
            None => forall|j: int| 0 <= j < links.len() ==> !crossing(visited, #[trigger] links[j]),
        },
    decreases links.len(),
{
    if links.len() > 0 {
        let rest = links.drop_last();
        lemma_cheaper_edge(visited, rest);
        assert forall|j: int| 0 <= j < rest.len() implies rest[j] == links[j] by {}
        match cheaper_edge(visited, links) {
            Some(i) => {
                assert forall|j: int|
                    0 <= j < links.len() && crossing(visited, #[trigger] links[j])
                        implies links[i].weight <= links[j].weight by {
                    if j < rest.len() {
                        assert(crossing(visited, rest[j]));
                    }
                }
                assert forall|j: int| 0 <= j < i && crossing(visited, #[trigger] links[j])
                    implies links[i].weight < links[j].weight by {
                    assert(crossing(visited, rest[j]));
                }
            },
            None => {
                assert forall|j: int| 0 <= j < links.len() implies !crossing(
                    visited,
                    #[trigger] links[j],
                ) by {
                    if j < rest.len() {
                        assert(!crossing(visited, rest[j]));
                    }
                }
            },
        }
    }
}

/// The least vertex is a vertex of the graph, and no vertex has a lower number.
pub proof fn lemma_least_vertex(links: Seq<Link>)
    requires
        links.len() > 0,
    ensures
        vertex_set(links).contains(least_vertex(links)),
        forall|x: nat| vertex_set(links).contains(x) ==> least_vertex(links) <= x,
    decreases links.len(),
{
    let rest = links.drop_last();
    let last = links.last();
    assert(links =~= rest.push(last));
    crate::graph::lemma_vertex_set_push(rest, last);
    if links.len() == 1 {
        assert(vertex_set(rest) =~= Set::<nat>::empty());
    } else {
        lemma_least_vertex(rest);
    }
}

/// The solver that grows one tree from the lowest vertex, each time by the cheapest edge
/// that leaves the tree.
pub struct Prim {}

impl Prim {
    /// The cheapest of `edges` with one end in `visited_vertices` and the other outside;
    /// the first of them where several weigh the same.
    pub fn find_cheaper_edge(visited_vertices: &HashSet<usize>, edges: &[Edge]) -> (result:
        Option<Edge>)
        ensures
            match cheaper_edge(numbers(visited_vertices@), links_of(edges@)) {
                Some(i) => result == Some(edges@[i]),
                None => result is None,
            },
    {
        broadcast use vstd::std_specs::hash::group_hash_axioms;

        let ghost visited = numbers(visited_vertices@);
        let mut best: Option<usize> = None;
        let mut i: usize = 0;
        assert(links_of(edges@.take(0)) =~= Seq::<Link>::empty());
        while i < edges.len()
            invariant
                i <= edges.len(),
                visited == numbers(visited_vertices@),
                match cheaper_edge(visited, links_of(edges@.take(i as int))) {
                    Some(b) => best == Some(b as usize) && 0 <= b < i,
                    None => best is None,
                },
            decreases edges.len() - i,
        {
            let edge = &edges[i];
            proof {
                assert(links_of(edges@.take(i + 1)).drop_last() =~= links_of(edges@.take(i as int)));
                assert(links_of(edges@.take(i + 1)).last() == edge@);
                lemma_cheaper_edge(visited, links_of(edges@.take(i as int)));
            }
            let u_in = visited_vertices.contains(&edge.u.id);
            let v_in = visited_vertices.contains(&edge.v.id);
            if u_in != v_in {
                match best {
                    Some(b) => {
                        if edges[b].weight > edge.weight {
                            best = Some(i);
                        }
                    },
                    None => {
                        best = Some(i);
                    },
                }
            }
            i += 1;
        }
        assert(edges@.take(i as int) =~= edges@);
        match best {
            Some(b) => Some(edges[b].clone()),
            None => None,
        }
    }
}

impl Solver for Prim {
    /// A graph is taken where it has a vertex, that is, an edge.
    open spec fn admits(links: Seq<Link>) -> bool {
        links.len() > 0
    }

    open spec fn tree_of(links: Seq<Link>) -> Seq<Link> {
        search(links, least_vertex(links), vertex_set(links).len()).tree
    }

    fn solve(network: Network) -> (tree: Network) {
        broadcast use vstd::std_specs::hash::group_hash_axioms;

        let mut tree = Network::default();
        let vertices = network.vertices_sorted();
        let edges = network.edges();
        let ghost links = network@;
        let ghost ids = ids_of(vertices@);
        proof {
            lemma_least_vertex(links);
            assert(ids.to_set().contains(least_vertex(links)));
            ids.unique_seq_to_set();
            assert(ids[0] == vertices@[0]@);
            assert(ids.to_set().contains(ids[0]));
            assert(least_vertex(links) <= ids[0]);
            let w = choose|w: int| 0 <= w < ids.len() && ids[w] == least_vertex(links);
            assert(ids[0] <= ids[w]);
        }
        let mut visited_vertices: HashSet<usize> = HashSet::new();
        visited_vertices.insert(vertices[0].id);
        let mut step: usize = 0;
        proof {
            assert(numbers(visited_vertices@) =~= set![least_vertex(links)]);
            assert(tree@ =~= Seq::<Link>::empty());
        }
        while step < vertices.len()
            invariant
                step <= vertices.len(),
                vertices.len() == vertex_set(links).len(),
                links == network@,
                edges@ == network.list(),
                numbers(visited_vertices@) == search(
                    links,
                    least_vertex(links),
                    step as nat,
                ).visited,
                tree@ == search(links, least_vertex(links), step as nat).tree,
                drawn(tree.list(), network.list()),
            decreases vertices.len() - step,
        {
            let ghost at = search(links, least_vertex(links), step as nat);
            let ghost listed = tree.list();
            let ghost before = visited_vertices@;
            proof {
                lemma_cheaper_edge(at.visited, links);
            }
            if let Some(edge) = Prim::find_cheaper_edge(&visited_vertices, edges.as_slice()) {
                let u = edge.u.id;
                let v = edge.v.id;
                tree.insert_edge(edge);
                visited_vertices.insert(u);
                visited_vertices.insert(v);
                proof {
                    let i = cheaper_edge(at.visited, links).unwrap();
                    assert(links[i] == edges@[i]@);
                    assert(network.list().contains(edges@[i]));
                    assert(tree@ =~= at.tree.push(links[i]));
                    assert(numbers(visited_vertices@) =~= at.visited.insert(links[i].u).insert(
                        links[i].v,
                    ));
                    lemma_drawn_push(listed, edges@[i], network.list());
                }
            }
            step += 1;
        }
        tree
    }
}

} // verus!
