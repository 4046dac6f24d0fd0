use crate::graph::connected;
use crate::graph::greedy_forest;
use crate::graph::has_end;
use crate::graph::sorted_links;
use crate::graph::vertex_set;
use crate::graph::Link;
use crate::solv::ascending;
use crate::solv::drawn;
use crate::solv::ids_of;
use crate::solv::lemma_drawn_push;
use crate::solv::links_of;
use crate::solv::Edge;
use crate::solv::Network;
use crate::solv::Solver;
use crate::solv::VerticeId;
use crate::sorting::lemma_sorted_by_weight_unique;
use crate::sorting::of_weight;
use crate::sorting::sort_by_weight;
use vstd::prelude::*;

verus! {

/// A vertex in the forest of sets: the vertex itself, the node above it where it has one,
/// and a bound on the height of the tree below it.
pub struct Node {
    pub vertice: VerticeId,
    pub parent: Option<usize>,
    pub rank: usize,
}

impl Node {
    /// A node alone in its set.
    pub fn new(vertice: VerticeId) -> (node: Self)
        ensures
            node.vertice == vertice,
            node.parent is None,
            node.rank == 0,
    {
        Self { vertice, parent: None, rank: 0 }
    }
}

/// How many of `nodes` have a node above them.
pub open spec fn linked_count(nodes: Seq<Node>) -> nat
    decreases nodes.len(),
{
    if nodes.len() == 0 {
        0
    } else {
        linked_count(nodes.drop_last()) + if nodes.last().parent is Some {
            1nat
        } else {
            0nat
        }
    }
}

/// `nodes` is a forest: the node above a node is one of `nodes` and of higher rank, and no
/// rank exceeds the number of nodes that have a node above them.
pub open spec fn is_forest(nodes: Seq<Node>) -> bool {
    forall|i: int|
        0 <= i < nodes.len() ==> {
            &&& (#[trigger] nodes[i]).rank <= linked_count(nodes)
            &&& nodes[i].parent matches Some(p) ==> p < nodes.len() && nodes[i].rank
                < nodes[p as int].rank
        }
}

/// The root of the tree that node `x` stands in: the node reached from `x` by going up as
/// long as there is a node above.
pub open spec fn root_of(nodes: Seq<Node>, x: int) -> int
    decreases usize::MAX - nodes[x].rank,
    when is_forest(nodes) && 0 <= x < nodes.len()
{
    match nodes[x].parent {
        Some(p) => root_of(nodes, p as int),
        None => x,
    }
}

/// The root of a node is a node without a node above it.
pub proof fn lemma_root_of(nodes: Seq<Node>, x: int)
    requires
        is_forest(nodes),
        0 <= x < nodes.len(),
    ensures
        0 <= root_of(nodes, x) < nodes.len(),
        nodes[root_of(nodes, x)].parent is None,
        nodes[x].rank <= nodes[root_of(nodes, x)].rank,
    decreases usize::MAX - nodes[x].rank,
{
    match nodes[x].parent {
        Some(p) => {
            lemma_root_of(nodes, p as int);
        },
        None => {},
    }
}

/// The representative of the set of node `x`: the root of its tree.
pub fn find(nodes: &Vec<Node>, x: usize) -> (root: usize)
    requires
        is_forest(nodes@),
        x < nodes.len(),
    ensures
        root == root_of(nodes@, x as int),
        root < nodes.len(),
        nodes[root as int].parent is None,
{
    let mut root = x;
    proof {
        lemma_root_of(nodes@, x as int);
    }
    while nodes[root].parent.is_some()
        invariant
            is_forest(nodes@),
            root < nodes.len(),
            root_of(nodes@, root as int) == root_of(nodes@, x as int),
        decreases usize::MAX - nodes[root as int].rank,
    {
        root = nodes[root].parent.unwrap();
    }
    root
}

/// The set of one vertex.
pub fn make_set(vertice: VerticeId) -> (node: Node)
    ensures
        node.vertice == vertice,
        node.parent is None,
        node.rank == 0,
{
    Node::new(vertice)
}

/// The root that stands for the set of a node whose root was `root`, once the sets of `x`
/// and `y` are one: of the two roots the one of lower rank goes under the other, the root of
/// `y` where the ranks are equal.
pub open spec fn merged_root(nodes: Seq<Node>, x: int, y: int, root: int) -> int {
    let x_root = root_of(nodes, x);
    let y_root = root_of(nodes, y);
    if x_root == y_root {
        root
    } else if nodes[x_root].rank < nodes[y_root].rank {
        if root == x_root {
            y_root
        } else {
            root
        }
    } else {
        if root == y_root {
            x_root
        } else {
            root
        }
    }
}

/// The forest once the root `gone` is put under the root `keep`: `gone` gets `keep` above
/// it, and the rank of `keep` goes up by one where the two ranks were equal.
pub open spec fn linked_under(nodes: Seq<Node>, keep: int, gone: int) -> Seq<Node> {
    let rank = if nodes[keep].rank == nodes[gone].rank {
        nodes[keep].rank + 1
    } else {
        nodes[keep].rank as int
    };
    nodes.update(
        gone,
        Node { vertice: nodes[gone].vertice, parent: Some(keep as usize), rank: nodes[gone].rank },
    ).update(keep, Node { vertice: nodes[keep].vertice, parent: None, rank: rank as usize })
}

/// The forest once the sets of `x` and `y` are one. Where they were one set nothing changes.
/// Else the root of lower rank is put under the other root, the root of `y` where the ranks
/// are equal.
pub open spec fn united(nodes: Seq<Node>, x: int, y: int) -> Seq<Node> {
    let x_root = root_of(nodes, x);
    let y_root = root_of(nodes, y);
    if x_root == y_root {
        nodes
    } else if nodes[x_root].rank < nodes[y_root].rank {
        linked_under(nodes, y_root, x_root)
    } else {
        linked_under(nodes, x_root, y_root)
    }
}

/// A node that takes the place of another changes the count of the nodes with a node above
/// them by what the two differ in.
pub proof fn lemma_linked_count_update(nodes: Seq<Node>, k: int, node: Node)
    requires
        0 <= k < nodes.len(),
    ensures
        linked_count(nodes.update(k, node)) + (if nodes[k].parent is Some {
            1nat
        } else {
            0nat
        }) == linked_count(nodes) + (if node.parent is Some {
            1nat
        } else {
            0nat
        }),
    decreases nodes.len(),
{
    let changed = nodes.update(k, node);
    if k == nodes.len() - 1 {
        assert(changed.drop_last() =~= nodes.drop_last());
    } else {
        assert(changed.drop_last() =~= nodes.drop_last().update(k, node));
        lemma_linked_count_update(nodes.drop_last(), k, node);
    }
}

/// Not every node has a node above it where one has none.
pub proof fn lemma_linked_count_bound(nodes: Seq<Node>)
    ensures
        linked_count(nodes) <= nodes.len(),
        (exists|r: int| 0 <= r < nodes.len() && (#[trigger] nodes[r]).parent is None)
            ==> linked_count(nodes) < nodes.len(),
    decreases nodes.len(),
{
    if nodes.len() > 0 {
        lemma_linked_count_bound(nodes.drop_last());
        if exists|r: int| 0 <= r < nodes.len() && (#[trigger] nodes[r]).parent is None {
            let r = choose|r: int| 0 <= r < nodes.len() && (#[trigger] nodes[r]).parent is None;
            if r < nodes.len() - 1 {
                assert(nodes.drop_last()[r].parent is None);
            }
        }
    }
}

/// Where the root `gone` is put under the root `keep`, the nodes that had `gone` for their
/// root have `keep`, and the others keep theirs.
pub proof fn lemma_root_after_link(before: Seq<Node>, after: Seq<Node>, keep: int, gone: int, i: int)
    requires
        is_forest(before),
        is_forest(after),
        after.len() == before.len(),
        0 <= keep < before.len(),
        0 <= gone < before.len(),
        0 <= i < before.len(),
        keep != gone,
        before[keep].parent is None,
        before[gone].parent is None,
        after[gone].parent == Some(keep as usize),
        keep <= usize::MAX,
        forall|j: int| 0 <= j < before.len() && j != gone ==> (#[trigger] after[j]).parent == before[j].parent,
    ensures
        root_of(after, i) == if root_of(before, i) == gone {
            keep
        } else {
            root_of(before, i)
        },
    decreases usize::MAX - before[i].rank,
{
    match before[i].parent {
        Some(p) => {
            assert(after[i].parent == before[i].parent);
            lemma_root_after_link(before, after, keep, gone, p as int);
        },
        None => {
            if i == gone {
                assert(after[keep].parent == before[keep].parent);
                assert(root_of(after, keep) == keep);
            } else {
                assert(after[i].parent == before[i].parent);
            }
        },
    }
}

/// A root put under another root of no lower rank leaves a forest of the same vertices.
pub proof fn lemma_linked_under_forest(nodes: Seq<Node>, keep: int, gone: int)
    requires
        is_forest(nodes),
        nodes.len() <= usize::MAX,
        0 <= keep < nodes.len(),
        0 <= gone < nodes.len(),
        keep != gone,
        nodes[keep].parent is None,
        nodes[gone].parent is None,
        nodes[gone].rank <= nodes[keep].rank,
    ensures
        is_forest(linked_under(nodes, keep, gone)),
        linked_under(nodes, keep, gone).len() == nodes.len(),
        linked_under(nodes, keep, gone)[gone].parent == Some(keep as usize),
        forall|i: int|
            0 <= i < nodes.len() ==> (#[trigger] linked_under(nodes, keep, gone)[i]).vertice
                == nodes[i].vertice,
        forall|i: int|
            0 <= i < nodes.len() && i != gone ==> (#[trigger] linked_under(
                nodes,
                keep,
                gone,
            )[i]).parent == nodes[i].parent,
{
    let after = linked_under(nodes, keep, gone);
    let linked = nodes.update(gone, after[gone]);
    assert(after =~= linked.update(keep, after[keep]));
    lemma_linked_count_update(nodes, gone, after[gone]);
    lemma_linked_count_update(linked, keep, after[keep]);
    lemma_linked_count_bound(nodes);
    assert(nodes[keep].rank <= linked_count(nodes));
    assert(linked_count(after) == linked_count(nodes) + 1);
    assert forall|i: int| 0 <= i < after.len() implies {
        &&& (#[trigger] after[i]).rank <= linked_count(after)
        &&& after[i].parent matches Some(p) ==> p < after.len() && after[i].rank
            < after[p as int].rank
    } by {
        assert(nodes[i].rank <= linked_count(nodes));
        if i != gone && i != keep {
            assert(after[i] == nodes[i]);
        }
    }
}

/// Two sets made one are a forest again, of the same vertices.
pub proof fn lemma_united_forest(nodes: Seq<Node>, x: int, y: int)
    requires
        is_forest(nodes),
        nodes.len() <= usize::MAX,
        0 <= x < nodes.len(),
        0 <= y < nodes.len(),
    ensures
        is_forest(united(nodes, x, y)),
        united(nodes, x, y).len() == nodes.len(),
        forall|i: int|
            0 <= i < nodes.len() ==> (#[trigger] united(nodes, x, y)[i]).vertice
                == nodes[i].vertice,
{
    let x_root = root_of(nodes, x);
    let y_root = root_of(nodes, y);
    lemma_root_of(nodes, x);
    lemma_root_of(nodes, y);
    if x_root == y_root {
    } else if nodes[x_root].rank < nodes[y_root].rank {
        lemma_linked_under_forest(nodes, y_root, x_root);
    } else {
        lemma_linked_under_forest(nodes, x_root, y_root);
    }
}

/// Once two sets are one, the nodes of the root that went under the other have that other
/// for their root, and all others the root they had.
pub proof fn lemma_united_roots(nodes: Seq<Node>, x: int, y: int)
    requires
        is_forest(nodes),
        nodes.len() <= usize::MAX,
        0 <= x < nodes.len(),
        0 <= y < nodes.len(),
    ensures
        forall|i: int|
            0 <= i < nodes.len() ==> #[trigger] root_of(united(nodes, x, y), i) == merged_root(
                nodes,
                x,
                y,
                root_of(nodes, i),
            ),
{
    let x_root = root_of(nodes, x);
    let y_root = root_of(nodes, y);
    let after = united(nodes, x, y);
    lemma_root_of(nodes, x);
    lemma_root_of(nodes, y);
    if x_root != y_root {
        let keep = if nodes[x_root].rank < nodes[y_root].rank {
            y_root
        } else {
            x_root
        };
        let gone = if nodes[x_root].rank < nodes[y_root].rank {
            x_root
        } else {
            y_root
        };
        assert(after == linked_under(nodes, keep, gone));
        lemma_linked_under_forest(nodes, keep, gone);
        assert forall|i: int| 0 <= i < nodes.len() implies #[trigger] root_of(after, i)
            == merged_root(nodes, x, y, root_of(nodes, i)) by {
            lemma_root_after_link(nodes, after, keep, gone, i);
        }
    }
}

/// Makes one set of the sets of `x` and `y`.
pub fn union(nodes: &mut Vec<Node>, x: usize, y: usize)
    requires
        is_forest(old(nodes)@),
        x < old(nodes).len(),
        y < old(nodes).len(),
    ensures
        final(nodes)@ == united(old(nodes)@, x as int, y as int),
        is_forest(final(nodes)@),
        final(nodes).len() == old(nodes).len(),
        forall|i: int|
            0 <= i < old(nodes).len() ==> (#[trigger] final(nodes)[i]).vertice == old(
                nodes,
            )[i].vertice,
        forall|i: int|
            0 <= i < old(nodes).len() ==> #[trigger] root_of(final(nodes)@, i) == merged_root(
                old(nodes)@,
                x as int,
                y as int,
                root_of(old(nodes)@, i),
            ),
{
    let x_root = find(nodes, x);
    let y_root = find(nodes, y);
    if x_root == y_root {
        return ;
    }
    let (keep, gone) = if nodes[x_root].rank < nodes[y_root].rank {
        (y_root, x_root)
    } else {
        (x_root, y_root)
    };
    let ghost before = nodes@;
    proof {
        lemma_linked_count_bound(before);
        assert(before[gone as int].parent is None);
    }
    nodes[gone].parent = Some(keep);
    if nodes[keep].rank == nodes[gone].rank {
        nodes[keep].rank += 1;
    }
    proof {
        assert(nodes@ =~= linked_under(before, keep as int, gone as int));
        lemma_united_forest(before, x as int, y as int);
        lemma_united_roots(before, x as int, y as int);
    }
}

/// `i` is the place of the first of `nodes` that stands for the vertex numbered `id`.
pub open spec fn first_at(nodes: Seq<Node>, id: nat, i: int) -> bool {
    &&& 0 <= i < nodes.len()
    &&& nodes[i].vertice@ == id
    &&& forall|j: int| 0 <= j < i ==> (#[trigger] nodes[j]).vertice@ != id
}

/// Some node stands for the vertex numbered `id`.
pub open spec fn has_node(nodes: Seq<Node>, id: nat) -> bool {
    exists|i: int| 0 <= i < nodes.len() && (#[trigger] nodes[i]).vertice@ == id
}

/// The place of the first node that stands for `vertice`.
fn node_of(nodes: &[Node], vertice: &VerticeId) -> (i: usize)
    requires
        has_node(nodes@, vertice@),
    ensures
        first_at(nodes@, vertice@, i as int),
{
    let mut i: usize = 0;
    while nodes[i].vertice != *vertice
        invariant
            has_node(nodes@, vertice@),
            i < nodes.len(),
            forall|j: int| 0 <= j < i ==> (#[trigger] nodes@[j]).vertice@ != vertice@,
        decreases nodes.len() - i,
    {
        proof {
            let w = choose|w: int| 0 <= w < nodes.len() && (#[trigger] nodes@[w]).vertice@ == vertice@;
            assert(w > i);
        }
        i += 1;
    }
    i
}

/// An edge together with the places of the nodes of its two ends.
pub struct NoddedEdge {
    pub u: usize,
    pub v: usize,
    pub raw_edge: Edge,
    pub weight: usize,
}

impl NoddedEdge {
    /// Looks up the nodes of the two ends of `edge`.
    pub fn from_edge(edge: Edge, available_nodes: &[Node]) -> (nodded: Self)
        requires
            has_node(available_nodes@, edge.u@),
            has_node(available_nodes@, edge.v@),
        ensures
            nodded.raw_edge == edge,
            nodded.weight == edge.weight,
            first_at(available_nodes@, edge.u@, nodded.u as int),
            first_at(available_nodes@, edge.v@, nodded.v as int),
    {
        let u = node_of(available_nodes, &edge.u);
        let v = node_of(available_nodes, &edge.v);
        let weight = edge.weight;
        Self { u, v, raw_edge: edge, weight }
    }
}

/// One set for each vertex, in the order of `vertices`.
pub fn transform_vertices(vertices: Vec<VerticeId>) -> (nodes: Vec<Node>)
    ensures
        nodes.len() == vertices.len(),
        forall|i: int|
            0 <= i < nodes.len() ==> {
                &&& (#[trigger] nodes[i]).vertice == vertices[i]
                &&& nodes[i].parent is None
                &&& nodes[i].rank == 0
            },
{
    let mut nodes: Vec<Node> = Vec::new();
    let mut i: usize = 0;
    while i < vertices.len()
        invariant
            i <= vertices.len(),
            nodes.len() == i,
            forall|k: int|
                0 <= k < i ==> {
                    &&& (#[trigger] nodes[k]).vertice == vertices[k]
                    &&& nodes[k].parent is None
                    &&& nodes[k].rank == 0
                },
        decreases vertices.len() - i,
    {
        nodes.push(make_set(vertices[i].clone()));
        i += 1;
    }
    nodes
}

/// The edges that a list of edges with their nodes holds, in the same order.
pub open spec fn raw_edges(nodded: Seq<NoddedEdge>) -> Seq<Edge> {
    nodded.map_values(|n: NoddedEdge| n.raw_edge)
}

/// The edges by ascending weight, those of one weight in the order that they come in, each
/// with the places of the nodes of its two ends.
pub fn transform_edges(edges: Vec<Edge>, nodes: &[Node]) -> (result: Vec<NoddedEdge>)
    requires
        forall|k: int|
            0 <= k < edges.len() ==> has_node(nodes@, (#[trigger] edges[k]).u@) && has_node(
                nodes@,
                edges[k].v@,
            ),
    ensures
        result.len() == edges.len(),
        raw_edges(result@).to_multiset() == edges@.to_multiset(),
        forall|i: int, j: int| 0 <= i < j < result.len() ==> result[i].weight <= result[j].weight,
        forall|weight: usize| #[trigger]
            of_weight(raw_edges(result@), weight) == of_weight(edges@, weight),
        forall|k: int|
            0 <= k < result.len() ==> {
                &&& (#[trigger] result[k]).weight == result[k].raw_edge.weight
                &&& first_at(nodes@, result[k].raw_edge.u@, result[k].u as int)
                &&& first_at(nodes@, result[k].raw_edge.v@, result[k].v as int)
            },
{
    let sorted = sort_by_weight(&edges);
    let mut result: Vec<NoddedEdge> = Vec::new();
    let mut i: usize = 0;
    proof {
        vstd::seq_lib::to_multiset_len(sorted@);
        vstd::seq_lib::to_multiset_len(edges@);
        assert forall|k: int| 0 <= k < sorted.len() implies has_node(
            nodes@,
            (#[trigger] sorted[k]).u@,
        ) && has_node(nodes@, sorted[k].v@) by {
            assert(sorted@.contains(sorted[k]));
            vstd::seq_lib::to_multiset_contains(sorted@, sorted[k]);
            vstd::seq_lib::to_multiset_contains(edges@, sorted[k]);
            let w = choose|w: int| 0 <= w < edges.len() && edges[w] == sorted[k];
            assert(has_node(nodes@, edges[w].u@));
        }
    }
    while i < sorted.len()
        invariant
            i <= sorted.len(),
            result.len() == i,
            forall|k: int|
                0 <= k < sorted.len() ==> has_node(nodes@, (#[trigger] sorted[k]).u@) && has_node(
                    nodes@,
                    sorted[k].v@,
                ),
            forall|k: int|
                0 <= k < i ==> {
                    &&& (#[trigger] result[k]).raw_edge == sorted[k]
                    &&& result[k].weight == sorted[k].weight
                    &&& first_at(nodes@, sorted[k].u@, result[k].u as int)
                    &&& first_at(nodes@, sorted[k].v@, result[k].v as int)
                },
        decreases sorted.len() - i,
    {
        result.push(NoddedEdge::from_edge(sorted[i].clone(), nodes));
        i += 1;
    }
    proof {
        assert(raw_edges(result@) =~= sorted@);
        assert forall|a: int, b: int| 0 <= a < b < result.len() implies result[a].weight
            <= result[b].weight by {
            assert(sorted[a].weight <= sorted[b].weight);
        }
    }
    result
}

/// The edges with their nodes stand for the links of the graph in ascending order: each is
/// an edge of `source`, its link is the link at its place, and its two nodes are the nodes
/// of the two ends of that link.
pub open spec fn placed(
    edges: Seq<NoddedEdge>,
    links: Seq<Link>,
    ids: Seq<nat>,
    source: Seq<Edge>,
) -> bool {
    &&& edges.len() == links.len()
    &&& forall|m: int| 0 <= m < edges.len() ==> placed_at(#[trigger] edges[m], links[m], ids, source)
}

/// The edge with its nodes stands for the link: it is an edge of `source`, its link is
/// `link`, and its two nodes are the nodes of the two ends of `link`.
pub open spec fn placed_at(edge: NoddedEdge, link: Link, ids: Seq<nat>, source: Seq<Edge>) -> bool {
    &&& edge.raw_edge@ == link
    &&& source.contains(edge.raw_edge)
    &&& edge.u < ids.len()
    &&& edge.v < ids.len()
    &&& ids[edge.u as int] == link.u
    &&& ids[edge.v as int] == link.v
}

/// The forest of sets keeps track of the tree: the nodes stand for the vertices numbered
/// `ids`, and two nodes have the same root exactly where the tree connects their vertices.
pub open spec fn tracks(nodes: Seq<Node>, ids: Seq<nat>, tree: Seq<Link>) -> bool {
    &&& nodes.len() == ids.len()
    &&& is_forest(nodes)
    &&& forall|i: int| 0 <= i < ids.len() ==> (#[trigger] nodes[i]).vertice@ == ids[i]
    &&& forall|i: int, j: int|
        0 <= i < ids.len() && 0 <= j < ids.len() ==> ((#[trigger] root_of(nodes, i))
            == (#[trigger] root_of(nodes, j)) <==> connected(tree, ids[i], ids[j]))
}

/// Where there is a node for each vertex of a graph, there is one for each end of each of
/// its edges in ascending order.
proof fn lemma_nodes_for_ends(graph: Seq<Link>, listed: Seq<Edge>, ids: Seq<nat>, nodes: Seq<Node>)
    requires
        links_of(listed) == sorted_links(graph),
        ids.to_set() == vertex_set(graph),
        nodes.len() == ids.len(),
        forall|i: int| 0 <= i < ids.len() ==> (#[trigger] nodes[i]).vertice@ == ids[i],
    ensures
        forall|k: int|
            0 <= k < listed.len() ==> has_node(nodes, (#[trigger] listed[k]).u@) && has_node(
                nodes,
                listed[k].v@,
            ),
{
    crate::graph::lemma_sorted_links(graph);
    let links = sorted_links(graph);
    assert forall|k: int| 0 <= k < listed.len() implies has_node(
        nodes,
        (#[trigger] listed[k]).u@,
    ) && has_node(nodes, listed[k].v@) by {
        let link = links[k];
        assert(link == listed[k]@);
        assert(links.contains(link));
        assert(graph.contains(link));
        let w = choose|w: int| 0 <= w < graph.len() && graph[w] == link;
        assert(has_end(graph[w], link.u));
        assert(has_end(graph[w], link.v));
        assert(ids.to_set().contains(link.u));
        assert(ids.to_set().contains(link.v));
        let iu = choose|i: int| 0 <= i < ids.len() && ids[i] == link.u;
        let iv = choose|i: int| 0 <= i < ids.len() && ids[i] == link.v;
        assert(nodes[iu].vertice@ == link.u);
        assert(nodes[iv].vertice@ == link.v);
    }
}

/// Edges in ascending order come back from the sort by weight as they are, each with the
/// nodes of its two ends.
proof fn lemma_placed(
    edges: Seq<NoddedEdge>,
    listed: Seq<Edge>,
    graph: Seq<Link>,
    source: Seq<Edge>,
    ids: Seq<nat>,
    nodes: Seq<Node>,
)
    requires
        links_of(listed) == sorted_links(graph),
        listed.to_multiset() == source.to_multiset(),
        nodes.len() == ids.len(),
        forall|i: int| 0 <= i < ids.len() ==> (#[trigger] nodes[i]).vertice@ == ids[i],
        edges.len() == listed.len(),
        forall|i: int, j: int| 0 <= i < j < edges.len() ==> edges[i].weight <= edges[j].weight,
        forall|weight: usize| #[trigger]
            of_weight(raw_edges(edges), weight) == of_weight(listed, weight),
        forall|k: int|
            0 <= k < edges.len() ==> {
                &&& (#[trigger] edges[k]).weight == edges[k].raw_edge.weight
                &&& first_at(nodes, edges[k].raw_edge.u@, edges[k].u as int)
                &&& first_at(nodes, edges[k].raw_edge.v@, edges[k].v as int)
            },
    ensures
        placed(edges, sorted_links(graph), ids, source),
{
    let links = sorted_links(graph);
    let raws = raw_edges(edges);
    crate::graph::lemma_sorted_links(graph);
    assert forall|i: int, j: int| 0 <= i < j < listed.len() implies listed[i].weight
        <= listed[j].weight by {
        assert(links[i].weight <= links[j].weight);
    }
    assert forall|i: int, j: int| 0 <= i < j < raws.len() implies raws[i].weight
        <= raws[j].weight by {
        assert(edges[i].weight <= edges[j].weight);
    }
    lemma_sorted_by_weight_unique(raws, listed);
    assert forall|m: int| 0 <= m < edges.len() implies placed_at(
        #[trigger] edges[m],
        links[m],
        ids,
        source,
    ) by {
        assert(raws[m] == edges[m].raw_edge);
        assert(links[m] == listed[m]@);
        assert(listed.contains(listed[m]));
        vstd::seq_lib::to_multiset_contains(listed, listed[m]);
        vstd::seq_lib::to_multiset_contains(source, listed[m]);
        assert(nodes[edges[m].u as int].vertice@ == ids[edges[m].u as int]);
        assert(nodes[edges[m].v as int].vertice@ == ids[edges[m].v as int]);
    }
}

/// Sets of one vertex each keep track of the tree without edges.
proof fn lemma_tracks_start(nodes: Seq<Node>, ids: Seq<nat>)
    requires
        ascending(ids),
        nodes.len() == ids.len(),
        forall|i: int|
            0 <= i < nodes.len() ==> {
                &&& (#[trigger] nodes[i]).vertice@ == ids[i]
                &&& nodes[i].parent is None
                &&& nodes[i].rank == 0
            },
    ensures
        tracks(nodes, ids, Seq::<Link>::empty()),
{
    assert forall|i: int, j: int| 0 <= i < ids.len() && 0 <= j < ids.len() implies ((
    #[trigger] root_of(nodes, i)) == (#[trigger] root_of(nodes, j)) <==> connected(
        Seq::<Link>::empty(),
        ids[i],
        ids[j],
    )) by {
        crate::graph::lemma_connected_empty(ids[i], ids[j]);
    }
}

/// Where the sets keep track of a tree, and an edge joins vertices of two sets, the sets
/// with those two made one keep track of the tree with that edge.
proof fn lemma_tracks_union(
    nodes: Seq<Node>,
    ids: Seq<nat>,
    tree: Seq<Link>,
    link: Link,
    u: int,
    v: int,
)
    requires
        tracks(nodes, ids, tree),
        nodes.len() <= usize::MAX,
        0 <= u < ids.len(),
        0 <= v < ids.len(),
        ids[u] == link.u,
        ids[v] == link.v,
    ensures
        tracks(united(nodes, u, v), ids, tree.push(link)),
{
    let after = united(nodes, u, v);
    lemma_united_forest(nodes, u, v);
    lemma_united_roots(nodes, u, v);
    assert forall|i: int, j: int| 0 <= i < ids.len() && 0 <= j < ids.len() implies ((
    #[trigger] root_of(after, i)) == (#[trigger] root_of(after, j)) <==> connected(
        tree.push(link),
        ids[i],
        ids[j],
    )) by {
        crate::graph::lemma_connected_with(tree, link, ids[i], ids[j]);
        let ri = root_of(nodes, i);
        let rj = root_of(nodes, j);
        let ru = root_of(nodes, u);
        let rv = root_of(nodes, v);
        assert(ri == ru <==> connected(tree, ids[i], link.u));
        assert(rv == rj <==> connected(tree, link.v, ids[j]));
        assert(ri == rv <==> connected(tree, ids[i], link.v));
        assert(ru == rj <==> connected(tree, link.u, ids[j]));
        assert(ri == rj <==> connected(tree, ids[i], ids[j]));
        assert(ru == rv <==> connected(tree, link.u, link.v));
        if ru == rv {
            crate::graph::lemma_connected_sym(tree, link.u, link.v);
            if connected(tree, ids[i], link.u) && connected(tree, link.v, ids[j]) {
                crate::graph::lemma_connected_trans(tree, ids[i], link.u, link.v);
                crate::graph::lemma_connected_trans(tree, ids[i], link.v, ids[j]);
            }
            if connected(tree, ids[i], link.v) && connected(tree, link.u, ids[j]) {
                crate::graph::lemma_connected_trans(tree, ids[i], link.v, link.u);
                crate::graph::lemma_connected_trans(tree, ids[i], link.u, ids[j]);
            }
        }
    }
}

/// The solver that takes the edges in ascending order and keeps each one that joins two
/// vertices which the edges kept so far do not connect.
pub struct Kruskal {}

impl Solver for Kruskal {
    /// Every graph is taken.
    open spec fn admits(links: Seq<Link>) -> bool {
        true
    }

    open spec fn tree_of(links: Seq<Link>) -> Seq<Link> {
        greedy_forest(sorted_links(links))
    }

    fn solve(network: Network) -> (tree: Network) {
        let vertices = network.vertices_sorted();
        let sorted = network.edges_sorted();
        let ghost ids = ids_of(vertices@);
        let ghost links = sorted_links(network@);
        let ghost listed = sorted@;
        let mut nodes = transform_vertices(vertices);
        proof {
            lemma_nodes_for_ends(network@, listed, ids, nodes@);
        }
        let edges = transform_edges(sorted, nodes.as_slice());
        let mut tree = Network::default();
        let mut k: usize = 0;
        proof {
            lemma_placed(edges@, listed, network@, network.list(), ids, nodes@);
            lemma_tracks_start(nodes@, ids);
            assert(links.take(0) =~= Seq::<Link>::empty());
            assert(tree@ =~= Seq::<Link>::empty());
        }
        while k < edges.len()
            invariant
                k <= edges.len(),
                links == sorted_links(network@),
                placed(edges@, links, ids, network.list()),
                tracks(nodes@, ids, tree@),
                tree@ == greedy_forest(links.take(k as int)),
                drawn(tree.list(), network.list()),
            decreases edges.len() - k,
        {
            let u = edges[k].u;
            let v = edges[k].v;
            let ghost link = links[k as int];
            let ghost forest = tree@;
            let ghost before = nodes@;
            let ghost chosen = tree.list();
            proof {
                assert(links.take(k + 1).drop_last() =~= links.take(k as int));
                assert(links.take(k + 1).last() == link);
            }
            let u_root = find(&nodes, u);
            let v_root = find(&nodes, v);
            if u_root != v_root {
                tree.insert_edge(edges[k].raw_edge.clone());
                union(&mut nodes, u, v);
                proof {
                    assert(tree@ =~= forest.push(link));
                    lemma_tracks_union(before, ids, forest, link, u as int, v as int);
                    lemma_drawn_push(chosen, edges[k as int].raw_edge, network.list());
                }
            }
            k += 1;
        }
        proof {
            assert(links.take(k as int) =~= links);
        }
        tree
    }
}

} // verus!
