use crate::graph::lemma_total_weight_prefix;
use crate::graph::lemma_numbers_len;
use crate::graph::link_order;
use crate::graph::numbers;
use crate::graph::sorted_links;
use crate::graph::total_weight;
use crate::graph::vertex_set;
use crate::graph::Link;
use crate::naming::decimal_of;
use crate::naming::digit_char;
use crate::naming::CHARSET_LEN;
use crate::naming::decimal_text;
use crate::naming::name_of;
use crate::sorting::sort_edges;
use crate::sorting::sort_vertices;
use std::collections::HashMap;
use std::collections::HashSet;
use vstd::prelude::*;
use vstd::string::StrSliceExecFns;
use vstd::string::StringExecFns;

verus! {

/// A vertex of a graph: its number, and the name that the number is shown by. Two
/// vertices are equal when their numbers are; they hash alike where each carries the name
/// of its number, as every vertex made by `new` does.
#[derive(Debug, Hash)]
pub struct VerticeId {
    pub name: String,
    pub id: usize,
}

impl View for VerticeId {
    type V = nat;

    /// A vertex is its number.
    open spec fn view(&self) -> nat {
        self.id as nat
    }
}

impl Clone for VerticeId {
    fn clone(&self) -> (copy: Self)
        ensures
            copy == *self,
    {
        VerticeId { name: self.name.clone(), id: self.id }
    }
}

impl VerticeId {
    /// The name is the one that belongs to the number.
    pub open spec fn wf(&self) -> bool {
        self.name@ == name_of(self.id as nat)
    }

    /// The vertex numbered `id`, with the name of that number.
    pub fn new(id: usize) -> (vertice: Self)
        ensures
            vertice.id == id,
            vertice.wf(),
    {
        Self { name: VerticeId::name_from_id(id), id }
    }

    /// The name of the vertex numbered `id`: one of `A` to `Z`, `a` to `z`, `0` to `9` for
    /// the first 62 numbers, two characters from 62 on, and so forth.
    pub fn name_from_id(id: usize) -> (name: String)
        ensures
            name@ == name_of(id as nat),
    {
        let charset = "ABCDEFGHIJKLMNOPQRSTUVWXYZabcdefghijklmnopqrstuvwxyz0123456789";
        proof {
            reveal_strlit("ABCDEFGHIJKLMNOPQRSTUVWXYZabcdefghijklmnopqrstuvwxyz0123456789");
        }
        let mut rest = id;
        let mut name = String::new();
        while rest >= CHARSET_LEN
            invariant
                charset@ == "ABCDEFGHIJKLMNOPQRSTUVWXYZabcdefghijklmnopqrstuvwxyz0123456789"@,
                charset@.len() == 62,
                charset.is_ascii(),
                name@ + name_of(rest as nat) == name_of(id as nat),
            decreases rest,
        {
            let digit = rest % CHARSET_LEN;
            let ghost before = name@;
            name.append(charset.substring_ascii(digit, digit + 1));
            assert(name@ =~= before + seq![digit_char(digit as nat)]);
            assert(name@ + name_of((rest / 62) as nat) =~= before + name_of(rest as nat));
            rest = rest / CHARSET_LEN;
        }
        let ghost before = name@;
        name.append(charset.substring_ascii(rest, rest + 1));
        assert(name@ =~= before + name_of(rest as nat));
        name
    }

    /// The text this vertex is shown as: its name.
    pub fn to_string(&self) -> (text: String)
        ensures
            text@ == self.name@,
    {
        self.name.clone()
    }
}

/// An undirected weighted edge. Built by `new` or `from_vertices`, its first end is not
/// numbered above its second.
#[derive(Debug, Hash)]
pub struct Edge {
    pub u: VerticeId,
    pub v: VerticeId,
    pub weight: usize,
}

impl View for Edge {
    type V = Link;

    open spec fn view(&self) -> Link {
        Link { u: self.u@, v: self.v@, weight: self.weight as nat }
    }
}

impl Clone for Edge {
    fn clone(&self) -> (copy: Self)
        ensures
            copy == *self,
    {
        Edge { u: self.u.clone(), v: self.v.clone(), weight: self.weight }
    }
}

impl Edge {
    /// Both ends carry the names of their numbers, and the ends are in order.
    pub open spec fn wf(&self) -> bool {
        &&& self.u.wf()
        &&& self.v.wf()
        &&& self.u.id <= self.v.id
    }

    /// The edge of weight `weight` between the vertices numbered `u` and `v`, which may be
    /// given in either order.
    pub fn new(u: usize, v: usize, weight: usize) -> (edge: Self)
        ensures
            edge.wf(),
            edge.weight == weight,
            edge.u.id == if u <= v { u } else { v },
            edge.v.id == if u <= v { v } else { u },
    {
        Edge::from_vertices(VerticeId::new(u), VerticeId::new(v), weight)
    }

    /// The edge of weight `weight` between `u` and `v`: the one of lower number becomes the
    /// first end, `u` where the numbers are equal.
    pub fn from_vertices(u: VerticeId, v: VerticeId, weight: usize) -> (edge: Self)
        ensures
            edge.u.id <= edge.v.id,
            edge.weight == weight,
            edge.u == if u.id <= v.id { u } else { v },
            edge.v == if u.id <= v.id { v } else { u },
    {
        if u.id > v.id {
            Self { u: v, v: u, weight }
        } else {
            Self { u, v, weight }
        }
    }

    /// The text this edge is shown as: the first end, the weight between `<-` and `->`, the
    /// second end.
    pub fn to_string(&self) -> (text: String)
        ensures
            text@ == self.u.name@ + "<-"@ + decimal_of(self.weight as nat) + "->"@ + self.v.name@,
    {
        let mut text = self.u.name.clone();
        text.append("<-");
        let weight = decimal_text(self.weight);
        text.append(weight.as_str());
        text.append("->");
        text.append(self.v.name.as_str());
        text
    }
}

/// The links of a list of edges, in the same order.
pub open spec fn links_of(edges: Seq<Edge>) -> Seq<Link> {
    edges.map_values(|e: Edge| e@)
}

/// The numbers of a list of vertices, in the same order.
pub open spec fn ids_of(vertices: Seq<VerticeId>) -> Seq<nat> {
    vertices.map_values(|v: VerticeId| v@)
}

/// `edges` without repetition: an edge stays unless an edge before it joins the same two
/// vertices with the same weight.
pub open spec fn keep_first(edges: Seq<Edge>) -> Seq<Edge>
    decreases edges.len(),
{
    if edges.len() == 0 {
        edges
    } else {
        let kept = keep_first(edges.drop_last());
        if links_of(kept).contains(edges.last()@) {
            kept
        } else {
            kept.push(edges.last())
        }
    }
}

/// The link of weight `weight` between the vertices numbered `u` and `v`.
pub open spec fn link_of(u: usize, v: usize, weight: usize) -> Link {
    Link { u: u as nat, v: v as nat, weight: weight as nat }
}

/// The number under which the edges between the vertices numbered `u` and `v` are kept
/// in mind.
pub open spec fn pair_key(u: usize, v: usize) -> u128 {
    (u * 0x1_0000_0000_0000_0000 + v) as u128
}

/// An edge of weight `weight` between the vertices numbered `u` and `v` is kept in mind: the
/// weights noted under the number of the two ends hold `weight`.
pub open spec fn is_seen(seen: Map<u128, Vec<usize>>, u: usize, v: usize, weight: usize) -> bool {
    seen.contains_key(pair_key(u, v)) && seen[pair_key(u, v)]@.contains(weight)
}

/// Different pairs of ends have different numbers.
pub proof fn lemma_pair_key(u: usize, v: usize, x: usize, y: usize)
    requires
        pair_key(u, v) == pair_key(x, y),
    ensures
        u == x,
        v == y,
{
}

/// A list one longer holds what was added, and what it held before.
pub proof fn lemma_contains_push(weights: Seq<usize>, added: usize, weight: usize)
    ensures
        weights.push(added).contains(weight) <==> weights.contains(weight) || weight == added,
{
    let more = weights.push(added);
    if weights.contains(weight) {
        let w = choose|w: int| 0 <= w < weights.len() && weights[w] == weight;
        assert(more[w] == weight);
    }
    if weight == added {
        assert(more[weights.len() as int] == weight);
    }
}

/// The number under which the edges between the ends of `edge` are kept in mind.
fn key_of(edge: &Edge) -> (key: u128)
    ensures
        key == pair_key(edge.u.id, edge.v.id),
{
    (edge.u.id as u128) * 0x1_0000_0000_0000_0000u128 + (edge.v.id as u128)
}

/// Whether `weights` holds `weight`.
fn has_weight(weights: &Vec<usize>, weight: usize) -> (found: bool)
    ensures
        found == weights@.contains(weight),
{
    let mut j: usize = 0;
    while j < weights.len()
        invariant
            j <= weights.len(),
            forall|k: int| 0 <= k < j ==> weights@[k] != weight,
        decreases weights.len() - j,
    {
        if weights[j] == weight {
            return true;
        }
        j += 1;
    }
    false
}

/// The ends of `edges`, each vertex once, in the order in which the edges name them first:
/// of each edge the first end, then the second.
pub open spec fn first_ends(edges: Seq<Edge>) -> Seq<VerticeId>
    decreases edges.len(),
{
    if edges.len() == 0 {
        Seq::empty()
    } else {
        let seen = first_ends(edges.drop_last());
        let with_u = if ids_of(seen).contains(edges.last().u@) {
            seen
        } else {
            seen.push(edges.last().u)
        };
        if ids_of(with_u).contains(edges.last().v@) {
            with_u
        } else {
            with_u.push(edges.last().v)
        }
    }
}

/// The numbers in `ids` ascend, and none occurs twice.
pub open spec fn ascending(ids: Seq<nat>) -> bool {
    forall|i: int, j: int| 0 <= i < j < ids.len() ==> ids[i] < ids[j]
}

/// Every edge of `chosen` is an edge of `source`.
pub open spec fn drawn(chosen: Seq<Edge>, source: Seq<Edge>) -> bool {
    forall|k: int| 0 <= k < chosen.len() ==> source.contains(#[trigger] chosen[k])
}

/// Edges of a list, and one more of them, are edges of the list.
pub proof fn lemma_drawn_push(chosen: Seq<Edge>, edge: Edge, source: Seq<Edge>)
    requires
        drawn(chosen, source),
        source.contains(edge),
    ensures
        drawn(chosen.push(edge), source),
{
    let more = chosen.push(edge);
    assert forall|k: int| 0 <= k < more.len() implies source.contains(#[trigger] more[k]) by {
        if k < chosen.len() {
            assert(more[k] == chosen[k]);
        }
    }
}

/// A way to choose, among the edges of a graph, a spanning tree of least weight.
pub trait Solver {
    /// The graphs that this solver takes.
    spec fn admits(links: Seq<Link>) -> bool;

    /// The tree that this solver chooses in the graph `links`.
    spec fn tree_of(links: Seq<Link>) -> Seq<Link>;

    /// Chooses the tree. Each of its edges is an edge of `network`.
    fn solve(network: Network) -> (tree: Network)
        requires
            Self::admits(network@),
        ensures
            tree@ == Self::tree_of(network@),
            drawn(tree.list(), network.list()),
    ;
}

/// A graph, held as the list of its edges. Nothing keeps an edge from being listed twice.
pub struct Network(Vec<Edge>);

impl View for Network {
    type V = Seq<Link>;

    /// The graph as the links of its edges, in the order of the list.
    open spec fn view(&self) -> Seq<Link> {
        links_of(self.list())
    }
}

impl Default for Network {
    fn default() -> (network: Self)
        ensures
            network.list() == Seq::<Edge>::empty(),
    {
        Self(Vec::new())
    }
}

impl Clone for Network {
    fn clone(&self) -> (copy: Self)
        ensures
            copy.list() == self.list(),
    {
        Self(copy_edges(&self.0))
    }
}

/// A list with the same edges as `edges`.
fn copy_edges(edges: &Vec<Edge>) -> (copy: Vec<Edge>)
    ensures
        copy@ == edges@,
{
    let mut copy: Vec<Edge> = Vec::new();
    let mut i: usize = 0;
    while i < edges.len()
        invariant
            i <= edges.len(),
            copy@ == edges@.take(i as int),
        decreases edges.len() - i,
    {
        copy.push(edges[i].clone());
        assert(copy@ =~= edges@.take(i + 1));
        i += 1;
    }
    assert(edges@.take(i as int) =~= edges@);
    copy
}

impl Network {
    /// The edges of the graph, in the order in which they are listed.
    pub closed spec fn list(&self) -> Seq<Edge> {
        self.0@
    }

    /// Adds `edge` at the end of the list, whether or not the list has it already.
    pub fn insert_edge(&mut self, edge: Edge)
        ensures
            final(self).list() == old(self).list().push(edge),
    {
        self.0.push(edge)
    }

    /// Drops every edge that repeats an earlier one. The edges that stay keep their order.
    pub fn remove_duplicate(&mut self)
        ensures
            final(self).list() == keep_first(old(self).list()),
    {
        broadcast use vstd::std_specs::hash::group_hash_axioms;

        let mut seen: HashMap<u128, Vec<usize>> = HashMap::new();
        let mut kept: Vec<Edge> = Vec::new();
        let mut i: usize = 0;
        proof {
            assert(links_of(kept@) =~= Seq::<Link>::empty());
        }
        while i < self.0.len()
            invariant
                i <= self.0.len(),
                kept@ == keep_first(self.0@.take(i as int)),
                forall|u: usize, v: usize, weight: usize| #[trigger]
                    is_seen(seen@, u, v, weight) == links_of(kept@).contains(
                        link_of(u, v, weight),
                    ),
            decreases self.0.len() - i,
        {
            let edge = &self.0[i];
            let key = key_of(edge);
            let found = match seen.get(&key) {
                Some(weights) => has_weight(weights, edge.weight),
                None => false,
            };
            proof {
                assert(self.0@.take(i + 1).drop_last() =~= self.0@.take(i as int));
                assert(edge@ == link_of(edge.u.id, edge.v.id, edge.weight));
                assert(found == is_seen(seen@, edge.u.id, edge.v.id, edge.weight));
            }
            if !found {
                let ghost before = seen@;
                let ghost listed = kept@;
                let mut weights = match seen.remove(&key) {
                    Some(weights) => weights,
                    None => Vec::new(),
                };
                let ghost known = weights@;
                weights.push(edge.weight);
                seen.insert(key, weights);
                kept.push(edge.clone());
                proof {
                    lemma_links_push(listed, *edge);
                    assert forall|u: usize, v: usize, weight: usize| #[trigger]
                        is_seen(seen@, u, v, weight) == links_of(kept@).contains(
                            link_of(u, v, weight),
                        ) by {
                        assert(is_seen(before, u, v, weight) == links_of(listed).contains(
                            link_of(u, v, weight),
                        ));
                        if pair_key(u, v) == pair_key(edge.u.id, edge.v.id) {
                            lemma_pair_key(u, v, edge.u.id, edge.v.id);
                            lemma_contains_push(known, edge.weight, weight);
                        }
                    }
                }
            }
            i += 1;
        }
        assert(self.0@.take(i as int) =~= self.0@);
        self.0 = kept;
    }

    /// The sum of the weights of the edges, unless it is beyond the numbers of the machine.
    pub fn checked_cost(&self) -> (cost: Option<usize>)
        ensures
            cost == if total_weight(self@) <= usize::MAX {
                Some(total_weight(self@) as usize)
            } else {
                None
            },
    {
        let mut cost: usize = 0;
        let mut i: usize = 0;
        while i < self.0.len()
            invariant
                i <= self.0.len(),
                cost == total_weight(links_of(self.0@.take(i as int))),
            decreases self.0.len() - i,
        {
            proof {
                assert(links_of(self.0@.take(i + 1)).drop_last() =~= links_of(
                    self.0@.take(i as int),
                ));
                assert(links_of(self.0@.take(i + 1)).last() == self.0@[i as int]@);
                assert(self@.take(i + 1) =~= links_of(self.0@.take(i + 1)));
                lemma_total_weight_prefix(self@, i + 1);
            }
            match cost.checked_add(self.0[i].weight) {
                Some(sum) => {
                    cost = sum;
                },
                None => {
                    return None;
                },
            }
            i += 1;
        }
        assert(self.0@.take(i as int) =~= self.0@);
        Some(cost)
    }

    /// The sum of the weights of the edges: 0 where there is none.
    pub fn cost(&self) -> (cost: usize)
        requires
            total_weight(self@) <= usize::MAX,
        ensures
            cost == total_weight(self@),
    {
        self.checked_cost().unwrap()
    }

    /// The edges in ascending order: by weight, then by first end, then by second end.
    pub fn edges_sorted(&self) -> (edges: Vec<Edge>)
        ensures
            links_of(edges@) == sorted_links(self@),
            edges@.to_multiset() == self.list().to_multiset(),
    {
        let edges = sort_edges(&self.0);
        proof {
            crate::graph::lemma_link_order_total();
            self@.lemma_sort_by_ensures(link_order());
            vstd::seq_lib::lemma_sorted_unique(links_of(edges@), sorted_links(self@), link_order());
        }
        edges
    }

    /// The edges in the order in which they are listed.
    pub fn edges(&self) -> (edges: Vec<Edge>)
        ensures
            edges@ == self.list(),
    {
        copy_edges(&self.0)
    }

    /// The vertices of the graph in ascending order of their numbers, each once.
    pub fn vertices_sorted(&self) -> (vertices: Vec<VerticeId>)
        ensures
            ascending(ids_of(vertices@)),
            ids_of(vertices@).to_set() == vertex_set(self@),
            vertices@.to_multiset() == first_ends(self.list()).to_multiset(),
    {
        let unsorted = self.vertices();
        proof {
            lemma_first_ends(self.list());
        }
        let vertices = sort_vertices(&unsorted);
        proof {
            let ids = ids_of(vertices@);
            let ends = ids_of(unsorted@);
            assert forall|x: nat| ids.to_set().contains(x) <==> vertex_set(self@).contains(
                x,
            ) by {
                vstd::seq_lib::to_multiset_contains(ids, x);
                vstd::seq_lib::to_multiset_contains(ends, x);
            }
            assert(ids.to_set() =~= vertex_set(self@));
        }
        vertices
    }

    /// The vertices of the graph, each once, in the order in which the edges name them first.
    pub fn vertices(&self) -> (vertices: Vec<VerticeId>)
        ensures
            vertices@ == first_ends(self.list()),
    {
        broadcast use vstd::std_specs::hash::group_hash_axioms;

        let mut seen: HashSet<usize> = HashSet::new();
        let mut vertices: Vec<VerticeId> = Vec::new();
        let mut i: usize = 0;
        assert(self.0@.take(0) =~= Seq::<Edge>::empty());
        while i < self.0.len()
            invariant
                i <= self.0.len(),
                vertices@ == first_ends(self.0@.take(i as int)),
                forall|x: usize| seen@.contains(x) <==> ids_of(vertices@).contains(x as nat),
            decreases self.0.len() - i,
        {
            let edge = &self.0[i];
            assert(self.0@.take(i + 1).drop_last() =~= self.0@.take(i as int));
            proof {
                lemma_ids_push(vertices@, edge.u);
            }
            if seen.insert(edge.u.id) {
                vertices.push(edge.u.clone());
            }
            proof {
                lemma_ids_push(vertices@, edge.v);
            }
            if seen.insert(edge.v.id) {
                vertices.push(edge.v.clone());
            }
            i += 1;
        }
        assert(self.0@.take(i as int) =~= self.0@);
        vertices
    }

    /// The numbers of the vertices of the graph: of the ends of its edges.
    pub fn vertices_set(&self) -> (set: HashSet<usize>)
        ensures
            numbers(set@) == vertex_set(self@),
            set@.len() == vertex_set(self@).len(),
    {
        broadcast use vstd::std_specs::hash::group_hash_axioms;

        let mut set: HashSet<usize> = HashSet::with_capacity(self.0.len());
        let mut i: usize = 0;
        while i < self.0.len()
            invariant
                i <= self.0.len(),
                set@.finite(),
                forall|x: usize|
                    set@.contains(x) <==> vertex_set(links_of(self.0@.take(i as int))).contains(
                        x as nat,
                    ),
            decreases self.0.len() - i,
        {
            proof {
                assert(links_of(self.0@.take(i + 1)) =~= links_of(self.0@.take(i as int)).push(
                    self.0@[i as int]@,
                ));
                crate::graph::lemma_vertex_set_push(
                    links_of(self.0@.take(i as int)),
                    self.0@[i as int]@,
                );
            }
            set.insert(self.0[i].u.id);
            set.insert(self.0[i].v.id);
            i += 1;
        }
        proof {
            assert(self.0@.take(i as int) =~= self.0@);
            assert forall|x: nat| numbers(set@).contains(x) == vertex_set(self@).contains(x) by {
                if vertex_set(self@).contains(x) {
                    let k = choose|k: int|
                        0 <= k < self@.len() && crate::graph::has_end(#[trigger] self@[k], x);
                    assert(x == self.0@[k].u.id || x == self.0@[k].v.id);
                    assert(set@.contains(x as usize));
                }
            }
            assert(numbers(set@) =~= vertex_set(self@));
            lemma_numbers_len(set@);
        }
        set
    }
}

/// The numbers of a list of vertices one longer hold the number of the vertex added, and
/// what they held before.
pub proof fn lemma_ids_push(vertices: Seq<VerticeId>, vertice: VerticeId)
    ensures
        ids_of(vertices.push(vertice)) == ids_of(vertices).push(vertice@),
        forall|x: nat|
            ids_of(vertices.push(vertice)).contains(x) <==> ids_of(vertices).contains(x) || x
                == vertice@,
{
    let ids = ids_of(vertices);
    let next = ids_of(vertices.push(vertice));
    assert(next =~= ids.push(vertice@));
    assert forall|x: nat| next.contains(x) <==> ids.contains(x) || x == vertice@ by {
        if ids.contains(x) {
            let w = choose|w: int| 0 <= w < ids.len() && ids[w] == x;
            assert(next[w] == x);
        }
        if x == vertice@ {
            assert(next[ids.len() as int] == x);
        }
    }
}

/// The list of the first ends holds each vertex of the graph, and no number twice.
pub proof fn lemma_first_ends(edges: Seq<Edge>)
    ensures
        ids_of(first_ends(edges)).no_duplicates(),
        forall|x: nat|
            ids_of(first_ends(edges)).contains(x) <==> vertex_set(links_of(edges)).contains(x),
    decreases edges.len(),
{
    if edges.len() == 0 {
        assert(ids_of(first_ends(edges)) =~= Seq::<nat>::empty());
        assert(vertex_set(links_of(edges)) =~= Set::<nat>::empty());
    } else {
        let rest = edges.drop_last();
        let last = edges.last();
        let seen = first_ends(rest);
        let with_u = if ids_of(seen).contains(last.u@) {
            seen
        } else {
            seen.push(last.u)
        };
        lemma_first_ends(rest);
        lemma_ids_push(seen, last.u);
        lemma_ids_push(with_u, last.v);
        assert(links_of(edges) =~= links_of(rest).push(last@));
        crate::graph::lemma_vertex_set_push(links_of(rest), last@);
    }
}

/// The links of a list of edges one longer are the links it had and the link of the edge
/// added.
pub proof fn lemma_links_push(edges: Seq<Edge>, edge: Edge)
    ensures
        links_of(edges.push(edge)) == links_of(edges).push(edge@),
        forall|link: Link|
            links_of(edges.push(edge)).contains(link) <==> links_of(edges).contains(link) || link
                == edge@,
{
    let links = links_of(edges);
    let next = links_of(edges.push(edge));
    assert(next =~= links.push(edge@));
    assert forall|link: Link| next.contains(link) <==> links.contains(link) || link == edge@ by {
        if links.contains(link) {
            let w = choose|w: int| 0 <= w < links.len() && links[w] == link;
            assert(next[w] == link);
        }
        if link == edge@ {
            assert(next[links.len() as int] == link);
        }
    }
}

/// What stays of a list of edges without repetition joins no two vertices twice with the
/// same weight, and joins with each weight all that the list joined with it.
pub proof fn lemma_keep_first(edges: Seq<Edge>)
    ensures
        links_of(keep_first(edges)).no_duplicates(),
        forall|link: Link|
            links_of(keep_first(edges)).contains(link) <==> links_of(edges).contains(link),
    decreases edges.len(),
{
    if edges.len() == 0 {
    } else {
        let rest = edges.drop_last();
        let last = edges.last();
        lemma_keep_first(rest);
        assert(edges =~= rest.push(last));
        lemma_links_push(rest, last);
        lemma_links_push(keep_first(rest), last);
        assert forall|link: Link|
            links_of(keep_first(edges)).contains(link) <==> links_of(edges).contains(link) by {
            assert(links_of(keep_first(rest)).contains(link) <==> links_of(rest).contains(link));
            assert(links_of(rest.push(last)).contains(link) <==> links_of(rest).contains(link)
                || link == last@);
            assert(links_of(keep_first(rest).push(last)).contains(link) <==> links_of(
                keep_first(rest),
            ).contains(link) || link == last@);
        }
    }
}

/// A list of edges that joins no two vertices twice with the same weight is left as it is.
pub proof fn lemma_keep_first_of_distinct(edges: Seq<Edge>)
    requires
        links_of(edges).no_duplicates(),
    ensures
        keep_first(edges) == edges,
    decreases edges.len(),
{
    if edges.len() > 0 {
        let rest = edges.drop_last();
        let last = edges.last();
        assert(edges =~= rest.push(last));
        lemma_links_push(rest, last);
        assert forall|i: int, j: int| 0 <= i < j < rest.len() implies links_of(rest)[i]
            != links_of(rest)[j] by {
            assert(links_of(edges)[i] != links_of(edges)[j]);
        }
        lemma_keep_first_of_distinct(rest);
        if links_of(rest).contains(last@) {
            let w = choose|w: int| 0 <= w < rest.len() && links_of(rest)[w] == last@;
            assert(links_of(edges)[w] == links_of(edges)[edges.len() - 1]);
        }
    }
}

/// To drop the repeated edges a second time changes nothing.
pub proof fn lemma_remove_duplicate_idempotent(edges: Seq<Edge>)
    ensures
        keep_first(keep_first(edges)) == keep_first(edges),
{
    lemma_keep_first(edges);
    lemma_keep_first_of_distinct(keep_first(edges));
}

} // verus!
