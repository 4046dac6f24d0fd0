use crate::components::cycle_free;
use crate::components::ends_in;
use crate::graph::connected;
use crate::graph::drawn_from;
use crate::graph::has_end;
use crate::graph::is_walk;
use crate::graph::lemma_walk_last_step;
use crate::graph::lemma_connected_apart;
use crate::graph::lemma_connected_link;
use crate::graph::lemma_connected_push;
use crate::graph::lemma_connected_refl;
use crate::graph::lemma_connected_sym;
use crate::graph::lemma_connected_trans;
use crate::graph::lemma_vertex_set_finite;
use crate::graph::vertex_set;
use crate::graph::Link;
use crate::prim::cheaper_edge;
use crate::prim::crossing;
use crate::prim::grow;
use crate::prim::least_vertex;
use crate::prim::lemma_cheaper_edge;
use crate::prim::lemma_least_vertex;
use crate::prim::search;
use crate::prim::Frontier;
use crate::threshold::light;
use vstd::prelude::*;

verus! {

/// No link of the graph has one end in the set and the other outside.
pub open spec fn closed(links: Seq<Link>, inside: Set<nat>) -> bool {
    forall|i: int| 0 <= i < links.len() ==> !crossing(inside, #[trigger] links[i])
}

/// A walk that begins in a closed set of vertices ends in it; and a graph that connects the
/// two ends of every link inside the set connects the two ends of the walk.
proof fn lemma_walk_within(links: Seq<Link>, others: Seq<Link>, inside: Set<nat>, walk: Seq<nat>)
    requires
        is_walk(links, walk),
        inside.contains(walk.first()),
        closed(links, inside),
        forall|i: int|
            0 <= i < links.len() && inside.contains((#[trigger] links[i]).u) && inside.contains(
                links[i].v,
            ) ==> connected(others, links[i].u, links[i].v),
    ensures
        inside.contains(walk.last()),
        connected(others, walk.first(), walk.last()),
    decreases walk.len(),
{
    if walk.len() == 1 {
        lemma_connected_refl(others, walk.first());
    } else {
        let short = walk.drop_last();
        let i = lemma_walk_last_step(links, walk);
        lemma_walk_within(links, others, inside, short);
        let x = short.last();
        let y = walk.last();
        assert(!crossing(inside, links[i]));
        assert(connected(others, links[i].u, links[i].v));
        if links[i].u != x {
            lemma_connected_sym(others, links[i].u, links[i].v);
        }
        lemma_connected_trans(others, walk.first(), x, y);
    }
}

/// What a graph connects with a vertex of a closed set is in the set; and a graph that
/// connects the two ends of every link inside the set connects it with that vertex.
pub proof fn lemma_connected_within(
    links: Seq<Link>,
    others: Seq<Link>,
    inside: Set<nat>,
    a: nat,
    b: nat,
)
    requires
        connected(links, a, b),
        inside.contains(a),
        closed(links, inside),
        forall|i: int|
            0 <= i < links.len() && inside.contains((#[trigger] links[i]).u) && inside.contains(
                links[i].v,
            ) ==> connected(others, links[i].u, links[i].v),
    ensures
        inside.contains(b),
        connected(others, a, b),
{
    let walk = choose|walk: Seq<nat>| #[trigger]
        is_walk(links, walk) && walk.first() == a && walk.last() == b;
    lemma_walk_within(links, others, inside, walk);
}

/// What holds of the search at every step: the tree is drawn from the graph, closes no
/// cycle, has one edge fewer than vertices are reached, and connects the seed with each
/// vertex reached; the vertices reached are the seed and the ends of the tree.
pub open spec fn well_grown(links: Seq<Link>, seed: nat, at: Frontier) -> bool {
    &&& at.visited.finite()
    &&& at.visited.contains(seed)
    &&& at.visited.subset_of(vertex_set(links).insert(seed))
    &&& at.tree.len() + 1 == at.visited.len()
    &&& cycle_free(at.tree)
    &&& drawn_from(at.tree, links)
    &&& ends_in(at.tree, at.visited)
    &&& forall|x: nat| at.visited.contains(x) ==> connected(at.tree, seed, x)
}

/// A step of the search keeps what holds of it.
pub proof fn lemma_grow(links: Seq<Link>, seed: nat, at: Frontier)
    requires
        well_grown(links, seed, at),
    ensures
        well_grown(links, seed, grow(links, at)),
{
    lemma_cheaper_edge(at.visited, links);
    match cheaper_edge(at.visited, links) {
        Some(i) => {
            let link = links[i];
            let next = grow(links, at);
            let inner = if at.visited.contains(link.u) {
                link.u
            } else {
                link.v
            };
            let outer = if at.visited.contains(link.u) {
                link.v
            } else {
                link.u
            };
            assert(next.visited =~= at.visited.insert(outer));
            assert(has_end(links[i], outer));
            assert(vertex_set(links).contains(outer));
            assert(next.tree.drop_last() =~= at.tree);
            if connected(at.tree, link.u, link.v) {
                lemma_connected_sym(at.tree, link.u, link.v);
                lemma_connected_apart(at.tree, inner, outer);
                let w = choose|w: int| 0 <= w < at.tree.len() && has_end(#[trigger] at.tree[w], outer);
                assert(at.visited.contains(at.tree[w].u) && at.visited.contains(at.tree[w].v));
            }
            assert forall|k: int| 0 <= k < next.tree.len() implies links.contains(
                #[trigger] next.tree[k],
            ) && next.visited.contains(next.tree[k].u) && next.visited.contains(
                next.tree[k].v,
            ) by {
                if k < at.tree.len() {
                    assert(next.tree[k] == at.tree[k]);
                    assert(links.contains(at.tree[k]));
                    assert(at.visited.contains(at.tree[k].u));
                }
            }
            assert forall|x: nat| next.visited.contains(x) implies connected(
                next.tree,
                seed,
                x,
            ) by {
                lemma_connected_link(next.tree, at.tree.len() as int);
                assert(connected(at.tree, seed, inner));
                lemma_connected_push(at.tree, link, seed, inner);
                if x == outer {
                    lemma_connected_trans(next.tree, seed, inner, outer);
                } else {
                    assert(connected(at.tree, seed, x));
                    lemma_connected_push(at.tree, link, seed, x);
                }
            }
        },
        None => {},
    }
}

/// At every step the search is well grown; and the steps so far each reached a vertex,
/// unless no link crosses the border any more.
pub proof fn lemma_search(links: Seq<Link>, seed: nat, steps: nat)
    ensures
        well_grown(links, seed, search(links, seed, steps)),
        cheaper_edge(search(links, seed, steps).visited, links) is None || search(
            links,
            seed,
            steps,
        ).visited.len() == steps + 1,
    decreases steps,
{
    if steps == 0 {
        let at = search(links, seed, 0);
        assert(at.visited =~= Set::<nat>::empty().insert(seed));
        assert(at.visited.len() == 1);
        assert forall|x: nat| at.visited.contains(x) implies connected(at.tree, seed, x) by {
            lemma_connected_refl(at.tree, seed);
        }
    } else {
        lemma_search(links, seed, (steps - 1) as nat);
        lemma_grow(links, seed, search(links, seed, (steps - 1) as nat));
    }
}

/// The vertices that Prim's solver reaches in the graph.
pub open spec fn reached(links: Seq<Link>) -> Set<nat> {
    search(links, least_vertex(links), vertex_set(links).len()).visited
}

/// When Prim's solver ends, no link of the graph leaves the vertices reached.
pub proof fn lemma_search_closed(links: Seq<Link>)
    requires
        links.len() > 0,
    ensures
        closed(links, reached(links)),
{
    let seed = least_vertex(links);
    let vertices = vertex_set(links);
    lemma_least_vertex(links);
    lemma_vertex_set_finite(links);
    lemma_search(links, seed, vertices.len());
    assert(vertices.insert(seed) =~= vertices);
    vstd::set_lib::lemma_len_subset(reached(links), vertices);
    lemma_cheaper_edge(reached(links), links);
}

/// No link up to the limit has one end in the set and the other outside.
pub open spec fn closed_below(links: Seq<Link>, inside: Set<nat>, limit: nat) -> bool {
    forall|i: int|
        0 <= i < links.len() && (#[trigger] links[i]).weight <= limit ==> !crossing(
            inside,
            links[i],
        )
}

/// How the light edges of the tree hold the vertices reached together: those outside
/// `sealed` are connected with each other, and inside `sealed`, which no light link of the
/// graph leaves, the two ends of every light link of the graph are connected.
pub open spec fn light_grown(links: Seq<Link>, limit: nat, at: Frontier, sealed: Set<nat>) -> bool {
    &&& sealed.subset_of(at.visited)
    &&& closed_below(links, sealed, limit)
    &&& forall|a: nat, b: nat|
        at.visited.contains(a) && !sealed.contains(a) && at.visited.contains(b)
            && !sealed.contains(b) ==> #[trigger] connected(light(at.tree, limit), a, b)
    &&& forall|i: int|
        0 <= i < links.len() && (#[trigger] links[i]).weight <= limit && sealed.contains(
            links[i].u,
        ) && sealed.contains(links[i].v) ==> connected(
            light(at.tree, limit),
            links[i].u,
            links[i].v,
        )
}

/// A step of the search keeps the light edges of the tree holding the vertices together:
/// a light edge reaches its new vertex from outside the sealed set, and a heavy edge is
/// taken only when no light link leaves the vertices reached, which are then sealed.
proof fn lemma_grow_light(links: Seq<Link>, seed: nat, limit: nat, at: Frontier, sealed: Set<nat>) -> (next: Set<nat>)
    requires
        well_grown(links, seed, at),
        light_grown(links, limit, at, sealed),
    ensures
        light_grown(links, limit, grow(links, at), next),
{
    lemma_cheaper_edge(at.visited, links);
    match cheaper_edge(at.visited, links) {
        Some(i) => {
            let link = links[i];
            let after = grow(links, at);
            let few = light(at.tree, limit);
            let inner = if at.visited.contains(link.u) {
                link.u
            } else {
                link.v
            };
            let outer = if at.visited.contains(link.u) {
                link.v
            } else {
                link.u
            };
            assert(after.visited =~= at.visited.insert(outer));
            assert(after.tree.drop_last() =~= at.tree);
            if link.weight <= limit {
                let more = few.push(link);
                assert(light(after.tree, limit) == more);
                assert(!crossing(sealed, link));
                assert(!sealed.contains(inner));
                lemma_connected_link(more, few.len() as int);
                assert(more[few.len() as int] == link);
                assert forall|a: nat, b: nat|
                    after.visited.contains(a) && !sealed.contains(a) && after.visited.contains(b)
                        && !sealed.contains(b) implies #[trigger] connected(more, a, b) by {
                    lemma_connected_refl(more, outer);
                    if a != outer {
                        assert(connected(few, a, inner));
                        lemma_connected_push(few, link, a, inner);
                    }
                    if b != outer {
                        assert(connected(few, inner, b));
                        lemma_connected_push(few, link, inner, b);
                    }
                    if a == outer && b != outer {
                        lemma_connected_trans(more, outer, inner, b);
                    } else if a != outer && b == outer {
                        lemma_connected_trans(more, a, inner, outer);
                    } else if a != outer && b != outer {
                        assert(connected(few, a, b));
                        lemma_connected_push(few, link, a, b);
                    }
                }
                assert forall|j: int|
                    0 <= j < links.len() && (#[trigger] links[j]).weight <= limit
                        && sealed.contains(links[j].u) && sealed.contains(
                        links[j].v,
                    ) implies connected(more, links[j].u, links[j].v) by {
                    lemma_connected_push(few, link, links[j].u, links[j].v);
                }
                sealed
            } else {
                assert(light(after.tree, limit) == few);
                assert forall|j: int|
                    0 <= j < links.len() && (#[trigger] links[j]).weight <= limit implies !crossing(
                    at.visited,
                    links[j],
                ) by {}
                assert forall|a: nat, b: nat|
                    after.visited.contains(a) && !at.visited.contains(a) && after.visited.contains(
                        b,
                    ) && !at.visited.contains(b) implies #[trigger] connected(few, a, b) by {
                    lemma_connected_refl(few, outer);
                }
                assert forall|j: int|
                    0 <= j < links.len() && (#[trigger] links[j]).weight <= limit
                        && at.visited.contains(links[j].u) && at.visited.contains(
                        links[j].v,
                    ) implies connected(few, links[j].u, links[j].v) by {
                    assert(!crossing(sealed, links[j]));
                    if !sealed.contains(links[j].u) {
                        assert(connected(few, links[j].u, links[j].v));
                    }
                }
                at.visited
            }
        },
        None => sealed,
    }
}

/// At every step the light edges of the tree hold the vertices reached together around some
/// sealed set.
proof fn lemma_search_light(links: Seq<Link>, seed: nat, steps: nat, limit: nat) -> (sealed: Set<nat>)
    ensures
        light_grown(links, limit, search(links, seed, steps), sealed),
    decreases steps,
{
    if steps == 0 {
        let at = search(links, seed, 0);
        assert forall|a: nat, b: nat| at.visited.contains(a) && at.visited.contains(b) implies #[trigger] connected(
            light(at.tree, limit),
            a,
            b,
        ) by {
            lemma_connected_refl(light(at.tree, limit), seed);
        }
        Set::<nat>::empty()
    } else {
        let before = lemma_search_light(links, seed, (steps - 1) as nat, limit);
        lemma_search(links, seed, (steps - 1) as nat);
        lemma_grow_light(links, seed, limit, search(links, seed, (steps - 1) as nat), before)
    }
}

/// At every step of the search, the light edges of the tree connect the two ends of every
/// light link of the graph between vertices reached.
pub proof fn lemma_search_light_link(links: Seq<Link>, seed: nat, steps: nat, limit: nat, i: int)
    requires
        0 <= i < links.len(),
        links[i].weight <= limit,
        search(links, seed, steps).visited.contains(links[i].u),
        search(links, seed, steps).visited.contains(links[i].v),
    ensures
        connected(light(search(links, seed, steps).tree, limit), links[i].u, links[i].v),
{
    let sealed = lemma_search_light(links, seed, steps, limit);
    let at = search(links, seed, steps);
    assert(!crossing(sealed, links[i]));
    if !sealed.contains(links[i].u) {
        assert(connected(light(at.tree, limit), links[i].u, links[i].v));
    }
}

} // verus!
