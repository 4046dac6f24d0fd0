use crate::components::acyclic;
use crate::components::cycle_free;
use crate::components::ends_in;
use crate::components::lemma_cycle_free_acyclic;
use crate::components::lemma_forest_size;
use crate::components::lemma_parts_connected;
use crate::components::reaches;
use crate::frontier::lemma_connected_within;
use crate::frontier::lemma_search;
use crate::frontier::lemma_search_closed;
use crate::frontier::lemma_search_light_link;
use crate::frontier::reached;
use crate::graph::connected;
use crate::graph::drawn_from;
use crate::graph::has_end;
use crate::graph::is_connected;
use crate::graph::lemma_connected_among;
use crate::graph::lemma_connected_apart;
use crate::graph::lemma_connected_refl;
use crate::graph::lemma_connected_sym;
use crate::graph::lemma_connected_trans;
use crate::graph::lemma_sorted_links;
use crate::graph::lemma_vertex_set_finite;
use crate::graph::sorted_links;
use crate::graph::spans;
use crate::graph::total_weight;
use crate::graph::vertex_set;
use crate::graph::Link;
use crate::greedy::lemma_drawn_ends;
use crate::greedy::lemma_greedy_forest;
use crate::greedy::lemma_greedy_light;
use crate::kruskal::Kruskal;
use crate::prim::crossing;
use crate::prim::least_vertex;
use crate::prim::lemma_least_vertex;
use crate::prim::Prim;
use crate::solv::Solver;
use crate::threshold::lemma_light;
use crate::threshold::lemma_light_among;
use crate::threshold::lemma_lightest;
use crate::threshold::light;
use crate::threshold::reaches_at_each_limit;
use vstd::prelude::*;

verus! {

/// The tree that Kruskal's solver chooses has no cycle, is drawn from the graph, and
/// connects exactly what the graph connects: it is a spanning forest.
pub proof fn lemma_kruskal_spanning(links: Seq<Link>)
    ensures
        cycle_free(Kruskal::tree_of(links)),
        acyclic(Kruskal::tree_of(links)),
        drawn_from(Kruskal::tree_of(links), links),
        spans(Kruskal::tree_of(links), links),
        spans(links, Kruskal::tree_of(links)),
{
    let sorted = sorted_links(links);
    let tree = Kruskal::tree_of(links);
    lemma_sorted_links(links);
    lemma_greedy_forest(sorted);
    lemma_cycle_free_acyclic(tree);
    assert forall|i: int| 0 <= i < tree.len() implies links.contains(#[trigger] tree[i]) by {
        assert(sorted.contains(tree[i]));
    }
    assert forall|a: nat, b: nat| #[trigger] connected(links, a, b) implies connected(tree, a, b) by {
        assert forall|i: int| 0 <= i < links.len() implies sorted.contains(#[trigger] links[i]) by {
            assert(links.contains(links[i]));
        }
        lemma_connected_among(links, sorted, a, b);
    }
    assert forall|a: nat, b: nat| #[trigger] connected(tree, a, b) implies connected(links, a, b) by {
        lemma_connected_among(tree, links, a, b);
    }
}

/// No choice of links of the graph that connects whatever the graph connects weighs less
/// than the tree that Kruskal's solver chooses.
pub proof fn lemma_kruskal_lightest(links: Seq<Link>, other: Seq<Link>)
    requires
        drawn_from(other, links),
        spans(other, links),
    ensures
        total_weight(Kruskal::tree_of(links)) <= total_weight(other),
{
    let sorted = sorted_links(links);
    let tree = Kruskal::tree_of(links);
    let vertices = vertex_set(links);
    lemma_sorted_links(links);
    lemma_kruskal_spanning(links);
    lemma_vertex_set_finite(links);
    lemma_drawn_ends(tree, links);
    lemma_drawn_ends(other, links);
    assert forall|limit: nat| #[trigger]
        reaches(light(tree, limit), light(other, limit), vertices) by {
        lemma_greedy_light(sorted, limit);
        lemma_greedy_forest(light(sorted, limit));
        assert forall|a: nat, b: nat|
            vertices.contains(a) && vertices.contains(b) && #[trigger] connected(
                light(other, limit),
                a,
                b,
            ) implies connected(light(tree, limit), a, b) by {
            lemma_light_among(other, links, limit, a, b);
            assert forall|i: int| 0 <= i < links.len() implies sorted.contains(
                #[trigger] links[i],
            ) by {
                assert(links.contains(links[i]));
            }
            lemma_light_among(links, sorted, limit, a, b);
        }
    }
    assert(reaches_at_each_limit(tree, other, vertices));
    assert forall|a: nat, b: nat|
        vertices.contains(a) && vertices.contains(b) && #[trigger] connected(
            tree,
            a,
            b,
        ) implies connected(other, a, b) by {
        assert(connected(links, a, b));
    }
    lemma_lightest(tree, other, vertices);
}

/// In a connected graph the tree that Kruskal's solver chooses has one edge fewer than the
/// graph has vertices.
pub proof fn lemma_kruskal_size(links: Seq<Link>)
    requires
        links.len() > 0,
        is_connected(links),
    ensures
        Kruskal::tree_of(links).len() == vertex_set(links).len() - 1,
{
    let tree = Kruskal::tree_of(links);
    let vertices = vertex_set(links);
    lemma_kruskal_spanning(links);
    lemma_vertex_set_finite(links);
    lemma_drawn_ends(tree, links);
    lemma_forest_size(tree, vertices);
    assert(has_end(links[0], links[0].u));
    assert(vertices.contains(links[0].u));
    assert(vertices.len() > 0) by {
        if vertices.len() == 0 {
            vertices.lemma_len0_is_empty();
        }
    }
    assert forall|a: nat, b: nat| vertices.contains(a) && vertices.contains(b) implies #[trigger] connected(
        tree,
        a,
        b,
    ) by {
        assert(connected(links, a, b));
    }
    lemma_parts_connected(tree, vertices);
}

/// The tree that Prim's solver chooses has no cycle, is drawn from the graph, and
/// connects the lowest vertex with exactly the vertices that the graph connects it with:
/// the vertices reached, one more than the tree has edges.
pub proof fn lemma_prim_covering(links: Seq<Link>)
    requires
        links.len() > 0,
    ensures
        cycle_free(Prim::tree_of(links)),
        acyclic(Prim::tree_of(links)),
        drawn_from(Prim::tree_of(links), links),
        ends_in(Prim::tree_of(links), reached(links)),
        reached(links).finite(),
        Prim::tree_of(links).len() + 1 == reached(links).len(),
        forall|x: nat| reached(links).contains(x) <==> connected(links, least_vertex(links), x),
        forall|x: nat|
            connected(Prim::tree_of(links), least_vertex(links), x) <==> connected(
                links,
                least_vertex(links),
                x,
            ),
{
    let seed = least_vertex(links);
    let tree = Prim::tree_of(links);
    lemma_search(links, seed, vertex_set(links).len());
    lemma_search_closed(links);
    lemma_cycle_free_acyclic(tree);
    assert forall|x: nat| connected(links, seed, x) implies reached(links).contains(x)
        && connected(tree, seed, x) by {
        assert forall|i: int|
            0 <= i < links.len() && reached(links).contains((#[trigger] links[i]).u)
                && reached(links).contains(links[i].v) implies connected(
            tree,
            links[i].u,
            links[i].v,
        ) by {
            assert(connected(tree, seed, links[i].u));
            assert(connected(tree, seed, links[i].v));
            lemma_connected_sym(tree, seed, links[i].u);
            lemma_connected_trans(tree, links[i].u, seed, links[i].v);
        }
        lemma_connected_within(links, tree, reached(links), seed, x);
    }
    assert forall|x: nat| connected(tree, seed, x) implies connected(links, seed, x) by {
        lemma_connected_among(tree, links, seed, x);
    }
}

/// No choice of links of the graph between the vertices reached that connects the lowest
/// vertex with all of them weighs less than the tree that Prim's solver chooses.
pub proof fn lemma_prim_lightest(links: Seq<Link>, other: Seq<Link>)
    requires
        links.len() > 0,
        drawn_from(other, links),
        ends_in(other, reached(links)),
        forall|x: nat|
            reached(links).contains(x) ==> connected(other, least_vertex(links), x),
    ensures
        total_weight(Prim::tree_of(links)) <= total_weight(other),
{
    let seed = least_vertex(links);
    let tree = Prim::tree_of(links);
    let inside = reached(links);
    let steps = vertex_set(links).len();
    lemma_prim_covering(links);
    lemma_search_closed(links);
    assert forall|limit: nat| #[trigger] reaches(light(tree, limit), light(other, limit), inside) by {
        let few = light(links, limit);
        lemma_light(links, limit);
        assert forall|a: nat, b: nat|
            inside.contains(a) && inside.contains(b) && #[trigger] connected(
                light(other, limit),
                a,
                b,
            ) implies connected(light(tree, limit), a, b) by {
            lemma_light_among(other, links, limit, a, b);
            assert forall|i: int| 0 <= i < few.len() implies !crossing(inside, #[trigger] few[i]) by {
                assert(few.contains(few[i]));
                assert(links.contains(few[i]));
                let w = choose|w: int| 0 <= w < links.len() && links[w] == few[i];
                assert(!crossing(inside, links[w]));
            }
            assert forall|i: int|
                0 <= i < few.len() && inside.contains((#[trigger] few[i]).u) && inside.contains(
                    few[i].v,
                ) implies connected(light(tree, limit), few[i].u, few[i].v) by {
                assert(few.contains(few[i]));
                assert(links.contains(few[i]));
                let w = choose|w: int| 0 <= w < links.len() && links[w] == few[i];
                lemma_search_light_link(links, seed, steps, limit, w);
            }
            lemma_connected_within(few, light(tree, limit), inside, a, b);
        }
    }
    assert(reaches_at_each_limit(tree, other, inside));
    assert forall|a: nat, b: nat|
        inside.contains(a) && inside.contains(b) && #[trigger] connected(
            tree,
            a,
            b,
        ) implies connected(other, a, b) by {
        lemma_connected_sym(other, seed, a);
        lemma_connected_trans(other, a, seed, b);
    }
    lemma_lightest(tree, other, inside);
}

/// In a connected graph both solvers choose trees of the same weight, the least that
/// connects the graph, each with one edge fewer than the graph has vertices.
pub proof fn lemma_solvers_agree(links: Seq<Link>)
    requires
        links.len() > 0,
        is_connected(links),
    ensures
        total_weight(Kruskal::tree_of(links)) == total_weight(Prim::tree_of(links)),
        Kruskal::tree_of(links).len() == vertex_set(links).len() - 1,
        Prim::tree_of(links).len() == vertex_set(links).len() - 1,
{
    let seed = least_vertex(links);
    let vertices = vertex_set(links);
    let kruskal = Kruskal::tree_of(links);
    let prim = Prim::tree_of(links);
    lemma_least_vertex(links);
    lemma_prim_covering(links);
    lemma_kruskal_spanning(links);
    lemma_kruskal_size(links);
    assert forall|x: nat| reached(links).contains(x) == vertices.contains(x) by {
        if vertices.contains(x) {
            assert(connected(links, seed, x));
        }
        if reached(links).contains(x) && x != seed {
            lemma_connected_apart(links, seed, x);
        }
    }
    assert(reached(links) =~= vertices);
    // Kruskal's tree is one of the choices that Prim's tree weighs no more than
    lemma_drawn_ends(kruskal, links);
    assert forall|x: nat| reached(links).contains(x) implies connected(kruskal, seed, x) by {
        assert(connected(links, seed, x));
    }
    lemma_prim_lightest(links, kruskal);
    // and Prim's tree one of those that Kruskal's tree weighs no more than
    assert forall|a: nat, b: nat| #[trigger] connected(links, a, b) implies connected(prim, a, b) by {
        if a == b {
            lemma_connected_refl(prim, a);
        } else {
            lemma_connected_apart(links, a, b);
            assert(connected(links, seed, a));
            assert(connected(links, seed, b));
            assert(connected(prim, seed, a));
            assert(connected(prim, seed, b));
            lemma_connected_sym(prim, seed, a);
            lemma_connected_trans(prim, a, seed, b);
        }
    }
    lemma_kruskal_lightest(links, prim);
}

} // verus!
