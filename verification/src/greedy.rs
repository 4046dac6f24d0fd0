use crate::components::cycle_free;
use crate::components::ends_in;
use crate::graph::connected;
use crate::graph::drawn_from;
use crate::graph::greedy_forest;
use crate::graph::has_end;
use crate::graph::lemma_connected_sym;
use crate::graph::lemma_connected_trans;
use crate::graph::lemma_connected_with;
use crate::graph::vertex_set;
use crate::graph::weights_ascend;
use crate::graph::Link;
use crate::threshold::light;
use vstd::prelude::*;

verus! {

/// The ends of links drawn from a graph are vertices of the graph.
pub proof fn lemma_drawn_ends(tree: Seq<Link>, links: Seq<Link>)
    requires
        drawn_from(tree, links),
    ensures
        ends_in(tree, vertex_set(links)),
{
    assert forall|i: int| 0 <= i < tree.len() implies vertex_set(links).contains(
        (#[trigger] tree[i]).u,
    ) && vertex_set(links).contains(tree[i].v) by {
        assert(links.contains(tree[i]));
        let w = choose|w: int| 0 <= w < links.len() && links[w] == tree[i];
        assert(has_end(links[w], tree[i].u));
        assert(has_end(links[w], tree[i].v));
    }
}

/// The greedy forest closes no cycle, is drawn from the links it was chosen from, and
/// connects exactly what they connect.
pub proof fn lemma_greedy_forest(links: Seq<Link>)
    ensures
        cycle_free(greedy_forest(links)),
        drawn_from(greedy_forest(links), links),
        forall|a: nat, b: nat|
            connected(greedy_forest(links), a, b) <==> #[trigger] connected(links, a, b),
    decreases links.len(),
{
    if links.len() > 0 {
        let rest = links.drop_last();
        let last = links.last();
        let forest = greedy_forest(rest);
        let chosen = greedy_forest(links);
        lemma_greedy_forest(rest);
        assert(links =~= rest.push(last));
        assert forall|i: int| 0 <= i < chosen.len() implies links.contains(#[trigger] chosen[i]) by {
            if i < forest.len() {
                assert(rest.contains(forest[i]));
                let w = choose|w: int| 0 <= w < rest.len() && rest[w] == forest[i];
                assert(links[w] == chosen[i]);
            } else {
                assert(links[links.len() - 1] == chosen[i]);
            }
        }
        if !connected(forest, last.u, last.v) {
            assert(chosen.drop_last() =~= forest);
        }
        assert forall|a: nat, b: nat|
            connected(chosen, a, b) <==> #[trigger] connected(links, a, b) by {
            lemma_connected_with(rest, last, a, b);
            lemma_connected_with(forest, last, a, b);
            assert(connected(forest, a, b) <==> connected(rest, a, b));
            assert(connected(forest, a, last.u) <==> connected(rest, a, last.u));
            assert(connected(forest, a, last.v) <==> connected(rest, a, last.v));
            assert(connected(forest, last.u, b) <==> connected(rest, last.u, b));
            assert(connected(forest, last.v, b) <==> connected(rest, last.v, b));
            assert(connected(forest, last.u, last.v) <==> connected(rest, last.u, last.v));
            if connected(forest, last.u, last.v) {
                lemma_connected_sym(forest, last.u, last.v);
                if connected(forest, a, last.u) && connected(forest, last.v, b) {
                    lemma_connected_trans(forest, a, last.u, last.v);
                    lemma_connected_trans(forest, a, last.v, b);
                }
                if connected(forest, a, last.v) && connected(forest, last.u, b) {
                    lemma_connected_trans(forest, a, last.v, last.u);
                    lemma_connected_trans(forest, a, last.u, b);
                }
            }
        }
    }
}

/// Where no link weighs more than the limit, all links are light.
pub proof fn lemma_light_all(links: Seq<Link>, limit: nat)
    requires
        forall|i: int| 0 <= i < links.len() ==> (#[trigger] links[i]).weight <= limit,
    ensures
        light(links, limit) == links,
    decreases links.len(),
{
    if links.len() > 0 {
        let rest = links.drop_last();
        assert forall|i: int| 0 <= i < rest.len() implies (#[trigger] rest[i]).weight <= limit by {
            assert(rest[i] == links[i]);
        }
        lemma_light_all(rest, limit);
        assert(links =~= rest.push(links.last()));
    }
}

/// Of links in ascending order, the light links of the greedy forest are the greedy forest
/// of the light links.
pub proof fn lemma_greedy_light(links: Seq<Link>, limit: nat)
    requires
        weights_ascend(links),
    ensures
        light(greedy_forest(links), limit) == greedy_forest(light(links, limit)),
    decreases links.len(),
{
    if links.len() > 0 {
        let rest = links.drop_last();
        let last = links.last();
        let forest = greedy_forest(rest);
        assert forall|i: int, j: int| 0 <= i < j < rest.len() implies rest[i].weight
            <= rest[j].weight by {
            assert(links[i].weight <= links[j].weight);
        }
        lemma_greedy_light(rest, limit);
        if last.weight <= limit {
            assert forall|i: int| 0 <= i < links.len() implies (#[trigger] links[i]).weight
                <= limit by {
                if i < links.len() - 1 {
                    assert(links[i].weight <= links[links.len() - 1].weight);
                }
            }
            lemma_light_all(links, limit);
            lemma_greedy_forest(links);
            let chosen = greedy_forest(links);
            assert forall|i: int| 0 <= i < chosen.len() implies (#[trigger] chosen[i]).weight
                <= limit by {
                assert(links.contains(chosen[i]));
                let w = choose|w: int| 0 <= w < links.len() && links[w] == chosen[i];
                assert(links[w].weight <= limit);
            }
            lemma_light_all(chosen, limit);
        } else {
            if !connected(forest, last.u, last.v) {
                assert(forest.push(last).drop_last() =~= forest);
            }
        }
    }
}

} // verus!
