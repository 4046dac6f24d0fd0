use crate::components::cycle_free;
use crate::components::ends_in;
use crate::components::lemma_forest_size;
use crate::components::lemma_parts_push;
use crate::components::lemma_parts_reaches;
use crate::components::parts;
use crate::components::reaches;
use crate::graph::connected;
use crate::graph::lemma_connected_among;
use crate::graph::total_weight;
use crate::graph::Link;
use vstd::prelude::*;

verus! {

/// The links that weigh no more than `limit`, in their order.
pub open spec fn light(links: Seq<Link>, limit: nat) -> Seq<Link>
    decreases links.len(),
{
    if links.len() == 0 {
        links
    } else if links.last().weight <= limit {
        light(links.drop_last(), limit).push(links.last())
    } else {
        light(links.drop_last(), limit)
    }
}

/// The number of links that weigh more than `limit`.
pub open spec fn heavy_count(links: Seq<Link>, limit: nat) -> nat
    decreases links.len(),
{
    if links.len() == 0 {
        0
    } else if links.last().weight <= limit {
        heavy_count(links.drop_last(), limit)
    } else {
        heavy_count(links.drop_last(), limit) + 1
    }
}

/// The links counted once for each limit below `top` that they weigh more than.
pub open spec fn layers(links: Seq<Link>, top: nat) -> nat
    decreases top,
{
    if top == 0 {
        0
    } else {
        layers(links, (top - 1) as nat) + heavy_count(links, (top - 1) as nat)
    }
}

/// The light links are those links of the list that weigh no more than the limit; the
/// others are the heavy ones.
pub proof fn lemma_light(links: Seq<Link>, limit: nat)
    ensures
        forall|link: Link|
            light(links, limit).contains(link) <==> links.contains(link) && link.weight <= limit,
        light(links, limit).len() + heavy_count(links, limit) == links.len(),
    decreases links.len(),
{
    if links.len() > 0 {
        let rest = links.drop_last();
        let last = links.last();
        lemma_light(rest, limit);
        assert(links =~= rest.push(last));
        assert forall|link: Link|
            light(links, limit).contains(link) <==> links.contains(link) && link.weight
                <= limit by {
            let kept = light(rest, limit);
            assert(kept.contains(link) <==> rest.contains(link) && link.weight <= limit);
            if rest.contains(link) {
                let w = choose|w: int| 0 <= w < rest.len() && rest[w] == link;
                assert(links[w] == link);
            }
            if links.contains(link) {
                let w = choose|w: int| 0 <= w < links.len() && links[w] == link;
                if w < rest.len() {
                    assert(rest[w] == link);
                }
            }
            if last.weight <= limit {
                let grown = kept.push(last);
                assert(grown[kept.len() as int] == last);
                if kept.contains(link) {
                    let w = choose|w: int| 0 <= w < kept.len() && kept[w] == link;
                    assert(grown[w] == link);
                }
                if grown.contains(link) {
                    let w = choose|w: int| 0 <= w < grown.len() && grown[w] == link;
                    if w < kept.len() {
                        assert(kept[w] == link);
                    }
                }
            }
        }
    }
}

/// Where the links of one graph are links of another, the light links of the one are
/// light links of the other, and the other connects whatever the one connects.
pub proof fn lemma_light_among(links: Seq<Link>, others: Seq<Link>, limit: nat, a: nat, b: nat)
    requires
        forall|i: int| 0 <= i < links.len() ==> others.contains(#[trigger] links[i]),
        connected(light(links, limit), a, b),
    ensures
        connected(light(others, limit), a, b),
{
    lemma_light(links, limit);
    lemma_light(others, limit);
    let few = light(links, limit);
    assert forall|i: int| 0 <= i < few.len() implies light(others, limit).contains(
        #[trigger] few[i],
    ) by {
        assert(few.contains(few[i]));
        assert(links.contains(few[i]));
        let w = choose|w: int| 0 <= w < links.len() && links[w] == few[i];
        assert(others.contains(links[w]));
    }
    lemma_connected_among(few, light(others, limit), a, b);
}

/// The light links of a graph connect nothing that the graph does not connect.
pub proof fn lemma_light_connected(links: Seq<Link>, limit: nat, a: nat, b: nat)
    requires
        connected(light(links, limit), a, b),
    ensures
        connected(links, a, b),
{
    lemma_light(links, limit);
    let few = light(links, limit);
    assert forall|i: int| 0 <= i < few.len() implies links.contains(#[trigger] few[i]) by {
        assert(few.contains(few[i]));
    }
    lemma_connected_among(few, links, a, b);
}

/// The ends of the light links are ends of links.
pub proof fn lemma_light_ends(links: Seq<Link>, limit: nat, vertices: Set<nat>)
    requires
        ends_in(links, vertices),
    ensures
        ends_in(light(links, limit), vertices),
{
    lemma_light(links, limit);
    let few = light(links, limit);
    assert forall|i: int| 0 <= i < few.len() implies vertices.contains((#[trigger] few[i]).u)
        && vertices.contains(few[i].v) by {
        assert(few.contains(few[i]));
        assert(links.contains(few[i]));
        let w = choose|w: int| 0 <= w < links.len() && links[w] == few[i];
        assert(vertices.contains(links[w].u));
    }
}

/// The light links of a list that closes no cycle close none.
pub proof fn lemma_light_cycle_free(tree: Seq<Link>, limit: nat)
    requires
        cycle_free(tree),
    ensures
        cycle_free(light(tree, limit)),
    decreases tree.len(),
{
    if tree.len() > 0 {
        let rest = tree.drop_last();
        let last = tree.last();
        lemma_light_cycle_free(rest, limit);
        if last.weight <= limit {
            let few = light(rest, limit);
            assert(light(tree, limit).drop_last() =~= few);
            if connected(few, last.u, last.v) {
                lemma_light_connected(rest, limit, last.u, last.v);
            }
        }
    }
}

/// The heavy links of a graph make at most one component fewer each: with them the graph
/// has at most as many components fewer than with its light links alone as it has
/// heavy links.
pub proof fn lemma_heavy_parts(links: Seq<Link>, limit: nat, vertices: Set<nat>)
    requires
        vertices.finite(),
        ends_in(links, vertices),
    ensures
        parts(light(links, limit), vertices) <= parts(links, vertices) + heavy_count(links, limit),
    decreases links.len(),
{
    if links.len() > 0 {
        let rest = links.drop_last();
        let last = links.last();
        assert(links =~= rest.push(last));
        assert forall|i: int| 0 <= i < rest.len() implies vertices.contains(
            (#[trigger] rest[i]).u,
        ) && vertices.contains(rest[i].v) by {
            assert(rest[i] == links[i]);
        }
        lemma_heavy_parts(rest, limit, vertices);
        lemma_parts_push(rest, last, vertices);
        if last.weight <= limit {
            lemma_parts_push(light(rest, limit), last, vertices);
            if connected(light(rest, limit), last.u, last.v) {
                lemma_light_connected(rest, limit, last.u, last.v);
            }
        }
    }
}

/// Of two graphs on the same vertices, the first closing no cycle, the first has no more
/// links above a limit than the second, where with the links up to each limit the first
/// connects whatever the second connects, and the second as a whole connects whatever
/// the first connects.
pub proof fn lemma_heavy_count_least(
    tree: Seq<Link>,
    other: Seq<Link>,
    vertices: Set<nat>,
    limit: nat,
)
    requires
        vertices.finite(),
        ends_in(tree, vertices),
        ends_in(other, vertices),
        cycle_free(tree),
        reaches(light(tree, limit), light(other, limit), vertices),
        reaches(other, tree, vertices),
    ensures
        heavy_count(tree, limit) <= heavy_count(other, limit),
{
    lemma_light(tree, limit);
    lemma_light_ends(tree, limit, vertices);
    lemma_light_cycle_free(tree, limit);
    lemma_forest_size(tree, vertices);
    lemma_forest_size(light(tree, limit), vertices);
    lemma_heavy_parts(other, limit, vertices);
    lemma_parts_reaches(light(tree, limit), light(other, limit), vertices);
    lemma_parts_reaches(other, tree, vertices);
}

/// One more link adds its weight to the layers, or `top` where it weighs more.
pub proof fn lemma_layers_push(links: Seq<Link>, link: Link, top: nat)
    ensures
        layers(links.push(link), top) == layers(links, top) + if link.weight <= top {
            link.weight
        } else {
            top
        },
    decreases top,
{
    if top > 0 {
        lemma_layers_push(links, link, (top - 1) as nat);
        assert(links.push(link).drop_last() =~= links);
    }
}

/// No link weighs more than all links together.
pub proof fn lemma_weight_below_total(links: Seq<Link>, i: int)
    requires
        0 <= i < links.len(),
    ensures
        links[i].weight <= total_weight(links),
    decreases links.len(),
{
    if i < links.len() - 1 {
        lemma_weight_below_total(links.drop_last(), i);
    }
}

/// The weight of a graph is the sum, over the limits below its heaviest link, of the
/// number of links above the limit.
pub proof fn lemma_layers_total(links: Seq<Link>, top: nat)
    requires
        forall|i: int| 0 <= i < links.len() ==> (#[trigger] links[i]).weight <= top,
    ensures
        layers(links, top) == total_weight(links),
    decreases links.len(),
{
    if links.len() == 0 {
        lemma_layers_none(links, top);
    } else {
        let rest = links.drop_last();
        assert(links =~= rest.push(links.last()));
        assert forall|i: int| 0 <= i < rest.len() implies (#[trigger] rest[i]).weight <= top by {
            assert(rest[i] == links[i]);
        }
        lemma_layers_total(rest, top);
        lemma_layers_push(rest, links.last(), top);
    }
}

/// Without links the layers are empty.
pub proof fn lemma_layers_none(links: Seq<Link>, top: nat)
    requires
        links.len() == 0,
    ensures
        layers(links, top) == 0,
    decreases top,
{
    if top > 0 {
        lemma_layers_none(links, (top - 1) as nat);
    }
}

/// With the links up to each limit, among `vertices`, `tree` connects whatever `other`
/// connects.
pub open spec fn reaches_at_each_limit(tree: Seq<Link>, other: Seq<Link>, vertices: Set<nat>) -> bool {
    forall|limit: nat| #[trigger] reaches(light(tree, limit), light(other, limit), vertices)
}

/// The layers of the tree are no more than those of the other graph.
proof fn lemma_layers_least(tree: Seq<Link>, other: Seq<Link>, vertices: Set<nat>, top: nat)
    requires
        vertices.finite(),
        ends_in(tree, vertices),
        ends_in(other, vertices),
        cycle_free(tree),
        reaches_at_each_limit(tree, other, vertices),
        reaches(other, tree, vertices),
    ensures
        layers(tree, top) <= layers(other, top),
    decreases top,
{
    if top > 0 {
        lemma_layers_least(tree, other, vertices, (top - 1) as nat);
        assert(reaches(light(tree, (top - 1) as nat), light(other, (top - 1) as nat), vertices));
        lemma_heavy_count_least(tree, other, vertices, (top - 1) as nat);
    }
}

/// A graph that closes no cycle weighs no more than another graph on the same vertices
/// where, with the links up to each limit, it connects whatever the other connects, and
/// the other as a whole connects whatever it connects.
pub proof fn lemma_lightest(tree: Seq<Link>, other: Seq<Link>, vertices: Set<nat>)
    requires
        vertices.finite(),
        ends_in(tree, vertices),
        ends_in(other, vertices),
        cycle_free(tree),
        reaches_at_each_limit(tree, other, vertices),
        reaches(other, tree, vertices),
    ensures
        total_weight(tree) <= total_weight(other),
{
    let top = total_weight(tree) + total_weight(other);
    assert forall|i: int| 0 <= i < tree.len() implies (#[trigger] tree[i]).weight <= top by {
        lemma_weight_below_total(tree, i);
    }
    assert forall|i: int| 0 <= i < other.len() implies (#[trigger] other[i]).weight <= top by {
        lemma_weight_below_total(other, i);
    }
    lemma_layers_total(tree, top);
    lemma_layers_total(other, top);
    lemma_layers_least(tree, other, vertices, top);
}

} // verus!
