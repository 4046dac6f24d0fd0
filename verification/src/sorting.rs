use crate::graph::link_leq;
use crate::graph::link_order;
use crate::graph::Link;
use crate::solv::ascending;
use crate::solv::ids_of;
use crate::solv::links_of;
use crate::solv::Edge;
use crate::solv::VerticeId;
use vstd::prelude::*;
use vstd::relations::sorted_by;

verus! {

/// Sorts vertices of different numbers by their numbers.
pub(crate) fn sort_vertices(vertices: &Vec<VerticeId>) -> (sorted: Vec<VerticeId>)
    requires
        ids_of(vertices@).no_duplicates(),
    ensures
        ascending(ids_of(sorted@)),
        ids_of(sorted@).to_multiset() == ids_of(vertices@).to_multiset(),
        sorted@.to_multiset() == vertices@.to_multiset(),
{
    let mut sorted: Vec<VerticeId> = Vec::new();
    let mut i: usize = 0;
    assert(sorted@ =~= vertices@.take(0));
    assert(ids_of(sorted@) =~= ids_of(vertices@.take(0)));
    while i < vertices.len()
        invariant
            i <= vertices.len(),
            ids_of(vertices@).no_duplicates(),
            ascending(ids_of(sorted@)),
            ids_of(sorted@).to_multiset() == ids_of(vertices@.take(i as int)).to_multiset(),
            sorted@.to_multiset() == vertices@.take(i as int).to_multiset(),
        decreases vertices.len() - i,
    {
        let vertice = vertices[i].clone();
        let mut j: usize = sorted.len();
        while j > 0 && sorted[j - 1].id > vertice.id
            invariant
                j <= sorted.len(),
                forall|k: int| j <= k < sorted.len() ==> vertice.id < (#[trigger] sorted@[k]).id,
            decreases j,
        {
            j -= 1;
        }
        let ghost before = sorted@;
        sorted.insert(j, vertice);
        proof {
            let ids = ids_of(before);
            let seen = ids_of(vertices@.take(i as int));
            assert(ids_of(sorted@) =~= ids.insert(j as int, vertice@));
            assert(vertices@.take(i + 1) =~= vertices@.take(i as int).push(vertice));
            assert(ids_of(vertices@.take(i + 1)) =~= seen.push(vertice@));
            vstd::seq_lib::to_multiset_insert(before, j as int, vertice);
            vstd::seq_lib::to_multiset_insert(ids, j as int, vertice@);
            vstd::seq_lib::to_multiset_build(vertices@.take(i as int), vertice);
            vstd::seq_lib::to_multiset_build(seen, vertice@);
            if j > 0 && ids[j - 1] == vertice@ {
                vstd::seq_lib::to_multiset_contains(ids, vertice@);
                vstd::seq_lib::to_multiset_contains(seen, vertice@);
                assert(ids.contains(vertice@));
                let w = choose|w: int| 0 <= w < seen.len() && seen[w] == vertice@;
                assert(ids_of(vertices@)[w] == ids_of(vertices@)[i as int]);
            }
            assert forall|a: int, b: int| 0 <= a < b < sorted@.len() implies ids_of(sorted@)[a]
                < ids_of(sorted@)[b] by {
                if a < j && b > j {
                    assert(ids[a] < ids[b - 1]);
                } else if a < j && b == j {
                    if a < j - 1 {
                        assert(ids[a] < ids[j - 1]);
                    }
                } else if a < j && b < j {
                    assert(ids[a] < ids[b]);
                } else if a == j {
                    assert(vertice.id < before[b - 1].id);
                } else {
                    assert(ids[a - 1] < ids[b - 1]);
                }
            }
        }
        i += 1;
    }
    assert(vertices@.take(i as int) =~= vertices@);
    sorted
}

/// The edges of weight `weight`, in their order.
pub open spec fn of_weight(edges: Seq<Edge>, weight: usize) -> Seq<Edge>
    decreases edges.len(),
{
    if edges.len() == 0 {
        edges
    } else if edges.last().weight == weight {
        of_weight(edges.drop_last(), weight).push(edges.last())
    } else {
        of_weight(edges.drop_last(), weight)
    }
}

/// The weights of the edges do not descend.
pub open spec fn weights_rise(edges: Seq<Edge>) -> bool {
    forall|i: int, j: int| 0 <= i < j < edges.len() ==> edges[i].weight <= edges[j].weight
}

/// `sorted` holds the edges of `edges` by ascending weight, those of one weight in the
/// order that they have in `edges`.
pub open spec fn sorted_by_weight(sorted: Seq<Edge>, edges: Seq<Edge>) -> bool {
    &&& weights_rise(sorted)
    &&& forall|weight: usize| #[trigger] of_weight(sorted, weight) == of_weight(edges, weight)
}

/// The edges of one weight in two lists, one after the other, are those in the first and
/// then those in the second.
pub proof fn lemma_of_weight_add(first: Seq<Edge>, second: Seq<Edge>, weight: usize)
    ensures
        of_weight(first + second, weight) == of_weight(first, weight) + of_weight(second, weight),
    decreases second.len(),
{
    if second.len() == 0 {
        assert(first + second =~= first);
        assert(of_weight(first, weight) + of_weight(second, weight) =~= of_weight(first, weight));
    } else {
        let rest = second.drop_last();
        assert((first + second).drop_last() =~= first + rest);
        lemma_of_weight_add(first, rest, weight);
        if second.last().weight == weight {
            assert((of_weight(first, weight) + of_weight(rest, weight)).push(second.last())
                =~= of_weight(first, weight) + of_weight(rest, weight).push(second.last()));
        }
    }
}

/// A list holds an edge of a weight exactly where it holds edges of that weight.
pub proof fn lemma_of_weight_some(edges: Seq<Edge>, weight: usize)
    ensures
        of_weight(edges, weight).len() > 0 <==> exists|i: int|
            0 <= i < edges.len() && (#[trigger] edges[i]).weight == weight,
        of_weight(edges, weight).len() > 0 ==> edges.len() > 0,
    decreases edges.len(),
{
    if edges.len() > 0 {
        let rest = edges.drop_last();
        lemma_of_weight_some(rest, weight);
        if exists|i: int| 0 <= i < rest.len() && (#[trigger] rest[i]).weight == weight {
            let w = choose|i: int| 0 <= i < rest.len() && (#[trigger] rest[i]).weight == weight;
            assert(edges[w].weight == weight);
        }
        if exists|i: int| 0 <= i < edges.len() && (#[trigger] edges[i]).weight == weight {
            let w = choose|i: int| 0 <= i < edges.len() && (#[trigger] edges[i]).weight == weight;
            if w < rest.len() {
                assert(rest[w].weight == weight);
            }
        }
    }
}

/// Only one list holds given edges by ascending weight, those of one weight in a given
/// order: two such lists are the same list.
pub proof fn lemma_sorted_by_weight_unique(one: Seq<Edge>, other: Seq<Edge>)
    requires
        weights_rise(one),
        weights_rise(other),
        forall|weight: usize| #[trigger] of_weight(one, weight) == of_weight(other, weight),
    ensures
        one == other,
    decreases one.len(),
{
    if one.len() == 0 {
        if other.len() > 0 {
            let heavy = other.last().weight;
            assert(of_weight(one, heavy) == of_weight(other, heavy));
        }
        assert(one =~= other);
    } else {
        let top = one.last().weight;
        assert(of_weight(one, top) == of_weight(other, top));
        lemma_of_weight_some(other, top);
        let heavy = other.last().weight;
        assert(of_weight(one, heavy) == of_weight(other, heavy));
        lemma_of_weight_some(one, heavy);
        let a = choose|i: int| 0 <= i < one.len() && (#[trigger] one[i]).weight == heavy;
        let b = choose|i: int| 0 <= i < other.len() && (#[trigger] other[i]).weight == top;
        assert(one[a].weight <= one[one.len() - 1].weight);
        assert(other[b].weight <= other[other.len() - 1].weight);
        assert(heavy == top);
        assert(one.last() == of_weight(one, top).last());
        assert(other.last() == of_weight(other, top).last());
        let fewer = one.drop_last();
        let others = other.drop_last();
        assert forall|weight: usize| #[trigger]
            of_weight(fewer, weight) == of_weight(others, weight) by {
            assert(of_weight(one, weight) == of_weight(other, weight));
            if weight == top {
                assert(of_weight(fewer, top) =~= of_weight(one, top).drop_last());
                assert(of_weight(others, top) =~= of_weight(other, top).drop_last());
            }
        }
        assert forall|i: int, j: int| 0 <= i < j < fewer.len() implies fewer[i].weight
            <= fewer[j].weight by {
            assert(one[i].weight <= one[j].weight);
        }
        assert forall|i: int, j: int| 0 <= i < j < others.len() implies others[i].weight
            <= others[j].weight by {
            assert(other[i].weight <= other[j].weight);
        }
        lemma_sorted_by_weight_unique(fewer, others);
        assert(one =~= fewer.push(one.last()));
        assert(other =~= others.push(other.last()));
    }
}

/// In a merge, the next edge of the first list goes behind the merged edges where the
/// edges taken from the second list all weigh less: it is then the last of its weight
/// among those of the first list, and those come before those of the second.
proof fn lemma_merge_first(merged: Seq<Edge>, first: Seq<Edge>, second: Seq<Edge>, edge: Edge)
    requires
        forall|weight: usize| #[trigger]
            of_weight(merged, weight) == of_weight(first, weight) + of_weight(second, weight),
        forall|k: int| 0 <= k < second.len() ==> (#[trigger] second[k]).weight < edge.weight,
    ensures
        forall|weight: usize| #[trigger]
            of_weight(merged.push(edge), weight) == of_weight(first.push(edge), weight)
                + of_weight(second, weight),
{
    assert(merged.push(edge).drop_last() =~= merged);
    assert(first.push(edge).drop_last() =~= first);
    assert forall|weight: usize| #[trigger]
        of_weight(merged.push(edge), weight) == of_weight(first.push(edge), weight) + of_weight(
            second,
            weight,
        ) by {
        assert(of_weight(merged, weight) == of_weight(first, weight) + of_weight(second, weight));
        if weight == edge.weight {
            lemma_of_weight_some(second, weight);
            assert(of_weight(second, weight) =~= Seq::<Edge>::empty());
            assert((of_weight(first, weight) + of_weight(second, weight)).push(edge)
                =~= of_weight(first, weight).push(edge) + of_weight(second, weight));
        }
    }
}

/// In a merge, the next edge of the second list goes behind the merged edges: it is then
/// the last of its weight.
proof fn lemma_merge_second(merged: Seq<Edge>, first: Seq<Edge>, second: Seq<Edge>, edge: Edge)
    requires
        forall|weight: usize| #[trigger]
            of_weight(merged, weight) == of_weight(first, weight) + of_weight(second, weight),
    ensures
        forall|weight: usize| #[trigger]
            of_weight(merged.push(edge), weight) == of_weight(first, weight) + of_weight(
                second.push(edge),
                weight,
            ),
{
    assert(merged.push(edge).drop_last() =~= merged);
    assert(second.push(edge).drop_last() =~= second);
    assert forall|weight: usize| #[trigger]
        of_weight(merged.push(edge), weight) == of_weight(first, weight) + of_weight(
            second.push(edge),
            weight,
        ) by {
        assert(of_weight(merged, weight) == of_weight(first, weight) + of_weight(second, weight));
        if weight == edge.weight {
            assert((of_weight(first, weight) + of_weight(second, weight)).push(edge)
                =~= of_weight(first, weight) + of_weight(second, weight).push(edge));
        }
    }
}

/// The order that edges are sorted in: by weight alone, or by weight, then by first end,
/// then by second end.
pub open spec fn comes_before(a: Edge, b: Edge, by_ends: bool) -> bool {
    if by_ends {
        link_leq(a@, b@)
    } else {
        a.weight <= b.weight
    }
}

/// No edge of the list comes before an edge in front of it, in that order.
pub open spec fn in_order(edges: Seq<Edge>, by_ends: bool) -> bool {
    forall|i: int, j: int|
        0 <= i < j < edges.len() ==> comes_before(#[trigger] edges[i], #[trigger] edges[j], by_ends)
}

/// An edge that comes before none of the edges of a list in order goes behind them, and
/// the list is still in order.
proof fn lemma_in_order_push(edges: Seq<Edge>, edge: Edge, by_ends: bool)
    requires
        in_order(edges, by_ends),
        forall|k: int| 0 <= k < edges.len() ==> comes_before(#[trigger] edges[k], edge, by_ends),
    ensures
        in_order(edges.push(edge), by_ends),
{
    let more = edges.push(edge);
    assert forall|a: int, b: int| 0 <= a < b < more.len() implies comes_before(
        #[trigger] more[a],
        #[trigger] more[b],
        by_ends,
    ) by {
        if b < edges.len() {
            assert(comes_before(edges[a], edges[b], by_ends));
        } else {
            assert(comes_before(edges[a], edge, by_ends));
        }
    }
}

/// The edges and the links of a list one longer are those it had and the one added.
proof fn lemma_push_multisets(edges: Seq<Edge>, edge: Edge)
    ensures
        edges.push(edge).to_multiset() == edges.to_multiset().insert(edge),
        links_of(edges.push(edge)).to_multiset() == links_of(edges).to_multiset().insert(edge@),
{
    assert(links_of(edges.push(edge)) =~= links_of(edges).push(edge@));
    vstd::seq_lib::to_multiset_build(edges, edge);
    vstd::seq_lib::to_multiset_build(links_of(edges), edge@);
}

/// Whether `a` comes before `b`, or is its like, in the order that edges are sorted in.
fn comes_first(a: &Edge, b: &Edge, by_ends: bool) -> (first: bool)
    ensures
        first == comes_before(*a, *b, by_ends),
{
    if by_ends {
        a.weight < b.weight || (a.weight == b.weight && (a.u.id < b.u.id || (a.u.id == b.u.id
            && a.v.id <= b.v.id)))
    } else {
        a.weight <= b.weight
    }
}

/// What holds of the order while two lists in order are merged, `i` edges of the one and
/// `j` of the other being merged so far: the merged edges are those, in order, and come
/// before the next edge of either list.
spec fn merging(
    merged: Seq<Edge>,
    left: Seq<Edge>,
    i: int,
    right: Seq<Edge>,
    j: int,
    by_ends: bool,
) -> bool {
    &&& 0 <= i <= left.len()
    &&& 0 <= j <= right.len()
    &&& in_order(merged, by_ends)
    &&& forall|k: int|
        0 <= k < merged.len() && i < left.len() ==> comes_before(
            #[trigger] merged[k],
            left[i],
            by_ends,
        )
    &&& forall|k: int|
        0 <= k < merged.len() && j < right.len() ==> comes_before(
            #[trigger] merged[k],
            right[j],
            by_ends,
        )
    &&& merged.to_multiset() == left.take(i).to_multiset().add(right.take(j).to_multiset())
    &&& links_of(merged).to_multiset() == links_of(left.take(i)).to_multiset().add(
        links_of(right.take(j)).to_multiset(),
    )
}

/// What holds of edges of one weight while two lists are merged by weight: the merged
/// edges of one weight are those of the first list and then those of the second, and the
/// edges merged from the second list weigh less than the next edge of the first.
spec fn merging_in_turn(merged: Seq<Edge>, left: Seq<Edge>, i: int, right: Seq<Edge>, j: int) -> bool {
    &&& forall|k: int| 0 <= k < j && i < left.len() ==> (#[trigger] right[k]).weight < left[i].weight
    &&& forall|weight: usize| #[trigger]
        of_weight(merged, weight) == of_weight(left.take(i), weight) + of_weight(
            right.take(j),
            weight,
        )
}

/// A merge begins with nothing merged.
proof fn lemma_merging_start(left: Seq<Edge>, right: Seq<Edge>, by_ends: bool)
    ensures
        merging(Seq::<Edge>::empty(), left, 0, right, 0, by_ends),
        merging_in_turn(Seq::<Edge>::empty(), left, 0, right, 0),
{
    broadcast use vstd::seq_lib::group_to_multiset_ensures;

    let none = Seq::<Edge>::empty();
    assert(left.take(0) =~= none);
    assert(right.take(0) =~= none);
    assert(links_of(none) =~= Seq::<Link>::empty());
    assert(none.to_multiset() =~= none.to_multiset().add(none.to_multiset()));
    assert(links_of(none).to_multiset() =~= links_of(none).to_multiset().add(
        links_of(none).to_multiset(),
    ));
    assert forall|weight: usize| #[trigger]
        of_weight(none, weight) == of_weight(none, weight) + of_weight(none, weight) by {
        assert(of_weight(none, weight) =~= none + none);
    }
}

/// Which of the two lists is called the first makes no difference to what holds of the
/// order.
proof fn lemma_merging_either(
    merged: Seq<Edge>,
    left: Seq<Edge>,
    i: int,
    right: Seq<Edge>,
    j: int,
    by_ends: bool,
)
    requires
        merging(merged, left, i, right, j, by_ends),
    ensures
        merging(merged, right, j, left, i, by_ends),
{
    assert(left.take(i).to_multiset().add(right.take(j).to_multiset()) =~= right.take(
        j,
    ).to_multiset().add(left.take(i).to_multiset()));
    assert(links_of(left.take(i)).to_multiset().add(links_of(right.take(j)).to_multiset())
        =~= links_of(right.take(j)).to_multiset().add(links_of(left.take(i)).to_multiset()));
}

/// A merge goes on with the next edge of one list where it comes before the next edge of
/// the other list, or is its like, or the other list is at its end.
proof fn lemma_merging_step(
    merged: Seq<Edge>,
    taken: Seq<Edge>,
    i: int,
    other: Seq<Edge>,
    j: int,
    by_ends: bool,
)
    requires
        merging(merged, taken, i, other, j, by_ends),
        in_order(taken, by_ends),
        i < taken.len(),
        j < other.len() ==> comes_before(taken[i], other[j], by_ends),
    ensures
        merging(merged.push(taken[i]), taken, i + 1, other, j, by_ends),
{
    let edge = taken[i];
    let more = merged.push(edge);
    assert(taken.take(i + 1) =~= taken.take(i).push(edge));
    lemma_in_order_push(merged, edge, by_ends);
    lemma_push_multisets(merged, edge);
    lemma_push_multisets(taken.take(i), edge);
    assert(more.to_multiset() =~= taken.take(i + 1).to_multiset().add(
        other.take(j).to_multiset(),
    ));
    assert(links_of(more).to_multiset() =~= links_of(taken.take(i + 1)).to_multiset().add(
        links_of(other.take(j)).to_multiset(),
    ));
    if i + 1 < taken.len() {
        assert(comes_before(taken[i], taken[i + 1], by_ends));
        assert forall|k: int| 0 <= k < more.len() implies comes_before(
            #[trigger] more[k],
            taken[i + 1],
            by_ends,
        ) by {
            if k < merged.len() {
                assert(comes_before(merged[k], taken[i], by_ends));
            }
        }
    }
    assert forall|k: int| 0 <= k < more.len() && j < other.len() implies comes_before(
        #[trigger] more[k],
        other[j],
        by_ends,
    ) by {
        if k < merged.len() {
            assert(comes_before(merged[k], other[j], by_ends));
        }
    }
}

/// A merge by weight with the next edge of the first list, which weighs no more than the
/// next edge of the second, keeps the edges of each weight in their turn.
proof fn lemma_in_turn_left(merged: Seq<Edge>, left: Seq<Edge>, i: int, right: Seq<Edge>, j: int)
    requires
        merging_in_turn(merged, left, i, right, j),
        weights_rise(left),
        0 <= i < left.len(),
        0 <= j <= right.len(),
    ensures
        merging_in_turn(merged.push(left[i]), left, i + 1, right, j),
{
    let edge = left[i];
    assert(left.take(i + 1) =~= left.take(i).push(edge));
    assert forall|k: int| 0 <= k < right.take(j).len() implies (#[trigger] right.take(j)[k]).weight
        < edge.weight by {
        assert(right[k].weight < left[i].weight);
    }
    lemma_merge_first(merged, left.take(i), right.take(j), edge);
    assert forall|k: int| 0 <= k < j && i + 1 < left.len() implies (#[trigger] right[k]).weight
        < left[i + 1].weight by {
        assert(right[k].weight < left[i].weight);
    }
}

/// A merge by weight with the next edge of the second list, which weighs less than the
/// next edge of the first, keeps the edges of each weight in their turn.
proof fn lemma_in_turn_right(merged: Seq<Edge>, left: Seq<Edge>, i: int, right: Seq<Edge>, j: int)
    requires
        merging_in_turn(merged, left, i, right, j),
        0 <= i <= left.len(),
        0 <= j < right.len(),
        i < left.len() ==> right[j].weight < left[i].weight,
    ensures
        merging_in_turn(merged.push(right[j]), left, i, right, j + 1),
{
    assert(right.take(j + 1) =~= right.take(j).push(right[j]));
    lemma_merge_second(merged, left.take(i), right.take(j), right[j]);
}

/// Merges two lists of edges in order into one: of two edges that are each other's like
/// in the order, the one of the first list comes first.
fn merge_edges(left: &Vec<Edge>, right: &Vec<Edge>, by_ends: bool) -> (merged: Vec<Edge>)
    requires
        in_order(left@, by_ends),
        in_order(right@, by_ends),
    ensures
        merging(merged@, left@, left.len() as int, right@, right.len() as int, by_ends),
        !by_ends ==> merging_in_turn(
            merged@,
            left@,
            left.len() as int,
            right@,
            right.len() as int,
        ),
{
    let mut merged: Vec<Edge> = Vec::new();
    let mut i: usize = 0;
    let mut j: usize = 0;
    proof {
        lemma_merging_start(left@, right@, by_ends);
    }
    while i < left.len() || j < right.len()
        invariant
            in_order(left@, by_ends),
            in_order(right@, by_ends),
            merging(merged@, left@, i as int, right@, j as int, by_ends),
            !by_ends ==> merging_in_turn(merged@, left@, i as int, right@, j as int),
        decreases left.len() - i + right.len() - j,
    {
        let from_left = if j >= right.len() {
            true
        } else if i >= left.len() {
            false
        } else {
            comes_first(&left[i], &right[j], by_ends)
        };
        if from_left {
            proof {
                lemma_merging_step(merged@, left@, i as int, right@, j as int, by_ends);
                if !by_ends {
                    lemma_in_turn_left(merged@, left@, i as int, right@, j as int);
                }
            }
            merged.push(left[i].clone());
            i += 1;
        } else {
            proof {
                lemma_merging_either(merged@, left@, i as int, right@, j as int, by_ends);
                lemma_merging_step(merged@, right@, j as int, left@, i as int, by_ends);
                lemma_merging_either(
                    merged@.push(right@[j as int]),
                    right@,
                    j + 1,
                    left@,
                    i as int,
                    by_ends,
                );
                if !by_ends {
                    lemma_in_turn_right(merged@, left@, i as int, right@, j as int);
                }
            }
            merged.push(right[j].clone());
            j += 1;
        }
    }
    merged
}

/// `sorted` holds the edges of `edges` in order; where the order is by weight alone, those
/// of one weight in the order that they have in `edges`.
pub open spec fn sorted_from(sorted: Seq<Edge>, edges: Seq<Edge>, by_ends: bool) -> bool {
    &&& in_order(sorted, by_ends)
    &&& sorted.to_multiset() == edges.to_multiset()
    &&& links_of(sorted).to_multiset() == links_of(edges).to_multiset()
    &&& !by_ends ==> forall|weight: usize| #[trigger]
        of_weight(sorted, weight) == of_weight(edges, weight)
}

/// Two parts sorted and merged are the whole sorted.
proof fn lemma_merged_sorted(
    merged: Seq<Edge>,
    left: Seq<Edge>,
    right: Seq<Edge>,
    first: Seq<Edge>,
    second: Seq<Edge>,
    by_ends: bool,
)
    requires
        merging(merged, left, left.len() as int, right, right.len() as int, by_ends),
        !by_ends ==> merging_in_turn(merged, left, left.len() as int, right, right.len() as int),
        sorted_from(left, first, by_ends),
        sorted_from(right, second, by_ends),
    ensures
        sorted_from(merged, first + second, by_ends),
{
    assert(left.take(left.len() as int) =~= left);
    assert(right.take(right.len() as int) =~= right);
    assert(links_of(first + second) =~= links_of(first) + links_of(second));
    vstd::seq_lib::lemma_multiset_commutative(first, second);
    vstd::seq_lib::lemma_multiset_commutative(links_of(first), links_of(second));
    if !by_ends {
        assert forall|weight: usize| #[trigger]
            of_weight(merged, weight) == of_weight(first + second, weight) by {
            lemma_of_weight_add(first, second, weight);
            assert(of_weight(left, weight) == of_weight(first, weight));
            assert(of_weight(right, weight) == of_weight(second, weight));
            assert(of_weight(merged, weight) == of_weight(left, weight) + of_weight(
                right,
                weight,
            ));
        }
    }
}

/// Sorts the edges from place `from` up to place `to`.
fn sort_between(edges: &Vec<Edge>, from: usize, to: usize, by_ends: bool) -> (sorted: Vec<Edge>)
    requires
        from <= to <= edges.len(),
    ensures
        sorted_from(sorted@, edges@.subrange(from as int, to as int), by_ends),
    decreases to - from,
{
    if to - from <= 1 {
        let mut sorted: Vec<Edge> = Vec::new();
        if from < to {
            sorted.push(edges[from].clone());
        }
        assert(sorted@ =~= edges@.subrange(from as int, to as int));
        sorted
    } else {
        let middle = from + (to - from) / 2;
        let left = sort_between(edges, from, middle, by_ends);
        let right = sort_between(edges, middle, to, by_ends);
        let sorted = merge_edges(&left, &right, by_ends);
        proof {
            let first = edges@.subrange(from as int, middle as int);
            let second = edges@.subrange(middle as int, to as int);
            assert(edges@.subrange(from as int, to as int) =~= first + second);
            lemma_merged_sorted(sorted@, left@, right@, first, second, by_ends);
        }
        sorted
    }
}

/// Sorts edges by weight, then by ends.
pub(crate) fn sort_edges(edges: &Vec<Edge>) -> (sorted: Vec<Edge>)
    ensures
        sorted_by(links_of(sorted@), link_order()),
        links_of(sorted@).to_multiset() == links_of(edges@).to_multiset(),
        sorted@.to_multiset() == edges@.to_multiset(),
{
    assert(edges@.subrange(0, edges.len() as int) =~= edges@);
    let sorted = sort_between(edges, 0, edges.len(), true);
    proof {
        assert forall|a: int, b: int| 0 <= a < b < sorted.len() implies #[trigger] link_order()(
            links_of(sorted@)[a],
            links_of(sorted@)[b],
        ) by {
            assert(comes_before(sorted@[a], sorted@[b], true));
        }
    }
    sorted
}

/// Sorts edges by weight, leaving edges of one weight in their order.
pub(crate) fn sort_by_weight(edges: &Vec<Edge>) -> (sorted: Vec<Edge>)
    ensures
        sorted_by_weight(sorted@, edges@),
        sorted@.to_multiset() == edges@.to_multiset(),
{
    assert(edges@.subrange(0, edges.len() as int) =~= edges@);
    let sorted = sort_between(edges, 0, edges.len(), false);
    proof {
        assert forall|a: int, b: int| 0 <= a < b < sorted.len() implies sorted@[a].weight
            <= sorted@[b].weight by {
            assert(comes_before(sorted@[a], sorted@[b], false));
        }
    }
    sorted
}

} // verus!
