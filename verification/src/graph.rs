use vstd::prelude::*;

verus! {

/// What an edge is in the graph: the numbers of its two ends, and its weight.
pub ghost struct Link {
    pub u: nat,
    pub v: nat,
    pub weight: nat,
}

/// The sum of the weights of `links`.
pub open spec fn total_weight(links: Seq<Link>) -> nat
    decreases links.len(),
{
    if links.len() == 0 {
        0
    } else {
        total_weight(links.drop_last()) + links.last().weight
    }
}

/// A part of a list of links weighs no more than the whole list.
pub proof fn lemma_total_weight_prefix(links: Seq<Link>, n: int)
    requires
        0 <= n <= links.len(),
    ensures
        total_weight(links.take(n)) <= total_weight(links),
    decreases links.len(),
{
    if n < links.len() {
        assert(links.drop_last().take(n) =~= links.take(n));
        lemma_total_weight_prefix(links.drop_last(), n);
    } else {
        assert(links.take(n) =~= links);
    }
}

/// `x` is one of the two ends of `link`.
pub open spec fn has_end(link: Link, x: nat) -> bool {
    link.u == x || link.v == x
}

/// The vertices of the graph: the ends of its links, and nothing else.
pub open spec fn vertex_set(links: Seq<Link>) -> Set<nat> {
    Set::new(|x: nat| exists|i: int| 0 <= i < links.len() && has_end(#[trigger] links[i], x))
}

/// A set of machine numbers as a set of numbers.
pub open spec fn numbers(set: Set<usize>) -> Set<nat> {
    Set::new(|x: nat| x <= usize::MAX && set.contains(x as usize))
}

/// A finite set of machine numbers has as many members when taken as a set of numbers.
pub proof fn lemma_numbers_len(set: Set<usize>)
    requires
        set.finite(),
    ensures
        numbers(set).finite(),
        numbers(set).len() == set.len(),
{
    let widen = |x: usize| x as nat;
    assert forall|x: nat| set.map(widen).contains(x) == numbers(set).contains(x) by {
        if numbers(set).contains(x) {
            assert(set.contains(x as usize) && widen(x as usize) == x);
        }
    }
    assert(set.map(widen) =~= numbers(set));
    vstd::set_lib::lemma_map_size(set, numbers(set), widen);
}

/// The order that edges are sorted in: by weight, then by first end, then by second end.
pub open spec fn link_leq(a: Link, b: Link) -> bool {
    ||| a.weight < b.weight
    ||| a.weight == b.weight && a.u < b.u
    ||| a.weight == b.weight && a.u == b.u && a.v <= b.v
}

/// `link_leq` as a relation.
pub open spec fn link_order() -> spec_fn(Link, Link) -> bool {
    |a: Link, b: Link| link_leq(a, b)
}

/// The links of the graph in ascending order.
pub open spec fn sorted_links(links: Seq<Link>) -> Seq<Link> {
    links.sort_by(link_order())
}

/// `link_leq` is a total order: of two different links exactly one comes first.
pub proof fn lemma_link_order_total()
    ensures
        vstd::relations::total_ordering(link_order()),
{
    assert forall|a: Link, b: Link| link_leq(a, b) && link_leq(b, a) implies a == b by {}
}

/// A graph with one more link has the two ends of that link for vertices, and those it had.
pub proof fn lemma_vertex_set_push(links: Seq<Link>, link: Link)
    ensures
        vertex_set(links.push(link)) == vertex_set(links).insert(link.u).insert(link.v),
{
    let more = links.push(link);
    let grown = vertex_set(links).insert(link.u).insert(link.v);
    assert forall|x: nat| vertex_set(more).contains(x) == grown.contains(x) by {
        if vertex_set(links).contains(x) {
            let i = choose|i: int| 0 <= i < links.len() && has_end(#[trigger] links[i], x);
            assert(has_end(more[i], x));
        }
        if has_end(link, x) {
            assert(has_end(more[links.len() as int], x));
        }
        if vertex_set(more).contains(x) {
            let i = choose|i: int| 0 <= i < more.len() && has_end(#[trigger] more[i], x);
            if i < links.len() {
                assert(has_end(links[i], x));
            }
        }
    }
    assert(vertex_set(more) =~= grown);
}

/// `link` has `x` and `y` for its two ends, in either order.
pub open spec fn joins(link: Link, x: nat, y: nat) -> bool {
    (link.u == x && link.v == y) || (link.u == y && link.v == x)
}

/// Some link of the graph joins `x` and `y`.
pub open spec fn adjacent(links: Seq<Link>, x: nat, y: nat) -> bool {
    exists|i: int| 0 <= i < links.len() && joins(#[trigger] links[i], x, y)
}

/// `walk` is a list of vertices in which each is joined to the next by a link of the graph.
pub open spec fn is_walk(links: Seq<Link>, walk: Seq<nat>) -> bool {
    &&& walk.len() > 0
    &&& forall|k: int| 0 <= k < walk.len() - 1 ==> adjacent(links, #[trigger] walk[k], walk[k + 1])
}

/// The graph connects `a` and `b`: a walk leads from one to the other. Every number is
/// connected with itself, be it a vertex of the graph or not.
pub open spec fn connected(links: Seq<Link>, a: nat, b: nat) -> bool {
    exists|walk: Seq<nat>| #[trigger] is_walk(links, walk) && walk.first() == a && walk.last() == b
}

/// Every number is connected with itself.
pub proof fn lemma_connected_refl(links: Seq<Link>, a: nat)
    ensures
        connected(links, a, a),
{
    assert(is_walk(links, seq![a]));
}

/// A graph without links connects nothing but each number with itself.
pub proof fn lemma_connected_empty(a: nat, b: nat)
    ensures
        connected(Seq::<Link>::empty(), a, b) <==> a == b,
{
    let none = Seq::<Link>::empty();
    lemma_connected_refl(none, a);
    if connected(none, a, b) {
        let walk = choose|walk: Seq<nat>| #[trigger]
            is_walk(none, walk) && walk.first() == a && walk.last() == b;
        if walk.len() > 1 {
            assert(adjacent(none, walk[0int], walk[0int + 1]));
        }
    }
}

/// What is joined by a link is connected.
pub proof fn lemma_connected_adjacent(links: Seq<Link>, a: nat, b: nat)
    requires
        adjacent(links, a, b),
    ensures
        connected(links, a, b),
{
    assert(is_walk(links, seq![a, b]));
}

/// A walk read backwards is a walk.
pub proof fn lemma_connected_sym(links: Seq<Link>, a: nat, b: nat)
    requires
        connected(links, a, b),
    ensures
        connected(links, b, a),
{
    let walk = choose|walk: Seq<nat>| #[trigger]
        is_walk(links, walk) && walk.first() == a && walk.last() == b;
    let back = Seq::new(walk.len(), |k: int| walk[walk.len() - 1 - k]);
    assert forall|k: int| 0 <= k < back.len() - 1 implies adjacent(
        links,
        #[trigger] back[k],
        back[k + 1],
    ) by {
        let m = walk.len() - 2 - k;
        assert(adjacent(links, walk[m], walk[m + 1]));
        let i = choose|i: int| 0 <= i < links.len() && joins(#[trigger] links[i], walk[m], walk[m + 1]);
        assert(joins(links[i], back[k], back[k + 1]));
    }
    assert(is_walk(links, back));
}

/// Two walks that meet make one walk.
pub proof fn lemma_connected_trans(links: Seq<Link>, a: nat, b: nat, c: nat)
    requires
        connected(links, a, b),
        connected(links, b, c),
    ensures
        connected(links, a, c),
{
    let first = choose|walk: Seq<nat>| #[trigger]
        is_walk(links, walk) && walk.first() == a && walk.last() == b;
    let second = choose|walk: Seq<nat>| #[trigger]
        is_walk(links, walk) && walk.first() == b && walk.last() == c;
    let whole = first + second.drop_first();
    assert forall|k: int| 0 <= k < whole.len() - 1 implies adjacent(
        links,
        #[trigger] whole[k],
        whole[k + 1],
    ) by {
        if k < first.len() - 1 {
            assert(adjacent(links, first[k], first[k + 1]));
        } else {
            let m = k - (first.len() - 1);
            assert(adjacent(links, second[m], second[m + 1]));
        }
    }
    assert(is_walk(links, whole));
}

/// A walk of more than one vertex is a shorter walk and one link more: the link at the
/// place given joins the end of the shorter walk and the end of the walk.
pub proof fn lemma_walk_last_step(links: Seq<Link>, walk: Seq<nat>) -> (i: int)
    requires
        is_walk(links, walk),
        walk.len() > 1,
    ensures
        is_walk(links, walk.drop_last()),
        walk.drop_last().first() == walk.first(),
        0 <= i < links.len(),
        joins(links[i], walk.drop_last().last(), walk.last()),
{
    let short = walk.drop_last();
    assert forall|k: int| 0 <= k < short.len() - 1 implies adjacent(
        links,
        #[trigger] short[k],
        short[k + 1],
    ) by {
        assert(adjacent(links, walk[k], walk[k + 1]));
    }
    assert(adjacent(links, walk[walk.len() - 2], walk[walk.len() - 2 + 1]));
    choose|i: int| 0 <= i < links.len() && joins(#[trigger] links[i], short.last(), walk.last())
}

/// A walk in one graph, each link of which is connected in another graph, connects its two
/// ends in that other graph.
proof fn lemma_walk_through(links: Seq<Link>, others: Seq<Link>, walk: Seq<nat>)
    requires
        is_walk(links, walk),
        forall|i: int| 0 <= i < links.len() ==> connected(others, (#[trigger] links[i]).u, links[i].v),
    ensures
        connected(others, walk.first(), walk.last()),
    decreases walk.len(),
{
    if walk.len() == 1 {
        lemma_connected_refl(others, walk.first());
    } else {
        let short = walk.drop_last();
        let i = lemma_walk_last_step(links, walk);
        lemma_walk_through(links, others, short);
        let x = short.last();
        let y = walk.last();
        assert(connected(others, links[i].u, links[i].v));
        if links[i].u == x {
        } else {
            lemma_connected_sym(others, links[i].u, links[i].v);
        }
        lemma_connected_trans(others, walk.first(), x, y);
    }
}

/// A graph in which the two ends of every link of another graph are connected connects all
/// that the other graph connects.
pub proof fn lemma_connected_through(links: Seq<Link>, others: Seq<Link>, a: nat, b: nat)
    requires
        connected(links, a, b),
        forall|i: int| 0 <= i < links.len() ==> connected(others, (#[trigger] links[i]).u, links[i].v),
    ensures
        connected(others, a, b),
{
    let walk = choose|walk: Seq<nat>| #[trigger]
        is_walk(links, walk) && walk.first() == a && walk.last() == b;
    lemma_walk_through(links, others, walk);
}

/// The two ends of a link of the graph are connected.
pub proof fn lemma_connected_link(links: Seq<Link>, i: int)
    requires
        0 <= i < links.len(),
    ensures
        connected(links, links[i].u, links[i].v),
        connected(links, links[i].v, links[i].u),
{
    assert(joins(links[i], links[i].u, links[i].v));
    lemma_connected_adjacent(links, links[i].u, links[i].v);
    lemma_connected_sym(links, links[i].u, links[i].v);
}

/// What a graph connects stays connected when a link is added.
pub proof fn lemma_connected_push(links: Seq<Link>, link: Link, a: nat, b: nat)
    requires
        connected(links, a, b),
    ensures
        connected(links.push(link), a, b),
{
    let more = links.push(link);
    assert forall|i: int| 0 <= i < links.len() implies connected(
        more,
        (#[trigger] links[i]).u,
        links[i].v,
    ) by {
        assert(more[i] == links[i]);
        lemma_connected_link(more, i);
    }
    lemma_connected_through(links, more, a, b);
}

/// A graph that holds every link of another connects whatever the other connects.
pub proof fn lemma_connected_among(links: Seq<Link>, others: Seq<Link>, a: nat, b: nat)
    requires
        connected(links, a, b),
        forall|i: int| 0 <= i < links.len() ==> others.contains(#[trigger] links[i]),
    ensures
        connected(others, a, b),
{
    assert forall|i: int| 0 <= i < links.len() implies connected(
        others,
        (#[trigger] links[i]).u,
        links[i].v,
    ) by {
        assert(others.contains(links[i]));
        let w = choose|w: int| 0 <= w < others.len() && others[w] == links[i];
        lemma_connected_link(others, w);
    }
    lemma_connected_through(links, others, a, b);
}

/// What one more link connects: `a` and `b` are connected by way of `link`, if not without
/// it, when the one is connected with one end of it and the other with the other end.
pub open spec fn connected_with(links: Seq<Link>, link: Link, a: nat, b: nat) -> bool {
    ||| connected(links, a, b)
    ||| connected(links, a, link.u) && connected(links, link.v, b)
    ||| connected(links, a, link.v) && connected(links, link.u, b)
}

/// A walk in the graph with one more link connects its ends by way of that link, if not
/// without it.
proof fn lemma_walk_with(links: Seq<Link>, link: Link, walk: Seq<nat>)
    requires
        is_walk(links.push(link), walk),
    ensures
        connected_with(links, link, walk.first(), walk.last()),
    decreases walk.len(),
{
    let more = links.push(link);
    let a = walk.first();
    if walk.len() == 1 {
        lemma_connected_refl(links, a);
    } else {
        let short = walk.drop_last();
        let i = lemma_walk_last_step(more, walk);
        lemma_walk_with(links, link, short);
        let x = short.last();
        let y = walk.last();
        lemma_connected_refl(links, link.u);
        lemma_connected_refl(links, link.v);
        if i < links.len() {
            assert(joins(links[i], x, y));
            lemma_connected_adjacent(links, x, y);
            if connected(links, a, x) {
                lemma_connected_trans(links, a, x, y);
            } else if connected(links, a, link.u) && connected(links, link.v, x) {
                lemma_connected_trans(links, link.v, x, y);
            } else {
                lemma_connected_trans(links, link.u, x, y);
            }
        } else {
            if connected(links, a, x) {
            } else if connected(links, a, link.u) && connected(links, link.v, x) {
                if x == link.u {
                    lemma_connected_sym(links, link.v, x);
                    lemma_connected_trans(links, a, link.u, link.v);
                }
            } else {
                if x == link.v {
                    lemma_connected_sym(links, link.u, x);
                    lemma_connected_trans(links, a, link.v, link.u);
                }
            }
        }
    }
}

/// With one more link the graph connects what it connected before and what that link
/// brings together, and nothing else.
pub proof fn lemma_connected_with(links: Seq<Link>, link: Link, a: nat, b: nat)
    ensures
        connected(links.push(link), a, b) <==> connected_with(links, link, a, b),
{
    let more = links.push(link);
    if connected(more, a, b) {
        let walk = choose|walk: Seq<nat>| #[trigger]
            is_walk(more, walk) && walk.first() == a && walk.last() == b;
        lemma_walk_with(links, link, walk);
    }
    if connected_with(links, link, a, b) {
        assert(more[links.len() as int] == link);
        lemma_connected_link(more, links.len() as int);
        if connected(links, a, b) {
            lemma_connected_push(links, link, a, b);
        } else if connected(links, a, link.u) && connected(links, link.v, b) {
            lemma_connected_push(links, link, a, link.u);
            lemma_connected_push(links, link, link.v, b);
            lemma_connected_trans(more, a, link.u, link.v);
            lemma_connected_trans(more, a, link.v, b);
        } else {
            lemma_connected_push(links, link, a, link.v);
            lemma_connected_push(links, link, link.u, b);
            lemma_connected_trans(more, a, link.v, link.u);
            lemma_connected_trans(more, a, link.u, b);
        }
    }
}

/// The forest that the greedy choice builds from `links`, taken in their order: a link is
/// kept where the links kept before it do not connect its two ends.
pub open spec fn greedy_forest(links: Seq<Link>) -> Seq<Link>
    decreases links.len(),
{
    if links.len() == 0 {
        links
    } else {
        let forest = greedy_forest(links.drop_last());
        if connected(forest, links.last().u, links.last().v) {
            forest
        } else {
            forest.push(links.last())
        }
    }
}

/// A graph has finitely many vertices.
pub proof fn lemma_vertex_set_finite(links: Seq<Link>)
    ensures
        vertex_set(links).finite(),
    decreases links.len(),
{
    if links.len() == 0 {
        assert(vertex_set(links) =~= Set::<nat>::empty());
    } else {
        lemma_vertex_set_finite(links.drop_last());
        lemma_vertex_set_push(links.drop_last(), links.last());
        assert(links =~= links.drop_last().push(links.last()));
    }
}

/// A number that is no end of a link is connected with itself alone.
pub proof fn lemma_connected_apart(links: Seq<Link>, a: nat, b: nat)
    requires
        connected(links, a, b),
        a != b,
    ensures
        vertex_set(links).contains(a),
        vertex_set(links).contains(b),
{
    let walk = choose|walk: Seq<nat>| #[trigger]
        is_walk(links, walk) && walk.first() == a && walk.last() == b;
    let n = walk.len() as int;
    assert(adjacent(links, walk[0int], walk[0int + 1]));
    let i = choose|i: int| 0 <= i < links.len() && joins(#[trigger] links[i], walk[0int], walk[0int + 1]);
    assert(has_end(links[i], a));
    assert(adjacent(links, walk[n - 2], walk[n - 2 + 1]));
    let j = choose|j: int| 0 <= j < links.len() && joins(#[trigger] links[j], walk[n - 2], walk[n - 2 + 1]);
    assert(has_end(links[j], b));
}

/// The graph connects all its vertices with each other.
pub open spec fn is_connected(links: Seq<Link>) -> bool {
    forall|a: nat, b: nat|
        vertex_set(links).contains(a) && vertex_set(links).contains(b) ==> #[trigger] connected(
            links,
            a,
            b,
        )
}

/// Every link of `tree` is a link of `links`.
pub open spec fn drawn_from(tree: Seq<Link>, links: Seq<Link>) -> bool {
    forall|i: int| 0 <= i < tree.len() ==> links.contains(#[trigger] tree[i])
}

/// `tree` connects whatever `links` connects.
pub open spec fn spans(tree: Seq<Link>, links: Seq<Link>) -> bool {
    forall|a: nat, b: nat| #[trigger] connected(links, a, b) ==> connected(tree, a, b)
}

/// The weights of the list do not descend.
pub open spec fn weights_ascend(links: Seq<Link>) -> bool {
    forall|i: int, j: int| 0 <= i < j < links.len() ==> links[i].weight <= links[j].weight
}

/// The sorted links are the links of the graph, and their weights do not descend.
pub proof fn lemma_sorted_links(links: Seq<Link>)
    ensures
        weights_ascend(sorted_links(links)),
        sorted_links(links).len() == links.len(),
        forall|link: Link| sorted_links(links).contains(link) <==> links.contains(link),
        sorted_links(links).to_multiset() == links.to_multiset(),
{
    lemma_link_order_total();
    links.lemma_sort_by_ensures(link_order());
    let sorted = sorted_links(links);
    assert forall|i: int, j: int| 0 <= i < j < sorted.len() implies sorted[i].weight
        <= sorted[j].weight by {
        assert(link_order()(sorted[i], sorted[j]));
    }
    assert forall|link: Link| sorted.contains(link) <==> links.contains(link) by {
        vstd::seq_lib::to_multiset_contains(sorted, link);
        vstd::seq_lib::to_multiset_contains(links, link);
    }
    vstd::seq_lib::to_multiset_len(sorted);
    vstd::seq_lib::to_multiset_len(links);
}

} // verus!
