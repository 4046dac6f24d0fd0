use crate::graph::connected;
use crate::graph::connected_with;
use crate::graph::has_end;
use crate::graph::lemma_connected_among;
use crate::graph::lemma_connected_empty;
use crate::graph::lemma_connected_link;
use crate::graph::lemma_connected_through;
use crate::graph::lemma_vertex_set_finite;
use crate::graph::vertex_set;
use crate::graph::lemma_connected_refl;
use crate::graph::lemma_connected_sym;
use crate::graph::lemma_connected_trans;
use crate::graph::lemma_connected_with;
use crate::graph::Link;
use vstd::prelude::*;

verus! {

/// Both ends of every link are among `vertices`.
pub open spec fn ends_in(links: Seq<Link>, vertices: Set<nat>) -> bool {
    forall|i: int|
        0 <= i < links.len() ==> vertices.contains((#[trigger] links[i]).u) && vertices.contains(
            links[i].v,
        )
}

/// Among `vertices`, the graph `one` connects whatever the graph `other` connects.
pub open spec fn reaches(one: Seq<Link>, other: Seq<Link>, vertices: Set<nat>) -> bool {
    forall|a: nat, b: nat|
        vertices.contains(a) && vertices.contains(b) && #[trigger] connected(other, a, b)
            ==> connected(one, a, b)
}

/// `x` is the lowest of the `vertices` that the graph connects it with: it stands for its
/// component.
pub open spec fn is_root(links: Seq<Link>, vertices: Set<nat>, x: nat) -> bool {
    &&& vertices.contains(x)
    &&& forall|y: nat| vertices.contains(y) && #[trigger] connected(links, x, y) ==> x <= y
}

/// The vertices that stand for the components of the graph, one for each.
pub open spec fn roots(links: Seq<Link>, vertices: Set<nat>) -> Set<nat> {
    Set::new(|x: nat| is_root(links, vertices, x))
}

/// The number of components into which the graph parts `vertices`.
pub open spec fn parts(links: Seq<Link>, vertices: Set<nat>) -> nat {
    roots(links, vertices).len()
}

/// No link of the list joins two vertices that the links before it connect: the list closes
/// no cycle.
pub open spec fn cycle_free(tree: Seq<Link>) -> bool
    decreases tree.len(),
{
    tree.len() == 0 || (cycle_free(tree.drop_last()) && !connected(
        tree.drop_last(),
        tree.last().u,
        tree.last().v,
    ))
}

/// There are no more components than vertices.
pub proof fn lemma_roots_finite(links: Seq<Link>, vertices: Set<nat>)
    requires
        vertices.finite(),
    ensures
        roots(links, vertices).finite(),
        roots(links, vertices).subset_of(vertices),
        parts(links, vertices) <= vertices.len(),
{
    assert(roots(links, vertices).subset_of(vertices));
    vstd::set_lib::lemma_len_subset(roots(links, vertices), vertices);
}

/// Every vertex has one that stands for its component.
pub proof fn lemma_root_exists(links: Seq<Link>, vertices: Set<nat>, x: nat) -> (r: nat)
    requires
        vertices.contains(x),
    ensures
        is_root(links, vertices, r),
        connected(links, x, r),
        connected(links, r, x),
        r <= x,
    decreases x,
{
    if is_root(links, vertices, x) {
        lemma_connected_refl(links, x);
        x
    } else {
        let y = choose|y: nat| vertices.contains(y) && #[trigger] connected(links, x, y) && !(x <= y);
        let r = lemma_root_exists(links, vertices, y);
        lemma_connected_trans(links, x, y, r);
        lemma_connected_sym(links, x, r);
        r
    }
}

/// Only one vertex stands for a component.
pub proof fn lemma_root_unique(links: Seq<Link>, vertices: Set<nat>, r: nat, s: nat)
    requires
        is_root(links, vertices, r),
        is_root(links, vertices, s),
        connected(links, r, s),
    ensures
        r == s,
{
    lemma_connected_sym(links, r, s);
}

/// A graph that connects whatever another connects has no more components.
pub proof fn lemma_parts_reaches(one: Seq<Link>, other: Seq<Link>, vertices: Set<nat>)
    requires
        vertices.finite(),
        reaches(one, other, vertices),
    ensures
        roots(one, vertices).subset_of(roots(other, vertices)),
        parts(one, vertices) <= parts(other, vertices),
{
    assert forall|x: nat| roots(one, vertices).contains(x) implies roots(other, vertices).contains(
        x,
    ) by {
        assert forall|y: nat| vertices.contains(y) && #[trigger] connected(other, x, y) implies x
            <= y by {
            assert(connected(one, x, y));
        }
    }
    lemma_roots_finite(other, vertices);
    vstd::set_lib::lemma_len_subset(roots(one, vertices), roots(other, vertices));
}

/// Without links every vertex is a component.
pub proof fn lemma_parts_empty(vertices: Set<nat>)
    requires
        vertices.finite(),
    ensures
        parts(Seq::<Link>::empty(), vertices) == vertices.len(),
{
    let none = Seq::<Link>::empty();
    assert forall|x: nat| vertices.contains(x) implies roots(none, vertices).contains(x) by {
        assert forall|y: nat| vertices.contains(y) && #[trigger] connected(none, x, y) implies x
            <= y by {
            lemma_connected_empty(x, y);
        }
    }
    assert(roots(none, vertices) =~= vertices);
}

/// One more link makes one component of two where its ends were not connected, and leaves
/// the components as they are where they were.
pub proof fn lemma_parts_push(links: Seq<Link>, link: Link, vertices: Set<nat>)
    requires
        vertices.finite(),
        vertices.contains(link.u),
        vertices.contains(link.v),
    ensures
        parts(links.push(link), vertices) + (if connected(links, link.u, link.v) {
            0nat
        } else {
            1nat
        }) == parts(links, vertices),
{
    let more = links.push(link);
    lemma_roots_finite(links, vertices);
    lemma_roots_finite(more, vertices);
    assert forall|a: nat, b: nat| connected(more, a, b) <==> connected_with(links, link, a, b) by {
        lemma_connected_with(links, link, a, b);
    }
    // what stands for a component with the link stood for one without it
    assert(reaches(more, links, vertices));
    lemma_parts_reaches(more, links, vertices);
    if connected(links, link.u, link.v) {
        lemma_connected_sym(links, link.u, link.v);
        assert forall|a: nat, b: nat| connected(more, a, b) implies connected(links, a, b) by {
            if connected(links, a, b) {
            } else if connected(links, a, link.u) && connected(links, link.v, b) {
                lemma_connected_trans(links, a, link.u, link.v);
                lemma_connected_trans(links, a, link.v, b);
            } else {
                lemma_connected_trans(links, a, link.v, link.u);
                lemma_connected_trans(links, a, link.u, b);
            }
        }
        assert forall|x: nat| roots(more, vertices).contains(x) == roots(links, vertices).contains(
            x,
        ) by {
            if is_root(links, vertices, x) {
                assert forall|y: nat| vertices.contains(y) && #[trigger] connected(more, x, y)
                    implies x <= y by {
                    assert(connected(links, x, y));
                }
            }
        }
        assert(roots(more, vertices) =~= roots(links, vertices));
    } else {
        let ru = lemma_root_exists(links, vertices, link.u);
        let rv = lemma_root_exists(links, vertices, link.v);
        if ru == rv {
            lemma_connected_trans(links, link.u, ru, link.v);
        }
        let gone = if ru < rv {
            rv
        } else {
            ru
        };
        let kept = if ru < rv {
            ru
        } else {
            rv
        };
        // the higher of the two stands for nothing any more: it is connected with the lower
        assert(connected_with(links, link, gone, kept));
        assert(connected(more, gone, kept));
        assert(!is_root(more, vertices, gone));
        assert forall|x: nat| roots(more, vertices).contains(x) == roots(links, vertices).remove(
            gone,
        ).contains(x) by {
            if is_root(links, vertices, x) && x != gone {
                assert forall|y: nat| vertices.contains(y) && #[trigger] connected(more, x, y)
                    implies x <= y by {
                    assert(connected_with(links, link, x, y));
                    if connected(links, x, y) {
                    } else if connected(links, x, link.u) && connected(links, link.v, y) {
                        lemma_connected_trans(links, x, link.u, ru);
                        lemma_root_unique(links, vertices, x, ru);
                        lemma_connected_trans(links, rv, link.v, y);
                        assert(rv <= y);
                    } else {
                        lemma_connected_trans(links, x, link.v, rv);
                        lemma_root_unique(links, vertices, x, rv);
                        lemma_connected_trans(links, ru, link.u, y);
                        assert(ru <= y);
                    }
                }
            }
        }
        assert(roots(more, vertices) =~= roots(links, vertices).remove(gone));
        assert(roots(links, vertices).contains(gone));
    }
}

/// A connected graph with a vertex has one component.
pub proof fn lemma_parts_connected(links: Seq<Link>, vertices: Set<nat>)
    requires
        vertices.finite(),
        vertices.len() > 0,
        forall|a: nat, b: nat|
            vertices.contains(a) && vertices.contains(b) ==> #[trigger] connected(links, a, b),
    ensures
        parts(links, vertices) == 1,
{
    let x = vertices.choose();
    let r = lemma_root_exists(links, vertices, x);
    assert forall|s: nat| roots(links, vertices).contains(s) implies s == r by {
        assert(connected(links, s, r));
        lemma_root_unique(links, vertices, s, r);
    }
    assert(roots(links, vertices) =~= set![r]);
}

/// A list of links that closes no cycle has as many links as it makes components fewer
/// than vertices.
pub proof fn lemma_forest_size(tree: Seq<Link>, vertices: Set<nat>)
    requires
        vertices.finite(),
        ends_in(tree, vertices),
        cycle_free(tree),
    ensures
        tree.len() + parts(tree, vertices) == vertices.len(),
    decreases tree.len(),
{
    if tree.len() == 0 {
        assert(tree =~= Seq::<Link>::empty());
        lemma_parts_empty(vertices);
    } else {
        let rest = tree.drop_last();
        assert(tree =~= rest.push(tree.last()));
        assert forall|i: int| 0 <= i < rest.len() implies vertices.contains(
            (#[trigger] rest[i]).u,
        ) && vertices.contains(rest[i].v) by {
            assert(rest[i] == tree[i]);
        }
        lemma_forest_size(rest, vertices);
        lemma_parts_push(rest, tree.last(), vertices);
    }
}

/// No link lies on a cycle: the other links do not connect its two ends.
pub open spec fn acyclic(tree: Seq<Link>) -> bool {
    forall|k: int|
        0 <= k < tree.len() ==> !connected(tree.remove(k), (#[trigger] tree[k]).u, tree[k].v)
}

/// A list that closes no cycle closes none when a link is taken out.
pub proof fn lemma_cycle_free_remove(tree: Seq<Link>, k: int)
    requires
        cycle_free(tree),
        0 <= k < tree.len(),
    ensures
        cycle_free(tree.remove(k)),
    decreases tree.len(),
{
    let rest = tree.drop_last();
    let last = tree.last();
    if k == tree.len() - 1 {
        assert(tree.remove(k) =~= rest);
    } else {
        let fewer = rest.remove(k);
        lemma_cycle_free_remove(rest, k);
        assert(tree.remove(k) =~= fewer.push(last));
        assert(fewer.push(last).drop_last() =~= fewer);
        if connected(fewer, last.u, last.v) {
            assert forall|i: int| 0 <= i < fewer.len() implies rest.contains(
                #[trigger] fewer[i],
            ) by {
                if i < k {
                    assert(rest[i] == fewer[i]);
                } else {
                    assert(rest[i + 1] == fewer[i]);
                }
            }
            lemma_connected_among(fewer, rest, last.u, last.v);
        }
    }
}

/// In a list that closes no cycle, the other links do not connect the two ends of a link.
pub proof fn lemma_cycle_free_link(tree: Seq<Link>, k: int)
    requires
        cycle_free(tree),
        0 <= k < tree.len(),
    ensures
        !connected(tree.remove(k), tree[k].u, tree[k].v),
{
    let vertices = vertex_set(tree);
    let fewer = tree.remove(k);
    lemma_vertex_set_finite(tree);
    if connected(fewer, tree[k].u, tree[k].v) {
        assert forall|i: int| 0 <= i < tree.len() implies vertices.contains(
            (#[trigger] tree[i]).u,
        ) && vertices.contains(tree[i].v) by {
            assert(has_end(tree[i], tree[i].u));
            assert(has_end(tree[i], tree[i].v));
        }
        assert forall|i: int| 0 <= i < fewer.len() implies vertices.contains(
            (#[trigger] fewer[i]).u,
        ) && vertices.contains(fewer[i].v) by {
            if i < k {
                assert(fewer[i] == tree[i]);
            } else {
                assert(fewer[i] == tree[i + 1]);
            }
        }
        lemma_cycle_free_remove(tree, k);
        lemma_forest_size(tree, vertices);
        lemma_forest_size(fewer, vertices);
        lemma_removed_reaches(tree, k, vertices);
        lemma_parts_reaches(fewer, tree, vertices);
    }
}

/// Where the other links connect the two ends of a link, they connect whatever the list
/// connects with that link.
proof fn lemma_removed_reaches(tree: Seq<Link>, k: int, vertices: Set<nat>)
    requires
        0 <= k < tree.len(),
        connected(tree.remove(k), tree[k].u, tree[k].v),
    ensures
        reaches(tree.remove(k), tree, vertices),
{
    let fewer = tree.remove(k);
    assert forall|i: int| 0 <= i < tree.len() implies connected(
        fewer,
        (#[trigger] tree[i]).u,
        tree[i].v,
    ) by {
        if i < k {
            assert(fewer[i] == tree[i]);
            lemma_connected_link(fewer, i);
        } else if i > k {
            assert(fewer[i - 1] == tree[i]);
            lemma_connected_link(fewer, i - 1);
        }
    }
    assert forall|a: nat, b: nat|
        vertices.contains(a) && vertices.contains(b) && #[trigger] connected(
            tree,
            a,
            b,
        ) implies connected(fewer, a, b) by {
        lemma_connected_through(tree, fewer, a, b);
    }
}

/// A list none of whose links lies on a cycle closes no cycle, taken in its order.
pub proof fn lemma_acyclic_cycle_free(tree: Seq<Link>)
    requires
        acyclic(tree),
    ensures
        cycle_free(tree),
    decreases tree.len(),
{
    if tree.len() > 0 {
        let rest = tree.drop_last();
        assert(tree.remove(tree.len() - 1) =~= rest);
        assert forall|k: int| 0 <= k < rest.len() implies !connected(
            rest.remove(k),
            (#[trigger] rest[k]).u,
            rest[k].v,
        ) by {
            let fewer = rest.remove(k);
            if connected(fewer, rest[k].u, rest[k].v) {
                assert forall|i: int| 0 <= i < fewer.len() implies tree.remove(k).contains(
                    #[trigger] fewer[i],
                ) by {
                    assert(tree.remove(k)[i] == fewer[i]);
                }
                lemma_connected_among(fewer, tree.remove(k), rest[k].u, rest[k].v);
                assert(tree[k] == rest[k]);
            }
        }
        lemma_acyclic_cycle_free(rest);
    }
}

/// A list of links closes no cycle, taken in its order, exactly when none of its links
/// lies on a cycle.
pub proof fn lemma_cycle_free_acyclic(tree: Seq<Link>)
    ensures
        cycle_free(tree) <==> acyclic(tree),
{
    if cycle_free(tree) {
        assert forall|k: int| 0 <= k < tree.len() implies !connected(
            tree.remove(k),
            (#[trigger] tree[k]).u,
            tree[k].v,
        ) by {
            lemma_cycle_free_link(tree, k);
        }
    }
    if acyclic(tree) {
        lemma_acyclic_cycle_free(tree);
    }
}

} // verus!
