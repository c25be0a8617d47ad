//! Reachability along edges, and the facts about depth-first search that deletion rests on.
use vstd::prelude::*;
use super::graph::AnyNode;

verus! {

/// `s` contains the end of every edge of `edges` that starts in `s`.
pub open spec fn closed_under<N>(edges: Set<(N, N)>, s: Set<N>) -> bool {
    forall|e: (N, N)| #[trigger] edges.contains(e) && s.contains(e.0) ==> s.contains(e.1)
}

/// The nodes reachable from `root` by following edges: the least set that contains `root`
/// and is closed under `edges`.
pub open spec fn reachable<N>(edges: Set<(N, N)>, root: N) -> Set<N> {
    Set::new(
        |n: N|
            forall|s: Set<N>| #[trigger] closed_under(edges, s) && s.contains(root) ==> s.contains(n),
    )
}

/// The nodes of `v` from index `k` on, `v[k]` first, each entered through an edge of
/// `edges` from a node before it.
pub open spec fn entered_in_order<N>(edges: Set<(N, N)>, v: Seq<N>, k: int) -> bool {
    forall|i: int| k < i < v.len() ==> #[trigger] has_parent(edges, v, i)
}

/// Some node before `v[i]` in `v` has an edge of `edges` to `v[i]`.
#[verifier::opaque]
pub open spec fn has_parent<N>(edges: Set<(N, N)>, v: Seq<N>, i: int) -> bool {
    exists|j: int| 0 <= j < i && #[trigger] edges.contains((v[j], v[i]))
}

/// If every node of `v` after the first is entered from an earlier one, all of `v` is reachable from `v[0]`.
pub proof fn lemma_entered_reachable<N>(edges: Set<(N, N)>, v: Seq<N>, i: int, s: Set<N>)
    requires
        entered_in_order(edges, v, 0),
        0 <= i < v.len(),
        closed_under(edges, s),
        s.contains(v[0]),
    ensures
        s.contains(v[i]),
    decreases i,
{
    if i > 0 {
        assert(has_parent(edges, v, i));
        reveal(has_parent);
        let j = choose|j: int| 0 <= j < i && #[trigger] edges.contains((v[j], v[i]));
        lemma_entered_reachable(edges, v, j, s);
    }
}

/// A reachable node other than the root is entered by an edge from a reachable node.
pub proof fn lemma_reachable_entered<N>(edges: Set<(N, N)>, root: N, n: N)
    requires
        reachable(edges, root).contains(n),
        n != root,
    ensures
        exists|u: N| #[trigger] reachable(edges, root).contains(u) && edges.contains((u, n)),
{
    let r = reachable(edges, root);
    if !exists|u: N| #[trigger] r.contains(u) && edges.contains((u, n)) {
        let s = r.remove(n);
        assert(closed_under(edges, r)) by {
            assert forall|e: (N, N)| #[trigger] edges.contains(e) && r.contains(e.0) implies r.contains(e.1) by {
                assert forall|t: Set<N>| #[trigger] closed_under(edges, t) && t.contains(root) implies t.contains(e.1) by {
                    assert(t.contains(e.0));
                }
            }
        }
        assert(closed_under(edges, s)) by {
            assert forall|e: (N, N)| #[trigger] edges.contains(e) && s.contains(e.0) implies s.contains(e.1) by {
                assert(r.contains(e.1));
                if e.1 == n {
                    assert(r.contains(e.0) && edges.contains((e.0, n)));
                }
            }
        }
        assert(r.contains(root)) by {
            assert forall|t: Set<N>| #[trigger] closed_under(edges, t) && t.contains(root) implies t.contains(root) by {}
        }
        assert(s.contains(root));
        assert(s.contains(n));
    }
}

/// What is reachable from a node reachable from `root` is reachable from `root`.
pub proof fn lemma_reachable_trans<N>(edges: Set<(N, N)>, root: N, mid: N, n: N)
    requires
        reachable(edges, root).contains(mid),
        reachable(edges, mid).contains(n),
    ensures
        reachable(edges, root).contains(n),
{
    assert forall|s: Set<N>| #[trigger] closed_under(edges, s) && s.contains(root) implies s.contains(n) by {
        assert(s.contains(mid));
    }
}

/// `n` occurs in `v` at index `k` or later.
#[verifier::opaque]
pub open spec fn visited_since<N>(v: Seq<N>, k: int, n: N) -> bool {
    exists|i: int| k <= i < v.len() && v[i] == n
}

/// How the nodes visited since `k0` split when a nested search appends the nodes of `w1`
/// from index `w0.len()` on.
pub proof fn lemma_visited_split<N>(w0: Seq<N>, w1: Seq<N>, k0: int)
    requires
        0 <= k0 < w0.len(),
        w1.len() > w0.len(),
        forall|i: int| 0 <= i < w0.len() ==> #[trigger] w1[i] == w0[i],
        w1.no_duplicates(),
    ensures
        forall|x: N| visited_since(w1, w0.len() as int, x) ==> visited_since(w1, k0, x) && x != w0[k0],
        forall|x: N| visited_since(w1, k0, x) && !visited_since(w1, w0.len() as int, x) ==> visited_since(w0, k0, x),
        forall|x: N| visited_since(w0, k0, x) ==> visited_since(w1, k0, x) && !visited_since(w1, w0.len() as int, x),
        forall|x: N| w0.contains(x) ==> w1.contains(x),
{
    reveal(visited_since);
    let kw = w0.len() as int;
    assert forall|x: N| visited_since(w1, kw, x) implies visited_since(w1, k0, x) && x != w0[k0] by {
        let i = choose|i: int| kw <= i < w1.len() && w1[i] == x;
        assert(w1[k0] == w0[k0]);
        assert(i != k0);
    }
    assert forall|x: N| visited_since(w1, k0, x) && !visited_since(w1, kw, x) implies visited_since(w0, k0, x) by {
        let i = choose|i: int| k0 <= i < w1.len() && w1[i] == x;
        assert(w1[i] == w0[i]);
    }
    assert forall|x: N| visited_since(w0, k0, x) implies visited_since(w1, k0, x) && !visited_since(w1, kw, x) by {
        let i = choose|i: int| k0 <= i < w0.len() && w0[i] == x;
        assert(w1[i] == x);
        if visited_since(w1, kw, x) {
            let j = choose|j: int| kw <= j < w1.len() && w1[j] == x;
            assert(i != j);
        }
    }
    assert forall|x: N| w0.contains(x) implies w1.contains(x) by {
        let j = choose|j: int| 0 <= j < w0.len() && w0[j] == x;
        assert(w1[j] == x);
    }
}

/// The order in which nodes were entered carries over a nested search from `w0[k0]`
/// along the edge `(w0[k0], w1[w0.len()])`.
pub proof fn lemma_entered_step<N>(e0: Set<(N, N)>, e2: Set<(N, N)>, w0: Seq<N>, w1: Seq<N>, k0: int)
    requires
        0 <= k0 < w0.len(),
        w1.len() > w0.len(),
        forall|i: int| 0 <= i < w0.len() ==> #[trigger] w1[i] == w0[i],
        e2.subset_of(e0),
        e0.contains((w0[k0], w1[w0.len() as int])),
        entered_in_order(e0, w0, k0),
        entered_in_order(e2, w1, w0.len() as int),
    ensures
        entered_in_order(e0, w1, k0),
{
    let kw = w0.len() as int;
    assert forall|i: int| k0 < i < w1.len() implies #[trigger] has_parent(e0, w1, i) by {
        if i < kw {
            assert(has_parent(e0, w0, i));
            reveal(has_parent);
            assert(w1[i] == w0[i]);
            let j = choose|j: int| 0 <= j < i && #[trigger] e0.contains((w0[j], w0[i]));
            assert(w1[j] == w0[j]);
            assert(e0.contains((w1[j], w1[i])));
        } else if i == kw {
            reveal(has_parent);
            assert(w1[k0] == w0[k0]);
            assert(e0.contains((w1[k0], w1[i])));
        } else {
            assert(has_parent(e2, w1, i));
            reveal(has_parent);
            let j = choose|j: int| 0 <= j < i && #[trigger] e2.contains((w1[j], w1[i]));
            assert(e0.contains((w1[j], w1[i])));
        }
    }
}

/// One step of the search from `node` along the edge `(node, next)` to layer `other`:
/// the search invariants for the layers before `other` carry over to the layers up to `other`.
///
/// `e0` are the edges when the search of `node` began, `e1` those before the step, `e2`
/// those after removing `(node, next)`, and `e3` those after searching from `next`.
/// `w0` and `w1` are the nodes visited before and after; the nested search
/// visited the nodes of `w1` from index `w0.len()` on.
pub proof fn lemma_search_step(
    e0: Set<(AnyNode, AnyNode)>,
    e1: Set<(AnyNode, AnyNode)>,
    e2: Set<(AnyNode, AnyNode)>,
    e3: Set<(AnyNode, AnyNode)>,
    w0: Seq<AnyNode>,
    w1: Seq<AnyNode>,
    k0: int,
    node: AnyNode,
    next: AnyNode,
    other: int,
)
    requires
        0 <= k0 < w0.len(),
        w0[k0] == node,
        visited_since(w0, k0, node),
        next.layer_idx == other,
        e0.contains((node, next)),
        e2 == e1.remove((node, next)),
        forall|e: (AnyNode, AnyNode)| #[trigger] e0.contains(e) && e.0 == node && e.1.layer_idx == other ==> e == (node, next),
        forall|e: (AnyNode, AnyNode)| #[trigger] e1.contains(e) ==> e0.contains(e) && (
            !visited_since(w0, k0, e.0) || (e.0 == node && e.1.layer_idx >= other)),
        forall|e: (AnyNode, AnyNode)| #[trigger] e0.contains(e) && (
            !visited_since(w0, k0, e.0) || (e.0 == node && e.1.layer_idx >= other)) ==> e1.contains(e),
        forall|e: (AnyNode, AnyNode)| #[trigger] e0.contains(e) && visited_since(w0, k0, e.0) && (
            e.0 != node || e.1.layer_idx < other) ==> w0.contains(e.1),
        w1.contains(next),
        forall|x: AnyNode| visited_since(w1, w0.len() as int, x) ==> visited_since(w1, k0, x) && x != w0[k0],
        forall|x: AnyNode| visited_since(w1, k0, x) && !visited_since(w1, w0.len() as int, x) ==> visited_since(w0, k0, x),
        forall|x: AnyNode| visited_since(w0, k0, x) ==> visited_since(w1, k0, x) && !visited_since(w1, w0.len() as int, x),
        forall|x: AnyNode| w0.contains(x) ==> w1.contains(x),
        forall|e: (AnyNode, AnyNode)| #[trigger] e3.contains(e)
            ==> e2.contains(e) && !visited_since(w1, w0.len() as int, e.0),
        forall|e: (AnyNode, AnyNode)| #[trigger] e2.contains(e)
            && !visited_since(w1, w0.len() as int, e.0) ==> e3.contains(e),
        forall|e: (AnyNode, AnyNode)| #[trigger] e2.contains(e)
            && visited_since(w1, w0.len() as int, e.0) ==> w1.contains(e.1),
    ensures
        forall|e: (AnyNode, AnyNode)| #[trigger] e3.contains(e) ==> e0.contains(e) && (
            !visited_since(w1, k0, e.0) || (e.0 == node && e.1.layer_idx >= other + 1)),
        forall|e: (AnyNode, AnyNode)| #[trigger] e0.contains(e) && (
            !visited_since(w1, k0, e.0) || (e.0 == node && e.1.layer_idx >= other + 1)) ==> e3.contains(e),
        forall|e: (AnyNode, AnyNode)| #[trigger] e0.contains(e) && visited_since(w1, k0, e.0) && (
            e.0 != node || e.1.layer_idx < other + 1) ==> w1.contains(e.1),
{
    let ex = (node, next);
    let kw = w0.len() as int;
    assert forall|e: (AnyNode, AnyNode)| #[trigger] e3.contains(e) implies e0.contains(e) && (
        !visited_since(w1, k0, e.0) || (e.0 == node && e.1.layer_idx >= other + 1)) by {
        assert(e2.contains(e));
        assert(e1.contains(e));
        if e.0 == node && e.1.layer_idx == other {
            assert(e == ex);
        }
    }
    assert forall|e: (AnyNode, AnyNode)| #[trigger] e0.contains(e) && (
        !visited_since(w1, k0, e.0) || (e.0 == node && e.1.layer_idx >= other + 1)) implies e3.contains(e) by {
        assert(e1.contains(e));
        assert(e != ex);
        assert(e2.contains(e));
    }
    assert forall|e: (AnyNode, AnyNode)| #[trigger] e0.contains(e) && visited_since(w1, k0, e.0) && (
        e.0 != node || e.1.layer_idx < other + 1) implies w1.contains(e.1) by {
        if visited_since(w1, kw, e.0) {
            assert(e1.contains(e));
            assert(e != ex);
            assert(e2.contains(e));
        } else if e.0 == node && e.1.layer_idx == other {
            assert(e == ex);
        } else {
            assert(w0.contains(e.1));
        }
    }
}

} // verus!
