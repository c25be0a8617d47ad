//! Depth-first walks over the edge tables of a layered graph.
//!
//! Both graph flavours keep, per layer, one table of edges per target layer:
//! `t[l][b][i]` is the slot of layer `b` that slot `i` of layer `l` points to.
//! The walk here visits every node reachable from a root without entering a given set of
//! layers, and records every edge it crosses.
use vstd::prelude::*;
use vstd::set_lib::{set_int_range, lemma_int_range, lemma_len_subset};
use crate::base::reach::{closed_under, reachable, entered_in_order, has_parent, lemma_entered_reachable};

verus! {

/// Node position without generation info, used to traverse the graph without knowing types.
#[derive(Clone, Copy, Debug, PartialEq, Eq, Structural)]
pub struct BareNodeKey {
    pub layer: usize,
    pub idx: usize,
}

/// Edge tables as mathematical sequences: `t[l][b][i]`.
pub type Tables = Seq<Seq<Seq<Option<usize>>>>;

/// The slot of layer `b` that node `n` has an edge to, if any.
pub open spec fn cell(t: Tables, n: BareNodeKey, b: int) -> Option<usize> {
    if n.layer < t.len() && 0 <= b < t[n.layer as int].len() && n.idx < t[n.layer as int][b].len() {
        t[n.layer as int][b][n.idx as int]
    } else {
        None
    }
}

/// No layer has more edge tables than there are layers.
pub open spec fn shaped(t: Tables) -> bool {
    &&& t.len() <= usize::MAX
    &&& forall|l: int| 0 <= l < t.len() ==> #[trigger] t[l].len() <= t.len()
}

/// `tables` holds exactly the edge tables `t`.
pub open spec fn reads(tables: Seq<&Vec<Vec<Option<usize>>>>, t: Tables) -> bool {
    &&& tables.len() == t.len()
    &&& forall|l: int| 0 <= l < t.len() ==> (#[trigger] tables[l])@.len() == t[l].len()
    &&& forall|l: int, b: int| 0 <= l < t.len() && 0 <= b < t[l].len() ==> (#[trigger] tables[l]@[b])@ == t[l][b]
}

/// The edges a walk may follow: those that do not enter a layer of `stop`.
pub open spec fn steps(t: Tables, stop: Seq<usize>) -> Set<(BareNodeKey, BareNodeKey)> {
    Set::new(
        |e: (BareNodeKey, BareNodeKey)| !stop.contains(e.1.layer) && cell(t, e.0, e.1.layer as int) == Some(e.1.idx),
    )
}

/// The nodes reachable from `root` without entering a layer of `stop`.
pub open spec fn gathered(t: Tables, stop: Seq<usize>, root: BareNodeKey) -> Set<BareNodeKey> {
    reachable(steps(t, stop), root)
}

/// `b` is a prefix of `a`.
pub open spec fn extends<A>(a: Seq<A>, b: Seq<A>) -> bool {
    a.len() <= b.len() && forall|i: int| 0 <= i < a.len() ==> #[trigger] b[i] == a[i]
}

/// The recorded edge `e` is an edge out of a visited node, or the reverse of an edge
/// from a visited node into a stop layer.
pub open spec fn sound_record(t: Tables, stop: Seq<usize>, nodes: Seq<BareNodeKey>, e: (BareNodeKey, BareNodeKey)) -> bool {
    ||| nodes.contains(e.0) && cell(t, e.0, e.1.layer as int) == Some(e.1.idx)
    ||| nodes.contains(e.1) && stop.contains(e.0.layer) && cell(t, e.1, e.0.layer as int) == Some(e.0.idx)
}

/// The state of a walk: distinct visited nodes, each entered along an edge from an earlier
/// one, and only sound records.
pub open spec fn valid_record(
    t: Tables,
    stop: Seq<usize>,
    nodes: Seq<BareNodeKey>,
    edges: Seq<(BareNodeKey, BareNodeKey)>,
) -> bool {
    &&& nodes.no_duplicates()
    &&& forall|i: int| 0 <= i < nodes.len() ==> (#[trigger] nodes[i]).layer < t.len()
    &&& entered_in_order(steps(t, stop), nodes, 0)
    &&& forall|k: int| 0 <= k < edges.len() ==> #[trigger] sound_record(t, stop, nodes, edges[k])
}

/// The edge from `x` to layer `b`, if there is one, has been handled: recorded both ways
/// when it enters a stop layer, otherwise recorded with its end visited.
pub open spec fn explored_edge(
    t: Tables,
    stop: Seq<usize>,
    x: BareNodeKey,
    nodes: Seq<BareNodeKey>,
    edges: Seq<(BareNodeKey, BareNodeKey)>,
    b: usize,
) -> bool {
    cell(t, x, b as int) matches Some(j) ==> {
        let n = BareNodeKey { layer: b, idx: j };
        if stop.contains(b) {
            edges.contains((x, n)) && edges.contains((n, x))
        } else {
            nodes.contains(n) && edges.contains((x, n))
        }
    }
}

/// Every edge from `x` to a layer below `upto` has been handled.
pub open spec fn explored(
    t: Tables,
    stop: Seq<usize>,
    x: BareNodeKey,
    nodes: Seq<BareNodeKey>,
    edges: Seq<(BareNodeKey, BareNodeKey)>,
    upto: int,
) -> bool {
    forall|b: usize| b < upto ==> #[trigger] explored_edge(t, stop, x, nodes, edges, b)
}

/// More nodes than this cannot be distinct and lie in the layers of `t`.
pub open spec fn bound(t: Tables) -> int {
    t.len() * (usize::MAX as int + 1)
}

/// The number of edge rows of the layer of `x`.
pub open spec fn row_count(t: Tables, x: BareNodeKey) -> nat {
    if x.layer < t.len() {
        t[x.layer as int].len()
    } else {
        0
    }
}

/// The visited nodes after a depth-first walk from `x` that has visited `seen`: the rows of
/// `x` are tried in the order of their target layers, and an edge into a node not visited
/// yet, outside the stop layers, is followed at once. `fuel` bounds the depth of the walk.
pub open spec fn walk_from(t: Tables, stop: Seq<usize>, fuel: nat, seen: Seq<BareNodeKey>, x: BareNodeKey) -> Seq<BareNodeKey>
    decreases fuel, row_count(t, x) + 1,
{
    walk_rows(t, stop, fuel, seen, x, 0)
}

/// The visited nodes after the walk from `x` has tried its rows from `b` on.
pub open spec fn walk_rows(t: Tables, stop: Seq<usize>, fuel: nat, seen: Seq<BareNodeKey>, x: BareNodeKey, b: nat) -> Seq<BareNodeKey>
    decreases fuel, row_count(t, x) - b,
{
    if b >= row_count(t, x) {
        seen
    } else {
        let next = match cell(t, x, b as int) {
            Some(j) => {
                let n = BareNodeKey { layer: b as usize, idx: j };
                if !stop.contains(b as usize) && !seen.contains(n) && fuel > 0 {
                    walk_from(t, stop, (fuel - 1) as nat, seen.push(n), n)
                } else {
                    seen
                }
            },
            None => seen,
        };
        walk_rows(t, stop, fuel, next, x, b + 1)
    }
}

/// The nodes reachable from `root` without entering a stop layer, in the order a
/// depth-first walk from `root` visits them.
pub open spec fn walk_order(t: Tables, stop: Seq<usize>, root: BareNodeKey) -> Seq<BareNodeKey> {
    walk_from(t, stop, (bound(t) - 1) as nat, seq![root], root)
}

/// Whatever a sequence contains, a sequence that extends it contains too.
pub proof fn lemma_extends_contains<A>(a: Seq<A>, b: Seq<A>)
    requires
        extends(a, b),
    ensures
        forall|x: A| a.contains(x) ==> b.contains(x),
{
    assert forall|x: A| a.contains(x) implies b.contains(x) by {
        let i = choose|i: int| 0 <= i < a.len() && a[i] == x;
        assert(b[i] == x);
    }
}

/// Handled edges stay handled as the walk goes on.
pub proof fn lemma_explored_extends(
    t: Tables,
    stop: Seq<usize>,
    x: BareNodeKey,
    n1: Seq<BareNodeKey>,
    e1: Seq<(BareNodeKey, BareNodeKey)>,
    n2: Seq<BareNodeKey>,
    e2: Seq<(BareNodeKey, BareNodeKey)>,
    upto: int,
)
    requires
        explored(t, stop, x, n1, e1, upto),
        extends(n1, n2),
        extends(e1, e2),
    ensures
        explored(t, stop, x, n2, e2, upto),
{
    lemma_extends_contains(n1, n2);
    lemma_extends_contains(e1, e2);
    assert forall|b: usize| b < upto implies #[trigger] explored_edge(t, stop, x, n2, e2, b) by {
        assert(explored_edge(t, stop, x, n1, e1, b));
    }
}

/// Distinct nodes in the layers of `t` number at most `bound(t)`.
pub proof fn lemma_nodes_bounded(t: Tables, nodes: Seq<BareNodeKey>)
    requires
        nodes.no_duplicates(),
        forall|i: int| 0 <= i < nodes.len() ==> (#[trigger] nodes[i]).layer < t.len(),
    ensures
        nodes.len() <= bound(t),
{
    let m: int = usize::MAX as int + 1;
    let hi: int = bound(t);
    let s = nodes.map_values(|n: BareNodeKey| n.layer as int * m + n.idx as int);
    assert forall|i: int, j: int| 0 <= i < s.len() && 0 <= j < s.len() && i != j implies s[i] != s[j] by {
        let a = nodes[i];
        let b = nodes[j];
        assert(a != b);
        let la = a.layer as int;
        let lb = b.layer as int;
        let ia = a.idx as int;
        let ib = b.idx as int;
        if la < lb {
            assert(la * m + ia < lb * m + ib) by (nonlinear_arith)
                requires
                    la < lb,
                    0 <= ia < m,
                    0 <= ib,
                    m > 0,
            ;
        } else if lb < la {
            assert(lb * m + ib < la * m + ia) by (nonlinear_arith)
                requires
                    lb < la,
                    0 <= ib < m,
                    0 <= ia,
                    m > 0,
            ;
        } else {
            assert(ia != ib);
        }
    }
    assert(s.no_duplicates());
    s.unique_seq_to_set();
    lemma_int_range(0, hi);
    assert forall|v: int| s.to_set().contains(v) implies set_int_range(0, hi).contains(v) by {
        let i = choose|i: int| 0 <= i < s.len() && s[i] == v;
        let l = nodes[i].layer as int;
        let x = nodes[i].idx as int;
        assert(0 <= l * m + x < t.len() * m) by (nonlinear_arith)
            requires
                0 <= l < t.len(),
                0 <= x < m,
                m > 0,
        ;
    }
    lemma_len_subset(s.to_set(), set_int_range(0, hi));
}

/// Whether `b` is one of the layers in `stop`.
fn contains_layer(stop: &Vec<usize>, b: usize) -> (r: bool)
    ensures
        r == stop@.contains(b),
{
    let mut k: usize = 0;
    while k < stop.len()
        invariant
            k <= stop.len(),
            forall|i: int| 0 <= i < k ==> stop@[i] != b,
        decreases stop.len() - k,
    {
        if stop[k] == b {
            return true;
        }
        k += 1;
    }
    false
}

/// The position of `n` among the visited nodes, if it was visited.
pub(crate) fn find_node(nodes: &Vec<BareNodeKey>, n: BareNodeKey) -> (r: Option<usize>)
    ensures
        match r {
            Some(i) => i < nodes.len() && nodes@[i as int] == n,
            None => !nodes@.contains(n),
        },
{
    let mut k: usize = 0;
    while k < nodes.len()
        invariant
            k <= nodes.len(),
            forall|i: int| 0 <= i < k ==> nodes@[i] != n,
        decreases nodes.len() - k,
    {
        if nodes[k] == n {
            return Some(k);
        }
        k += 1;
    }
    None
}

/// The nodes visited and the edges crossed by a walk.
pub struct SearchResult {
    pub nodes: Vec<BareNodeKey>,
    pub edges: Vec<(BareNodeKey, BareNodeKey)>,
}

/// Walk depth first from `curr`, the node visited last, through every edge of the tables:
/// edges into a stop layer are recorded both ways and not followed, edges to visited nodes
/// are recorded, and edges to new nodes are recorded and followed.
pub fn search_all(
    curr: BareNodeKey,
    ret: &mut SearchResult,
    tables: &Vec<&Vec<Vec<Option<usize>>>>,
    stop: &Vec<usize>,
    Ghost(t): Ghost<Tables>,
    Ghost(fuel): Ghost<nat>,
)
    requires
        reads(tables@, t),
        shaped(t),
        old(ret).nodes@.len() > 0,
        old(ret).nodes@.last() == curr,
        valid_record(t, stop@, old(ret).nodes@, old(ret).edges@),
        fuel >= bound(t) - old(ret).nodes@.len(),
    ensures
        final(ret).nodes@ == walk_from(t, stop@, fuel, old(ret).nodes@, curr),
        extends(old(ret).nodes@, final(ret).nodes@),
        extends(old(ret).edges@, final(ret).edges@),
        valid_record(t, stop@, final(ret).nodes@, final(ret).edges@),
        forall|i: int| old(ret).nodes@.len() - 1 <= i < final(ret).nodes@.len()
            ==> explored(t, stop@, #[trigger] final(ret).nodes@[i], final(ret).nodes@, final(ret).edges@, t.len() as int),
    decreases bound(t) - old(ret).nodes@.len(),
{
    let ghost k0: int = ret.nodes@.len() - 1;
    let ghost nodes0 = ret.nodes@;
    let ghost edges0 = ret.edges@;
    proof {
        lemma_nodes_bounded(t, nodes0);
        assert(nodes0[k0] == curr);
    }
    let rows = tables[curr.layer].len();
    let mut b: usize = 0;
    while b < rows
        invariant
            reads(tables@, t),
            shaped(t),
            0 <= k0 < nodes0.len(),
            nodes0 == old(ret).nodes@,
            nodes0[k0] == curr,
            curr.layer < t.len(),
            rows == t[curr.layer as int].len(),
            b <= rows,
            extends(nodes0, ret.nodes@),
            extends(edges0, ret.edges@),
            valid_record(t, stop@, ret.nodes@, ret.edges@),
            forall|i: int| k0 < i < ret.nodes@.len()
                ==> explored(t, stop@, #[trigger] ret.nodes@[i], ret.nodes@, ret.edges@, t.len() as int),
            explored(t, stop@, curr, ret.nodes@, ret.edges@, b as int),
            bound(t) - nodes0.len() >= 0,
            fuel >= bound(t) - nodes0.len(),
            walk_rows(t, stop@, fuel, ret.nodes@, curr, b as nat) == walk_rows(t, stop@, fuel, nodes0, curr, 0),
        decreases rows - b,
    {
        let ghost n1 = ret.nodes@;
        let ghost e1 = ret.edges@;
        let row = &tables[curr.layer][b];
        proof {
            assert(ret.nodes@[k0] == curr);
            assert(row@ == t[curr.layer as int][b as int]);
        }
        if curr.idx < row.len() {
            if let Some(other) = row[curr.idx] {
                let next = BareNodeKey { layer: b, idx: other };
                assert(cell(t, curr, b as int) == Some(other));
                if contains_layer(stop, b) {
                    ret.edges.push((curr, next));
                    ret.edges.push((next, curr));
                    proof {
                        let e2 = ret.edges@;
                        assert(extends(e1, e2));
                        assert(ret.nodes@.contains(curr));
                        assert(e2[e1.len() as int] == (curr, next));
                        assert(e2[e1.len() as int + 1] == (next, curr));
                        assert forall|k: int| 0 <= k < e2.len() implies #[trigger] sound_record(t, stop@, n1, e2[k]) by {
                            if k < e1.len() {
                                assert(e2[k] == e1[k]);
                            }
                        }
                        assert forall|i: int| k0 < i < n1.len() implies explored(t, stop@, #[trigger] n1[i], n1, e2, t.len() as int) by {
                            lemma_explored_extends(t, stop@, n1[i], n1, e1, n1, e2, t.len() as int);
                        }
                        lemma_explored_extends(t, stop@, curr, n1, e1, n1, e2, b as int);
                        assert forall|c: usize| c < b + 1 implies #[trigger] explored_edge(t, stop@, curr, n1, e2, c) by {
                            if c == b {
                                assert(e2.contains((curr, next)));
                                assert(e2.contains((next, curr)));
                            } else {
                                assert(explored_edge(t, stop@, curr, n1, e2, c));
                            }
                        }
                        lemma_extends_contains(e1, e2);
                        assert(walk_rows(t, stop@, fuel, n1, curr, b as nat) == walk_rows(t, stop@, fuel, n1, curr, (b + 1) as nat));
                    }
                } else {
                    match find_node(&ret.nodes, next) {
                        Some(seen) => {
                            let seen_node = ret.nodes[seen];
                            ret.edges.push((curr, seen_node));
                            proof {
                                let e2 = ret.edges@;
                                assert(extends(e1, e2));
                                assert(ret.nodes@.contains(curr));
                                assert(e2[e1.len() as int] == (curr, next));
                                assert forall|k: int| 0 <= k < e2.len() implies #[trigger] sound_record(t, stop@, n1, e2[k]) by {
                                    if k < e1.len() {
                                        assert(e2[k] == e1[k]);
                                    }
                                }
                                assert forall|i: int| k0 < i < n1.len() implies explored(t, stop@, #[trigger] n1[i], n1, e2, t.len() as int) by {
                                    lemma_explored_extends(t, stop@, n1[i], n1, e1, n1, e2, t.len() as int);
                                }
                                lemma_explored_extends(t, stop@, curr, n1, e1, n1, e2, b as int);
                                assert(n1.contains(next));
                                assert(walk_rows(t, stop@, fuel, n1, curr, b as nat) == walk_rows(t, stop@, fuel, n1, curr, (b + 1) as nat));
                                assert forall|c: usize| c < b + 1 implies #[trigger] explored_edge(t, stop@, curr, n1, e2, c) by {
                                    if c == b {
                                        assert(e2.contains((curr, next)));
                                        assert(n1.contains(next));
                                    } else {
                                        assert(explored_edge(t, stop@, curr, n1, e2, c));
                                    }
                                }
                                lemma_extends_contains(e1, e2);
                            }
                        },
                        None => {
                            ret.edges.push((curr, next));
                            ret.nodes.push(next);
                            proof {
                                let e2 = ret.edges@;
                                let n2 = ret.nodes@;
                                assert(extends(e1, e2));
                                assert(extends(n1, n2));
                                lemma_extends_contains(n1, n2);
                                lemma_extends_contains(e1, e2);
                                assert(n2[n1.len() as int] == next);
                                assert(e2[e1.len() as int] == (curr, next));
                                assert(n2[k0] == curr);
                                assert(n2.no_duplicates()) by {
                                    assert forall|i: int, j: int| 0 <= i < j < n2.len() implies n2[i] != n2[j] by {
                                        if j == n1.len() {
                                            assert(n2[i] == n1[i]);
                                        } else {
                                            assert(n2[i] == n1[i] && n2[j] == n1[j]);
                                        }
                                    }
                                }
                                assert(forall|i: int| 0 <= i < n2.len() ==> (#[trigger] n2[i]).layer < t.len()) by {
                                    assert forall|i: int| 0 <= i < n2.len() implies (#[trigger] n2[i]).layer < t.len() by {
                                        if i < n1.len() {
                                            assert(n2[i] == n1[i]);
                                        }
                                    }
                                }
                                assert(steps(t, stop@).contains((curr, next)));
                                assert(entered_in_order(steps(t, stop@), n2, 0)) by {
                                    assert forall|i: int| 0 < i < n2.len() implies #[trigger] has_parent(steps(t, stop@), n2, i) by {
                                        reveal(has_parent);
                                        if i < n1.len() {
                                            assert(has_parent(steps(t, stop@), n1, i));
                                            let j = choose|j: int| 0 <= j < i && #[trigger] steps(t, stop@).contains((n1[j], n1[i]));
                                            assert(n2[j] == n1[j] && n2[i] == n1[i]);
                                            assert(steps(t, stop@).contains((n2[j], n2[i])));
                                        } else {
                                            assert(steps(t, stop@).contains((n2[k0], n2[i])));
                                        }
                                    }
                                }
                                assert forall|k: int| 0 <= k < e2.len() implies #[trigger] sound_record(t, stop@, n2, e2[k]) by {
                                    if k < e1.len() {
                                        assert(e2[k] == e1[k]);
                                        assert(sound_record(t, stop@, n1, e1[k]));
                                    }
                                }
                                assert forall|i: int| k0 < i < n1.len() implies explored(t, stop@, #[trigger] n2[i], n2, e2, t.len() as int) by {
                                    assert(n2[i] == n1[i]);
                                    lemma_explored_extends(t, stop@, n1[i], n1, e1, n2, e2, t.len() as int);
                                }
                                lemma_explored_extends(t, stop@, curr, n1, e1, n2, e2, b as int);
                                lemma_nodes_bounded(t, n2);
                                assert(n2.last() == next);
                                assert(n2 == n1.push(next));
                                assert(fuel > 0);
                            }
                            let ghost n2 = ret.nodes@;
                            let ghost e2 = ret.edges@;
                            search_all(next, ret, tables, stop, Ghost(t), Ghost((fuel - 1) as nat));
                            proof {
                                let n3 = ret.nodes@;
                                let e3 = ret.edges@;
                                lemma_extends_contains(n2, n3);
                                lemma_extends_contains(e2, e3);
                                assert(extends(nodes0, n3)) by {
                                    assert forall|i: int| 0 <= i < nodes0.len() implies #[trigger] n3[i] == nodes0[i] by {
                                        assert(n3[i] == n2[i]);
                                        assert(n2[i] == n1[i]);
                                    }
                                }
                                assert(extends(edges0, e3)) by {
                                    assert forall|i: int| 0 <= i < edges0.len() implies #[trigger] e3[i] == edges0[i] by {
                                        assert(e3[i] == e2[i]);
                                        assert(e2[i] == e1[i]);
                                    }
                                }
                                assert forall|i: int| k0 < i < n3.len() implies explored(t, stop@, #[trigger] n3[i], n3, e3, t.len() as int) by {
                                    if i < n2.len() - 1 {
                                        assert(n3[i] == n2[i]);
                                        assert(explored(t, stop@, n2[i], n2, e2, t.len() as int));
                                        lemma_explored_extends(t, stop@, n2[i], n2, e2, n3, e3, t.len() as int);
                                    }
                                }
                                lemma_explored_extends(t, stop@, curr, n2, e2, n3, e3, b as int);
                                assert forall|c: usize| c < b + 1 implies #[trigger] explored_edge(t, stop@, curr, n3, e3, c) by {
                                    if c == b {
                                        assert(n3[n1.len() as int] == next);
                                        assert(n3.contains(next));
                                        assert(e2.contains((curr, next)));
                                        assert(e3.contains((curr, next)));
                                    } else {
                                        assert(explored_edge(t, stop@, curr, n3, e3, c));
                                    }
                                }
                                assert(n3[k0] == curr);
                                assert(!n1.contains(next));
                                assert(n3 == walk_from(t, stop@, (fuel - 1) as nat, n1.push(next), next));
                                assert(walk_rows(t, stop@, fuel, n1, curr, b as nat) == walk_rows(t, stop@, fuel, n3, curr, (b + 1) as nat));
                            }
                        },
                    }
                }
            }
        }
        proof {
            if !(curr.idx < t[curr.layer as int][b as int].len()) || cell(t, curr, b as int) is None {
                assert(ret.nodes@ == n1);
                assert(walk_rows(t, stop@, fuel, n1, curr, b as nat) == walk_rows(t, stop@, fuel, n1, curr, (b + 1) as nat));
                assert forall|c: usize| c < b + 1 implies #[trigger] explored_edge(t, stop@, curr, ret.nodes@, ret.edges@, c) by {
                    if c < b {
                        assert(explored_edge(t, stop@, curr, ret.nodes@, ret.edges@, c));
                    }
                }
            }
        }
        b += 1;
    }
    proof {
        assert(walk_rows(t, stop@, fuel, ret.nodes@, curr, b as nat) == ret.nodes@);
        assert(walk_from(t, stop@, fuel, nodes0, curr) == walk_rows(t, stop@, fuel, nodes0, curr, 0));
        assert forall|c: usize| c < t.len() implies #[trigger] explored_edge(t, stop@, curr, ret.nodes@, ret.edges@, c) by {
            if c >= rows {
                assert(cell(t, curr, c as int) is None);
            }
        }
        assert forall|i: int| k0 <= i < ret.nodes@.len()
            implies explored(t, stop@, #[trigger] ret.nodes@[i], ret.nodes@, ret.edges@, t.len() as int) by {
            if i == k0 {
                assert(ret.nodes@[k0] == curr);
            }
        }
    }
}

/// After a walk from `root` has explored every node it visited, the visited nodes are
/// exactly those reachable from `root` without entering a stop layer.
pub proof fn lemma_walk_complete(
    t: Tables,
    stop: Seq<usize>,
    root: BareNodeKey,
    nodes: Seq<BareNodeKey>,
    edges: Seq<(BareNodeKey, BareNodeKey)>,
)
    requires
        nodes.len() > 0,
        nodes[0] == root,
        valid_record(t, stop, nodes, edges),
        forall|i: int| 0 <= i < nodes.len() ==> explored(t, stop, #[trigger] nodes[i], nodes, edges, t.len() as int),
        shaped(t),
    ensures
        forall|n: BareNodeKey| nodes.contains(n) <==> #[trigger] gathered(t, stop, root).contains(n),
{
    let e = steps(t, stop);
    let s = nodes.to_set();
    assert(closed_under(e, s)) by {
        assert forall|p: (BareNodeKey, BareNodeKey)| #[trigger] e.contains(p) && s.contains(p.0) implies s.contains(p.1) by {
            let i = choose|i: int| 0 <= i < nodes.len() && nodes[i] == p.0;
            let b = p.1.layer;
            assert(explored(t, stop, nodes[i], nodes, edges, t.len() as int));
            assert(cell(t, p.0, b as int) == Some(p.1.idx));
            assert(b < t.len());
            assert(explored_edge(t, stop, nodes[i], nodes, edges, b));
            assert(BareNodeKey { layer: b, idx: p.1.idx } == p.1);
        }
    }
    assert forall|n: BareNodeKey| nodes.contains(n) <==> #[trigger] gathered(t, stop, root).contains(n) by {
        if nodes.contains(n) {
            let i = choose|i: int| 0 <= i < nodes.len() && nodes[i] == n;
            assert forall|s2: Set<BareNodeKey>| #[trigger] closed_under(e, s2) && s2.contains(root) implies s2.contains(n) by {
                lemma_entered_reachable(e, nodes, i, s2);
            }
        }
        if gathered(t, stop, root).contains(n) {
            assert(s.contains(root));
            assert(s.contains(n));
        }
    }
}

} // verus!
