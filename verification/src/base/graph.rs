//! A component graph with reference-counted nodes.
//!
//! The graph stores the edges between components and, for every component slot,
//! the number of edge endpoints touching it. A slot whose count is zero is dead.
//! The components themselves live in typed [`Layer`]s, one per component type.
use vstd::prelude::*;
use std::collections::VecDeque;
use std::marker::PhantomData;
use super::reach::{closed_under, reachable, entered_in_order, has_parent, visited_since, lemma_entered_reachable, lemma_visited_split, lemma_entered_step, lemma_search_step};

verus! {

/// A position in the graph: a layer and a slot in that layer.
#[derive(Clone, Copy, Debug, PartialEq, Eq, Structural)]
pub struct AnyNode {
    pub item_idx: usize,
    pub layer_idx: usize,
}

impl AnyNode {
    pub fn typed<T>(self) -> (r: TypedNode<T>)
        ensures
            r@ == self,
    {
        TypedNode { node: self, _marker: PhantomData }
    }
}

/// A position in the graph that is known to hold a component of type `T`.
pub struct TypedNode<T> {
    pub(crate) node: AnyNode,
    _marker: PhantomData<T>,
}

impl<T> View for TypedNode<T> {
    type V = AnyNode;

    closed spec fn view(&self) -> AnyNode {
        self.node
    }
}

impl<T> Clone for TypedNode<T> {
    fn clone(&self) -> (r: Self)
        ensures
            r@ == self@,
    {
        TypedNode { node: self.node, _marker: self._marker }
    }
}

impl<T> Copy for TypedNode<T> {

}

/// Anything that designates a node of the graph.
pub trait IntoAnyNode: Sized {
    spec fn as_any_node(self) -> AnyNode;

    fn into_any_node(self) -> (r: AnyNode)
        ensures
            r == self.as_any_node(),
    ;
}

impl IntoAnyNode for AnyNode {
    open spec fn as_any_node(self) -> AnyNode {
        self
    }

    fn into_any_node(self) -> (r: AnyNode) {
        self
    }
}

impl<T> IntoAnyNode for TypedNode<T> {
    open spec fn as_any_node(self) -> AnyNode {
        self@
    }

    fn into_any_node(self) -> (r: AnyNode) {
        self.node
    }
}

/// An edge, from its start node to its end node.
pub type Edge = (AnyNode, AnyNode);

/// Holds of the edges that start at `n`.
pub open spec fn starts_at(n: AnyNode) -> spec_fn(Edge) -> bool {
    |e: Edge| e.0 == n
}

/// Holds of the edges that end at `n`.
pub open spec fn ends_at(n: AnyNode) -> spec_fn(Edge) -> bool {
    |e: Edge| e.1 == n
}

/// Number of edges of `edges` that start at `n`.
pub open spec fn out_degree(edges: Set<Edge>, n: AnyNode) -> nat {
    edges.filter(starts_at(n)).len()
}

/// Number of edges of `edges` that end at `n`.
pub open spec fn in_degree(edges: Set<Edge>, n: AnyNode) -> nat {
    edges.filter(ends_at(n)).len()
}

proof fn lemma_filter_insert<A>(s: Set<A>, p: spec_fn(A) -> bool, a: A)
    requires
        s.finite(),
        !s.contains(a),
    ensures
        s.insert(a).filter(p).len() == s.filter(p).len() + (if p(a) { 1nat } else { 0nat }),
{
    s.lemma_len_filter(p);
    if p(a) {
        assert(s.insert(a).filter(p) =~= s.filter(p).insert(a));
    } else {
        assert(s.insert(a).filter(p) =~= s.filter(p));
    }
}

proof fn lemma_filter_remove<A>(s: Set<A>, p: spec_fn(A) -> bool, a: A)
    requires
        s.finite(),
        s.contains(a),
    ensures
        s.remove(a).filter(p).len() + (if p(a) { 1nat } else { 0nat }) == s.filter(p).len(),
{
    s.lemma_len_filter(p);
    if p(a) {
        assert(s.remove(a).filter(p) =~= s.filter(p).remove(a));
    } else {
        assert(s.remove(a).filter(p) =~= s.filter(p));
    }
}

/// Degrees after adding a new edge `e`.
proof fn lemma_degrees_insert(edges: Set<Edge>, e: Edge, n: AnyNode)
    requires
        edges.finite(),
        !edges.contains(e),
    ensures
        out_degree(edges.insert(e), n) == out_degree(edges, n) + (if e.0 == n { 1nat } else { 0nat }),
        in_degree(edges.insert(e), n) == in_degree(edges, n) + (if e.1 == n { 1nat } else { 0nat }),
{
    lemma_filter_insert(edges, starts_at(n), e);
    lemma_filter_insert(edges, ends_at(n), e);
}

/// Degrees after removing an edge `e`.
proof fn lemma_degrees_remove(edges: Set<Edge>, e: Edge, n: AnyNode)
    requires
        edges.finite(),
        edges.contains(e),
    ensures
        out_degree(edges.remove(e), n) + (if e.0 == n { 1nat } else { 0nat }) == out_degree(edges, n),
        in_degree(edges.remove(e), n) + (if e.1 == n { 1nat } else { 0nat }) == in_degree(edges, n),
{
    lemma_filter_remove(edges, starts_at(n), e);
    lemma_filter_remove(edges, ends_at(n), e);
}

/// `new` is `old` with an empty row added at the end.
spec fn pushed_empty_row(new: Seq<Vec<Option<usize>>>, old: Seq<Vec<Option<usize>>>) -> bool {
    &&& new.len() == old.len() + 1
    &&& forall|y: int| 0 <= y < old.len() ==> #[trigger] new[y] == old[y]
    &&& new[old.len() as int]@.len() == 0
}

/// The entry at `i` of an edge row, where missing entries are no edge.
pub open spec fn cell_at(row: Seq<Option<usize>>, i: int) -> Option<usize> {
    if 0 <= i < row.len() {
        row[i]
    } else {
        None
    }
}

/// Write `v` at `idx` of an edge row, growing it with empty entries as needed.
pub(crate) fn set_cell(row: &mut Vec<Option<usize>>, idx: usize, v: Option<usize>)
    ensures
        final(row)@.len() == if idx < old(row)@.len() { old(row)@.len() } else { idx as nat + 1 },
        cell_at(final(row)@, idx as int) == v,
        forall|i: int| i != idx ==> #[trigger] cell_at(final(row)@, i) == cell_at(old(row)@, i),
{
    if row.len() <= idx {
        while row.len() < idx
            invariant
                old(row)@.len() <= row@.len() <= idx,
                forall|i: int| 0 <= i < old(row)@.len() ==> #[trigger] row@[i] == old(row)@[i],
                forall|i: int| old(row)@.len() <= i < row@.len() ==> #[trigger] row@[i] is None,
            decreases idx - row@.len(),
        {
            row.push(None);
        }
        row.push(v);
    } else {
        row[idx] = v;
    }
}

/// The edges and reference counts of all layers.
pub struct Graph {
    /// Indexed by starting layer, then target layer, then the component on the starting layer;
    /// holds the index of the component on the target layer.
    edge_layers: Vec<Vec<Vec<Option<usize>>>>,
    /// Indexed by layer, then component: the number of edge endpoints at that component.
    edge_counts: Vec<Vec<usize>>,
    /// Per layer, the dead slots in the order they will be reused.
    vacant_slots: Vec<VecDeque<usize>>,
    /// The edges held by `edge_layers`.
    edge_set: Ghost<Set<Edge>>,
}

impl Graph {
    pub closed spec fn layer_count(&self) -> nat {
        self.edge_counts@.len()
    }

    pub closed spec fn slot_count(&self, layer: int) -> nat {
        self.edge_counts@[layer]@.len()
    }

    pub open spec fn is_node(&self, n: AnyNode) -> bool {
        &&& n.layer_idx < self.layer_count()
        &&& n.item_idx < self.slot_count(n.layer_idx as int)
    }

    /// The node that the edge from `n` to layer `layer` ends at, if there is one.
    pub closed spec fn target(&self, n: AnyNode, layer: int) -> Option<usize> {
        cell_at(self.edge_layers@[n.layer_idx as int]@[layer]@, n.item_idx as int)
    }

    /// All edges of the graph.
    pub closed spec fn edges(&self) -> Set<Edge> {
        self.edge_set@
    }

    /// The stored number of edge endpoints at `n`.
    pub closed spec fn count_of(&self, n: AnyNode) -> nat {
        self.edge_counts@[n.layer_idx as int]@[n.item_idx as int] as nat
    }

    /// The dead slots of a layer, front first.
    pub closed spec fn vacant(&self, layer: int) -> Seq<usize> {
        self.vacant_slots@[layer]@
    }

    pub closed spec fn wf(&self) -> bool {
        let l = self.edge_counts@.len();
        &&& self.edge_layers@.len() == l
        &&& self.vacant_slots@.len() == l
        &&& forall|a: int| 0 <= a < l ==> #[trigger] self.edge_layers@[a]@.len() == l
        &&& forall|a: int, b: int|
            0 <= a < l && 0 <= b < l ==> #[trigger] self.edge_layers@[a]@[b]@.len()
                <= self.edge_counts@[a]@.len()
        &&& self.edge_set@.finite()
        &&& forall|e: Edge| #[trigger]
            self.edge_set@.contains(e) ==> {
                &&& self.is_node(e.0)
                &&& self.is_node(e.1)
                &&& self.target(e.0, e.1.layer_idx as int) == Some(e.1.item_idx)
            }
        &&& forall|n: AnyNode, b: int|
            self.is_node(n) && 0 <= b < l && (#[trigger] self.target(n, b)) is Some
                ==> self.edge_set@.contains(
                (n, AnyNode { item_idx: self.target(n, b)->0, layer_idx: b as usize }),
            )
        &&& forall|n: AnyNode|
            self.is_node(n) ==> #[trigger] self.count_of(n) == out_degree(self.edge_set@, n)
                + in_degree(self.edge_set@, n)
        &&& forall|a: int, k: int|
            0 <= a < l && 0 <= k < self.vacant_slots@[a]@.len() ==> #[trigger] self.vacant_slots@[a]@[k]
                < self.edge_counts@[a]@.len()
    }

    /// Every edge end is a node, and a node's count is its degree.
    pub proof fn lemma_wf(&self)
        requires
            self.wf(),
        ensures
            self.edges().finite(),
            forall|e: Edge| #[trigger]
                self.edges().contains(e) ==> self.is_node(e.0) && self.is_node(e.1) && self.target(
                    e.0,
                    e.1.layer_idx as int,
                ) == Some(e.1.item_idx),
            forall|n: AnyNode|
                self.is_node(n) ==> #[trigger] self.count_of(n) == out_degree(self.edges(), n)
                    + in_degree(self.edges(), n),
            forall|n: AnyNode, b: int|
                self.is_node(n) && 0 <= b < self.layer_count() && (#[trigger] self.target(n, b)) is Some
                    ==> self.edges().contains((n, AnyNode { item_idx: self.target(n, b)->0, layer_idx: b as usize })),
    {
    }

    pub fn new() -> (r: Self)
        ensures
            r.wf(),
            r.layer_count() == 0,
            r.edges() == Set::<Edge>::empty(),
    {
        Graph {
            edge_layers: Vec::new(),
            edge_counts: Vec::new(),
            vacant_slots: Vec::new(),
            edge_set: Ghost(Set::empty()),
        }
    }

    /// `self` has the layers, edges, counts and slots of `old`, and possibly more slots.
    pub open spec fn keeps_structure_of(&self, old: &Graph) -> bool {
        &&& self.layer_count() == old.layer_count()
        &&& self.edges() == old.edges()
        &&& forall|l: int| 0 <= l < old.layer_count() ==> old.slot_count(l) <= #[trigger] self.slot_count(l)
        &&& forall|n: AnyNode| old.is_node(n) ==> #[trigger] self.count_of(n) == old.count_of(n)
        &&& forall|n: AnyNode, b: int|
            old.is_node(n) && 0 <= b < old.layer_count() ==> #[trigger] self.target(n, b) == old.target(n, b)
    }

    /// Add a layer for a new component type.
    pub fn create_layer<T>(&mut self) -> (r: Layer<T>)
        requires
            old(self).wf(),
        ensures
            final(self).wf(),
            final(self).layer_count() == old(self).layer_count() + 1,
            final(self).edges() == old(self).edges(),
            forall|l: int| 0 <= l < old(self).layer_count() ==> #[trigger] final(self).slot_count(l) == old(self).slot_count(l),
            forall|l: int| 0 <= l < old(self).layer_count() ==> #[trigger] final(self).vacant(l) == old(self).vacant(l),
            forall|n: AnyNode| old(self).is_node(n) ==> #[trigger] final(self).count_of(n) == old(self).count_of(n),
            forall|n: AnyNode, b: int|
                old(self).is_node(n) && 0 <= b < old(self).layer_count() ==> #[trigger] final(self).target(n, b) == old(self).target(n, b),
            forall|n: AnyNode| old(self).is_node(n) ==> #[trigger] final(self).target(n, old(self).layer_count() as int) is None,
            final(self).slot_count(old(self).layer_count() as int) == 0,
            final(self).vacant(old(self).layer_count() as int) == Seq::<usize>::empty(),
            r.layer_index() == old(self).layer_count(),
            r.contents() == Seq::<T>::empty(),
    {
        let next_idx = self.edge_layers.len();
        let ghost g0 = *self;
        // add this as a target layer to all layers that already exist
        let mut a: usize = 0;
        while a < next_idx
            invariant
                0 <= a <= next_idx,
                next_idx == g0.edge_layers@.len(),
                g0.wf(),
                self.edge_layers@.len() == next_idx,
                self.edge_counts == g0.edge_counts,
                self.vacant_slots == g0.vacant_slots,
                self.edge_set == g0.edge_set,
                forall|x: int| 0 <= x < a ==> pushed_empty_row(#[trigger] self.edge_layers@[x]@, g0.edge_layers@[x]@),
                forall|x: int| a <= x < next_idx ==> #[trigger] self.edge_layers@[x]@ == g0.edge_layers@[x]@,
            decreases next_idx - a,
        {
            self.edge_layers[a].push(Vec::new());
            a = a + 1;
        }
        // the new layer gets a target layer for each of the already existing ones plus itself
        let mut targets: Vec<Vec<Option<usize>>> = Vec::new();
        let mut b: usize = 0;
        while b < next_idx
            invariant
                0 <= b <= next_idx,
                targets@.len() == b,
                forall|x: int| 0 <= x < b ==> (#[trigger] targets@[x])@.len() == 0,
            decreases next_idx - b,
        {
            targets.push(Vec::new());
            b = b + 1;
        }
        targets.push(Vec::new());
        self.edge_layers.push(targets);
        self.edge_counts.push(Vec::new());
        self.vacant_slots.push(VecDeque::new());
        proof {
            let l = self.edge_counts@.len();
            assert forall|x: int, y: int| 0 <= x < l && 0 <= y < l implies #[trigger] self.edge_layers@[x]@[y]@.len()
                <= self.edge_counts@[x]@.len() by {
                if x < next_idx {
                    assert(pushed_empty_row(self.edge_layers@[x]@, g0.edge_layers@[x]@));
                    if y < next_idx {
                        assert(self.edge_layers@[x]@[y] == g0.edge_layers@[x]@[y]);
                    }
                }
            }
            assert forall|n: AnyNode, b: int|
                g0.is_node(n) && 0 <= b < next_idx implies #[trigger] self.target(n, b) == g0.target(n, b) by {
                assert(pushed_empty_row(self.edge_layers@[n.layer_idx as int]@, g0.edge_layers@[n.layer_idx as int]@));
                if b < next_idx {
                    assert(self.edge_layers@[n.layer_idx as int]@[b] == g0.edge_layers@[n.layer_idx as int]@[b]);
                }
            }
            assert forall|n: AnyNode, b: int|
                self.is_node(n) && 0 <= b < l && (#[trigger] self.target(n, b)) is Some
                    implies self.edge_set@.contains(
                    (n, AnyNode { item_idx: self.target(n, b)->0, layer_idx: b as usize }),
                ) by {
                assert(g0.is_node(n));
                assert(pushed_empty_row(self.edge_layers@[n.layer_idx as int]@, g0.edge_layers@[n.layer_idx as int]@));
                if b == next_idx {
                    assert(self.edge_layers@[n.layer_idx as int]@[b]@.len() == 0);
                } else {
                    assert(self.target(n, b) == g0.target(n, b));
                }
            }
            assert forall|e: Edge| #[trigger] self.edge_set@.contains(e) implies {
                &&& self.is_node(e.0)
                &&& self.is_node(e.1)
                &&& self.target(e.0, e.1.layer_idx as int) == Some(e.1.item_idx)
            } by {
                assert(g0.edge_set@.contains(e));
                assert(self.target(e.0, e.1.layer_idx as int) == g0.target(e.0, e.1.layer_idx as int));
            }
            assert forall|n: AnyNode| self.is_node(n) implies #[trigger] self.count_of(n) == out_degree(self.edge_set@, n)
                + in_degree(self.edge_set@, n) by {
                assert(g0.is_node(n));
                assert(g0.count_of(n) == out_degree(g0.edge_set@, n) + in_degree(g0.edge_set@, n));
            }
            assert forall|x: int, k: int|
                0 <= x < l && 0 <= k < self.vacant_slots@[x]@.len() implies #[trigger] self.vacant_slots@[x]@[k]
                    < self.edge_counts@[x]@.len() by {
                if x < next_idx {
                    assert(self.vacant_slots@[x] == g0.vacant_slots@[x]);
                    assert(self.edge_counts@[x] == g0.edge_counts@[x]);
                }
            }
            assert forall|n: AnyNode| g0.is_node(n) implies #[trigger] self.target(n, next_idx as int) is None by {
                assert(pushed_empty_row(self.edge_layers@[n.layer_idx as int]@, g0.edge_layers@[n.layer_idx as int]@));
            }
            assert forall|n: AnyNode| g0.is_node(n) implies #[trigger] self.count_of(n) == g0.count_of(n) by {
                assert(self.edge_counts@[n.layer_idx as int] == g0.edge_counts@[n.layer_idx as int]);
            }
        }
        Layer { index: next_idx, content: Vec::new() }
    }
}

/// The components of one type, stored in the slots of one graph layer.
pub struct Layer<T> {
    index: usize,
    content: Vec<T>,
}

impl<T> Layer<T> {
    pub closed spec fn layer_index(&self) -> nat {
        self.index as nat
    }

    pub closed spec fn contents(&self) -> Seq<T> {
        self.content@
    }

    /// The layer's slots are the slots of its layer in `graph`.
    pub open spec fn matches(&self, graph: &Graph) -> bool {
        &&& self.layer_index() < graph.layer_count()
        &&& self.contents().len() == graph.slot_count(self.layer_index() as int)
    }
}

impl Graph {
    /// Add an edge from `start` to `end`.
    ///
    /// Each node has at most one edge to each layer; `start` must have none to the layer of `end` yet.
    pub fn connect_oneway<S: IntoAnyNode, E: IntoAnyNode>(&mut self, start: S, end: E)
        requires
            old(self).wf(),
            old(self).is_node(start.as_any_node()),
            old(self).is_node(end.as_any_node()),
            old(self).target(start.as_any_node(), end.as_any_node().layer_idx as int) is None,
            old(self).count_of(start.as_any_node()) + 2 <= usize::MAX,
            old(self).count_of(end.as_any_node()) + 2 <= usize::MAX,
        ensures
            final(self).wf(),
            final(self).edges() == old(self).edges().insert((start.as_any_node(), end.as_any_node())),
            final(self).target(start.as_any_node(), end.as_any_node().layer_idx as int) == Some(end.as_any_node().item_idx),
            final(self).layer_count() == old(self).layer_count(),
            forall|l: int| 0 <= l < old(self).layer_count() ==> #[trigger] final(self).slot_count(l) == old(self).slot_count(l),
            forall|l: int| 0 <= l < old(self).layer_count() ==> #[trigger] final(self).vacant(l) == old(self).vacant(l),
            forall|n: AnyNode, b: int|
                old(self).is_node(n) && 0 <= b < old(self).layer_count() && (n != start.as_any_node() || b != end.as_any_node().layer_idx)
                    ==> #[trigger] final(self).target(n, b) == old(self).target(n, b),
            forall|n: AnyNode| old(self).is_node(n) ==> #[trigger] final(self).count_of(n) == old(self).count_of(n)
                + (if n == start.as_any_node() { 1nat } else { 0nat })
                + (if n == end.as_any_node() { 1nat } else { 0nat }),
    {
        let start = start.into_any_node();
        let end = end.into_any_node();
        let ghost g0 = *self;
        let ghost e: Edge = (start, end);
        proof {
            self.lemma_wf();
            if g0.edge_set@.contains(e) {
                assert(g0.target(start, end.layer_idx as int) == Some(end.item_idx));
            }
        }
        set_cell(&mut self.edge_layers[start.layer_idx][end.layer_idx], start.item_idx, Some(end.item_idx));
        self.edge_set = Ghost(g0.edge_set@.insert(e));
        proof {
            assert forall|n: AnyNode| g0.is_node(n) implies out_degree(self.edge_set@, n) + in_degree(self.edge_set@, n)
                == g0.count_of(n) + (if n == start { 1nat } else { 0nat }) + (if n == end { 1nat } else { 0nat }) by {
                lemma_degrees_insert(g0.edge_set@, e, n);
            }
        }
        self.edge_counts[start.layer_idx][start.item_idx] += 1;
        self.edge_counts[end.layer_idx][end.item_idx] += 1;
        proof {
            let l = self.edge_counts@.len();
            assert forall|n: AnyNode, b: int|
                g0.is_node(n) && 0 <= b < l && (n != start || b != end.layer_idx) implies #[trigger] self.target(n, b) == g0.target(n, b) by {
                if n.layer_idx != start.layer_idx || b != end.layer_idx {
                    assert(self.edge_layers@[n.layer_idx as int]@[b] == g0.edge_layers@[n.layer_idx as int]@[b]);
                } else {
                    assert(n.item_idx != start.item_idx);
                }
            }
            assert forall|x: int, y: int| 0 <= x < l && 0 <= y < l implies #[trigger] self.edge_layers@[x]@[y]@.len()
                <= self.edge_counts@[x]@.len() by {
                if x != start.layer_idx || y != end.layer_idx {
                    assert(self.edge_layers@[x]@[y] == g0.edge_layers@[x]@[y]);
                }
            }
            assert forall|a: int| 0 <= a < l implies #[trigger] self.edge_layers@[a]@.len() == l by {
                if a != start.layer_idx {
                    assert(self.edge_layers@[a] == g0.edge_layers@[a]);
                }
            }
            assert forall|x: Edge| #[trigger] self.edge_set@.contains(x) implies {
                &&& self.is_node(x.0)
                &&& self.is_node(x.1)
                &&& self.target(x.0, x.1.layer_idx as int) == Some(x.1.item_idx)
            } by {
                if x != e {
                    assert(g0.edge_set@.contains(x));
                    if x.0 == start && x.1.layer_idx == end.layer_idx {
                        assert(g0.target(start, end.layer_idx as int) is Some);
                    }
                }
            }
            assert forall|n: AnyNode, b: int|
                self.is_node(n) && 0 <= b < l && (#[trigger] self.target(n, b)) is Some
                    implies self.edge_set@.contains(
                    (n, AnyNode { item_idx: self.target(n, b)->0, layer_idx: b as usize }),
                ) by {
                if n != start || b != end.layer_idx {
                    assert(self.target(n, b) == g0.target(n, b));
                }
            }
            assert forall|n: AnyNode| self.is_node(n) implies #[trigger] self.count_of(n) == out_degree(self.edge_set@, n)
                + in_degree(self.edge_set@, n) by {
                assert(g0.is_node(n));
            }
            assert forall|x: int, k: int|
                0 <= x < l && 0 <= k < self.vacant_slots@[x]@.len() implies #[trigger] self.vacant_slots@[x]@[k]
                    < self.edge_counts@[x]@.len() by {
                assert(self.vacant_slots@[x] == g0.vacant_slots@[x]);
            }
            assert forall|x: int| 0 <= x < l implies #[trigger] self.slot_count(x) == g0.slot_count(x) by {
            }
        }
    }

    /// Add edges both ways between `node1` and `node2`.
    pub fn connect<N1: IntoAnyNode, N2: IntoAnyNode>(&mut self, node1: N1, node2: N2)
        requires
            old(self).wf(),
            old(self).is_node(node1.as_any_node()),
            old(self).is_node(node2.as_any_node()),
            old(self).target(node1.as_any_node(), node2.as_any_node().layer_idx as int) is None,
            old(self).target(node2.as_any_node(), node1.as_any_node().layer_idx as int) is None,
            node1.as_any_node() != node2.as_any_node(),
            old(self).count_of(node1.as_any_node()) + 4 <= usize::MAX,
            old(self).count_of(node2.as_any_node()) + 4 <= usize::MAX,
        ensures
            final(self).wf(),
            final(self).edges() == old(self).edges().insert((node1.as_any_node(), node2.as_any_node())).insert(
                (node2.as_any_node(), node1.as_any_node()),
            ),
            final(self).target(node1.as_any_node(), node2.as_any_node().layer_idx as int) == Some(node2.as_any_node().item_idx),
            final(self).target(node2.as_any_node(), node1.as_any_node().layer_idx as int) == Some(node1.as_any_node().item_idx),
            final(self).layer_count() == old(self).layer_count(),
            forall|l: int| 0 <= l < old(self).layer_count() ==> #[trigger] final(self).slot_count(l) == old(self).slot_count(l),
            forall|l: int| 0 <= l < old(self).layer_count() ==> #[trigger] final(self).vacant(l) == old(self).vacant(l),
            forall|n: AnyNode, b: int|
                old(self).is_node(n) && 0 <= b < old(self).layer_count()
                    && (n != node1.as_any_node() || b != node2.as_any_node().layer_idx)
                    && (n != node2.as_any_node() || b != node1.as_any_node().layer_idx)
                    ==> #[trigger] final(self).target(n, b) == old(self).target(n, b),
            forall|n: AnyNode| old(self).is_node(n) ==> #[trigger] final(self).count_of(n) == old(self).count_of(n)
                + (if n == node1.as_any_node() || n == node2.as_any_node() { 2nat } else { 0nat }),
    {
        let node1 = node1.into_any_node();
        let node2 = node2.into_any_node();
        let ghost g0 = *self;
        self.connect_oneway(node1, node2);
        let ghost g1 = *self;
        assert(g1.is_node(node1) && g1.is_node(node2));
        assert(g1.count_of(node2) == g0.count_of(node2) + 1);
        assert(g1.count_of(node1) == g0.count_of(node1) + 1);
        self.connect_oneway(node2, node1);
        proof {
            assert forall|n: AnyNode, b: int|
                g0.is_node(n) && 0 <= b < g0.layer_count() && (n != node1 || b != node2.layer_idx)
                    && (n != node2 || b != node1.layer_idx) implies #[trigger] self.target(n, b) == g0.target(n, b) by {
                assert(g1.target(n, b) == g0.target(n, b));
            }
            assert forall|n: AnyNode| g0.is_node(n) implies #[trigger] self.count_of(n) == g0.count_of(n)
                + (if n == node1 || n == node2 { 2nat } else { 0nat }) by {
                assert(g1.count_of(n) == g0.count_of(n) + (if n == node1 { 1nat } else { 0nat }) + (if n == node2 { 1nat } else { 0nat }));
            }
            assert forall|l: int| 0 <= l < g0.layer_count() implies #[trigger] self.slot_count(l) == g0.slot_count(l) by {
                assert(g1.slot_count(l) == g0.slot_count(l));
            }
            assert forall|l: int| 0 <= l < g0.layer_count() implies #[trigger] self.vacant(l) == g0.vacant(l) by {
                assert(g1.vacant(l) == g0.vacant(l));
            }
        }
    }
}

impl Graph {
    /// The number of edge endpoints at `node`; zero means the node is dead.
    pub fn get_edge_count<N: IntoAnyNode>(&self, node: N) -> (r: usize)
        requires
            self.wf(),
            self.is_node(node.as_any_node()),
        ensures
            r == self.count_of(node.as_any_node()),
            r == out_degree(self.edges(), node.as_any_node()) + in_degree(self.edges(), node.as_any_node()),
    {
        let node = node.into_any_node();
        proof {
            assert(self.count_of(node) == out_degree(self.edges(), node) + in_degree(self.edges(), node));
        }
        self.edge_counts[node.layer_idx][node.item_idx]
    }

    /// Follow the edge from `node` to the layer `to_layer`, if there is one.
    pub fn get_neighbor<'to, N: IntoAnyNode, To>(&self, node: N, to_layer: &'to Layer<To>) -> (r: Option<(&'to To, TypedNode<To>)>)
        requires
            self.wf(),
            self.is_node(node.as_any_node()),
            to_layer.matches(self),
        ensures
            match r {
                None => self.target(node.as_any_node(), to_layer.layer_index() as int) is None,
                Some((c, t)) => {
                    &&& self.target(node.as_any_node(), to_layer.layer_index() as int) == Some(t@.item_idx)
                    &&& t@.layer_idx == to_layer.layer_index()
                    &&& *c == to_layer.contents()[t@.item_idx as int]
                },
            },
    {
        let node = node.into_any_node();
        proof {
            self.lemma_wf();
        }
        let edge_layer = &self.edge_layers[node.layer_idx][to_layer.index];
        if edge_layer.len() <= node.item_idx {
            None
        } else {
            match edge_layer[node.item_idx] {
                None => None,
                Some(to_id) => {
                    proof {
                        let e = (node, AnyNode { item_idx: to_id, layer_idx: to_layer.index });
                        assert(self.target(node, to_layer.index as int) is Some);
                        assert(self.edge_set@.contains(e));
                    }
                    Some((&to_layer.content[to_id], AnyNode { item_idx: to_id, layer_idx: to_layer.index }.typed()))
                },
            }
        }
    }
}

impl<T> Layer<T> {
    /// Insert a component, reusing the oldest dead slot if there is one.
    pub fn insert(&mut self, component: T, graph: &mut Graph) -> (r: TypedNode<T>)
        requires
            old(graph).wf(),
            old(self).matches(old(graph)),
        ensures
            final(graph).wf(),
            final(self).matches(final(graph)),
            final(self).layer_index() == old(self).layer_index(),
            r@.layer_idx == old(self).layer_index(),
            final(graph).keeps_structure_of(old(graph)),
            forall|l: int| 0 <= l < old(graph).layer_count() && l != old(self).layer_index()
                ==> #[trigger] final(graph).vacant(l) == old(graph).vacant(l),
            forall|l: int| 0 <= l < old(graph).layer_count() && l != old(self).layer_index()
                ==> #[trigger] final(graph).slot_count(l) == old(graph).slot_count(l),
            old(graph).vacant(old(self).layer_index() as int).len() > 0 ==> {
                &&& r@.item_idx == old(graph).vacant(old(self).layer_index() as int)[0]
                &&& r@.item_idx < old(self).contents().len()
                &&& final(graph).vacant(old(self).layer_index() as int) == old(graph).vacant(old(self).layer_index() as int).drop_first()
                &&& final(self).contents() == old(self).contents().update(r@.item_idx as int, component)
            },
            old(graph).vacant(old(self).layer_index() as int).len() == 0 ==> {
                &&& r@.item_idx == old(self).contents().len()
                &&& final(graph).vacant(old(self).layer_index() as int) == old(graph).vacant(old(self).layer_index() as int)
                &&& final(self).contents() == old(self).contents().push(component)
                &&& final(graph).count_of(r@) == 0
                &&& forall|b: int| 0 <= b < final(graph).layer_count() ==> #[trigger] final(graph).target(r@, b) is None
            },
    {
        let ghost g0 = *graph;
        let idx = self.index;
        let item_idx = match graph.vacant_slots[idx].pop_front() {
            Some(vacant_slot) => {
                self.content[vacant_slot] = component;
                vacant_slot
            },
            None => {
                self.content.push(component);
                graph.edge_counts[idx].push(0);
                self.content.len() - 1
            },
        };
        proof {
            let l = graph.edge_counts@.len();
            assert forall|x: int| 0 <= x < l implies g0.slot_count(x) <= #[trigger] graph.slot_count(x) by {
                if x != idx {
                    assert(graph.edge_counts@[x] == g0.edge_counts@[x]);
                }
            }
            assert forall|n: AnyNode| g0.is_node(n) implies #[trigger] graph.count_of(n) == g0.count_of(n) by {
                if n.layer_idx != idx {
                    assert(graph.edge_counts@[n.layer_idx as int] == g0.edge_counts@[n.layer_idx as int]);
                }
            }
            assert forall|n: AnyNode, b: int| graph.is_node(n) && 0 <= b < l implies #[trigger] graph.target(n, b) == if g0.is_node(n) { g0.target(n, b) } else { None } by {
                if !g0.is_node(n) {
                    assert(g0.edge_layers@[n.layer_idx as int]@[b]@.len() <= g0.edge_counts@[n.layer_idx as int]@.len());
                }
            }
            assert forall|x: int, y: int| 0 <= x < l && 0 <= y < l implies #[trigger] graph.edge_layers@[x]@[y]@.len()
                <= graph.edge_counts@[x]@.len() by {
                assert(g0.edge_layers@[x]@[y]@.len() <= g0.edge_counts@[x]@.len());
                assert(g0.slot_count(x) <= graph.slot_count(x));
            }
            assert forall|e: Edge| #[trigger] graph.edge_set@.contains(e) implies {
                &&& graph.is_node(e.0)
                &&& graph.is_node(e.1)
                &&& graph.target(e.0, e.1.layer_idx as int) == Some(e.1.item_idx)
            } by {
                assert(g0.edge_set@.contains(e));
                assert(g0.slot_count(e.0.layer_idx as int) <= graph.slot_count(e.0.layer_idx as int));
                assert(g0.slot_count(e.1.layer_idx as int) <= graph.slot_count(e.1.layer_idx as int));
            }
            assert forall|n: AnyNode, b: int|
                graph.is_node(n) && 0 <= b < l && (#[trigger] graph.target(n, b)) is Some
                    implies graph.edge_set@.contains(
                    (n, AnyNode { item_idx: graph.target(n, b)->0, layer_idx: b as usize }),
                ) by {
                if !g0.is_node(n) {
                    assert(g0.edge_layers@[n.layer_idx as int]@[b]@.len() <= g0.edge_counts@[n.layer_idx as int]@.len());
                }
            }
            assert forall|n: AnyNode| graph.is_node(n) implies #[trigger] graph.count_of(n) == out_degree(graph.edge_set@, n)
                + in_degree(graph.edge_set@, n) by {
                if !g0.is_node(n) {
                    assert(graph.count_of(n) == 0);
                    assert(graph.edge_set@.filter(starts_at(n)) =~= Set::empty());
                    assert(graph.edge_set@.filter(ends_at(n)) =~= Set::empty());
                }
            }
            assert forall|x: int, k: int|
                0 <= x < l && 0 <= k < graph.vacant_slots@[x]@.len() implies #[trigger] graph.vacant_slots@[x]@[k]
                    < graph.edge_counts@[x]@.len() by {
                if x != idx {
                    assert(graph.vacant_slots@[x] == g0.vacant_slots@[x]);
                } else if g0.vacant_slots@[x]@.len() > 0 {
                    assert(graph.vacant_slots@[x]@[k] == g0.vacant_slots@[x]@[k + 1]);
                }
            }
            assert(graph.vacant(idx as int) =~= g0.vacant(idx as int).drop_first()
                || g0.vacant(idx as int).len() == 0);
        }
        AnyNode { layer_idx: idx, item_idx }.typed()
    }

    /// The component at `node`, if `node` is a slot of this layer.
    pub fn get(&self, node: TypedNode<T>) -> (r: Option<&T>)
        ensures
            match r {
                None => node@.layer_idx != self.layer_index() || node@.item_idx >= self.contents().len(),
                Some(c) => node@.layer_idx == self.layer_index() && node@.item_idx < self.contents().len()
                    && *c == self.contents()[node@.item_idx as int],
            },
    {
        if node.node.layer_idx == self.index && node.node.item_idx < self.content.len() {
            Some(&self.content[node.node.item_idx])
        } else {
            None
        }
    }
}

impl<T> Layer<T> {
    /// Mutable access to the component at `node`, if `node` is a slot of this layer.
    pub fn get_mut(&mut self, node: TypedNode<T>) -> (r: Option<&mut T>)
        ensures
            final(self).layer_index() == old(self).layer_index(),
            match r {
                None => {
                    &&& node@.layer_idx != old(self).layer_index() || node@.item_idx >= old(self).contents().len()
                    &&& final(self).contents() == old(self).contents()
                },
                Some(c) => {
                    &&& node@.layer_idx == old(self).layer_index()
                    &&& node@.item_idx < old(self).contents().len()
                    &&& *c == old(self).contents()[node@.item_idx as int]
                    &&& final(self).contents() == old(self).contents().update(node@.item_idx as int, *final(c))
                },
            },
    {
        if node.node.layer_idx == self.index && node.node.item_idx < self.content.len() {
            Some(&mut self.content[node.node.item_idx])
        } else {
            None
        }
    }
}

/// Whether `n` occurs in `v`.
fn contains_node(v: &Vec<AnyNode>, n: AnyNode) -> (r: bool)
    ensures
        r == v@.contains(n),
{
    let mut i: usize = 0;
    while i < v.len()
        invariant
            0 <= i <= v@.len(),
            forall|j: int| 0 <= j < i ==> v@[j] != n,
        decreases v@.len() - i,
    {
        if v[i] == n {
            return true;
        }
        i = i + 1;
    }
    false
}

impl Graph {
    /// Remove the edge from `from` to layer `layer`; returns the slot it ended at.
    fn remove_edge(&mut self, from: AnyNode, layer: usize) -> (r: usize)
        requires
            old(self).wf(),
            old(self).is_node(from),
            layer < old(self).layer_count(),
            old(self).target(from, layer as int) is Some,
        ensures
            final(self).wf(),
            r == old(self).target(from, layer as int)->0,
            final(self).edges() == old(self).edges().remove((from, AnyNode { item_idx: r, layer_idx: layer })),
            old(self).edges().contains((from, AnyNode { item_idx: r, layer_idx: layer })),
            final(self).target(from, layer as int) is None,
            final(self).layer_count() == old(self).layer_count(),
            forall|l: int| 0 <= l < old(self).layer_count() ==> #[trigger] final(self).slot_count(l) == old(self).slot_count(l),
            forall|l: int| 0 <= l < old(self).layer_count() ==> #[trigger] final(self).vacant(l) == old(self).vacant(l),
            forall|n: AnyNode, b: int|
                old(self).is_node(n) && 0 <= b < old(self).layer_count() && (n != from || b != layer)
                    ==> #[trigger] final(self).target(n, b) == old(self).target(n, b),
    {
        let ghost g0 = *self;
        let to_item = self.edge_layers[from.layer_idx][layer][from.item_idx].unwrap();
        let to = AnyNode { item_idx: to_item, layer_idx: layer };
        let ghost e: Edge = (from, to);
        proof {
            assert(g0.target(from, layer as int) is Some);
            assert(g0.edge_set@.contains(e));
            assert(g0.is_node(to));
            lemma_degrees_remove(g0.edge_set@, e, from);
            lemma_degrees_remove(g0.edge_set@, e, to);
            assert(g0.count_of(from) == out_degree(g0.edge_set@, from) + in_degree(g0.edge_set@, from));
            assert(g0.count_of(to) == out_degree(g0.edge_set@, to) + in_degree(g0.edge_set@, to));
        }
        self.edge_layers[from.layer_idx][layer].set(from.item_idx, None);
        self.edge_set = Ghost(g0.edge_set@.remove(e));
        self.edge_counts[layer][to_item] -= 1;
        self.edge_counts[from.layer_idx][from.item_idx] -= 1;
        proof {
            let l = self.edge_counts@.len();
            assert(l == self.edge_counts.len());
            assert forall|n: AnyNode, b: int|
                g0.is_node(n) && 0 <= b < l && (n != from || b != layer) implies #[trigger] self.target(n, b) == g0.target(n, b) by {
                if n.layer_idx != from.layer_idx || b != layer {
                    assert(self.edge_layers@[n.layer_idx as int]@[b] == g0.edge_layers@[n.layer_idx as int]@[b]);
                } else {
                    assert(n.item_idx != from.item_idx);
                }
            }
            assert forall|x: int, y: int| 0 <= x < l && 0 <= y < l implies #[trigger] self.edge_layers@[x]@[y]@.len()
                <= self.edge_counts@[x]@.len() by {
                if x != from.layer_idx || y != layer {
                    assert(self.edge_layers@[x]@[y] == g0.edge_layers@[x]@[y]);
                }
            }
            assert forall|a: int| 0 <= a < l implies #[trigger] self.edge_layers@[a]@.len() == l by {
                if a != from.layer_idx {
                    assert(self.edge_layers@[a] == g0.edge_layers@[a]);
                }
            }
            assert forall|x: Edge| #[trigger] self.edge_set@.contains(x) implies {
                &&& self.is_node(x.0)
                &&& self.is_node(x.1)
                &&& self.target(x.0, x.1.layer_idx as int) == Some(x.1.item_idx)
            } by {
                assert(g0.edge_set@.contains(x));
                if x.0 == from && x.1.layer_idx == layer {
                    assert(g0.target(from, layer as int) == Some(x.1.item_idx));
                }
            }
            assert forall|n: AnyNode, b: int|
                self.is_node(n) && 0 <= b < l && (#[trigger] self.target(n, b)) is Some
                    implies self.edge_set@.contains(
                    (n, AnyNode { item_idx: self.target(n, b)->0, layer_idx: b as usize }),
                ) by {
                if n != from || b != layer {
                    assert(self.target(n, b) == g0.target(n, b));
                    assert(g0.edge_set@.contains((n, AnyNode { item_idx: g0.target(n, b)->0, layer_idx: b as usize })));
                    assert((n, AnyNode { item_idx: g0.target(n, b)->0, layer_idx: b as usize }) != e);
                }
            }
            assert forall|n: AnyNode| self.is_node(n) implies #[trigger] self.count_of(n) == out_degree(self.edge_set@, n)
                + in_degree(self.edge_set@, n) by {
                assert(g0.is_node(n));
                assert(g0.count_of(n) == out_degree(g0.edge_set@, n) + in_degree(g0.edge_set@, n));
                lemma_degrees_remove(g0.edge_set@, e, n);
            }
            assert forall|x: int, k: int|
                0 <= x < l && 0 <= k < self.vacant_slots@[x]@.len() implies #[trigger] self.vacant_slots@[x]@[k]
                    < self.edge_counts@[x]@.len() by {
                assert(self.vacant_slots@[x] == g0.vacant_slots@[x]);
            }
            assert forall|x: int| 0 <= x < l implies #[trigger] self.slot_count(x) == g0.slot_count(x) by {
            }
        }
        to_item
    }
}

/// The visited nodes after a depth-first walk of `g` from `x` that has visited `seen`: the
/// edges of `x` are tried in the order of their target layers, and an edge into a node not
/// visited yet is followed at once. `fuel` bounds the depth of the walk.
pub open spec fn walk_from(g: Graph, fuel: nat, seen: Seq<AnyNode>, x: AnyNode) -> Seq<AnyNode>
    decreases fuel, g.layer_count() + 1,
{
    walk_rows(g, fuel, seen, x, 0)
}

/// The visited nodes after the walk from `x` has tried its edges into layers `b` and up.
pub open spec fn walk_rows(g: Graph, fuel: nat, seen: Seq<AnyNode>, x: AnyNode, b: nat) -> Seq<AnyNode>
    decreases fuel, g.layer_count() - b,
{
    if b >= g.layer_count() {
        seen
    } else {
        let next = match g.target(x, b as int) {
            Some(j) => {
                let n = AnyNode { item_idx: j, layer_idx: b as usize };
                if !seen.contains(n) && fuel > 0 {
                    walk_from(g, (fuel - 1) as nat, seen.push(n), n)
                } else {
                    seen
                }
            },
            None => seen,
        };
        walk_rows(g, fuel, next, x, b + 1)
    }
}

/// A walk only adds to the visited nodes.
proof fn lemma_walk_extends(g: Graph, fuel: nat, seen: Seq<AnyNode>, x: AnyNode, b: nat)
    ensures
        seen.len() <= walk_rows(g, fuel, seen, x, b).len(),
        forall|i: int| 0 <= i < seen.len() ==> #[trigger] walk_rows(g, fuel, seen, x, b)[i] == seen[i],
    decreases fuel, g.layer_count() - b,
{
    if b < g.layer_count() {
        let next = match g.target(x, b as int) {
            Some(j) => {
                let n = AnyNode { item_idx: j, layer_idx: b as usize };
                if !seen.contains(n) && fuel > 0 {
                    walk_from(g, (fuel - 1) as nat, seen.push(n), n)
                } else {
                    seen
                }
            },
            None => seen,
        };
        if let Some(j) = g.target(x, b as int) {
            let n = AnyNode { item_idx: j, layer_idx: b as usize };
            if !seen.contains(n) && fuel > 0 {
                lemma_walk_extends(g, (fuel - 1) as nat, seen.push(n), n, 0);
                assert forall|i: int| 0 <= i < seen.len() implies #[trigger] next[i] == seen[i] by {
                    assert(seen.push(n)[i] == seen[i]);
                }
            }
        }
        lemma_walk_extends(g, fuel, next, x, b + 1);
    }
}

/// A walk that finds no edges out of `x` visits nothing more.
proof fn lemma_walk_no_edges(g: Graph, fuel: nat, seen: Seq<AnyNode>, x: AnyNode, b: nat)
    requires
        forall|c: int| 0 <= c < g.layer_count() ==> #[trigger] g.target(x, c) is None,
    ensures
        walk_rows(g, fuel, seen, x, b) == seen,
    decreases g.layer_count() - b,
{
    if b < g.layer_count() {
        assert(g.target(x, b as int) is None);
        lemma_walk_no_edges(g, fuel, seen, x, b + 1);
    }
}

/// Two graphs that agree on the edges out of every node the walk may still enter, and on
/// the remaining edges out of `x`, give the same walk.
proof fn lemma_walk_frame(g: Graph, h: Graph, fuel: nat, seen: Seq<AnyNode>, x: AnyNode, b: nat)
    requires
        g.wf(),
        g.layer_count() == h.layer_count(),
        g.is_node(x),
        forall|y: AnyNode, c: int| !seen.contains(y) && g.is_node(y) && 0 <= c < g.layer_count()
            ==> #[trigger] g.target(y, c) == h.target(y, c),
        forall|c: int| b <= c < g.layer_count() ==> #[trigger] g.target(x, c) == h.target(x, c),
    ensures
        walk_rows(g, fuel, seen, x, b) == walk_rows(h, fuel, seen, x, b),
    decreases fuel, g.layer_count() - b,
{
    if b < g.layer_count() {
        g.lemma_wf();
        assert(g.target(x, b as int) == h.target(x, b as int));
        let next = match g.target(x, b as int) {
            Some(j) => {
                let n = AnyNode { item_idx: j, layer_idx: b as usize };
                if !seen.contains(n) && fuel > 0 {
                    walk_from(g, (fuel - 1) as nat, seen.push(n), n)
                } else {
                    seen
                }
            },
            None => seen,
        };
        if let Some(j) = g.target(x, b as int) {
            let n = AnyNode { item_idx: j, layer_idx: b as usize };
            if !seen.contains(n) && fuel > 0 {
                assert(g.edges().contains((x, n)));
                assert(g.is_node(n));
                assert forall|y: AnyNode, c: int| !seen.push(n).contains(y) && g.is_node(y) && 0 <= c < g.layer_count()
                    implies #[trigger] g.target(y, c) == h.target(y, c) by {
                    if seen.contains(y) {
                        let i = choose|i: int| 0 <= i < seen.len() && seen[i] == y;
                        assert(seen.push(n)[i] == y);
                    }
                }
                lemma_walk_frame(g, h, (fuel - 1) as nat, seen.push(n), n, 0);
                assert(walk_from(h, (fuel - 1) as nat, seen.push(n), n) == next);
            }
        }
        lemma_walk_extends(g, fuel, seen, x, b);
        if let Some(j) = g.target(x, b as int) {
            let n = AnyNode { item_idx: j, layer_idx: b as usize };
            if !seen.contains(n) && fuel > 0 {
                lemma_walk_extends(g, (fuel - 1) as nat, seen.push(n), n, 0);
            }
        }
        assert forall|y: AnyNode, c: int| !next.contains(y) && g.is_node(y) && 0 <= c < g.layer_count()
            implies #[trigger] g.target(y, c) == h.target(y, c) by {
            if seen.contains(y) {
                let i = choose|i: int| 0 <= i < seen.len() && seen[i] == y;
                if let Some(j) = g.target(x, b as int) {
                    let n = AnyNode { item_idx: j, layer_idx: b as usize };
                    if !seen.contains(n) && fuel > 0 {
                        assert(seen.push(n)[i] == y);
                        assert(next[i] == y);
                    }
                }
            }
        }
        lemma_walk_frame(g, h, fuel, next, x, b + 1);
    }
}

/// A step of the walk from `node` that follows no edge: there is none into layer `other`
/// in `g1`, or it ends at a visited node.
proof fn lemma_walk_step_skip(g0: Graph, g1: Graph, w0: Seq<AnyNode>, k0: int, node: AnyNode, other: nat, fuel: nat)
    requires
        g0.wf(),
        g1.wf(),
        g0.layer_count() <= usize::MAX,
        0 <= k0,
        other < g0.layer_count(),
        g1.layer_count() == g0.layer_count(),
        forall|l: int| 0 <= l < g0.layer_count() ==> #[trigger] g1.slot_count(l) == g0.slot_count(l),
        w0.contains(node),
        g0.is_node(node),
        forall|e: Edge| #[trigger] g1.edges().contains(e) ==> g0.edges().contains(e),
        forall|e: Edge| #[trigger] g0.edges().contains(e) && (
            !visited_since(w0, k0, e.0) || (e.0 == node && e.1.layer_idx >= other)) ==> g1.edges().contains(e),
        match g1.target(node, other as int) {
            Some(j) => w0.contains(AnyNode { item_idx: j, layer_idx: other as usize }),
            None => true,
        },
    ensures
        walk_rows(g0, fuel, w0, node, other) == walk_rows(g0, fuel, w0, node, other + 1),
{
    lemma_targets_kept(g0, g1, w0, k0, node, other as int);
    assert(g0.target(node, other as int) == g1.target(node, other as int));
}

/// A step of the walk from `node` that follows the edge into layer `other` to `next`, not
/// visited yet: the nested walk of `g2`, the graph with that edge removed, is the nested
/// walk of `g0`.
proof fn lemma_walk_step_descend(
    g0: Graph,
    g1: Graph,
    g2: Graph,
    w0: Seq<AnyNode>,
    k0: int,
    node: AnyNode,
    other: nat,
    next: AnyNode,
    fuel: nat,
)
    requires
        g0.wf(),
        g1.wf(),
        g2.wf(),
        g0.layer_count() <= usize::MAX,
        0 <= k0,
        other < g0.layer_count(),
        g1.layer_count() == g0.layer_count(),
        g2.layer_count() == g0.layer_count(),
        forall|l: int| 0 <= l < g0.layer_count() ==> #[trigger] g1.slot_count(l) == g0.slot_count(l),
        w0.contains(node),
        g0.is_node(node),
        g0.is_node(next),
        !w0.contains(next),
        next.layer_idx == other,
        fuel > 0,
        forall|e: Edge| #[trigger] g1.edges().contains(e) ==> g0.edges().contains(e),
        forall|e: Edge| #[trigger] g0.edges().contains(e) && (
            !visited_since(w0, k0, e.0) || (e.0 == node && e.1.layer_idx >= other)) ==> g1.edges().contains(e),
        g1.target(node, other as int) == Some(next.item_idx),
        forall|n: AnyNode, b: int| g1.is_node(n) && 0 <= b < g1.layer_count() && (n != node || b != other)
            ==> #[trigger] g2.target(n, b) == g1.target(n, b),
    ensures
        walk_rows(g0, fuel, w0, node, other) == walk_rows(
            g0,
            fuel,
            walk_from(g2, (fuel - 1) as nat, w0.push(next), next),
            node,
            other + 1,
        ),
{
    lemma_targets_kept(g0, g1, w0, k0, node, other as int);
    assert(g0.target(node, other as int) == Some(next.item_idx));
    let seen = w0.push(next);
    assert forall|y: AnyNode, c: int| !seen.contains(y) && g0.is_node(y) && 0 <= c < g0.layer_count()
        implies #[trigger] g0.target(y, c) == g2.target(y, c) by {
        assert(!w0.contains(y)) by {
            if w0.contains(y) {
                let i = choose|i: int| 0 <= i < w0.len() && w0[i] == y;
                assert(seen[i] == y);
            }
        }
        assert(y != node);
        assert(g1.is_node(y));
        assert(g2.target(y, c) == g1.target(y, c));
    }
    assert forall|c: int| 0 <= c < g0.layer_count() implies #[trigger] g0.target(next, c) == g2.target(next, c) by {
        assert(next != node);
        assert(g1.is_node(next));
        assert(g2.target(next, c) == g1.target(next, c));
    }
    lemma_walk_frame(g0, g2, (fuel - 1) as nat, seen, next, 0);
    assert(AnyNode { item_idx: next.item_idx, layer_idx: other as usize } == next);
    assert(walk_from(g0, (fuel - 1) as nat, seen, next) == walk_rows(g0, (fuel - 1) as nat, seen, next, 0));
    assert(walk_from(g2, (fuel - 1) as nat, seen, next) == walk_rows(g2, (fuel - 1) as nat, seen, next, 0));
}

/// While a walk from `node` removes the edges it follows, a graph `g1` that keeps every edge
/// of `g0` out of a node not visited yet, and the edges out of `node` into layers `other`
/// and up, and has no other edges, agrees with `g0` on those edges.
proof fn lemma_targets_kept(g0: Graph, g1: Graph, visited: Seq<AnyNode>, k0: int, node: AnyNode, other: int)
    requires
        g0.wf(),
        g1.wf(),
        g0.layer_count() <= usize::MAX,
        0 <= k0,
        0 <= other,
        g1.layer_count() == g0.layer_count(),
        forall|l: int| 0 <= l < g0.layer_count() ==> #[trigger] g1.slot_count(l) == g0.slot_count(l),
        visited.contains(node),
        g0.is_node(node),
        forall|e: Edge| #[trigger] g1.edges().contains(e) ==> g0.edges().contains(e),
        forall|e: Edge| #[trigger] g0.edges().contains(e) && (
            !visited_since(visited, k0, e.0) || (e.0 == node && e.1.layer_idx >= other)) ==> g1.edges().contains(e),
    ensures
        forall|y: AnyNode, c: int| !visited.contains(y) && g0.is_node(y) && 0 <= c < g0.layer_count()
            ==> #[trigger] g0.target(y, c) == g1.target(y, c),
        forall|c: int| other <= c < g0.layer_count() ==> #[trigger] g0.target(node, c) == g1.target(node, c),
{
    g0.lemma_wf();
    g1.lemma_wf();
    assert forall|y: AnyNode, c: int| (!visited.contains(y) || (y == node && other <= c)) && g0.is_node(y) && 0 <= c < g0.layer_count()
        implies #[trigger] g0.target(y, c) == g1.target(y, c) by {
        assert(g1.is_node(y));
        if !visited.contains(y) {
            reveal(visited_since);
            if visited_since(visited, k0, y) {
                let i = choose|i: int| k0 <= i < visited.len() && visited[i] == y;
                assert(visited[i] == y);
                assert(visited.contains(y));
            }
        }
        if let Some(j) = g0.target(y, c) {
            let e = (y, AnyNode { item_idx: j, layer_idx: c as usize });
            assert(g0.edges().contains(e));
            assert(g1.edges().contains(e));
        }
        if let Some(j) = g1.target(y, c) {
            let e = (y, AnyNode { item_idx: j, layer_idx: c as usize });
            assert(g1.edges().contains(e));
            assert(g0.edges().contains(e));
        }
    }
    assert forall|c: int| other <= c < g0.layer_count() implies #[trigger] g0.target(node, c) == g1.target(node, c) by {
        assert((!visited.contains(node) || (node == node && other <= c)) && g0.is_node(node) && 0 <= c < g0.layer_count());
    }
}

impl Graph {
    /// The slot at the end of the edge from `n` to `layer`, if there is one.
    fn target_exec(&self, n: AnyNode, layer: usize) -> (r: Option<usize>)
        requires
            self.wf(),
            self.is_node(n),
            layer < self.layer_count(),
        ensures
            r == self.target(n, layer as int),
    {
        let row = &self.edge_layers[n.layer_idx][layer];
        if n.item_idx < row.len() {
            row[n.item_idx]
        } else {
            None
        }
    }

    /// Depth-first search from `node` that removes every edge it walks along.
    ///
    /// Nodes are recorded in `visited` when entered and never entered twice.
    #[verifier::spinoff_prover]
    #[verifier::rlimit(80)]
    fn recursive_delete(&mut self, node: AnyNode, visited: &mut Vec<AnyNode>, Ghost(fuel): Ghost<nat>)
        requires
            old(self).wf(),
            old(self).is_node(node),
            !old(visited)@.contains(node),
            old(visited)@.no_duplicates(),
            forall|i: int| 0 <= i < old(visited)@.len() ==> old(self).is_node(#[trigger] old(visited)@[i]),
            fuel >= old(self).edges().len(),
        ensures
            final(visited)@ == walk_from(*old(self), fuel, old(visited)@.push(node), node),
            final(self).wf(),
            final(self).layer_count() == old(self).layer_count(),
            forall|l: int| 0 <= l < old(self).layer_count() ==> #[trigger] final(self).slot_count(l) == old(self).slot_count(l),
            forall|l: int| 0 <= l < old(self).layer_count() ==> #[trigger] final(self).vacant(l) == old(self).vacant(l),
            final(visited)@.len() > old(visited)@.len(),
            forall|i: int| 0 <= i < old(visited)@.len() ==> #[trigger] final(visited)@[i] == old(visited)@[i],
            final(visited)@[old(visited)@.len() as int] == node,
            final(visited)@.no_duplicates(),
            forall|i: int| 0 <= i < final(visited)@.len() ==> old(self).is_node(#[trigger] final(visited)@[i]),
            forall|e: Edge| #[trigger] final(self).edges().contains(e)
                ==> old(self).edges().contains(e) && !visited_since(final(visited)@, old(visited)@.len() as int, e.0),
            forall|e: Edge| #[trigger] old(self).edges().contains(e)
                && !visited_since(final(visited)@, old(visited)@.len() as int, e.0) ==> final(self).edges().contains(e),
            forall|e: Edge| #[trigger] old(self).edges().contains(e)
                && visited_since(final(visited)@, old(visited)@.len() as int, e.0) ==> final(visited)@.contains(e.1),
            entered_in_order(old(self).edges(), final(visited)@, old(visited)@.len() as int),
        decreases old(self).edges().len(),
    {
        let ghost g0 = *self;
        let ghost v0 = visited@;
        let ghost k0 = v0.len() as int;
        visited.push(node);
        proof {
            g0.lemma_wf();
            assert(visited@[k0] == node);
            assert forall|i: int, j: int| 0 <= i < visited@.len() && 0 <= j < visited@.len() && i != j
                implies visited@[i] != visited@[j] by {
                if i < k0 && j < k0 {
                    assert(visited@[i] == v0[i] && visited@[j] == v0[j]);
                } else if i == k0 {
                    assert(visited@[j] == v0[j]);
                    if v0[j] == node {
                        assert(v0.contains(node));
                    }
                } else {
                    assert(visited@[i] == v0[i]);
                    if v0[i] == node {
                        assert(v0.contains(node));
                    }
                }
            }
        }
        if self.edge_counts[node.layer_idx][node.item_idx] == 0 {
            proof {
                assert(g0.count_of(node) == 0);
                assert forall|e: Edge| #[trigger] g0.edges().contains(e) implies e.0 != node by {
                    if e.0 == node {
                        assert(g0.edges().filter(starts_at(node)).contains(e));
                        g0.edges().lemma_len_filter(starts_at(node));
                        vstd::set_lib::lemma_set_empty_equivalency_len(g0.edges().filter(starts_at(node)));
                    }
                }
                assert forall|e: Edge| visited_since(visited@, k0, e.0) implies e.0 == node by {
                    reveal(visited_since);
                    let i = choose|i: int| k0 <= i < visited@.len() && visited@[i] == e.0;
                    assert(i == k0);
                }
                assert forall|c: int| 0 <= c < g0.layer_count() implies #[trigger] g0.target(node, c) is None by {
                    if let Some(j) = g0.target(node, c) {
                        assert(g0.edges().contains((node, AnyNode { item_idx: j, layer_idx: c as usize })));
                    }
                }
                assert(visited@ =~= v0.push(node));
                lemma_walk_no_edges(g0, fuel, visited@, node, 0);
            }
            return;
        }
        proof {
            assert forall|x: AnyNode| visited_since(visited@, k0, x) <==> x == node by {
                reveal(visited_since);
                if x == node {
                    assert(visited@[k0] == node);
                }
            }
        }
        let n_layers = self.edge_layers.len();
        let mut other: usize = 0;
        proof {
            assert(visited@ =~= v0.push(node));
        }
        while other < n_layers
            invariant
                g0 == *old(self),
                fuel >= g0.edges().len(),
                walk_rows(g0, fuel, visited@, node, other as nat) == walk_rows(g0, fuel, v0.push(node), node, 0),
                n_layers == g0.layer_count(),
                0 <= other <= n_layers,
                g0.wf(),
                g0.is_node(node),
                self.wf(),
                self.layer_count() == g0.layer_count(),
                forall|l: int| 0 <= l < g0.layer_count() ==> #[trigger] self.slot_count(l) == g0.slot_count(l),
                forall|l: int| 0 <= l < g0.layer_count() ==> #[trigger] self.vacant(l) == g0.vacant(l),
                k0 == v0.len(),
                visited@.len() > k0,
                forall|i: int| 0 <= i < k0 ==> #[trigger] visited@[i] == v0[i],
                visited@[k0] == node,
                visited@.no_duplicates(),
                forall|i: int| 0 <= i < visited@.len() ==> g0.is_node(#[trigger] visited@[i]),
                forall|e: Edge| #[trigger] self.edges().contains(e) ==> g0.edges().contains(e) && (
                    !visited_since(visited@, k0, e.0) || (e.0 == node && e.1.layer_idx >= other)),
                forall|e: Edge| #[trigger] g0.edges().contains(e) && (
                    !visited_since(visited@, k0, e.0) || (e.0 == node && e.1.layer_idx >= other)) ==> self.edges().contains(e),
                forall|e: Edge| #[trigger] g0.edges().contains(e) && visited_since(visited@, k0, e.0) && (
                    e.0 != node || e.1.layer_idx < other) ==> visited@.contains(e.1),
                entered_in_order(g0.edges(), visited@, k0),
            decreases n_layers - other,
        {
            let ghost g1 = *self;
            let ghost w0 = visited@;
            proof {
                reveal(visited_since);
                assert(visited@[k0] == node);
                assert(visited_since(visited@, k0, node));
            }
            if let Some(_) = self.target_exec(node, other) {
                let to_item = self.remove_edge(node, other);
                let next = AnyNode { item_idx: to_item, layer_idx: other };
                let ghost ex: Edge = (node, next);
                let ghost g2 = *self;
                proof {
                    g1.lemma_wf();
                    assert(g1.edges().contains(ex));
                    assert(g0.edges().contains(ex));
                    assert(g0.is_node(next));
                    // an edge from `node` to layer `other` is `ex`
                    assert forall|e: Edge| #[trigger] g0.edges().contains(e) && e.0 == node && e.1.layer_idx == other
                        implies e == ex by {
                        assert(g0.target(node, other as int) == Some(e.1.item_idx));
                        assert(g1.edges().contains(e));
                        assert(g1.target(node, other as int) == Some(e.1.item_idx));
                    }
                }
                if !contains_node(visited, next) {
                    proof {
                        assert(self.edges().subset_of(g0.edges().remove(ex)));
                        vstd::set_lib::lemma_len_subset(self.edges(), g0.edges().remove(ex));
                        assert(g0.edges().remove(ex).len() + 1 == g0.edges().len());
                        assert(self.edges().len() < g0.edges().len());
                        assert forall|i: int| 0 <= i < visited@.len() implies self.is_node(#[trigger] visited@[i]) by {
                            assert(g0.is_node(visited@[i]));
                        }
                        assert(w0.contains(node)) by {
                            assert(w0[k0] == node);
                        }
                        lemma_walk_step_descend(g0, g1, g2, w0, k0, node, other as nat, next, fuel);
                    }
                    self.recursive_delete(next, visited, Ghost((fuel - 1) as nat));
                    proof {
                        lemma_visited_split(w0, visited@, k0);
                        assert(visited@.contains(next)) by {
                            assert(visited@[w0.len() as int] == next);
                        }
                        lemma_search_step(g0.edges(), g1.edges(), g2.edges(), self.edges(), w0, visited@, k0, node, next, other as int);
                        assert(g2.edges().subset_of(g0.edges()));
                        lemma_entered_step(g0.edges(), g2.edges(), w0, visited@, k0);
                    }
                } else {
                    proof {
                        assert(w0.contains(node)) by {
                            assert(w0[k0] == node);
                        }
                        lemma_walk_step_skip(g0, g1, w0, k0, node, other as nat, fuel);
                        reveal(visited_since);
                        lemma_search_step(g0.edges(), g1.edges(), g2.edges(), self.edges(), w0, visited@, k0, node, next, other as int);
                    }
                }
            } else {
                proof {
                    assert(w0.contains(node)) by {
                        assert(w0[k0] == node);
                    }
                    lemma_walk_step_skip(g0, g1, w0, k0, node, other as nat, fuel);
                    assert forall|e: Edge| #[trigger] self.edges().contains(e) implies g0.edges().contains(e) && (
                        !visited_since(visited@, k0, e.0) || (e.0 == node && e.1.layer_idx >= other + 1)) by {
                        if e.0 == node && e.1.layer_idx == other {
                            assert(self.target(node, other as int) == Some(e.1.item_idx));
                        }
                    }
                    assert forall|e: Edge| #[trigger] g0.edges().contains(e) && visited_since(visited@, k0, e.0) && (
                        e.0 != node || e.1.layer_idx < other + 1) implies visited@.contains(e.1) by {
                        if e.0 == node && e.1.layer_idx == other {
                            assert(self.edges().contains(e));
                            assert(self.target(node, other as int) == Some(e.1.item_idx));
                        }
                    }
                }
            }
            other = other + 1;
        }
        proof {
            assert(walk_rows(g0, fuel, visited@, node, other as nat) == visited@);
            assert(walk_from(g0, fuel, v0.push(node), node) == walk_rows(g0, fuel, v0.push(node), node, 0));
            assert forall|e: Edge| #[trigger] g0.edges().contains(e) && visited_since(visited@, k0, e.0) implies visited@.contains(e.1) by {
                if e.0 == node {
                    assert(e.1.layer_idx < n_layers);
                }
            }
            assert forall|e: Edge| #[trigger] self.edges().contains(e) implies g0.edges().contains(e) && !visited_since(visited@, k0, e.0) by {
                if e.0 == node {
                    self.lemma_wf();
                    assert(e.1.layer_idx < n_layers);
                }
            }
        }
    }
}

impl Graph {
    /// The nodes that deleting from `root` visits, in the order of the depth-first walk from
    /// `root`: nothing if `root` is dead.
    pub open spec fn visit_order(&self, root: AnyNode) -> Seq<AnyNode> {
        if self.count_of(root) == 0 {
            Seq::empty()
        } else {
            walk_from(*self, self.edges().len(), seq![root], root)
        }
    }

    /// The nodes that deleting from `root` takes edges away from: nothing if `root` is dead,
    /// otherwise every node reachable from `root`.
    pub open spec fn deleted_from(&self, root: AnyNode) -> Set<AnyNode> {
        if self.count_of(root) == 0 {
            Set::empty()
        } else {
            reachable(self.edges(), root)
        }
    }

    /// The slots of `layer` freed by a deletion that took edges from the nodes of `deleted`:
    /// those of its nodes that no edge touches any more.
    pub open spec fn freed(&self, deleted: Set<AnyNode>, layer: int, item: usize) -> bool {
        let n = AnyNode { item_idx: item, layer_idx: layer as usize };
        deleted.contains(n) && self.count_of(n) == 0
    }

    /// Delete the object that `root` belongs to.
    ///
    /// Removes every edge that starts at a node reachable from `root`. Nodes that no edge
    /// touches afterwards are dead, and their slots are queued for reuse. A node shared with
    /// another object keeps the edges from that object and stays alive.
    pub fn delete<N: IntoAnyNode>(&mut self, root: N)
        requires
            old(self).wf(),
            old(self).is_node(root.as_any_node()),
        ensures
            final(self).wf(),
            final(self).layer_count() == old(self).layer_count(),
            forall|l: int| 0 <= l < old(self).layer_count() ==> #[trigger] final(self).slot_count(l) == old(self).slot_count(l),
            final(self).edges() == old(self).edges().filter(
                |e: Edge| !old(self).deleted_from(root.as_any_node()).contains(e.0),
            ),
            forall|l: int| 0 <= l < old(self).layer_count() ==> {
                let ov = old(self).vacant(l);
                let nv = #[trigger] final(self).vacant(l);
                &&& ov.len() <= nv.len()
                &&& nv.subrange(0, ov.len() as int) == ov
                &&& nv.subrange(ov.len() as int, nv.len() as int).no_duplicates()
                &&& forall|x: usize| nv.subrange(ov.len() as int, nv.len() as int).contains(x)
                    <==> final(self).freed(old(self).deleted_from(root.as_any_node()), l, x)
            },
            forall|l: int| 0 <= l < old(self).layer_count() ==> #[trigger] final(self).vacant(l)
                == old(self).vacant(l) + dead_items(*final(self), old(self).visit_order(root.as_any_node()), l),
    {
        let root = root.into_any_node();
        let ghost g0 = *self;
        if self.edge_counts[root.layer_idx][root.item_idx] == 0 {
            proof {
                assert(g0.edges().filter(|e: Edge| !g0.deleted_from(root).contains(e.0)) =~= g0.edges());
                assert forall|l: int| 0 <= l < g0.layer_count() implies {
                    let ov = g0.vacant(l);
                    let nv = #[trigger] self.vacant(l);
                    &&& ov.len() <= nv.len()
                    &&& nv.subrange(0, ov.len() as int) == ov
                    &&& nv.subrange(ov.len() as int, nv.len() as int).no_duplicates()
                    &&& forall|x: usize| nv.subrange(ov.len() as int, nv.len() as int).contains(x)
                        <==> self.freed(g0.deleted_from(root), l, x)
                } by {
                    assert(self.vacant(l).subrange(0, g0.vacant(l).len() as int) =~= g0.vacant(l));
                }
                assert forall|l: int| 0 <= l < g0.layer_count() implies #[trigger] self.vacant(l)
                    == g0.vacant(l) + dead_items(*self, g0.visit_order(root), l) by {
                    assert(g0.vacant(l) + Seq::<usize>::empty() =~= g0.vacant(l));
                }
            }
            return;
        }
        let mut visited: Vec<AnyNode> = Vec::new();
        self.recursive_delete(root, &mut visited, Ghost(g0.edges().len()));
        let ghost g1 = *self;
        let ghost vs = visited@;
        let ghost reach = reachable(g0.edges(), root);
        proof {
            assert forall|x: AnyNode| visited_since(vs, 0, x) <==> vs.contains(x) by {
                reveal(visited_since);
            }
            // everything visited is reachable
            assert forall|i: int| 0 <= i < vs.len() implies reach.contains(#[trigger] vs[i]) by {
                assert forall|s: Set<AnyNode>| #[trigger] closed_under(g0.edges(), s) && s.contains(root) implies s.contains(vs[i]) by {
                    lemma_entered_reachable(g0.edges(), vs, i, s);
                }
            }
            // everything reachable is visited
            let vset = vs.to_set();
            assert(closed_under(g0.edges(), vset)) by {
                assert forall|e: Edge| #[trigger] g0.edges().contains(e) && vset.contains(e.0) implies vset.contains(e.1) by {
                    assert(vs.contains(e.0));
                    assert(visited_since(vs, 0, e.0));
                }
            }
            assert(vset.contains(root));
            assert forall|x: AnyNode| reach.contains(x) <==> vs.contains(x) by {
                if reach.contains(x) {
                    assert(closed_under(g0.edges(), vset) && vset.contains(root) ==> vset.contains(x));
                }
                if vs.contains(x) {
                    let i = choose|i: int| 0 <= i < vs.len() && vs[i] == x;
                    assert(reach.contains(vs[i]));
                }
            }
            assert(g0.deleted_from(root) == reach);
            assert(self.edges() =~= g0.edges().filter(|e: Edge| !g0.deleted_from(root).contains(e.0)));
        }
        let mut i: usize = 0;
        while i < visited.len()
            invariant
                0 <= i <= visited@.len(),
                visited@ == vs,
                forall|j: int| 0 <= j < vs.len() ==> g1.is_node(#[trigger] vs[j]),
                g1.wf(),
                self.edge_layers == g1.edge_layers,
                self.edge_counts == g1.edge_counts,
                self.edge_set == g1.edge_set,
                self.vacant_slots@.len() == g1.vacant_slots@.len(),
                self.wf(),
                forall|l: int| 0 <= l < g1.layer_count() ==> #[trigger] self.vacant(l) == g1.vacant(l) + dead_items(g1, vs.take(i as int), l),
            decreases vs.len() - i,
        {
            let node = visited[i];
            let ghost before = *self;
            if self.edge_counts[node.layer_idx][node.item_idx] == 0 {
                self.vacant_slots[node.layer_idx].push_back(node.item_idx);
            }
            proof {
                assert(self.edge_counts@.len() == self.edge_counts.len());
                assert(vs.take(i + 1).drop_last() =~= vs.take(i as int));
                assert forall|l: int| 0 <= l < g1.layer_count() implies #[trigger] self.vacant(l) == g1.vacant(l) + dead_items(g1, vs.take(i + 1), l) by {
                    assert(before.vacant(l) == g1.vacant(l) + dead_items(g1, vs.take(i as int), l));
                    if l == node.layer_idx && g1.count_of(node) == 0 {
                        assert(self.vacant(l) =~= g1.vacant(l) + dead_items(g1, vs.take(i + 1), l));
                    } else {
                        assert(self.vacant(l) =~= g1.vacant(l) + dead_items(g1, vs.take(i + 1), l));
                    }
                }
                assert forall|x: int, k: int|
                    0 <= x < self.edge_counts@.len() && 0 <= k < self.vacant_slots@[x]@.len() implies #[trigger] self.vacant_slots@[x]@[k]
                        < self.edge_counts@[x]@.len() by {
                    assert(self.vacant(x) == self.vacant_slots@[x]@);
                    if k < g1.vacant(x).len() {
                        assert(self.vacant(x)[k] == g1.vacant(x)[k]);
                    } else {
                        let t = vs.take(i + 1);
                        lemma_dead_items(g1, t, x);
                        let y = self.vacant(x)[k];
                        assert(dead_items(g1, t, x)[k - g1.vacant(x).len()] == y);
                        assert(dead_items(g1, t, x).contains(y));
                        let m = AnyNode { item_idx: y, layer_idx: x as usize };
                        assert(t.contains(m));
                        let j = choose|j: int| 0 <= j < t.len() && t[j] == m;
                        assert(vs[j] == m);
                        assert(g1.is_node(m));
                    }
                }
                let l = self.edge_counts@.len();
                assert(self.edge_layers@.len() == l);
                assert(self.vacant_slots@.len() == l);
                assert(forall|a: int| 0 <= a < l ==> #[trigger] self.edge_layers@[a]@.len() == l);
                assert(self.edge_set@.finite());
                assert(forall|n: AnyNode, b: int| #[trigger] self.target(n, b) == g1.target(n, b));
                assert(forall|n: AnyNode| #[trigger] self.count_of(n) == g1.count_of(n));
                assert(forall|n: AnyNode| #[trigger] self.is_node(n) == g1.is_node(n));
            }
            i = i + 1;
        }
        proof {
            assert(self.edge_counts@.len() == self.edge_counts.len());
            assert(vs.take(vs.len() as int) =~= vs);
            assert forall|l: int| 0 <= l < g0.layer_count() implies #[trigger] self.slot_count(l) == g0.slot_count(l) by {
                assert(g1.slot_count(l) == g0.slot_count(l));
            }
            assert forall|l: int| 0 <= l < g0.layer_count() implies {
                let ov = g0.vacant(l);
                let nv = #[trigger] self.vacant(l);
                &&& ov.len() <= nv.len()
                &&& nv.subrange(0, ov.len() as int) == ov
                &&& nv.subrange(ov.len() as int, nv.len() as int).no_duplicates()
                &&& forall|x: usize| nv.subrange(ov.len() as int, nv.len() as int).contains(x)
                    <==> self.freed(g0.deleted_from(root), l, x)
            } by {
                let ov = g0.vacant(l);
                let nv = self.vacant(l);
                let d = dead_items(g1, vs, l);
                assert(g1.vacant(l) == ov);
                assert(nv.subrange(0, ov.len() as int) =~= ov);
                assert(nv.subrange(ov.len() as int, nv.len() as int) =~= d);
                lemma_dead_items(g1, vs, l);
                assert forall|x: usize| d.contains(x) <==> self.freed(g0.deleted_from(root), l, x) by {
                    let n = AnyNode { item_idx: x, layer_idx: l as usize };
                    assert(self.count_of(n) == g1.count_of(n));
                }
            }
            assert(vs =~= g0.visit_order(root)) by {
                assert(Seq::<AnyNode>::empty().push(root) =~= seq![root]);
            }
            assert forall|l: int| 0 <= l < g0.layer_count() implies #[trigger] self.vacant(l)
                == g0.vacant(l) + dead_items(*self, g0.visit_order(root), l) by {
                assert(forall|n: AnyNode| #[trigger] self.count_of(n) == g1.count_of(n));
                lemma_dead_items_same(g1, *self, vs, l);
                assert(g1.vacant(l) == g0.vacant(l));
            }
        }
    }
}

/// The slots that `dead_items` picks depend on the edge counts alone.
proof fn lemma_dead_items_same(g: Graph, h: Graph, nodes: Seq<AnyNode>, layer: int)
    requires
        forall|n: AnyNode| #[trigger] g.count_of(n) == h.count_of(n),
    ensures
        dead_items(g, nodes, layer) == dead_items(h, nodes, layer),
    decreases nodes.len(),
{
    if nodes.len() > 0 {
        lemma_dead_items_same(g, h, nodes.drop_last(), layer);
    }
}

/// The slots of `layer` among `nodes` that no edge touches in `g`, in order.
pub open spec fn dead_items(g: Graph, nodes: Seq<AnyNode>, layer: int) -> Seq<usize>
    decreases nodes.len(),
{
    if nodes.len() == 0 {
        Seq::empty()
    } else {
        let n = nodes.last();
        let rest = dead_items(g, nodes.drop_last(), layer);
        if n.layer_idx == layer && g.count_of(n) == 0 {
            rest.push(n.item_idx)
        } else {
            rest
        }
    }
}

proof fn lemma_dead_items(g: Graph, nodes: Seq<AnyNode>, layer: int)
    requires
        0 <= layer <= usize::MAX,
    ensures
        nodes.no_duplicates() ==> dead_items(g, nodes, layer).no_duplicates(),
        forall|x: usize| #[trigger] dead_items(g, nodes, layer).contains(x) <==> (nodes.contains(
            AnyNode { item_idx: x, layer_idx: layer as usize },
        ) && g.count_of(AnyNode { item_idx: x, layer_idx: layer as usize }) == 0),
    decreases nodes.len(),
{
    if nodes.len() > 0 {
        let n = nodes.last();
        let init = nodes.drop_last();
        lemma_dead_items(g, init, layer);
        let rest = dead_items(g, init, layer);
        assert forall|x: usize| #[trigger] nodes.contains(AnyNode { item_idx: x, layer_idx: layer as usize }) <==> (init.contains(
            AnyNode { item_idx: x, layer_idx: layer as usize },
        ) || n == AnyNode { item_idx: x, layer_idx: layer as usize }) by {
            let m = AnyNode { item_idx: x, layer_idx: layer as usize };
            if nodes.contains(m) {
                let i = choose|i: int| 0 <= i < nodes.len() && nodes[i] == m;
                if i < nodes.len() - 1 {
                    assert(init[i] == m);
                }
            }
            if init.contains(m) {
                let i = choose|i: int| 0 <= i < init.len() && init[i] == m;
                assert(nodes[i] == m);
            }
        }
        if n.layer_idx == layer && g.count_of(n) == 0 {
            let d = rest.push(n.item_idx);
            assert forall|x: usize| #[trigger] d.contains(x) <==> rest.contains(x) || x == n.item_idx by {
                if d.contains(x) {
                    let i = choose|i: int| 0 <= i < d.len() && d[i] == x;
                    if i < rest.len() {
                        assert(rest[i] == x);
                    }
                }
                if rest.contains(x) {
                    let i = choose|i: int| 0 <= i < rest.len() && rest[i] == x;
                    assert(d[i] == x);
                }
                if x == n.item_idx {
                    assert(d[rest.len() as int] == x);
                }
            }
            if nodes.no_duplicates() {
                assert(init.no_duplicates());
                assert(!init.contains(n)) by {
                    if init.contains(n) {
                        let i = choose|i: int| 0 <= i < init.len() && init[i] == n;
                        assert(nodes[i] == nodes[nodes.len() - 1]);
                    }
                }
                assert(n == AnyNode { item_idx: n.item_idx, layer_idx: layer as usize });
                assert(!rest.contains(n.item_idx));
                assert forall|i: int, j: int| 0 <= i < d.len() && 0 <= j < d.len() && i != j implies d[i] != d[j] by {
                    if i == rest.len() {
                        assert(rest.contains(d[j]));
                    } else if j == rest.len() {
                        assert(rest.contains(d[i]));
                    }
                }
            }
        } else {
            if nodes.no_duplicates() {
                assert(init.no_duplicates());
            }
        }
    }
}

impl Graph {
    /// Follow the edge from `node` to the layer `to_layer`, if there is one, for mutable access.
    pub fn get_neighbor_mut<'to, N: IntoAnyNode, To>(&self, node: N, to_layer: &'to mut Layer<To>) -> (r: Option<(&'to mut To, TypedNode<To>)>)
        requires
            self.wf(),
            self.is_node(node.as_any_node()),
            old(to_layer).matches(self),
        ensures
            final(to_layer).layer_index() == old(to_layer).layer_index(),
            match r {
                None => {
                    &&& self.target(node.as_any_node(), old(to_layer).layer_index() as int) is None
                    &&& final(to_layer).contents() == old(to_layer).contents()
                },
                Some((c, t)) => {
                    &&& self.target(node.as_any_node(), old(to_layer).layer_index() as int) == Some(t@.item_idx)
                    &&& t@.layer_idx == old(to_layer).layer_index()
                    &&& *c == old(to_layer).contents()[t@.item_idx as int]
                    &&& final(to_layer).contents() == old(to_layer).contents().update(t@.item_idx as int, *final(c))
                },
            },
    {
        let node = node.into_any_node();
        proof {
            self.lemma_wf();
        }
        let idx = to_layer.index;
        let edge_layer = &self.edge_layers[node.layer_idx][idx];
        if edge_layer.len() <= node.item_idx {
            None
        } else {
            match edge_layer[node.item_idx] {
                None => None,
                Some(to_id) => {
                    proof {
                        let e = (node, AnyNode { item_idx: to_id, layer_idx: idx });
                        assert(self.target(node, idx as int) is Some);
                        assert(self.edge_set@.contains(e));
                    }
                    Some((&mut to_layer.content[to_id], AnyNode { item_idx: to_id, layer_idx: idx }.typed()))
                },
            }
        }
    }

    /// The number of layers.
    pub fn layer_count_exec(&self) -> (r: usize)
        ensures
            r == self.layer_count(),
    {
        self.edge_counts.len()
    }

    /// The number of target layers that edges from `layer` are kept for.
    pub fn target_layer_count(&self, layer: usize) -> (r: usize)
        requires
            self.wf(),
            layer < self.layer_count(),
        ensures
            r == self.layer_count(),
    {
        self.edge_layers[layer].len()
    }

    /// Whether any edge is left in the graph.
    pub fn has_edges(&self) -> (r: bool)
        requires
            self.wf(),
        ensures
            r == (self.edges() != Set::<Edge>::empty()),
    {
        proof {
            self.lemma_wf();
        }
        let n_layers = self.edge_layers.len();
        let mut a: usize = 0;
        while a < n_layers
            invariant
                self.wf(),
                n_layers == self.layer_count(),
                0 <= a <= n_layers,
                forall|e: Edge| #[trigger] self.edges().contains(e) ==> e.0.layer_idx >= a,
            decreases n_layers - a,
        {
            let mut b: usize = 0;
            while b < n_layers
                invariant
                    self.wf(),
                    n_layers == self.layer_count(),
                    0 <= a < n_layers,
                    0 <= b <= n_layers,
                    forall|e: Edge| #[trigger] self.edges().contains(e) ==> e.0.layer_idx > a || (e.0.layer_idx == a && e.1.layer_idx >= b),
                decreases n_layers - b,
            {
                let row = &self.edge_layers[a][b];
                let mut i: usize = 0;
                while i < row.len()
                    invariant
                        self.wf(),
                        n_layers == self.layer_count(),
                        0 <= a < n_layers,
                        0 <= b < n_layers,
                        row@ == self.edge_layers@[a as int]@[b as int]@,
                        0 <= i <= row@.len(),
                        forall|e: Edge| #[trigger] self.edges().contains(e) ==> e.0.layer_idx > a || (e.0.layer_idx == a && (e.1.layer_idx > b || (e.1.layer_idx == b && e.0.item_idx >= i))),
                    decreases row@.len() - i,
                {
                    if let Some(t) = row[i] {
                        proof {
                            let n = AnyNode { item_idx: i, layer_idx: a };
                            assert(row@.len() <= self.edge_counts@[a as int]@.len());
                            assert(self.target(n, b as int) == Some(t));
                            assert(self.edges().contains((n, AnyNode { item_idx: t, layer_idx: b })));
                        }
                        return true;
                    }
                    proof {
                        assert forall|e: Edge| #[trigger] self.edges().contains(e) implies e.0.layer_idx > a || (e.0.layer_idx == a && (e.1.layer_idx > b || (e.1.layer_idx == b && e.0.item_idx >= i + 1))) by {
                            if e.0.layer_idx == a && e.1.layer_idx == b && e.0.item_idx == i {
                                assert(self.target(e.0, b as int) == Some(e.1.item_idx));
                            }
                        }
                    }
                    i = i + 1;
                }
                proof {
                    assert forall|e: Edge| #[trigger] self.edges().contains(e) implies e.0.layer_idx > a || (e.0.layer_idx == a && e.1.layer_idx >= b + 1) by {
                        if e.0.layer_idx == a && e.1.layer_idx == b {
                            assert(self.target(e.0, b as int) == Some(e.1.item_idx));
                        }
                    }
                }
                b = b + 1;
            }
            a = a + 1;
        }
        proof {
            assert(self.edges() =~= Set::<Edge>::empty());
        }
        false
    }
}

impl<T> Layer<T> {
    /// The layer's address in the graph.
    pub fn index(&self) -> (r: usize)
        ensures
            r == self.layer_index(),
    {
        self.index
    }

    /// The number of slots, live or dead.
    pub fn len(&self) -> (r: usize)
        ensures
            r == self.contents().len(),
    {
        self.content.len()
    }

    /// Iterate over the live components of this layer.
    pub fn iter<'s, 'g: 's>(&'s self, graph: &'g Graph) -> (r: LayerIter<'s, T>)
        requires
            graph.wf(),
            self.matches(graph),
        ensures
            r.wf(),
            r.position() == 0,
            r.layer_index() == self.layer_index(),
            r.contents() == self.contents(),
            forall|k: int| 0 <= k < self.contents().len() ==> #[trigger] r.is_live(k) == (graph.count_of(
                AnyNode { item_idx: k as usize, layer_idx: self.layer_index() as usize },
            ) > 0),
    {
        proof {
            assert(self.content@.len() == self.content.len());
        }
        LayerIter {
            content: &self.content,
            layer_idx: self.index,
            refcounts: &graph.edge_counts[self.index],
            pos: 0,
        }
    }
}

/// An iterator over the live components of a layer, with their nodes.
pub struct LayerIter<'a, T> {
    content: &'a Vec<T>,
    layer_idx: usize,
    refcounts: &'a Vec<usize>,
    pos: usize,
}

impl<'a, T> LayerIter<'a, T> {
    pub closed spec fn position(&self) -> nat {
        self.pos as nat
    }

    pub closed spec fn layer_index(&self) -> nat {
        self.layer_idx as nat
    }

    pub closed spec fn contents(&self) -> Seq<T> {
        self.content@
    }

    /// Whether slot `k` holds a live component.
    pub closed spec fn is_live(&self, k: int) -> bool {
        self.refcounts@[k] > 0
    }

    pub closed spec fn wf(&self) -> bool {
        self.content@.len() <= self.refcounts@.len()
    }

    /// The next live component at or after the current position, with its node.
    pub fn next(&mut self) -> (r: Option<(&'a T, TypedNode<T>)>)
        requires
            old(self).wf(),
        ensures
            final(self).wf(),
            final(self).layer_index() == old(self).layer_index(),
            final(self).contents() == old(self).contents(),
            forall|k: int| #[trigger] final(self).is_live(k) == old(self).is_live(k),
            match r {
                None => {
                    &&& forall|k: int| old(self).position() <= k < old(self).contents().len() ==> !#[trigger] old(self).is_live(k)
                    &&& final(self).position() >= old(self).contents().len()
                },
                Some((c, t)) => {
                    &&& old(self).position() <= t@.item_idx < old(self).contents().len()
                    &&& t@.layer_idx == old(self).layer_index()
                    &&& old(self).is_live(t@.item_idx as int)
                    &&& forall|k: int| old(self).position() <= k < t@.item_idx ==> !#[trigger] old(self).is_live(k)
                    &&& *c == old(self).contents()[t@.item_idx as int]
                    &&& final(self).position() == t@.item_idx + 1
                },
            },
    {
        let ghost p0 = self.pos;
        while self.pos < self.content.len()
            invariant
                p0 <= self.pos,
                self.content == old(self).content,
                self.refcounts == old(self).refcounts,
                self.layer_idx == old(self).layer_idx,
                p0 == old(self).pos,
                self.wf(),
                forall|k: int| p0 <= k < self.pos ==> !#[trigger] old(self).is_live(k),
            decreases self.content@.len() - self.pos,
        {
            let idx = self.pos;
            self.pos = self.pos + 1;
            if self.refcounts[idx] > 0 {
                return Some((&self.content[idx], AnyNode { item_idx: idx, layer_idx: self.layer_idx }.typed()));
            }
        }
        None
    }
}

impl<T> Layer<T> {
    /// Iterate over the live components of this layer with mutable access.
    pub fn iter_mut<'s, 'g: 's>(&'s mut self, graph: &'g Graph) -> (r: LayerIterMut<'s, T>)
        requires
            graph.wf(),
            old(self).matches(graph),
        ensures
            r.wf(),
            r.position() == 0,
            r.layer_index() == old(self).layer_index(),
            r.remaining() == old(self).contents(),
            forall|k: int| 0 <= k < old(self).contents().len() ==> #[trigger] r.is_live(k) == (graph.count_of(
                AnyNode { item_idx: k as usize, layer_idx: old(self).layer_index() as usize },
            ) > 0),
    {
        proof {
            assert(self.content@.len() == self.content.len());
        }
        let idx = self.index;
        LayerIterMut {
            rest: self.content.as_mut_slice(),
            layer_idx: idx,
            refcounts: &graph.edge_counts[idx],
            pos: 0,
        }
    }
}

/// An iterator over the live components of a layer with mutable access, with their nodes.
pub struct LayerIterMut<'a, T> {
    rest: &'a mut [T],
    layer_idx: usize,
    refcounts: &'a Vec<usize>,
    pos: usize,
}

impl<'a, T> LayerIterMut<'a, T> {
    pub closed spec fn position(&self) -> nat {
        self.pos as nat
    }

    pub closed spec fn layer_index(&self) -> nat {
        self.layer_idx as nat
    }

    /// The components from the current position on.
    pub closed spec fn remaining(&self) -> Seq<T> {
        self.rest@
    }

    /// Whether slot `k` holds a live component.
    pub closed spec fn is_live(&self, k: int) -> bool {
        self.refcounts@[k] > 0
    }

    pub closed spec fn wf(&self) -> bool {
        self.pos + self.rest@.len() <= self.refcounts@.len()
    }

    /// The next live component at or after the current position, with its node.
    pub fn next(&mut self) -> (r: Option<(&'a mut T, TypedNode<T>)>)
        requires
            old(self).wf(),
        ensures
            final(self).wf(),
            final(self).layer_index() == old(self).layer_index(),
            forall|k: int| #[trigger] final(self).is_live(k) == old(self).is_live(k),
            match r {
                None => {
                    &&& forall|k: int| old(self).position() <= k < old(self).position() + old(self).remaining().len()
                        ==> !#[trigger] old(self).is_live(k)
                    &&& final(self).remaining().len() == 0
                },
                Some((c, t)) => {
                    &&& old(self).position() <= t@.item_idx < old(self).position() + old(self).remaining().len()
                    &&& t@.layer_idx == old(self).layer_index()
                    &&& old(self).is_live(t@.item_idx as int)
                    &&& forall|k: int| old(self).position() <= k < t@.item_idx ==> !#[trigger] old(self).is_live(k)
                    &&& *c == old(self).remaining()[t@.item_idx - old(self).position()]
                    &&& final(self).position() == t@.item_idx + 1
                    &&& final(self).remaining() == old(self).remaining().subrange(
                        t@.item_idx - old(self).position() + 1,
                        old(self).remaining().len() as int,
                    )
                },
            },
    {
        let ghost p0 = self.pos;
        let ghost r0 = self.rest@;
        loop
            invariant
                p0 <= self.pos,
                self.refcounts == old(self).refcounts,
                self.layer_idx == old(self).layer_idx,
                p0 == old(self).pos,
                r0 == old(self).rest@,
                self.wf(),
                self.pos - p0 + self.rest@.len() == r0.len(),
                self.rest@ == r0.subrange(self.pos - p0, r0.len() as int),
                forall|k: int| p0 <= k < self.pos ==> !#[trigger] old(self).is_live(k),
            decreases self.rest@.len(),
        {
            if self.rest.len() == 0 {
                return None;
            }
            let mut taken: &'a mut [T] = &mut [];
            std::mem::swap(&mut taken, &mut self.rest);
            let (head, tail) = taken.split_at_mut(1);
            self.rest = tail;
            let idx = self.pos;
            proof {
                assert(self.refcounts@.len() == self.refcounts.len());
            }
            self.pos = self.pos + 1;
            if self.refcounts[idx] > 0 {
                return Some((&mut head[0], AnyNode { item_idx: idx, layer_idx: self.layer_idx }.typed()));
            }
        }
    }
}

} // verus!
