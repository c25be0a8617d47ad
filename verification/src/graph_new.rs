//! Tools for representing, storing, and connecting game objects, with shared components.
//!
//! A game object is a directed graph of components. Most edges go both ways, but one-way
//! edges can be made too, which lets several objects share a component. Each slot counts
//! the edges that point to it; a slot that nothing points to is dead. Deletion walks an
//! object from one of its nodes and stops at components that are shared with others.
use vstd::prelude::*;
use std::collections::VecDeque;
use std::marker::PhantomData;
use crate::base::graph::cell_at;
use crate::base::reach::{entered_in_order, has_parent, lemma_reachable_entered, lemma_reachable_trans};
use vstd::set_lib::{set_int_range, lemma_int_range, lemma_len_subset, lemma_set_subset_finite, lemma_set_disjoint_lens};
use vstd::arithmetic::div_mod::lemma_fundamental_div_mod_converse;
use crate::walk::{
    BareNodeKey, Tables, cell, shaped, reads, gathered, steps, valid_record, SearchResult, search_all,
    lemma_walk_complete, find_node, bound, walk_order,
};

verus! {

/// Gives a type an address in the graph: the index of its layer.
pub trait Component {
    /// Address of this type's graph layer.
    const LAYER_INDEX: usize;
}

/// An identifier for looking up a specific node.
pub struct NodeKey<T: Component> {
    pub(crate) idx: usize,
    pub(crate) gen: usize,
    pub(crate) _marker: PhantomData<T>,
}

impl<T: Component> NodeKey<T> {
    pub closed spec fn index(&self) -> nat {
        self.idx as nat
    }

    pub closed spec fn generation(&self) -> nat {
        self.gen as nat
    }

    /// The slot this key points to.
    pub fn slot(&self) -> (r: usize)
        ensures
            r == self.index(),
    {
        self.idx
    }
}

impl<T: Component> Clone for NodeKey<T> {
    fn clone(&self) -> (r: Self)
        ensures
            r.index() == self.index(),
            r.generation() == self.generation(),
    {
        NodeKey { idx: self.idx, gen: self.gen, _marker: PhantomData }
    }
}

impl<T: Component> Copy for NodeKey<T> {

}

/// Edges, reference counts, generations and vacant slots of a single layer.
pub struct LayerMetadata {
    edges: Vec<Vec<Option<usize>>>,
    refcounts: Vec<usize>,
    generations: Vec<usize>,
    vacant_slots: VecDeque<usize>,
}

impl LayerMetadata {
    /// The number of layers that edges can lead to.
    pub closed spec fn target_layers(&self) -> nat {
        self.edges@.len()
    }

    /// The number of slots, live or dead.
    pub closed spec fn slots(&self) -> nat {
        self.generations@.len()
    }

    /// The slot that the edge from slot `i` to layer `b` ends at, if there is one.
    pub closed spec fn target(&self, i: int, b: int) -> Option<usize> {
        if 0 <= b < self.edges@.len() {
            cell_at(self.edges@[b]@, i)
        } else {
            None
        }
    }

    /// The length of the edge row towards layer `b`.
    pub closed spec fn row_len(&self, b: int) -> nat {
        self.edges@[b]@.len()
    }

    pub closed spec fn generation(&self, i: int) -> usize {
        self.generations@[i]
    }

    /// The number of edges that point to slot `i`.
    pub closed spec fn refcount(&self, i: int) -> usize {
        self.refcounts@[i]
    }

    /// A slot is live while something points to it.
    pub open spec fn is_live(&self, i: int) -> bool {
        self.refcount(i) > 0
    }

    /// Dead slots in the order they will be reused.
    pub closed spec fn vacant(&self) -> Seq<usize> {
        self.vacant_slots@
    }

    /// The vacant slots are distinct, and nothing points to them.
    pub open spec fn vacant_unused(&self) -> bool {
        &&& self.vacant().no_duplicates()
        &&& forall|k: int| 0 <= k < self.vacant().len() ==> self.refcount(#[trigger] self.vacant()[k] as int) == 0
    }

    pub closed spec fn wf(&self) -> bool {
        &&& self.refcounts@.len() == self.generations@.len()
        &&& forall|b: int| 0 <= b < self.edges@.len() ==> #[trigger] self.edges@[b]@.len() <= self.generations@.len()
        &&& forall|k: int| 0 <= k < self.vacant_slots@.len() ==> #[trigger] self.vacant_slots@[k] < self.generations@.len()
    }

    pub fn new(layer_count: usize) -> (r: Self)
        ensures
            r.wf(),
            r.target_layers() == layer_count,
            r.slots() == 0,
            r.vacant() == Seq::<usize>::empty(),
            forall|b: int| 0 <= b < layer_count ==> #[trigger] r.row_len(b) == 0,
    {
        let mut edges: Vec<Vec<Option<usize>>> = Vec::new();
        let mut b: usize = 0;
        while b < layer_count
            invariant
                0 <= b <= layer_count,
                edges@.len() == b,
                forall|x: int| 0 <= x < b ==> (#[trigger] edges@[x])@.len() == 0,
            decreases layer_count - b,
        {
            edges.push(Vec::new());
            b = b + 1;
        }
        LayerMetadata { edges, refcounts: Vec::new(), generations: Vec::new(), vacant_slots: VecDeque::new() }
    }

    /// The neighbor of slot `node_idx` in layer `target_layer`, if any.
    pub fn neighbor_idx(&self, node_idx: usize, target_layer: usize) -> (r: Option<usize>)
        ensures
            r == self.target(node_idx as int, target_layer as int),
    {
        if self.edges.len() <= target_layer || self.edges[target_layer].len() <= node_idx {
            None
        } else {
            self.edges[target_layer][node_idx]
        }
    }
}

/// If there's an edge starting from `node_idx` and ending at a node of the layer of `Target`,
/// the index of that node.
pub fn get_neighbor_idx<Target: Component>(node_layer_meta: &LayerMetadata, node_idx: usize) -> (r: Option<usize>)
    ensures
        r == node_layer_meta.target(node_idx as int, Target::LAYER_INDEX as int),
{
    node_layer_meta.neighbor_idx(node_idx, Target::LAYER_INDEX)
}

/// An immutable reference to a node in the graph.
pub struct NodeRef<'a, T: Component> {
    /// The component that this node points to.
    pub c: &'a T,
    idx: usize,
    layer_meta: &'a LayerMetadata,
}

impl<'a, T: Component> NodeRef<'a, T> {
    pub closed spec fn index(&self) -> nat {
        self.idx as nat
    }

    pub closed spec fn meta(&self) -> LayerMetadata {
        *self.layer_meta
    }

    pub closed spec fn component(&self) -> T {
        *self.c
    }

    pub open spec fn wf(&self) -> bool {
        self.meta().wf() && self.index() < self.meta().slots()
    }

    /// If there's an edge starting from this node and ending at a node of the given type,
    /// get a reference to that node, otherwise return None.
    pub fn get_neighbor<'lr, 'l, Target: Component>(&self, layer: &'lr LayerView<'l, Target>) -> (r: Option<
        NodeRef<'lr, Target>,
    >)
        requires
            layer.wf(),
            self.meta().target(self.index() as int, Target::LAYER_INDEX as int) matches Some(t) ==> t < layer.contents().len(),
        ensures
            neighbor_found(r, self.meta().target(self.index() as int, Target::LAYER_INDEX as int), layer),
    {
        get_neighbor(self.layer_meta, self.idx, layer)
    }

    /// If there's an edge starting from this node and ending at a node of the given type,
    /// get a mutable reference to that node, otherwise return None.
    pub fn get_neighbor_mut<'lr, 'l, Target: Component>(&self, layer: &'lr mut LayerViewMut<'l, Target>) -> (r: Option<
        NodeRefMut<'lr, Target>,
    >)
        requires
            old(layer).wf(),
            self.meta().target(self.index() as int, Target::LAYER_INDEX as int) matches Some(t) ==> t < old(layer).contents().len(),
        ensures
            neighbor_found_mut(r, self.meta().target(self.index() as int, Target::LAYER_INDEX as int), *old(layer)),
    {
        get_neighbor_mut(self.layer_meta, self.idx, layer)
    }

    /// Get a key that can be used to access this node later.
    pub fn key(&self) -> (r: NodeKey<T>)
        requires
            self.wf(),
        ensures
            r.index() == self.index(),
            r.generation() == self.meta().generation(self.index() as int),
    {
        NodeKey { idx: self.idx, gen: self.layer_meta.generations[self.idx], _marker: PhantomData }
    }
}

/// `r` is the node that `target` designates in `layer`, or nothing if there is no target.
pub open spec fn neighbor_found<'lr, 'l, Target: Component>(
    r: Option<NodeRef<'lr, Target>>,
    target: Option<usize>,
    layer: &LayerView<'l, Target>,
) -> bool {
    match target {
        None => r is None,
        Some(t) => r matches Some(n) && {
            &&& n.index() == t
            &&& n.meta() == layer.meta()
            &&& n.component() == layer.contents()[t as int]
            &&& n.wf()
        },
    }
}

/// `r` is the node that `target` designates in `layer`, or nothing if there is no target.
pub open spec fn neighbor_found_mut<'lr, 'l, Target: Component>(
    r: Option<NodeRefMut<'lr, Target>>,
    target: Option<usize>,
    layer: LayerViewMut<'l, Target>,
) -> bool {
    match target {
        None => r is None,
        Some(t) => r matches Some(n) && {
            &&& n.index() == t
            &&& n.meta() == layer.meta()
            &&& n.component() == layer.contents()[t as int]
            &&& n.wf()
        },
    }
}

/// A mutable reference to a node in the graph.
pub struct NodeRefMut<'a, T: Component> {
    /// The component that this node points to.
    pub c: &'a mut T,
    /// The node's slot in its layer.
    pub idx: usize,
    /// The metadata of the node's layer.
    pub layer_meta: &'a mut LayerMetadata,
}

impl<'a, T: Component> NodeRefMut<'a, T> {
    pub open spec fn index(&self) -> nat {
        self.idx as nat
    }

    pub open spec fn meta(&self) -> LayerMetadata {
        *self.layer_meta
    }

    pub open spec fn component(&self) -> T {
        *self.c
    }

    pub open spec fn wf(&self) -> bool {
        self.meta().wf() && self.index() < self.meta().slots()
    }

    /// The number of edges that point to this node.
    pub fn refcount(&self) -> (r: usize)
        requires
            self.wf(),
        ensures
            r == self.meta().refcount(self.index() as int),
    {
        self.layer_meta.refcounts[self.idx]
    }

    /// Add edges both ways between this node and `other`.
    ///
    /// Each node has at most one edge to each layer: neither node may have an edge to the
    /// other's layer yet.
    pub fn connect<Other: Component>(&mut self, other: &mut NodeRefMut<'_, Other>)
        requires
            old(self).wf(),
            old(other).wf(),
            old(self).meta().target(old(self).index() as int, Other::LAYER_INDEX as int) is None,
            old(other).meta().target(old(other).index() as int, T::LAYER_INDEX as int) is None,
            old(self).meta().refcount(old(self).index() as int) < usize::MAX,
            old(other).meta().refcount(old(other).index() as int) < usize::MAX,
        ensures
            final(self).wf(),
            final(other).wf(),
            connected(old(self).meta(), final(self).meta(), old(self).index() as int, Other::LAYER_INDEX as int, old(other).index()),
            connected(old(other).meta(), final(other).meta(), old(other).index() as int, T::LAYER_INDEX as int, old(self).index()),
            final(self).index() == old(self).index(),
            final(other).index() == old(other).index(),
            final(self).component() == old(self).component(),
            final(other).component() == old(other).component(),
            *final(final(self).layer_meta) == *final(old(self).layer_meta),
            *final(final(self).c) == *final(old(self).c),
            *final(final(other).layer_meta) == *final(old(other).layer_meta),
            *final(final(other).c) == *final(old(other).c),
    {
        let ghost s0 = self.meta();
        let ghost o0 = other.meta();
        self.connect_oneway(other);
        let ghost s1 = self.meta();
        let ghost o1 = other.meta();
        other.connect_oneway(self);
        proof {
            lemma_edge_then_ref(s0, s1, self.meta(), self.index() as int, Other::LAYER_INDEX as int, other.index());
            lemma_ref_then_edge(o0, o1, other.meta(), other.index() as int, T::LAYER_INDEX as int, self.index());
        }
    }

    /// Add an edge from this node to `other`, which then has one more reference.
    pub fn connect_oneway<Other: Component>(&mut self, other: &mut NodeRefMut<'_, Other>)
        requires
            old(self).wf(),
            old(other).wf(),
            old(self).meta().target(old(self).index() as int, Other::LAYER_INDEX as int) is None,
            old(other).meta().refcount(old(other).index() as int) < usize::MAX,
        ensures
            final(self).wf(),
            final(other).wf(),
            edge_added(old(self).meta(), final(self).meta(), old(self).index() as int, Other::LAYER_INDEX as int, old(other).index()),
            ref_added(old(other).meta(), final(other).meta(), old(other).index() as int),
            final(self).index() == old(self).index(),
            final(self).component() == old(self).component(),
            final(other).index() == old(other).index(),
            final(other).component() == old(other).component(),
            *final(final(self).layer_meta) == *final(old(self).layer_meta),
            *final(final(self).c) == *final(old(self).c),
            *final(final(other).layer_meta) == *final(old(other).layer_meta),
            *final(final(other).c) == *final(old(other).c),
    {
        self.layer_meta.set_edge(self.idx, Other::LAYER_INDEX, other.idx);
        other.layer_meta.add_ref(other.idx);
    }

    /// If there's an edge starting from this node and ending at a node of the given type,
    /// get a reference to that node, otherwise return None.
    pub fn get_neighbor<'lr, 'l, Target: Component>(&self, layer: &'lr LayerView<'l, Target>) -> (r: Option<
        NodeRef<'lr, Target>,
    >)
        requires
            layer.wf(),
            self.meta().target(self.index() as int, Target::LAYER_INDEX as int) matches Some(t) ==> t < layer.contents().len(),
        ensures
            neighbor_found(r, self.meta().target(self.index() as int, Target::LAYER_INDEX as int), layer),
    {
        get_neighbor(self.layer_meta, self.idx, layer)
    }

    /// If there's an edge starting from this node and ending at a node of the given type,
    /// get a mutable reference to that node, otherwise return None.
    pub fn get_neighbor_mut<'lr, 'l, Target: Component>(&self, layer: &'lr mut LayerViewMut<'l, Target>) -> (r: Option<
        NodeRefMut<'lr, Target>,
    >)
        requires
            old(layer).wf(),
            self.meta().target(self.index() as int, Target::LAYER_INDEX as int) matches Some(t) ==> t < old(layer).contents().len(),
        ensures
            neighbor_found_mut(r, self.meta().target(self.index() as int, Target::LAYER_INDEX as int), *old(layer)),
    {
        get_neighbor_mut(self.layer_meta, self.idx, layer)
    }

    /// Get a key that can be used to access this node later.
    pub fn key(&self) -> (r: NodeKey<T>)
        requires
            self.wf(),
        ensures
            r.index() == self.index(),
            r.generation() == self.meta().generation(self.index() as int),
    {
        NodeKey { idx: self.idx, gen: self.layer_meta.generations[self.idx], _marker: PhantomData }
    }
}

/// `new` has the slots, generations and vacant slots of `old`.
pub open spec fn slots_kept(old: LayerMetadata, new: LayerMetadata) -> bool {
    &&& new.wf()
    &&& new.slots() == old.slots()
    &&& new.vacant() == old.vacant()
    &&& forall|k: int| 0 <= k < old.slots() ==> #[trigger] new.generation(k) == old.generation(k)
}

/// `new` is `old` with an edge from slot `i` to slot `t` of layer `b` added, the edge rows
/// extended to reach layer `b` if they did not.
pub open spec fn edge_added(old: LayerMetadata, new: LayerMetadata, i: int, b: int, t: nat) -> bool {
    &&& slots_kept(old, new)
    &&& new.target_layers() == if b < old.target_layers() { old.target_layers() } else { (b + 1) as nat }
    &&& forall|k: int| 0 <= k < old.slots() ==> #[trigger] new.refcount(k) == old.refcount(k)
    &&& new.target(i, b) == Some(t as usize)
    &&& forall|k: int, c: int| (k != i || c != b) ==> #[trigger] new.target(k, c) == old.target(k, c)
}

/// `new` is `old` with one more reference to slot `i`.
pub open spec fn ref_added(old: LayerMetadata, new: LayerMetadata, i: int) -> bool {
    &&& slots_kept(old, new)
    &&& new.target_layers() == old.target_layers()
    &&& forall|k: int| 0 <= k < old.slots() ==> #[trigger] new.refcount(k) == if k == i {
        old.refcount(k) + 1
    } else {
        old.refcount(k) as int
    }
    &&& forall|k: int, c: int| #[trigger] new.target(k, c) == old.target(k, c)
}

/// `new` is `old` with an edge from slot `i` to slot `t` of layer `b` added and one more
/// reference to slot `i`: one side of a two-way connection.
pub open spec fn connected(old: LayerMetadata, new: LayerMetadata, i: int, b: int, t: nat) -> bool {
    &&& slots_kept(old, new)
    &&& new.target_layers() == if b < old.target_layers() { old.target_layers() } else { (b + 1) as nat }
    &&& forall|k: int| 0 <= k < old.slots() ==> #[trigger] new.refcount(k) == if k == i {
        old.refcount(k) + 1
    } else {
        old.refcount(k) as int
    }
    &&& new.target(i, b) == Some(t as usize)
    &&& forall|k: int, c: int| (k != i || c != b) ==> #[trigger] new.target(k, c) == old.target(k, c)
}

/// Two layers' metadata agree on everything a caller can observe: slots, generations,
/// vacant slots, reference counts and edges.
pub open spec fn same_observed(m1: LayerMetadata, m2: LayerMetadata) -> bool {
    &&& m1.target_layers() == m2.target_layers()
    &&& m1.slots() == m2.slots()
    &&& m1.vacant() == m2.vacant()
    &&& forall|k: int| 0 <= k < m1.slots() ==> #[trigger] m1.generation(k) == m2.generation(k)
    &&& forall|k: int| 0 <= k < m1.slots() ==> #[trigger] m1.refcount(k) == m2.refcount(k)
    &&& forall|k: int, c: int| #[trigger] m1.target(k, c) == m2.target(k, c)
}

/// Connecting is determined by the nodes alone: the metadata after connecting slot `i` to
/// slot `t` of layer `b` is the same, whichever of the two nodes made the call. So
/// `a.connect(&mut b)` leaves the graph as `b.connect(&mut a)` would.
pub proof fn lemma_connect_determined(old: LayerMetadata, n1: LayerMetadata, n2: LayerMetadata, i: int, b: int, t: nat)
    requires
        connected(old, n1, i, b, t),
        connected(old, n2, i, b, t),
    ensures
        same_observed(n1, n2),
{
    assert forall|k: int, c: int| #[trigger] n1.target(k, c) == n2.target(k, c) by {
        if k != i || c != b {
            assert(n1.target(k, c) == old.target(k, c));
            assert(n2.target(k, c) == old.target(k, c));
        }
    }
}

/// Adding an edge keeps the vacant slots unused: no count changes.
pub proof fn lemma_edge_keeps_vacant_unused(old: LayerMetadata, new: LayerMetadata, i: int, b: int, t: nat)
    requires
        old.wf(),
        edge_added(old, new, i, b, t),
        old.vacant_unused(),
    ensures
        new.vacant_unused(),
{
    assert forall|k: int| 0 <= k < new.vacant().len() implies new.refcount(#[trigger] new.vacant()[k] as int) == 0 by {
        assert(old.vacant()[k] < old.slots());
    }
}

/// One more reference to a slot that is not vacant keeps the vacant slots unused.
pub proof fn lemma_ref_keeps_vacant_unused(old: LayerMetadata, new: LayerMetadata, i: int)
    requires
        old.wf(),
        ref_added(old, new, i),
        old.vacant_unused(),
        !old.vacant().contains(i as usize),
    ensures
        new.vacant_unused(),
{
    assert forall|k: int| 0 <= k < new.vacant().len() implies new.refcount(#[trigger] new.vacant()[k] as int) == 0 by {
        assert(old.vacant()[k] < old.slots());
        assert(old.vacant().contains(old.vacant()[k]));
    }
}

/// Connecting a slot that is not vacant keeps the vacant slots of its layer unused; so
/// inserting nodes and connecting them never makes a vacant slot referenced.
pub proof fn lemma_connect_keeps_vacant_unused(old: LayerMetadata, new: LayerMetadata, i: int, b: int, t: nat)
    requires
        old.wf(),
        connected(old, new, i, b, t),
        old.vacant_unused(),
        !old.vacant().contains(i as usize),
    ensures
        new.vacant_unused(),
{
    assert forall|k: int| 0 <= k < new.vacant().len() implies new.refcount(#[trigger] new.vacant()[k] as int) == 0 by {
        assert(old.vacant()[k] < old.slots());
        assert(old.vacant().contains(old.vacant()[k]));
    }
}

proof fn lemma_edge_then_ref(m0: LayerMetadata, m1: LayerMetadata, m2: LayerMetadata, i: int, b: int, t: nat)
    requires
        edge_added(m0, m1, i, b, t),
        ref_added(m1, m2, i),
    ensures
        connected(m0, m2, i, b, t),
{
}

proof fn lemma_ref_then_edge(m0: LayerMetadata, m1: LayerMetadata, m2: LayerMetadata, i: int, b: int, t: nat)
    requires
        ref_added(m0, m1, i),
        edge_added(m1, m2, i, b, t),
    ensures
        connected(m0, m2, i, b, t),
{
}

impl LayerMetadata {
    /// Record an edge from slot `i` to slot `t` of layer `b`.
    fn set_edge(&mut self, i: usize, b: usize, t: usize)
        requires
            old(self).wf(),
            i < old(self).slots(),
        ensures
            edge_added(*old(self), *final(self), i as int, b as int, t as nat),
    {
        let ghost m0 = *self;
        while self.edges.len() <= b
            invariant
                self.wf(),
                self.refcounts == m0.refcounts,
                self.generations == m0.generations,
                self.vacant_slots == m0.vacant_slots,
                m0.edges@.len() <= self.edges@.len(),
                self.edges@.len() <= if b < m0.edges@.len() { m0.edges@.len() } else { b as nat + 1 },
                forall|x: int| 0 <= x < m0.edges@.len() ==> #[trigger] self.edges@[x] == m0.edges@[x],
                forall|x: int| m0.edges@.len() <= x < self.edges@.len() ==> (#[trigger] self.edges@[x])@.len() == 0,
            decreases b + 1 - self.edges@.len(),
        {
            self.edges.push(Vec::new());
        }
        let ghost m1 = *self;
        crate::base::graph::set_cell(&mut self.edges[b], i, Some(t));
        proof {
            assert forall|x: int| 0 <= x < self.edges@.len() implies #[trigger] self.edges@[x]@.len() <= self.generations@.len() by {
                if x != b {
                    assert(self.edges@[x] == m1.edges@[x]);
                }
            }
            assert forall|k: int, c: int| (k != i || c != b) implies #[trigger] self.target(k, c) == m0.target(k, c) by {
                if 0 <= c < self.edges@.len() && c != b {
                    assert(self.edges@[c] == m1.edges@[c]);
                }
            }
        }
    }

    /// Count one more reference to slot `i`.
    fn add_ref(&mut self, i: usize)
        requires
            old(self).wf(),
            i < old(self).slots(),
            old(self).refcount(i as int) < usize::MAX,
        ensures
            ref_added(*old(self), *final(self), i as int),
    {
        let r = self.refcounts[i];
        self.refcounts.set(i, r + 1);
    }
}

/// The node that the edge from `node_idx` to the layer of `Target` leads to, if any.
fn get_neighbor<'lr, 'l, Target: Component>(
    node_layer_meta: &LayerMetadata,
    node_idx: usize,
    target_layer: &'lr LayerView<'l, Target>,
) -> (r: Option<NodeRef<'lr, Target>>)
    requires
        target_layer.wf(),
        node_layer_meta.target(node_idx as int, Target::LAYER_INDEX as int) matches Some(t) ==> t < target_layer.contents().len(),
    ensures
        neighbor_found(r, node_layer_meta.target(node_idx as int, Target::LAYER_INDEX as int), target_layer),
{
    match get_neighbor_idx::<Target>(node_layer_meta, node_idx) {
        Some(target) => Some(NodeRef { c: &target_layer.components[target], idx: target, layer_meta: target_layer.meta }),
        None => None,
    }
}

/// The node that the edge from `node_idx` to the layer of `Target` leads to, if any, for mutable access.
fn get_neighbor_mut<'lr, 'l, Target: Component>(
    node_layer_meta: &LayerMetadata,
    node_idx: usize,
    target_layer: &'lr mut LayerViewMut<'l, Target>,
) -> (r: Option<NodeRefMut<'lr, Target>>)
    requires
        old(target_layer).wf(),
        node_layer_meta.target(node_idx as int, Target::LAYER_INDEX as int) matches Some(t) ==> t < old(target_layer).contents().len(),
    ensures
        neighbor_found_mut(r, node_layer_meta.target(node_idx as int, Target::LAYER_INDEX as int), *old(target_layer)),
{
    match get_neighbor_idx::<Target>(node_layer_meta, node_idx) {
        Some(target) => Some(NodeRefMut { c: &mut target_layer.components[target], idx: target, layer_meta: &mut target_layer.meta }),
        None => None,
    }
}

/// An immutable view into a single layer of the graph.
pub struct LayerView<'a, T: Component> {
    pub(crate) meta: &'a LayerMetadata,
    pub(crate) components: &'a [T],
}

impl<'a, T: Component> LayerView<'a, T> {
    pub closed spec fn meta(&self) -> LayerMetadata {
        *self.meta
    }

    pub closed spec fn contents(&self) -> Seq<T> {
        self.components@
    }

    pub open spec fn wf(&self) -> bool {
        self.meta().wf() && self.contents().len() == self.meta().slots()
    }
}

/// A mutable view into a single layer of the graph, holding the layer's metadata while it is in use.
pub struct LayerViewMut<'a, T: Component> {
    /// The layer's metadata, given back to the graph by `Graph::release_layer`.
    pub meta: LayerMetadata,
    /// The layer's components.
    pub components: &'a mut Vec<T>,
}

impl<'a, T: Component> LayerViewMut<'a, T> {
    pub open spec fn meta(&self) -> LayerMetadata {
        self.meta
    }

    pub open spec fn contents(&self) -> Seq<T> {
        self.components@
    }

    pub open spec fn wf(&self) -> bool {
        self.meta().wf() && self.contents().len() == self.meta().slots()
    }
}

impl<'a, T: Component> LayerView<'a, T> {
    /// Get an immutable reference to a node if it still exists, otherwise return None.
    pub fn get(&self, key: NodeKey<T>) -> (r: Option<NodeRef<'_, T>>)
        requires
            self.wf(),
        ensures
            key_found(r, key, self.meta(), self.contents()),
    {
        if self.meta.generations.len() <= key.idx || self.meta.generations[key.idx] != key.gen {
            None
        } else {
            Some(self.get_unchecked(key))
        }
    }

    /// Get an immutable reference to a node without checking if it still exists.
    pub fn get_unchecked(&self, key: NodeKey<T>) -> (r: NodeRef<'_, T>)
        requires
            self.wf(),
            key.index() < self.contents().len(),
        ensures
            r.wf(),
            r.index() == key.index(),
            r.meta() == self.meta(),
            r.component() == self.contents()[key.index() as int],
    {
        NodeRef { c: &self.components[key.idx], idx: key.idx, layer_meta: self.meta }
    }

    /// Iterate over the live nodes of this layer.
    pub fn iter(&self) -> (r: LayerIter<'_, T>)
        requires
            self.wf(),
        ensures
            r.wf(),
            r.position() == 0,
            r.meta() == self.meta(),
            r.contents() == self.contents(),
    {
        LayerIter { layer_meta: self.meta, components: self.components, pos: 0 }
    }

    /// The number of slots, live or dead.
    pub fn len(&self) -> (r: usize)
        ensures
            r == self.contents().len(),
    {
        self.components.len()
    }
}

/// `r` is the node that `key` designates in a layer with metadata `meta` and components
/// `contents`, or nothing if the key is stale.
pub open spec fn key_found<'r, T: Component>(r: Option<NodeRef<'r, T>>, key: NodeKey<T>, meta: LayerMetadata, contents: Seq<T>) -> bool {
    if key.index() < meta.slots() && meta.generation(key.index() as int) == key.generation() {
        r matches Some(n) && {
            &&& n.wf()
            &&& n.index() == key.index()
            &&& n.meta() == meta
            &&& n.component() == contents[key.index() as int]
        }
    } else {
        r is None
    }
}

/// An immutable iterator over the live nodes of a single layer.
pub struct LayerIter<'a, T: Component> {
    layer_meta: &'a LayerMetadata,
    components: &'a [T],
    pos: usize,
}

impl<'a, T: Component> LayerIter<'a, T> {
    pub closed spec fn position(&self) -> nat {
        self.pos as nat
    }

    pub closed spec fn meta(&self) -> LayerMetadata {
        *self.layer_meta
    }

    pub closed spec fn contents(&self) -> Seq<T> {
        self.components@
    }

    pub open spec fn wf(&self) -> bool {
        self.meta().wf() && self.contents().len() == self.meta().slots()
    }

    /// The slots the iterator has still to yield: the live ones from its position on, in
    /// increasing order. A fresh iterator has all live slots of the layer still to yield.
    pub open spec fn remaining(&self) -> Seq<usize> {
        live_slots(self.meta(), self.position() as int, self.contents().len() as int)
    }

    /// The next live node at or after the current position.
    pub fn next(&mut self) -> (r: Option<NodeRef<'a, T>>)
        requires
            old(self).wf(),
        ensures
            final(self).wf(),
            final(self).meta() == old(self).meta(),
            final(self).contents() == old(self).contents(),
            match r {
                None => forall|k: int| old(self).position() <= k < old(self).contents().len() ==> !#[trigger] old(self).meta().is_live(k),
                Some(n) => {
                    &&& n.wf()
                    &&& n.meta() == old(self).meta()
                    &&& old(self).position() <= n.index() < old(self).contents().len()
                    &&& old(self).meta().is_live(n.index() as int)
                    &&& forall|k: int| old(self).position() <= k < n.index() ==> !#[trigger] old(self).meta().is_live(k)
                    &&& n.component() == old(self).contents()[n.index() as int]
                    &&& final(self).position() == n.index() + 1
                },
            },
            old(self).remaining() == match r {
                None => Seq::<usize>::empty(),
                Some(n) => seq![n.index() as usize] + final(self).remaining(),
            },
    {
        let ghost it0 = *self;
        let r = self.next_live();
        proof {
            match &r {
                None => {
                    if it0.position() <= it0.contents().len() {
                        lemma_live_skip(it0.meta(), it0.position() as int, it0.contents().len() as int, it0.contents().len() as int);
                    }
                },
                Some(n) => {
                    let x = n.index() as int;
                    lemma_live_skip(it0.meta(), it0.position() as int, x, it0.contents().len() as int);
                    assert(live_slots(it0.meta(), x, it0.contents().len() as int)
                        == seq![x as usize] + live_slots(it0.meta(), x + 1, it0.contents().len() as int));
                },
            }
        }
        r
    }

    /// Find the next live node at or after the current position.
    fn next_live(&mut self) -> (r: Option<NodeRef<'a, T>>)
        requires
            old(self).wf(),
        ensures
            final(self).wf(),
            final(self).meta() == old(self).meta(),
            final(self).contents() == old(self).contents(),
            match r {
                None => forall|k: int| old(self).position() <= k < old(self).contents().len() ==> !#[trigger] old(self).meta().is_live(k),
                Some(n) => {
                    &&& n.wf()
                    &&& n.meta() == old(self).meta()
                    &&& old(self).position() <= n.index() < old(self).contents().len()
                    &&& old(self).meta().is_live(n.index() as int)
                    &&& forall|k: int| old(self).position() <= k < n.index() ==> !#[trigger] old(self).meta().is_live(k)
                    &&& n.component() == old(self).contents()[n.index() as int]
                    &&& final(self).position() == n.index() + 1
                },
            },
    {
        while self.pos < self.components.len()
            invariant
                self.layer_meta == old(self).layer_meta,
                self.components == old(self).components,
                old(self).pos <= self.pos,
                self.wf(),
                forall|k: int| old(self).pos <= k < self.pos ==> !#[trigger] old(self).meta().is_live(k),
            decreases self.components@.len() - self.pos,
        {
            let idx = self.pos;
            self.pos = self.pos + 1;
            if self.layer_meta.refcounts[idx] > 0 {
                return Some(NodeRef { c: &self.components[idx], idx, layer_meta: self.layer_meta });
            }
        }
        None
    }
}

/// The live slots of `m` from `from` up to `to`, in increasing order.
pub open spec fn live_slots(m: LayerMetadata, from: int, to: int) -> Seq<usize>
    decreases to - from,
{
    if from >= to {
        Seq::empty()
    } else {
        let rest = live_slots(m, from + 1, to);
        if m.is_live(from) {
            seq![from as usize] + rest
        } else {
            rest
        }
    }
}

/// Skipping slots that are not live skips nothing of the live ones.
proof fn lemma_live_skip(m: LayerMetadata, p: int, q: int, to: int)
    requires
        p <= q <= to,
        forall|k: int| p <= k < q ==> !#[trigger] m.is_live(k),
    ensures
        live_slots(m, p, to) == live_slots(m, q, to),
    decreases q - p,
{
    if p < q {
        assert(!m.is_live(p));
        lemma_live_skip(m, p + 1, q, to);
    }
}

/// `new` is `old` after taking slot `item` for an inserted component: the oldest vacant slot
/// if there is one, otherwise a new slot at the end with generation zero and no references.
/// The slot stays dead until something connects to it.
pub open spec fn inserted(old: LayerMetadata, new: LayerMetadata, item: nat) -> bool {
    &&& new.wf()
    &&& new.target_layers() == old.target_layers()
    &&& forall|k: int, c: int| #[trigger] new.target(k, c) == old.target(k, c)
    &&& forall|k: int| 0 <= k < old.slots() ==> #[trigger] new.generation(k) == old.generation(k)
    &&& forall|k: int| 0 <= k < old.slots() ==> #[trigger] new.refcount(k) == old.refcount(k)
    &&& if old.vacant().len() > 0 {
        &&& item == old.vacant()[0]
        &&& new.vacant() == old.vacant().drop_first()
        &&& new.slots() == old.slots()
    } else {
        &&& item == old.slots()
        &&& new.vacant() == old.vacant()
        &&& new.slots() == old.slots() + 1
        &&& new.generation(item as int) == 0
        &&& new.refcount(item as int) == 0
        &&& forall|c: int| #[trigger] new.target(item as int, c) is None
    }
    &&& old.vacant_unused() ==> {
        &&& new.vacant_unused()
        &&& new.refcount(item as int) == 0
        &&& !new.vacant().contains(item as usize)
    }
}

impl LayerMetadata {
    /// Take a slot for a new component and return it; returns whether it is a new slot.
    fn occupy_slot(&mut self) -> (r: (usize, bool))
        requires
            old(self).wf(),
        ensures
            inserted(*old(self), *final(self), r.0 as nat),
            r.1 == (old(self).vacant().len() == 0),
    {
        let ghost m0 = *self;
        match self.vacant_slots.pop_front() {
            Some(vacant_slot) => {
                // no generation increment here, that happens on delete
                proof {
                    assert forall|k: int| 0 <= k < self.vacant_slots@.len() implies #[trigger] self.vacant_slots@[k] < self.generations@.len() by {
                        assert(self.vacant_slots@[k] == m0.vacant_slots@[k + 1]);
                    }
                    if m0.vacant_unused() {
                        assert(m0.vacant()[0] == vacant_slot);
                        assert forall|k: int| 0 <= k < self.vacant().len() implies self.refcount(#[trigger] self.vacant()[k] as int) == 0 by {
                            assert(self.vacant()[k] == m0.vacant()[k + 1]);
                        }
                        assert(!self.vacant().contains(vacant_slot)) by {
                            if self.vacant().contains(vacant_slot) {
                                let k = choose|k: int| 0 <= k < self.vacant().len() && self.vacant()[k] == vacant_slot;
                                assert(m0.vacant()[k + 1] == m0.vacant()[0]);
                            }
                        }
                        assert(self.vacant().no_duplicates()) by {
                            assert forall|i: int, j: int| 0 <= i < self.vacant().len() && 0 <= j < self.vacant().len() && i != j
                                implies self.vacant()[i] != self.vacant()[j] by {
                                assert(self.vacant()[i] == m0.vacant()[i + 1]);
                                assert(self.vacant()[j] == m0.vacant()[j + 1]);
                            }
                        }
                    }
                }
                (vacant_slot, false)
            },
            None => {
                let idx = self.generations.len();
                self.refcounts.push(0);
                self.generations.push(0);
                proof {
                    assert forall|b: int| 0 <= b < self.edges@.len() implies #[trigger] self.edges@[b]@.len() <= self.generations@.len() by {
                        assert(m0.edges@[b]@.len() <= m0.generations@.len());
                    }
                    assert forall|k: int, c: int| #[trigger] self.target(k, c) == m0.target(k, c) by {
                        if 0 <= c < self.edges@.len() && k == idx {
                            assert(m0.edges@[c]@.len() <= m0.generations@.len());
                        }
                    }
                    if m0.vacant_unused() {
                        assert(self.vacant() == m0.vacant());
                        assert forall|k: int| 0 <= k < self.vacant().len() implies self.refcount(#[trigger] self.vacant()[k] as int) == 0 by {
                            assert(m0.vacant()[k] < m0.generations@.len());
                        }
                    }
                }
                (idx, true)
            },
        }
    }
}

impl<'a, T: Component> LayerViewMut<'a, T> {
    /// Insert a component into the layer, reusing the oldest vacant slot if there is one.
    ///
    /// This returns a reference to the node that was created,
    /// which you can use to connect it to other nodes.
    pub fn insert(&mut self, component: T) -> (r: NodeRefMut<'_, T>)
        requires
            old(self).wf(),
        ensures
            r.wf(),
            inserted(old(self).meta(), r.meta(), r.index()),
            r.component() == component,
            final(self).meta() == *final(r.layer_meta),
            final(self).contents() == crate::graph::placed(old(self).contents(), r.index() as int, *final(r.c)),
            *final(final(self).components) == *final(old(self).components),
    {
        let (item_idx, fresh) = self.meta.occupy_slot();
        if fresh {
            self.components.push(component);
        } else {
            self.components.set(item_idx, component);
        }
        NodeRefMut { c: &mut self.components[item_idx], idx: item_idx, layer_meta: &mut self.meta }
    }

    /// Get an immutable reference to a node if it still exists, otherwise return None.
    pub fn get(&self, key: NodeKey<T>) -> (r: Option<NodeRef<'_, T>>)
        requires
            self.wf(),
        ensures
            key_found(r, key, self.meta(), self.contents()),
    {
        if self.meta.generations.len() <= key.idx || self.meta.generations[key.idx] != key.gen {
            None
        } else {
            Some(self.get_unchecked(key))
        }
    }

    /// Get an immutable reference to a node without checking if it still exists.
    pub fn get_unchecked(&self, key: NodeKey<T>) -> (r: NodeRef<'_, T>)
        requires
            self.wf(),
            key.index() < self.contents().len(),
        ensures
            r.wf(),
            r.index() == key.index(),
            r.meta() == self.meta(),
            r.component() == self.contents()[key.index() as int],
    {
        NodeRef { c: &self.components[key.idx], idx: key.idx, layer_meta: &self.meta }
    }

    /// Get a mutable reference to a node if it still exists, otherwise return None.
    pub fn get_mut(&mut self, key: NodeKey<T>) -> (r: Option<NodeRefMut<'_, T>>)
        requires
            old(self).wf(),
        ensures
            if key.index() < old(self).meta().slots() && old(self).meta().generation(key.index() as int) == key.generation() {
                r matches Some(n) && {
                    &&& n.wf()
                    &&& n.index() == key.index()
                    &&& n.meta() == old(self).meta()
                    &&& n.component() == old(self).contents()[key.index() as int]
                    &&& final(self).meta() == *final(n.layer_meta)
                    &&& final(self).contents() == old(self).contents().update(key.index() as int, *final(n.c))
                }
            } else {
                r is None && *final(self) == *old(self)
            },
            *final(final(self).components) == *final(old(self).components),
    {
        if self.meta.generations.len() <= key.idx || self.meta.generations[key.idx] != key.gen {
            None
        } else {
            Some(self.get_mut_unchecked(key))
        }
    }

    /// Get a mutable reference to a node without checking if it still exists.
    pub fn get_mut_unchecked(&mut self, key: NodeKey<T>) -> (r: NodeRefMut<'_, T>)
        requires
            old(self).wf(),
            key.index() < old(self).contents().len(),
        ensures
            r.wf(),
            r.index() == key.index(),
            r.meta() == old(self).meta(),
            r.component() == old(self).contents()[key.index() as int],
            final(self).meta() == *final(r.layer_meta),
            final(self).contents() == old(self).contents().update(key.index() as int, *final(r.c)),
            *final(final(self).components) == *final(old(self).components),
    {
        NodeRefMut { c: &mut self.components[key.idx], idx: key.idx, layer_meta: &mut self.meta }
    }

    /// Iterate over the live nodes of this layer.
    pub fn iter(&self) -> (r: LayerIter<'_, T>)
        requires
            self.wf(),
        ensures
            r.wf(),
            r.position() == 0,
            r.meta() == self.meta(),
            r.contents() == self.contents(),
    {
        LayerIter { layer_meta: &self.meta, components: self.components.as_slice(), pos: 0 }
    }

    /// The number of slots, live or dead.
    pub fn len(&self) -> (r: usize)
        ensures
            r == self.contents().len(),
    {
        self.components.len()
    }
}

/// A node handed out by [`LayerIterMut`]: mutable access to the component, shared access to
/// the layer's metadata.
pub struct NodeMut<'a, T: Component> {
    /// The component that this node points to.
    pub c: &'a mut T,
    idx: usize,
    layer_meta: &'a LayerMetadata,
}

impl<'a, T: Component> NodeMut<'a, T> {
    pub closed spec fn index(&self) -> nat {
        self.idx as nat
    }

    pub closed spec fn meta(&self) -> LayerMetadata {
        *self.layer_meta
    }

    pub closed spec fn component(&self) -> T {
        *self.c
    }

    pub open spec fn wf(&self) -> bool {
        self.meta().wf() && self.index() < self.meta().slots()
    }

    /// If there's an edge starting from this node and ending at a node of the given type,
    /// get a reference to that node, otherwise return None.
    pub fn get_neighbor<'lr, 'l, Target: Component>(&self, layer: &'lr LayerView<'l, Target>) -> (r: Option<
        NodeRef<'lr, Target>,
    >)
        requires
            layer.wf(),
            self.meta().target(self.index() as int, Target::LAYER_INDEX as int) matches Some(t) ==> t < layer.contents().len(),
        ensures
            neighbor_found(r, self.meta().target(self.index() as int, Target::LAYER_INDEX as int), layer),
    {
        get_neighbor(self.layer_meta, self.idx, layer)
    }

    /// If there's an edge starting from this node and ending at a node of the given type,
    /// get a mutable reference to that node, otherwise return None.
    pub fn get_neighbor_mut<'lr, 'l, Target: Component>(&self, layer: &'lr mut LayerViewMut<'l, Target>) -> (r: Option<
        NodeRefMut<'lr, Target>,
    >)
        requires
            old(layer).wf(),
            self.meta().target(self.index() as int, Target::LAYER_INDEX as int) matches Some(t) ==> t < old(layer).contents().len(),
        ensures
            neighbor_found_mut(r, self.meta().target(self.index() as int, Target::LAYER_INDEX as int), *old(layer)),
    {
        get_neighbor_mut(self.layer_meta, self.idx, layer)
    }

    /// Get a key that can be used to access this node later.
    pub fn key(&self) -> (r: NodeKey<T>)
        requires
            self.wf(),
        ensures
            r.index() == self.index(),
            r.generation() == self.meta().generation(self.index() as int),
    {
        NodeKey { idx: self.idx, gen: self.layer_meta.generations[self.idx], _marker: PhantomData }
    }
}

impl<'a, T: Component> LayerViewMut<'a, T> {
    /// Iterate over the live nodes of this layer with mutable access to their components.
    pub fn iter_mut(&mut self) -> (r: LayerIterMut<'_, T>)
        requires
            old(self).wf(),
        ensures
            r.wf(),
            r.position() == 0,
            r.meta() == old(self).meta(),
            r.remaining() == old(self).contents(),
    {
        LayerIterMut { layer_meta: &self.meta, rest: self.components.as_mut_slice(), pos: 0 }
    }
}

/// A mutable iterator over the live nodes of a single layer.
pub struct LayerIterMut<'a, T: Component> {
    layer_meta: &'a LayerMetadata,
    rest: &'a mut [T],
    pos: usize,
}

impl<'a, T: Component> LayerIterMut<'a, T> {
    pub closed spec fn position(&self) -> nat {
        self.pos as nat
    }

    pub closed spec fn meta(&self) -> LayerMetadata {
        *self.layer_meta
    }

    /// The components from the current position on.
    pub closed spec fn remaining(&self) -> Seq<T> {
        self.rest@
    }

    pub open spec fn wf(&self) -> bool {
        self.meta().wf() && self.position() + self.remaining().len() == self.meta().slots()
    }

    /// The next live node at or after the current position.
    pub fn next(&mut self) -> (r: Option<NodeMut<'a, T>>)
        requires
            old(self).wf(),
        ensures
            final(self).wf(),
            final(self).meta() == old(self).meta(),
            match r {
                None => {
                    &&& forall|k: int| old(self).position() <= k < old(self).meta().slots() ==> !#[trigger] old(self).meta().is_live(k)
                    &&& final(self).remaining().len() == 0
                },
                Some(n) => {
                    &&& n.wf()
                    &&& n.meta() == old(self).meta()
                    &&& old(self).position() <= n.index() < old(self).meta().slots()
                    &&& old(self).meta().is_live(n.index() as int)
                    &&& forall|k: int| old(self).position() <= k < n.index() ==> !#[trigger] old(self).meta().is_live(k)
                    &&& n.component() == old(self).remaining()[n.index() - old(self).position()]
                    &&& final(self).position() == n.index() + 1
                    &&& final(self).remaining() == old(self).remaining().subrange(
                        n.index() - old(self).position() + 1,
                        old(self).remaining().len() as int,
                    )
                },
            },
    {
        let ghost p0 = self.pos;
        let ghost r0 = self.rest@;
        loop
            invariant
                p0 <= self.pos,
                p0 == old(self).pos,
                self.layer_meta == old(self).layer_meta,
                r0 == old(self).rest@,
                self.wf(),
                self.pos - p0 + self.rest@.len() == r0.len(),
                self.rest@ == r0.subrange(self.pos - p0, r0.len() as int),
                forall|k: int| p0 <= k < self.pos ==> !#[trigger] old(self).meta().is_live(k),
            decreases self.rest@.len(),
        {
            if self.rest.len() == 0 {
                return None;
            }
            let mut taken: &'a mut [T] = &mut [];
            std::mem::swap(&mut taken, &mut self.rest);
            let (head, tail) = taken.split_at_mut(1);
            self.rest = tail;
            let idx = self.pos;
            proof {
                assert(self.layer_meta.generations@.len() == self.layer_meta.generations.len());
            }
            self.pos = self.pos + 1;
            if self.layer_meta.refcounts[idx] > 0 {
                return Some(NodeMut { c: &mut head[0], idx, layer_meta: self.layer_meta });
            }
        }
    }
}



/// `new` has the slots, generations, vacant slots and edge rows of `old`, row for row.
pub open spec fn layer_same_slots(old: LayerMetadata, new: LayerMetadata) -> bool {
    &&& new.wf()
    &&& new.target_layers() == old.target_layers()
    &&& new.slots() == old.slots()
    &&& new.vacant() == old.vacant()
    &&& forall|c: int| 0 <= c < old.target_layers() ==> #[trigger] new.row_len(c) == old.row_len(c)
    &&& forall|k: int| 0 <= k < old.slots() ==> #[trigger] new.generation(k) == old.generation(k)
}

impl LayerMetadata {
    /// Remove the edge from slot `i` to layer `b`.
    fn clear_edge(&mut self, i: usize, b: usize)
        requires
            old(self).wf(),
            b < old(self).target_layers(),
            i < old(self).row_len(b as int),
        ensures
            layer_same_slots(*old(self), *final(self)),
            forall|k: int| 0 <= k < old(self).slots() ==> #[trigger] final(self).refcount(k) == old(self).refcount(k),
            forall|k: int, c: int| #[trigger] final(self).target(k, c) == if k == i && c == b {
                None
            } else {
                old(self).target(k, c)
            },
    {
        let ghost m0 = *self;
        self.edges[b][i] = None;
        proof {
            assert forall|x: int| 0 <= x < self.edges@.len() implies #[trigger] self.edges@[x]@.len() <= self.generations@.len() by {
                if x != b {
                    assert(self.edges@[x] == m0.edges@[x]);
                }
            }
            assert forall|c: int| 0 <= c < m0.target_layers() implies #[trigger] self.row_len(c) == m0.row_len(c) by {
                if c != b {
                    assert(self.edges@[c] == m0.edges@[c]);
                }
            }
            assert forall|k: int, c: int| #[trigger] self.target(k, c) == if k == i && c == b {
                None
            } else {
                m0.target(k, c)
            } by {
                if 0 <= c < self.edges@.len() && c != b {
                    assert(self.edges@[c] == m0.edges@[c]);
                }
            }
        }
    }

    /// Count one reference less to slot `i`.
    fn drop_ref(&mut self, i: usize)
        requires
            old(self).wf(),
            i < old(self).slots(),
            old(self).refcount(i as int) > 0,
        ensures
            layer_same_slots(*old(self), *final(self)),
            forall|k: int, c: int| #[trigger] final(self).target(k, c) == old(self).target(k, c),
            forall|k: int| 0 <= k < old(self).slots() ==> #[trigger] final(self).refcount(k) == if k == i {
                old(self).refcount(k) - 1
            } else {
                old(self).refcount(k) as int
            },
    {
        let r = self.refcounts[i];
        self.refcounts.set(i, r - 1);
    }

    /// Bump the generation of slot `i` so that old keys go stale, and queue it for reuse.
    fn retire(&mut self, i: usize)
        requires
            old(self).wf(),
            i < old(self).slots(),
            old(self).generation(i as int) < usize::MAX,
        ensures
            final(self).wf(),
            final(self).target_layers() == old(self).target_layers(),
            final(self).slots() == old(self).slots(),
            forall|c: int| 0 <= c < old(self).target_layers() ==> #[trigger] final(self).row_len(c) == old(self).row_len(c),
            forall|k: int, c: int| #[trigger] final(self).target(k, c) == old(self).target(k, c),
            forall|k: int| 0 <= k < old(self).slots() ==> #[trigger] final(self).refcount(k) == old(self).refcount(k),
            final(self).vacant() == old(self).vacant().push(i),
            forall|k: int| 0 <= k < old(self).slots() ==> #[trigger] final(self).generation(k) == if k == i {
                old(self).generation(k) + 1
            } else {
                old(self).generation(k) as int
            },
    {
        let ghost m0 = *self;
        let g = self.generations[i];
        self.generations.set(i, g + 1);
        self.vacant_slots.push_back(i);
        proof {
            assert forall|x: int| 0 <= x < self.edges@.len() implies #[trigger] self.edges@[x]@.len() <= self.generations@.len() by {
                assert(m0.edges@[x]@.len() <= m0.generations@.len());
            }
            assert forall|k: int| 0 <= k < self.vacant_slots@.len() implies #[trigger] self.vacant_slots@[k] < self.generations@.len() by {
                if k < m0.vacant_slots@.len() {
                    assert(self.vacant_slots@[k] == m0.vacant_slots@[k]);
                }
            }
        }
    }
}

//
// Graph
//

/// The component graph: the edges, reference counts, generations and vacant slots of every
/// layer. The components themselves live in one `Vec` per layer that the caller hands in
/// when it takes a view; a layer taken for writing is out of the graph until it is released.
pub struct Graph {
    layers: Vec<LayerMetadata>,
    in_use: Vec<bool>,
}

impl Graph {
    /// The number of layers.
    pub closed spec fn layer_count(&self) -> nat {
        self.layers@.len()
    }

    /// The metadata of layer `l`.
    pub closed spec fn layer(&self, l: int) -> LayerMetadata {
        self.layers@[l]
    }

    /// Layer `l` is in the graph, not taken for writing.
    pub closed spec fn available(&self, l: int) -> bool {
        !self.in_use@[l]
    }

    pub open spec fn all_available(&self) -> bool {
        forall|l: int| 0 <= l < self.layer_count() ==> #[trigger] self.available(l)
    }

    pub closed spec fn wf(&self) -> bool {
        &&& self.layers@.len() <= usize::MAX
        &&& self.in_use@.len() == self.layers@.len()
        &&& forall|l: int| 0 <= l < self.layers@.len() && #[trigger] self.available(l) ==> {
            &&& self.layer(l).wf()
            &&& self.layer(l).target_layers() == self.layers@.len()
        }
    }

    /// The edge tables of all layers.
    pub closed spec fn tables(&self) -> Tables {
        Seq::new(self.layers@.len(), |l: int| self.layers@[l].edges@.map_values(|r: Vec<Option<usize>>| r@))
    }

    /// The slot of layer `b` that node `n` has an edge to, if any.
    pub open spec fn edge(&self, n: BareNodeKey, b: int) -> Option<usize> {
        cell(self.tables(), n, b)
    }

    /// The reference count of node `n`.
    pub open spec fn refs(&self, n: BareNodeKey) -> usize {
        self.layer(n.layer as int).refcount(n.idx as int)
    }

    /// `n` is a slot of one of the layers.
    pub open spec fn has_slot(&self, n: BareNodeKey) -> bool {
        n.layer < self.layer_count() && n.idx < self.layer(n.layer as int).slots()
    }

    /// An edge of the graph is an edge of the metadata of its layer.
    pub proof fn lemma_edge(&self, n: BareNodeKey, b: int)
        requires
            self.wf(),
            n.layer < self.layer_count() ==> self.available(n.layer as int),
        ensures
            self.edge(n, b) == if n.layer < self.layer_count() {
                self.layer(n.layer as int).target(n.idx as int, b)
            } else {
                None
            },
            self.edge(n, b) is Some ==> 0 <= b < self.layer_count() && n.layer < self.layer_count()
                && n.idx < self.layer(n.layer as int).row_len(b),
    {
        if n.layer < self.layers@.len() {
            let l = n.layer as int;
            assert(self.tables()[l] == self.layers@[l].edges@.map_values(|r: Vec<Option<usize>>| r@));
            if 0 <= b < self.layers@[l].edges@.len() {
                assert(self.tables()[l][b] == self.layers@[l].edges@[b]@);
            }
        }
    }

    /// A graph with `layer_count` empty layers.
    pub fn new(layer_count: usize) -> (r: Self)
        ensures
            r.wf(),
            r.all_available(),
            r.layer_count() == layer_count,
            forall|l: int| 0 <= l < layer_count ==> #[trigger] r.layer(l).slots() == 0 && r.layer(l).vacant() == Seq::<usize>::empty(),
            forall|n: BareNodeKey, b: int| #[trigger] r.edge(n, b) is None,
            counts_sound(r),
    {
        let mut layers: Vec<LayerMetadata> = Vec::new();
        let mut in_use: Vec<bool> = Vec::new();
        let mut l: usize = 0;
        while l < layer_count
            invariant
                l <= layer_count,
                layers@.len() == l,
                in_use@.len() == l,
                forall|k: int| 0 <= k < l ==> !(#[trigger] in_use@[k]),
                forall|k: int| 0 <= k < l ==> {
                    &&& (#[trigger] layers@[k]).wf()
                    &&& layers@[k].target_layers() == layer_count
                    &&& layers@[k].slots() == 0
                    &&& layers@[k].vacant() == Seq::<usize>::empty()
                },
            decreases layer_count - l,
        {
            layers.push(LayerMetadata::new(layer_count));
            in_use.push(false);
            l = l + 1;
        }
        let r = Graph { layers, in_use };
        proof {
            assert forall|n: BareNodeKey, b: int| #[trigger] r.edge(n, b) is None by {
                r.lemma_edge(n, b);
            }
            assert forall|m: BareNodeKey| !#[trigger] r.has_slot(m) by {
                if m.layer < r.layer_count() {
                    assert(r.layer(m.layer as int).slots() == 0);
                }
            }
            assert forall|l: int| 0 <= l < r.layer_count() implies (#[trigger] r.layer(l)).vacant_unused() by {
                assert(r.layer(l).vacant() == Seq::<usize>::empty());
            }
        }
        r
    }

    /// View a layer for reading, with `components` as the components of its slots.
    ///
    /// The layer must not be taken for writing.
    pub fn get_layer<'a, T: Component>(&'a self, components: &'a [T]) -> (r: LayerView<'a, T>)
        requires
            self.wf(),
            T::LAYER_INDEX < self.layer_count(),
            self.available(T::LAYER_INDEX as int),
            components@.len() == self.layer(T::LAYER_INDEX as int).slots(),
        ensures
            r.wf(),
            r.meta() == self.layer(T::LAYER_INDEX as int),
            r.contents() == components@,
    {
        LayerView { meta: &self.layers[T::LAYER_INDEX], components }
    }

    /// Take a layer out of the graph for writing, with `components` as the components of its
    /// slots. It stays out until it is given back with [`Graph::release_layer`].
    pub fn get_layer_mut<'a, T: Component>(&mut self, components: &'a mut Vec<T>) -> (r: LayerViewMut<'a, T>)
        requires
            old(self).wf(),
            T::LAYER_INDEX < old(self).layer_count(),
            old(self).available(T::LAYER_INDEX as int),
            old(components)@.len() == old(self).layer(T::LAYER_INDEX as int).slots(),
        ensures
            final(self).wf(),
            final(self).layer_count() == old(self).layer_count(),
            r.wf(),
            r.meta() == old(self).layer(T::LAYER_INDEX as int),
            r.contents() == old(components)@,
            r.meta().target_layers() == old(self).layer_count(),
            *final(components) == *final(r.components),
            !final(self).available(T::LAYER_INDEX as int),
            forall|l: int| 0 <= l < old(self).layer_count() && l != T::LAYER_INDEX ==> #[trigger] final(self).available(l)
                == old(self).available(l),
            forall|l: int| 0 <= l < old(self).layer_count() && l != T::LAYER_INDEX ==> #[trigger] final(self).layer(l)
                == old(self).layer(l),
    {
        let ghost g0 = *self;
        let mut meta = LayerMetadata::new(0);
        std::mem::swap(&mut meta, &mut self.layers[T::LAYER_INDEX]);
        self.in_use.set(T::LAYER_INDEX, true);
        proof {
            assert(meta == g0.layers@[T::LAYER_INDEX as int]);
            assert forall|l: int| 0 <= l < g0.layers@.len() && l != T::LAYER_INDEX implies self.layers@[l] == g0.layers@[l]
                && self.in_use@[l] == g0.in_use@[l] by {}
            assert forall|l: int| 0 <= l < self.layers@.len() && #[trigger] self.available(l) implies {
                &&& self.layer(l).wf()
                &&& self.layer(l).target_layers() == self.layers@.len()
            } by {
                assert(g0.available(l));
            }
        }
        LayerViewMut { meta, components }
    }

    /// Give a layer taken with [`Graph::get_layer_mut`] back to the graph.
    pub fn release_layer<'a, T: Component>(&mut self, view: LayerViewMut<'a, T>)
        requires
            old(self).wf(),
            T::LAYER_INDEX < old(self).layer_count(),
            !old(self).available(T::LAYER_INDEX as int),
            view.wf(),
            view.meta().target_layers() == old(self).layer_count(),
        ensures
            final(self).wf(),
            final(self).layer_count() == old(self).layer_count(),
            final(self).available(T::LAYER_INDEX as int),
            final(self).layer(T::LAYER_INDEX as int) == view.meta(),
            *final(view.components) == *old(view.components),
            forall|l: int| 0 <= l < old(self).layer_count() && l != T::LAYER_INDEX ==> #[trigger] final(self).available(l)
                == old(self).available(l),
            forall|l: int| 0 <= l < old(self).layer_count() && l != T::LAYER_INDEX ==> #[trigger] final(self).layer(l)
                == old(self).layer(l),
    {
        let ghost g0 = *self;
        let LayerViewMut { meta, components } = view;
        self.layers.set(T::LAYER_INDEX, meta);
        self.in_use.set(T::LAYER_INDEX, false);
        proof {
            assert forall|l: int| 0 <= l < self.layers@.len() && #[trigger] self.available(l) implies {
                &&& self.layer(l).wf()
                &&& self.layer(l).target_layers() == self.layers@.len()
            } by {
                if l != T::LAYER_INDEX {
                    assert(g0.available(l));
                }
            }
        }
    }
}

//
// Delete
//

/// Node `v` has an edge to node `n`.
pub open spec fn points_to(g: Graph, v: BareNodeKey, n: BareNodeKey) -> bool {
    g.edge(v, n.layer as int) == Some(n.idx)
}

/// The nodes of `vs` that have an edge to `n`.
pub open spec fn pointing(g: Graph, vs: Set<BareNodeKey>, n: BareNodeKey) -> Set<BareNodeKey> {
    vs.filter(|v: BareNodeKey| points_to(g, v, n))
}

/// The nodes reachable from `root` along edges: the object that `root` belongs to.
pub open spec fn object(g: Graph, root: BareNodeKey) -> Set<BareNodeKey> {
    gathered(g.tables(), Seq::<usize>::empty(), root)
}

/// The nodes of the object of `root` that more edges point to than the object has: shared
/// with something outside it.
pub open spec fn shared_roots(g: Graph, root: BareNodeKey) -> Set<BareNodeKey> {
    object(g, root).filter(|n: BareNodeKey| g.refs(n) != pointing(g, object(g, root), n).len())
}

/// The nodes reachable from a shared node of the object of `root`: kept by a delete.
pub open spec fn shared(g: Graph, root: BareNodeKey) -> Set<BareNodeKey> {
    Set::new(|n: BareNodeKey| exists|s: BareNodeKey| #[trigger] shared_roots(g, root).contains(s) && object(g, s).contains(n))
}

/// The nodes that the object of `root` owns alone: their edges are removed by a delete.
pub open spec fn owned(g: Graph, root: BareNodeKey) -> Set<BareNodeKey> {
    object(g, root).difference(shared(g, root))
}

/// The nodes of the object of `root` that no edge points to once the owned nodes' edges
/// are gone: retired by a delete.
pub open spec fn freed(g: Graph, root: BareNodeKey) -> Set<BareNodeKey> {
    object(g, root).filter(|n: BareNodeKey| g.refs(n) == pointing(g, owned(g, root), n).len())
}

/// The vacant slots of layer `l` went from those of `m0` to those of `m` by appending, each
/// once, the slots of the nodes of `gone` in that layer.
pub open spec fn slots_freed(m0: LayerMetadata, m: LayerMetadata, gone: Set<BareNodeKey>, l: int) -> bool {
    let freed = m.vacant().skip(m0.vacant().len() as int);
    &&& m0.vacant().len() <= m.vacant().len()
    &&& m.vacant().take(m0.vacant().len() as int) == m0.vacant()
    &&& freed.no_duplicates()
    &&& forall|x: usize| freed.contains(x) <==> gone.contains(BareNodeKey { layer: l as usize, idx: x })
}

/// The vacant slots of layer `l` went from those of `m0` to those of `m` by appending the
/// slots of that layer that `gone` holds, in the order in which `walk` lists them.
pub open spec fn slots_freed_in_order(m0: LayerMetadata, m: LayerMetadata, walk: Seq<BareNodeKey>, gone: Set<BareNodeKey>, l: int) -> bool {
    m.vacant() == m0.vacant() + idx_in_layer_if(walk, l, |x: BareNodeKey| gone.contains(x))
}

/// How many of the nodes of `vs` that `keep` selects have an edge to `n`.
pub open spec fn count_in(g: Graph, vs: Seq<BareNodeKey>, n: BareNodeKey, keep: spec_fn(BareNodeKey) -> bool) -> nat
    decreases vs.len(),
{
    if vs.len() == 0 {
        0
    } else {
        count_in(g, vs.drop_last(), n, keep) + if keep(vs.last()) && points_to(g, vs.last(), n) {
            1nat
        } else {
            0nat
        }
    }
}

/// Selecting by two predicates that agree on the nodes selects the same slots.
proof fn lemma_idx_in_layer_if_same(ns: Seq<BareNodeKey>, l: int, p: spec_fn(BareNodeKey) -> bool, q: spec_fn(BareNodeKey) -> bool)
    requires
        forall|i: int| 0 <= i < ns.len() ==> p(#[trigger] ns[i]) == q(ns[i]),
    ensures
        idx_in_layer_if(ns, l, p) == idx_in_layer_if(ns, l, q),
    decreases ns.len(),
{
    if ns.len() > 0 {
        let front = ns.drop_last();
        assert forall|i: int| 0 <= i < front.len() implies p(#[trigger] front[i]) == q(front[i]) by {
            assert(front[i] == ns[i]);
        }
        lemma_idx_in_layer_if_same(front, l, p, q);
        assert(p(ns[ns.len() - 1]) == q(ns[ns.len() - 1]));
    }
}

/// Counting along distinct nodes counts a set.
proof fn lemma_count_in_set(g: Graph, vs: Seq<BareNodeKey>, n: BareNodeKey, keep: spec_fn(BareNodeKey) -> bool)
    requires
        vs.no_duplicates(),
    ensures
        vs.to_set().filter(|v: BareNodeKey| keep(v) && points_to(g, v, n)).finite(),
        count_in(g, vs, n, keep) == vs.to_set().filter(|v: BareNodeKey| keep(v) && points_to(g, v, n)).len(),
    decreases vs.len(),
{
    let p = |v: BareNodeKey| keep(v) && points_to(g, v, n);
    if vs.len() == 0 {
        assert(vs.to_set().filter(p) =~= Set::empty());
    } else {
        let front = vs.drop_last();
        let last = vs.last();
        assert(front.no_duplicates()) by {
            assert forall|i: int, j: int| 0 <= i < j < front.len() implies front[i] != front[j] by {
                assert(front[i] == vs[i] && front[j] == vs[j]);
            }
        }
        lemma_count_in_set(g, front, n, keep);
        assert(vs.to_set() =~= front.to_set().insert(last)) by {
            assert forall|y: BareNodeKey| vs.to_set().contains(y) <==> front.to_set().insert(last).contains(y) by {
                if vs.contains(y) {
                    let i = choose|i: int| 0 <= i < vs.len() && vs[i] == y;
                    if i < vs.len() - 1 {
                        assert(front[i] == y);
                    }
                }
                if front.contains(y) {
                    let i = choose|i: int| 0 <= i < front.len() && front[i] == y;
                    assert(vs[i] == y);
                }
                if y == last {
                    assert(vs[vs.len() - 1] == y);
                }
            }
        }
        assert(!front.to_set().contains(last)) by {
            if front.contains(last) {
                let i = choose|i: int| 0 <= i < front.len() && front[i] == last;
                assert(vs[i] == vs[vs.len() - 1]);
            }
        }
        if p(last) {
            assert(vs.to_set().filter(p) =~= front.to_set().filter(p).insert(last));
        } else {
            assert(vs.to_set().filter(p) =~= front.to_set().filter(p));
        }
    }
}

/// A prefix counts no more than the whole.
proof fn lemma_count_in_prefix(g: Graph, vs: Seq<BareNodeKey>, n: BareNodeKey, keep: spec_fn(BareNodeKey) -> bool, k: int)
    requires
        0 <= k <= vs.len(),
    ensures
        count_in(g, vs.take(k), n, keep) <= count_in(g, vs, n, keep),
    decreases vs.len() - k,
{
    if k < vs.len() {
        lemma_count_in_prefix(g, vs, n, keep, k + 1);
        assert(vs.take(k + 1).drop_last() =~= vs.take(k));
    } else {
        assert(vs.take(k) =~= vs);
    }
}

/// The slots of layer `l` among the nodes of `ns` that `p` selects, in order.
pub open spec fn idx_in_layer_if(ns: Seq<BareNodeKey>, l: int, p: spec_fn(BareNodeKey) -> bool) -> Seq<usize>
    decreases ns.len(),
{
    if ns.len() == 0 {
        Seq::empty()
    } else {
        let rest = idx_in_layer_if(ns.drop_last(), l, p);
        if ns.last().layer as int == l && p(ns.last()) {
            rest.push(ns.last().idx)
        } else {
            rest
        }
    }
}

/// The slots picked from distinct nodes are distinct, and are those of the picked nodes in `l`.
proof fn lemma_idx_in_layer_if(ns: Seq<BareNodeKey>, l: int, p: spec_fn(BareNodeKey) -> bool)
    requires
        ns.no_duplicates(),
        0 <= l <= usize::MAX,
    ensures
        idx_in_layer_if(ns, l, p).no_duplicates(),
        forall|x: usize| idx_in_layer_if(ns, l, p).contains(x) <==> ns.contains(BareNodeKey { layer: l as usize, idx: x })
            && p(BareNodeKey { layer: l as usize, idx: x }),
    decreases ns.len(),
{
    if ns.len() > 0 {
        let front = ns.drop_last();
        assert(front.no_duplicates()) by {
            assert forall|i: int, j: int| 0 <= i < j < front.len() implies front[i] != front[j] by {
                assert(front[i] == ns[i] && front[j] == ns[j]);
            }
        }
        lemma_idx_in_layer_if(front, l, p);
        let rest = idx_in_layer_if(front, l, p);
        let last = ns.last();
        assert forall|y: BareNodeKey| ns.contains(y) <==> front.contains(y) || y == last by {
            if ns.contains(y) {
                let i = choose|i: int| 0 <= i < ns.len() && ns[i] == y;
                if i < ns.len() - 1 {
                    assert(front[i] == y);
                }
            }
            if front.contains(y) {
                let i = choose|i: int| 0 <= i < front.len() && front[i] == y;
                assert(ns[i] == y);
            }
            if y == last {
                assert(ns[ns.len() - 1] == y);
            }
        }
        if last.layer as int == l && p(last) {
            assert(!front.contains(last)) by {
                if front.contains(last) {
                    let i = choose|i: int| 0 <= i < front.len() && front[i] == last;
                    assert(ns[i] == ns[ns.len() - 1]);
                }
            }
            assert(!rest.contains(last.idx));
            let q = rest.push(last.idx);
            assert(q.no_duplicates()) by {
                assert forall|i: int, j: int| 0 <= i < j < q.len() implies q[i] != q[j] by {
                    if j == rest.len() {
                        assert(q[i] == rest[i]);
                        assert(rest.contains(rest[i]));
                    } else {
                        assert(q[i] == rest[i] && q[j] == rest[j]);
                    }
                }
            }
            assert forall|x: usize| q.contains(x) <==> ns.contains(BareNodeKey { layer: l as usize, idx: x })
                && p(BareNodeKey { layer: l as usize, idx: x }) by {
                if q.contains(x) {
                    let i = choose|i: int| 0 <= i < q.len() && q[i] == x;
                    if i < rest.len() {
                        assert(rest[i] == x);
                        assert(rest.contains(x));
                    } else {
                        assert(last == BareNodeKey { layer: l as usize, idx: x });
                    }
                }
                if x == last.idx {
                    assert(q[rest.len() as int] == x);
                }
                if rest.contains(x) {
                    let i = choose|i: int| 0 <= i < rest.len() && rest[i] == x;
                    assert(q[i] == x);
                }
            }
        } else {
            assert forall|x: usize| idx_in_layer_if(ns, l, p).contains(x) <==> ns.contains(BareNodeKey { layer: l as usize, idx: x })
                && p(BareNodeKey { layer: l as usize, idx: x }) by {
                if (BareNodeKey { layer: l as usize, idx: x }) == last {
                    assert(!p(last));
                }
            }
        }
    }
}

/// `g` is `g0` with its layers in place, their slots, rows, generations and vacant slots kept.
pub open spec fn same_shape(g0: Graph, g: Graph) -> bool {
    &&& g.wf()
    &&& g.all_available()
    &&& g.layer_count() == g0.layer_count()
    &&& forall|l: int| 0 <= l < g0.layer_count() ==> #[trigger] layer_same_slots(g0.layer(l), g.layer(l))
}

/// `g` is `g0` with the edges of `v` to layers below `b` removed, and the references they
/// made dropped.
pub open spec fn node_progress(g0: Graph, g: Graph, v: BareNodeKey, b: int) -> bool {
    &&& same_shape(g0, g)
    &&& forall|n: BareNodeKey, c: int| #[trigger] g.edge(n, c) == if n == v && c < b {
        None
    } else {
        g0.edge(n, c)
    }
    &&& forall|m: BareNodeKey| #[trigger] g0.has_slot(m) ==> g.refs(m) == g0.refs(m) - if points_to(g0, v, m) && m.layer < b {
        1int
    } else {
        0int
    }
}

/// `node_progress` at `b` with the edge of `v` to layer `b` already removed, its reference not
/// dropped yet.
pub open spec fn node_mid(g0: Graph, g: Graph, v: BareNodeKey, b: int) -> bool {
    &&& same_shape(g0, g)
    &&& forall|n: BareNodeKey, c: int| #[trigger] g.edge(n, c) == if n == v && c <= b {
        None
    } else {
        g0.edge(n, c)
    }
    &&& forall|m: BareNodeKey| #[trigger] g0.has_slot(m) ==> g.refs(m) == g0.refs(m) - if points_to(g0, v, m) && m.layer < b {
        1int
    } else {
        0int
    }
}

/// `g2` is `g1` with layer `l` replaced.
spec fn layer_replaced(g1: Graph, g2: Graph, l: int) -> bool {
    &&& g2.in_use@ == g1.in_use@
    &&& g2.layers@ == g1.layers@.update(l, g2.layers@[l])
}

proof fn lemma_shape_step(g0: Graph, g1: Graph, g2: Graph, l: int)
    requires
        same_shape(g0, g1),
        0 <= l < g1.layer_count(),
        layer_replaced(g1, g2, l),
        layer_same_slots(g1.layer(l), g2.layer(l)),
    ensures
        same_shape(g0, g2),
        forall|n: BareNodeKey, c: int| n.layer != l ==> #[trigger] g2.edge(n, c) == g1.edge(n, c),
        forall|n: BareNodeKey, c: int| n.layer == l ==> #[trigger] g2.edge(n, c) == g2.layer(l).target(n.idx as int, c),
        forall|n: BareNodeKey, c: int| n.layer == l ==> #[trigger] g1.edge(n, c) == g1.layer(l).target(n.idx as int, c),
        forall|m: BareNodeKey| m.layer != l && m.layer < g1.layer_count() ==> #[trigger] g2.refs(m) == g1.refs(m),
{
    assert forall|k: int| 0 <= k < g2.layer_count() && #[trigger] g2.available(k) implies {
        &&& g2.layer(k).wf()
        &&& g2.layer(k).target_layers() == g2.layers@.len()
    } by {
        assert(g1.available(k));
        assert(layer_same_slots(g0.layer(k), g1.layer(k)));
    }
    assert forall|k: int| 0 <= k < g2.layer_count() implies #[trigger] g2.available(k) by {
        assert(g1.available(k));
    }
    assert forall|k: int| 0 <= k < g0.layer_count() implies #[trigger] layer_same_slots(g0.layer(k), g2.layer(k)) by {
        assert(layer_same_slots(g0.layer(k), g1.layer(k)));
        if k == l {
            assert forall|c: int| 0 <= c < g0.layer(k).target_layers() implies #[trigger] g2.layer(k).row_len(c) == g0.layer(k).row_len(c) by {
                assert(g1.layer(k).row_len(c) == g0.layer(k).row_len(c));
            }
            assert forall|i: int| 0 <= i < g0.layer(k).slots() implies #[trigger] g2.layer(k).generation(i) == g0.layer(k).generation(i) by {
                assert(g1.layer(k).generation(i) == g0.layer(k).generation(i));
            }
        }
    }
    assert forall|n: BareNodeKey, c: int| n.layer != l implies #[trigger] g2.edge(n, c) == g1.edge(n, c) by {
        g2.lemma_edge(n, c);
        g1.lemma_edge(n, c);
        if n.layer < g1.layer_count() {
            assert(g1.available(n.layer as int));
            assert(g2.layers@[n.layer as int] == g1.layers@[n.layer as int]);
        }
    }
    assert forall|n: BareNodeKey, c: int| n.layer == l implies #[trigger] g2.edge(n, c) == g2.layer(l).target(n.idx as int, c) by {
        g2.lemma_edge(n, c);
    }
    assert forall|n: BareNodeKey, c: int| n.layer == l implies #[trigger] g1.edge(n, c) == g1.layer(l).target(n.idx as int, c) by {
        g1.lemma_edge(n, c);
    }
}

/// Removing the edge of `v` to layer `b`.
proof fn lemma_progress_clear(g0: Graph, g1: Graph, g2: Graph, v: BareNodeKey, b: int)
    requires
        node_progress(g0, g1, v, b),
        v.layer < g1.layer_count(),
        layer_replaced(g1, g2, v.layer as int),
        layer_same_slots(g1.layer(v.layer as int), g2.layer(v.layer as int)),
        forall|k: int| 0 <= k < g1.layer(v.layer as int).slots() ==> #[trigger] g2.layer(v.layer as int).refcount(k)
            == g1.layer(v.layer as int).refcount(k),
        forall|k: int, c: int| #[trigger] g2.layer(v.layer as int).target(k, c) == if k == v.idx && c == b {
            None
        } else {
            g1.layer(v.layer as int).target(k, c)
        },
    ensures
        node_mid(g0, g2, v, b),
{
    lemma_shape_step(g0, g1, g2, v.layer as int);
    let l = v.layer as int;
    assert forall|m: BareNodeKey| #[trigger] g0.has_slot(m) implies g2.refs(m) == g0.refs(m) - if points_to(g0, v, m) && m.layer < b {
        1int
    } else {
        0int
    } by {
        if m.layer == v.layer {
            assert(layer_same_slots(g0.layer(l), g1.layer(l)));
            assert(g2.layer(l).refcount(m.idx as int) == g1.layer(l).refcount(m.idx as int));
        }
    }
    assert forall|n: BareNodeKey, c: int| #[trigger] g2.edge(n, c) == if n == v && c <= b {
        None
    } else {
        g0.edge(n, c)
    } by {
        assert(g1.edge(n, c) == if n == v && c < b { None } else { g0.edge(n, c) });
        if n.layer == v.layer {
            assert(g2.edge(n, c) == g2.layer(l).target(n.idx as int, c));
            assert(g1.edge(n, c) == g1.layer(l).target(n.idx as int, c));
            assert((n.idx == v.idx) == (n == v));
        }
    }
}

/// Dropping the reference that the edge of `v` to slot `t` of layer `b` made.
proof fn lemma_progress_drop(g0: Graph, g2: Graph, g3: Graph, v: BareNodeKey, b: int, t: usize)
    requires
        node_mid(g0, g2, v, b),
        0 <= b < g2.layer_count(),
        g0.edge(v, b) == Some(t),
        layer_replaced(g2, g3, b),
        layer_same_slots(g2.layer(b), g3.layer(b)),
        forall|k: int, c: int| #[trigger] g3.layer(b).target(k, c) == g2.layer(b).target(k, c),
        forall|k: int| 0 <= k < g2.layer(b).slots() ==> #[trigger] g3.layer(b).refcount(k) == if k == t {
            g2.layer(b).refcount(k) - 1
        } else {
            g2.layer(b).refcount(k) as int
        },
    ensures
        node_progress(g0, g3, v, b + 1),
{
    lemma_shape_step(g0, g2, g3, b);
    assert forall|n: BareNodeKey, c: int| #[trigger] g3.edge(n, c) == if n == v && c < b + 1 {
        None
    } else {
        g0.edge(n, c)
    } by {
        assert(g2.edge(n, c) == if n == v && c <= b { None } else { g0.edge(n, c) });
        if n.layer == b {
            assert(g3.edge(n, c) == g3.layer(b).target(n.idx as int, c));
            assert(g2.edge(n, c) == g2.layer(b).target(n.idx as int, c));
        }
    }
    assert forall|m: BareNodeKey| #[trigger] g0.has_slot(m) implies g3.refs(m) == g0.refs(m) - if points_to(g0, v, m) && m.layer < b + 1 {
        1int
    } else {
        0int
    } by {
        assert(g2.refs(m) == g0.refs(m) - if points_to(g0, v, m) && m.layer < b { 1int } else { 0int });
        if m.layer == b {
            assert(layer_same_slots(g0.layer(b), g2.layer(b)));
            if m.idx == t {
                assert(points_to(g0, v, m));
            } else {
                assert(!points_to(g0, v, m));
            }
        }
    }
}

/// Moving past layer `b`, to which `v` has no edge.
proof fn lemma_progress_skip(g0: Graph, g1: Graph, v: BareNodeKey, b: int)
    requires
        node_progress(g0, g1, v, b),
        g0.edge(v, b) is None,
    ensures
        node_progress(g0, g1, v, b + 1),
{
    assert forall|n: BareNodeKey, c: int| #[trigger] g1.edge(n, c) == if n == v && c < b + 1 {
        None
    } else {
        g0.edge(n, c)
    } by {
        assert(g1.edge(n, c) == if n == v && c < b { None } else { g0.edge(n, c) });
    }
    assert forall|m: BareNodeKey| #[trigger] g0.has_slot(m) implies g1.refs(m) == g0.refs(m) - if points_to(g0, v, m) && m.layer < b + 1 {
        1int
    } else {
        0int
    } by {
        if m.layer == b {
            assert(!points_to(g0, v, m));
        }
    }
}

impl Graph {
    /// Remove every edge of `v` and drop the references they made.
    fn unlink_node(&mut self, v: BareNodeKey)
        requires
            old(self).wf(),
            old(self).all_available(),
            v.layer < old(self).layer_count(),
            forall|b: int| #[trigger] old(self).edge(v, b) matches Some(t) ==> {
                let m = BareNodeKey { layer: b as usize, idx: t };
                &&& old(self).has_slot(m)
                &&& old(self).refs(m) > 0
            },
        ensures
            node_progress(*old(self), *final(self), v, old(self).layer_count() as int),
    {
        let ghost g0 = *self;
        proof {
            assert forall|l: int| 0 <= l < g0.layer_count() implies #[trigger] layer_same_slots(g0.layer(l), self.layer(l)) by {
                assert(g0.available(l));
            }
        }
        let rows = self.layers[v.layer].edges.len();
        proof {
            assert(g0.available(v.layer as int));
        }
        let mut b: usize = 0;
        while b < rows
            invariant
                g0.wf(),
                g0.all_available(),
                v.layer < g0.layer_count(),
                rows == g0.layer_count(),
                b <= rows,
                forall|c: int| #[trigger] g0.edge(v, c) matches Some(t) ==> {
                    let m = BareNodeKey { layer: c as usize, idx: t };
                    &&& g0.has_slot(m)
                    &&& g0.refs(m) > 0
                },
                node_progress(g0, *self, v, b as int),
            decreases rows - b,
        {
            let ghost g1 = *self;
            proof {
                g1.lemma_edge(v, b as int);
                assert(g1.available(v.layer as int));
                assert(layer_same_slots(g0.layer(v.layer as int), g1.layer(v.layer as int)));
            }
            match self.layers[v.layer].neighbor_idx(v.idx, b) {
                Some(t) => {
                    proof {
                        assert(g1.edge(v, b as int) == g0.edge(v, b as int));
                        let m = BareNodeKey { layer: b, idx: t };
                        assert(g0.has_slot(m));
                        assert(g1.available(b as int));
                        assert(layer_same_slots(g0.layer(b as int), g1.layer(b as int)));
                    }
                    self.layers[v.layer].clear_edge(v.idx, b);
                    let ghost g2 = *self;
                    proof {
                        lemma_progress_clear(g0, g1, g2, v, b as int);
                        let m = BareNodeKey { layer: b, idx: t };
                        assert(g0.has_slot(m));
                        assert(points_to(g0, v, m));
                        assert(g2.refs(m) == g0.refs(m));
                        assert(g2.available(b as int));
                        assert(layer_same_slots(g0.layer(b as int), g2.layer(b as int)));
                    }
                    self.layers[b].drop_ref(t);
                    proof {
                        lemma_progress_drop(g0, g2, *self, v, b as int, t);
                    }
                },
                None => {
                    proof {
                        lemma_progress_skip(g0, g1, v, b as int);
                    }
                },
            }
            b = b + 1;
        }
    }
}

/// `g` is `g0` with the edges of the first `q` nodes of `ns` that `drop` selects removed,
/// and the references they made dropped.
pub open spec fn unlink_state(g0: Graph, g: Graph, ns: Seq<BareNodeKey>, q: int, drop: spec_fn(BareNodeKey) -> bool) -> bool {
    &&& same_shape(g0, g)
    &&& forall|n: BareNodeKey, c: int| #[trigger] g.edge(n, c) == if ns.take(q).contains(n) && drop(n) {
        None
    } else {
        g0.edge(n, c)
    }
    &&& forall|m: BareNodeKey| #[trigger] g0.has_slot(m) ==> g.refs(m) == g0.refs(m) - count_in(g0, ns.take(q), m, drop)
}

/// Splitting off the last node of a prefix.
proof fn lemma_take_push(ns: Seq<BareNodeKey>, q: int)
    requires
        0 <= q < ns.len(),
    ensures
        ns.take(q + 1).drop_last() == ns.take(q),
        ns.take(q + 1).last() == ns[q],
        forall|y: BareNodeKey| ns.take(q + 1).contains(y) <==> ns.take(q).contains(y) || y == ns[q],
{
    assert(ns.take(q + 1).drop_last() =~= ns.take(q));
    let t0 = ns.take(q);
    let t1 = ns.take(q + 1);
    assert forall|y: BareNodeKey| t1.contains(y) <==> t0.contains(y) || y == ns[q] by {
        if t1.contains(y) {
            let i = choose|i: int| 0 <= i < t1.len() && t1[i] == y;
            if i < q {
                assert(t0[i] == y);
            }
        }
        if t0.contains(y) {
            let i = choose|i: int| 0 <= i < t0.len() && t0[i] == y;
            assert(t1[i] == y);
        }
        if y == ns[q] {
            assert(t1[q] == y);
        }
    }
}

/// Unlinking the next node, which `drop` selects.
proof fn lemma_unlink_step(g0: Graph, g1: Graph, g2: Graph, ns: Seq<BareNodeKey>, q: int, drop: spec_fn(BareNodeKey) -> bool)
    requires
        unlink_state(g0, g1, ns, q, drop),
        0 <= q < ns.len(),
        drop(ns[q]),
        !ns.take(q).contains(ns[q]),
        node_progress(g1, g2, ns[q], g1.layer_count() as int),
        g0.wf(),
        g0.all_available(),
    ensures
        unlink_state(g0, g2, ns, q + 1, drop),
{
    let v = ns[q];
    lemma_take_push(ns, q);
    assert forall|l: int| 0 <= l < g0.layer_count() implies #[trigger] layer_same_slots(g0.layer(l), g2.layer(l)) by {
        assert(layer_same_slots(g0.layer(l), g1.layer(l)));
        assert(layer_same_slots(g1.layer(l), g2.layer(l)));
    }
    assert forall|n: BareNodeKey, c: int| #[trigger] g2.edge(n, c) == if ns.take(q + 1).contains(n) && drop(n) {
        None
    } else {
        g0.edge(n, c)
    } by {
        assert(g2.edge(n, c) == if n == v && c < g1.layer_count() { None } else { g1.edge(n, c) });
        if n == v && c >= g1.layer_count() {
            g1.lemma_edge(n, c);
            if n.layer < g1.layer_count() {
                assert(g1.available(n.layer as int));
            }
        }
    }
    assert forall|m: BareNodeKey| #[trigger] g0.has_slot(m) implies g2.refs(m) == g0.refs(m) - count_in(g0, ns.take(q + 1), m, drop) by {
        assert(layer_same_slots(g0.layer(m.layer as int), g1.layer(m.layer as int)));
        assert(g1.has_slot(m));
        assert(g1.edge(v, m.layer as int) == g0.edge(v, m.layer as int));
    }
}

/// Passing over the next node, which `drop` does not select.
proof fn lemma_unlink_skip(g0: Graph, g1: Graph, ns: Seq<BareNodeKey>, q: int, drop: spec_fn(BareNodeKey) -> bool)
    requires
        unlink_state(g0, g1, ns, q, drop),
        0 <= q < ns.len(),
        !drop(ns[q]),
    ensures
        unlink_state(g0, g1, ns, q + 1, drop),
{
    lemma_take_push(ns, q);
}

/// `g` is `g0` with the first `q` nodes of `ns` that `dead` selects retired.
pub open spec fn retire_state(g0: Graph, g: Graph, ns: Seq<BareNodeKey>, q: int, dead: spec_fn(BareNodeKey) -> bool) -> bool {
    &&& g.wf()
    &&& g.all_available()
    &&& g.layer_count() == g0.layer_count()
    &&& forall|n: BareNodeKey, c: int| #[trigger] g.edge(n, c) == g0.edge(n, c)
    &&& forall|l: int| 0 <= l < g0.layer_count() ==> {
        &&& #[trigger] g.layer(l).slots() == g0.layer(l).slots()
        &&& g.layer(l).target_layers() == g0.layer(l).target_layers()
        &&& forall|c: int| 0 <= c < g0.layer(l).target_layers() ==> #[trigger] g.layer(l).row_len(c) == g0.layer(l).row_len(c)
        &&& g.layer(l).vacant() == g0.layer(l).vacant() + idx_in_layer_if(ns.take(q), l, dead)
    }
    &&& forall|m: BareNodeKey| #[trigger] g0.has_slot(m) ==> {
        &&& g.refs(m) == g0.refs(m)
        &&& g.layer(m.layer as int).generation(m.idx as int) == g0.layer(m.layer as int).generation(m.idx as int)
            + if ns.take(q).contains(m) && dead(m) { 1int } else { 0int }
    }
}

/// Retiring the next node, which `dead` selects.
proof fn lemma_retire_step(g0: Graph, g1: Graph, g2: Graph, ns: Seq<BareNodeKey>, q: int, dead: spec_fn(BareNodeKey) -> bool)
    requires
        g0.wf(),
        g0.all_available(),
        retire_state(g0, g1, ns, q, dead),
        0 <= q < ns.len(),
        dead(ns[q]),
        !ns.take(q).contains(ns[q]),
        ns[q].layer < g1.layer_count(),
        layer_replaced(g1, g2, ns[q].layer as int),
        g2.layer(ns[q].layer as int).wf(),
        g2.layer(ns[q].layer as int).target_layers() == g1.layer(ns[q].layer as int).target_layers(),
        g2.layer(ns[q].layer as int).slots() == g1.layer(ns[q].layer as int).slots(),
        forall|c: int| 0 <= c < g1.layer(ns[q].layer as int).target_layers() ==> #[trigger] g2.layer(ns[q].layer as int).row_len(c)
            == g1.layer(ns[q].layer as int).row_len(c),
        forall|k: int, c: int| #[trigger] g2.layer(ns[q].layer as int).target(k, c) == g1.layer(ns[q].layer as int).target(k, c),
        forall|k: int| 0 <= k < g1.layer(ns[q].layer as int).slots() ==> #[trigger] g2.layer(ns[q].layer as int).refcount(k)
            == g1.layer(ns[q].layer as int).refcount(k),
        g2.layer(ns[q].layer as int).vacant() == g1.layer(ns[q].layer as int).vacant().push(ns[q].idx),
        forall|k: int| 0 <= k < g1.layer(ns[q].layer as int).slots() ==> #[trigger] g2.layer(ns[q].layer as int).generation(k)
            == if k == ns[q].idx {
            g1.layer(ns[q].layer as int).generation(k) + 1
        } else {
            g1.layer(ns[q].layer as int).generation(k) as int
        },
    ensures
        retire_state(g0, g2, ns, q + 1, dead),
{
    let v = ns[q];
    let vl = v.layer as int;
    lemma_take_push(ns, q);
    assert forall|l: int| 0 <= l < g2.layer_count() && #[trigger] g2.available(l) implies {
        &&& g2.layer(l).wf()
        &&& g2.layer(l).target_layers() == g2.layers@.len()
    } by {
        assert(g1.available(l));
    }
    assert forall|l: int| 0 <= l < g2.layer_count() implies #[trigger] g2.available(l) by {
        assert(g1.available(l));
    }
    assert forall|n: BareNodeKey, c: int| #[trigger] g2.edge(n, c) == g0.edge(n, c) by {
        g2.lemma_edge(n, c);
        g1.lemma_edge(n, c);
        if n.layer < g1.layer_count() {
            assert(g1.available(n.layer as int));
        }
    }
    assert forall|l: int| 0 <= l < g0.layer_count() implies {
        &&& #[trigger] g2.layer(l).slots() == g0.layer(l).slots()
        &&& g2.layer(l).target_layers() == g0.layer(l).target_layers()
        &&& forall|c: int| 0 <= c < g0.layer(l).target_layers() ==> #[trigger] g2.layer(l).row_len(c) == g0.layer(l).row_len(c)
        &&& g2.layer(l).vacant() == g0.layer(l).vacant() + idx_in_layer_if(ns.take(q + 1), l, dead)
    } by {
        assert(g1.layer(l).slots() == g0.layer(l).slots());
        assert forall|c: int| 0 <= c < g0.layer(l).target_layers() implies #[trigger] g2.layer(l).row_len(c) == g0.layer(l).row_len(c) by {
            assert(g1.layer(l).row_len(c) == g0.layer(l).row_len(c));
        }
        if l == vl {
            assert(idx_in_layer_if(ns.take(q + 1), l, dead) == idx_in_layer_if(ns.take(q), l, dead).push(v.idx));
            assert(g0.layer(l).vacant() + idx_in_layer_if(ns.take(q), l, dead).push(v.idx)
                =~= (g0.layer(l).vacant() + idx_in_layer_if(ns.take(q), l, dead)).push(v.idx));
        } else {
            assert(idx_in_layer_if(ns.take(q + 1), l, dead) == idx_in_layer_if(ns.take(q), l, dead));
        }
    }
    assert forall|m: BareNodeKey| #[trigger] g0.has_slot(m) implies {
        &&& g2.refs(m) == g0.refs(m)
        &&& g2.layer(m.layer as int).generation(m.idx as int) == g0.layer(m.layer as int).generation(m.idx as int)
            + if ns.take(q + 1).contains(m) && dead(m) { 1int } else { 0int }
    } by {
        assert(g1.layer(m.layer as int).slots() == g0.layer(m.layer as int).slots());
        assert(g1.refs(m) == g0.refs(m));
        if m.layer == v.layer && m.idx == v.idx {
            assert(m == v);
        } else {
            assert(m != v);
        }
    }
}

/// Passing over the next node, which `dead` does not select.
proof fn lemma_retire_skip(g0: Graph, g1: Graph, ns: Seq<BareNodeKey>, q: int, dead: spec_fn(BareNodeKey) -> bool)
    requires
        retire_state(g0, g1, ns, q, dead),
        0 <= q < ns.len(),
        !dead(ns[q]),
    ensures
        retire_state(g0, g1, ns, q + 1, dead),
{
    lemma_take_push(ns, q);
    assert forall|l: int| 0 <= l < g0.layer_count() implies {
        &&& #[trigger] g1.layer(l).slots() == g0.layer(l).slots()
        &&& g1.layer(l).target_layers() == g0.layer(l).target_layers()
        &&& forall|c: int| 0 <= c < g0.layer(l).target_layers() ==> #[trigger] g1.layer(l).row_len(c) == g0.layer(l).row_len(c)
        &&& g1.layer(l).vacant() == g0.layer(l).vacant() + idx_in_layer_if(ns.take(q + 1), l, dead)
    } by {
        assert(idx_in_layer_if(ns.take(q + 1), l, dead) == idx_in_layer_if(ns.take(q), l, dead));
    }
}

/// The node that `root` designates.
pub open spec fn root_node<T: Component>(root: NodeKey<T>) -> BareNodeKey {
    BareNodeKey { layer: T::LAYER_INDEX, idx: root.index() as usize }
}

/// `root` designates a live node of `g`: its generation matches and something points to it.
pub open spec fn root_live<T: Component>(g: Graph, root: NodeKey<T>) -> bool {
    &&& g.layer(T::LAYER_INDEX as int).generation(root.index() as int) == root.generation()
    &&& g.refs(root_node(root)) > 0
}

/// `new` is `old` after deleting the object of `r`: the owned nodes have lost their edges and
/// the references those made, and the freed nodes are retired: generation bumped and slot
/// queued for reuse.
pub open spec fn deleted(old: Graph, new: Graph, r: BareNodeKey) -> bool {
    &&& new.wf()
    &&& new.all_available()
    &&& new.layer_count() == old.layer_count()
    &&& forall|l: int| 0 <= l < old.layer_count() ==> #[trigger] new.layer(l).slots() == old.layer(l).slots()
    &&& forall|n: BareNodeKey, c: int| #[trigger] new.edge(n, c) == if owned(old, r).contains(n) {
        None
    } else {
        old.edge(n, c)
    }
    &&& forall|m: BareNodeKey| #[trigger] old.has_slot(m) ==> {
        &&& new.refs(m) == old.refs(m) - pointing(old, owned(old, r), m).len()
        &&& new.layer(m.layer as int).generation(m.idx as int) == old.layer(m.layer as int).generation(m.idx as int)
            + if freed(old, r).contains(m) { 1int } else { 0int }
    }
    &&& forall|l: int| 0 <= l < old.layer_count() ==> #[trigger] slots_freed(old.layer(l), new.layer(l), freed(old, r), l)
    &&& forall|l: int| 0 <= l < old.layer_count() ==> #[trigger] slots_freed_in_order(
        old.layer(l),
        new.layer(l),
        walk_order(old.tables(), Seq::<usize>::empty(), r),
        freed(old, r),
        l,
    )
}

/// The marks of the walks from the shared roots are the shared nodes.
proof fn lemma_shared_marks(g: Graph, r: BareNodeKey, nodes: Seq<BareNodeKey>, counts: Seq<usize>, marks: Seq<bool>)
    requires
        nodes.no_duplicates(),
        forall|n: BareNodeKey| nodes.contains(n) <==> #[trigger] object(g, r).contains(n),
        counts.len() == nodes.len(),
        marks.len() == nodes.len(),
        forall|i: int| 0 <= i < nodes.len() ==> #[trigger] counts[i] == count_in(g, nodes, nodes[i], |v: BareNodeKey| true),
        forall|i: int| 0 <= i < nodes.len() ==> (#[trigger] marks[i] <==> marked_before(g, nodes, counts, nodes.len() as int, nodes[i])),
    ensures
        forall|i: int| 0 <= i < nodes.len() ==> (#[trigger] marks[i] <==> shared(g, r).contains(nodes[i])),
{
    let vs = object(g, r);
    assert(nodes.to_set() =~= vs);
    assert forall|n: BareNodeKey| count_in(g, nodes, n, |v: BareNodeKey| true) == #[trigger] pointing(g, vs, n).len() by {
        lemma_count_in_set(g, nodes, n, |v: BareNodeKey| true);
        assert(nodes.to_set().filter(|v: BareNodeKey| (|v: BareNodeKey| true)(v) && points_to(g, v, n)) =~= pointing(g, vs, n));
    }
    assert forall|i: int| 0 <= i < nodes.len() implies (#[trigger] marks[i] <==> shared(g, r).contains(nodes[i])) by {
        let x = nodes[i];
        if marks[i] {
            let q2 = choose|q2: int| 0 <= q2 < nodes.len() && g.refs(nodes[q2]) != counts[q2] && #[trigger] object(g, nodes[q2]).contains(x);
            assert(counts[q2] == pointing(g, vs, nodes[q2]).len());
            assert(nodes.contains(nodes[q2]));
            assert(shared_roots(g, r).contains(nodes[q2]));
        }
        if shared(g, r).contains(x) {
            let s = choose|s: BareNodeKey| #[trigger] shared_roots(g, r).contains(s) && object(g, s).contains(x);
            assert(vs.contains(s));
            assert(nodes.contains(s));
            let q2 = choose|q2: int| 0 <= q2 < nodes.len() && nodes[q2] == s;
            assert(counts[q2] == pointing(g, vs, s).len());
            assert(marked_before(g, nodes, counts, nodes.len() as int, x));
        }
    }
}

/// Counting the owned nodes along the object's nodes counts the owned nodes that point to `m`.
proof fn lemma_owned_counts(g: Graph, r: BareNodeKey, nodes: Seq<BareNodeKey>, drop: spec_fn(BareNodeKey) -> bool)
    requires
        nodes.no_duplicates(),
        forall|n: BareNodeKey| nodes.contains(n) <==> #[trigger] object(g, r).contains(n),
        forall|x: BareNodeKey| #[trigger] drop(x) == !shared(g, r).contains(x),
    ensures
        forall|m: BareNodeKey| #[trigger] count_in(g, nodes, m, drop) == pointing(g, owned(g, r), m).len(),
{
    assert forall|m: BareNodeKey| #[trigger] count_in(g, nodes, m, drop) == pointing(g, owned(g, r), m).len() by {
        lemma_count_in_set(g, nodes, m, drop);
        assert(nodes.to_set().filter(|v: BareNodeKey| drop(v) && points_to(g, v, m)) =~= pointing(g, owned(g, r), m));
    }
}

/// Unlinking the owned nodes and retiring the nodes nothing points to anymore deletes the
/// object of `r`.
proof fn lemma_delete_outcome(
    g0: Graph,
    g1: Graph,
    g2: Graph,
    r: BareNodeKey,
    nodes: Seq<BareNodeKey>,
    drop: spec_fn(BareNodeKey) -> bool,
    dead: spec_fn(BareNodeKey) -> bool,
)
    requires
        g0.wf(),
        g0.all_available(),
        nodes.no_duplicates(),
        forall|n: BareNodeKey| nodes.contains(n) <==> #[trigger] object(g0, r).contains(n),
        forall|i: int| 0 <= i < nodes.len() ==> g0.has_slot(#[trigger] nodes[i]),
        forall|x: BareNodeKey| #[trigger] drop(x) == !shared(g0, r).contains(x),
        forall|x: BareNodeKey| #[trigger] dead(x) == (g1.refs(x) == 0),
        unlink_state(g0, g1, nodes, nodes.len() as int, drop),
        retire_state(g1, g2, nodes, nodes.len() as int, dead),
        nodes.take(nodes.len() as int) == nodes,
        nodes == walk_order(g0.tables(), Seq::<usize>::empty(), r),
    ensures
        deleted(g0, g2, r),
{
    lemma_owned_counts(g0, r, nodes, drop);
    let own = owned(g0, r);
    assert forall|l: int| 0 <= l < g0.layer_count() implies #[trigger] g2.layer(l).slots() == g0.layer(l).slots() by {
        assert(layer_same_slots(g0.layer(l), g1.layer(l)));
        assert(g2.layer(l).slots() == g1.layer(l).slots());
    }
    assert forall|n: BareNodeKey, c: int| #[trigger] g2.edge(n, c) == if own.contains(n) {
        None
    } else {
        g0.edge(n, c)
    } by {
        assert(g2.edge(n, c) == g1.edge(n, c));
    }
    assert forall|m: BareNodeKey| #[trigger] g0.has_slot(m) implies {
        &&& g2.refs(m) == g0.refs(m) - pointing(g0, own, m).len()
        &&& g2.layer(m.layer as int).generation(m.idx as int) == g0.layer(m.layer as int).generation(m.idx as int)
            + if freed(g0, r).contains(m) { 1int } else { 0int }
    } by {
        assert(layer_same_slots(g0.layer(m.layer as int), g1.layer(m.layer as int)));
        assert(g1.has_slot(m));
        assert(g1.refs(m) == g0.refs(m) - count_in(g0, nodes, m, drop));
        assert(freed(g0, r).contains(m) == (nodes.contains(m) && dead(m)));
    }
    assert forall|l: int| 0 <= l < g0.layer_count() implies #[trigger] slots_freed(g0.layer(l), g2.layer(l), freed(g0, r), l) by {
        assert(layer_same_slots(g0.layer(l), g1.layer(l)));
        lemma_idx_in_layer_if(nodes, l, dead);
        let fr = idx_in_layer_if(nodes, l, dead);
        let v0 = g0.layer(l).vacant();
        assert(g2.layer(l).slots() == g1.layer(l).slots());
        assert(g2.layer(l).vacant() == v0 + fr);
        assert((v0 + fr).skip(v0.len() as int) =~= fr);
        assert((v0 + fr).take(v0.len() as int) =~= v0);
        assert forall|x: usize| fr.contains(x) <==> freed(g0, r).contains(BareNodeKey { layer: l as usize, idx: x }) by {
            let m = BareNodeKey { layer: l as usize, idx: x };
            if nodes.contains(m) {
                let i = choose|i: int| 0 <= i < nodes.len() && nodes[i] == m;
                assert(g0.has_slot(nodes[i]));
                assert(g1.has_slot(m));
                assert(g1.refs(m) == g0.refs(m) - count_in(g0, nodes, m, drop));
            }
        }
    }
    assert forall|l: int| 0 <= l < g0.layer_count() implies #[trigger] slots_freed_in_order(
        g0.layer(l),
        g2.layer(l),
        walk_order(g0.tables(), Seq::<usize>::empty(), r),
        freed(g0, r),
        l,
    ) by {
        let fp = |x: BareNodeKey| freed(g0, r).contains(x);
        assert forall|i: int| 0 <= i < nodes.len() implies dead(#[trigger] nodes[i]) == fp(nodes[i]) by {
            let m = nodes[i];
            assert(nodes.contains(m));
            assert(g0.has_slot(m));
            assert(layer_same_slots(g0.layer(m.layer as int), g1.layer(m.layer as int)));
            assert(g1.has_slot(m));
            assert(g1.refs(m) == g0.refs(m) - count_in(g0, nodes, m, drop));
        }
        lemma_idx_in_layer_if_same(nodes, l, dead, fp);
        assert(layer_same_slots(g0.layer(l), g1.layer(l)));
        lemma_idx_in_layer_if(nodes, l, dead);
        assert(g2.layer(l).slots() == g1.layer(l).slots());
        assert(g2.layer(l).vacant() == g0.layer(l).vacant() + idx_in_layer_if(nodes, l, dead));
    }
}

/// `x` is reachable from one of the first `q` nodes of `ns` whose reference count differs
/// from its count in `counts`.
pub open spec fn marked_before(g: Graph, ns: Seq<BareNodeKey>, counts: Seq<usize>, q: int, x: BareNodeKey) -> bool {
    exists|q2: int| 0 <= q2 < q && g.refs(ns[q2]) != counts[q2] && #[trigger] object(g, ns[q2]).contains(x)
}

/// Every node of the object of a live root whose edges lead to slots is a slot.
proof fn lemma_object_in_range(g: Graph, root: BareNodeKey, nodes: Seq<BareNodeKey>, edges: Seq<(BareNodeKey, BareNodeKey)>)
    requires
        g.wf(),
        g.all_available(),
        valid_record(g.tables(), Seq::<usize>::empty(), nodes, edges),
        nodes.len() > 0,
        nodes[0] == root,
        g.has_slot(root),
        forall|n: BareNodeKey| nodes.contains(n) <==> #[trigger] object(g, root).contains(n),
        forall|v: BareNodeKey, b: int| object(g, root).contains(v) && #[trigger] g.edge(v, b) is Some
            ==> g.has_slot(BareNodeKey { layer: b as usize, idx: g.edge(v, b)->Some_0 }),
    ensures
        forall|i: int| 0 <= i < nodes.len() ==> g.has_slot(#[trigger] nodes[i]),
{
    assert forall|i: int| 0 <= i < nodes.len() implies g.has_slot(#[trigger] nodes[i]) by {
        if i > 0 {
            assert(has_parent(steps(g.tables(), Seq::<usize>::empty()), nodes, i));
            reveal(has_parent);
            let j = choose|j: int| 0 <= j < i && #[trigger] steps(g.tables(), Seq::<usize>::empty()).contains((nodes[j], nodes[i]));
            assert(g.edge(nodes[j], nodes[i].layer as int) == Some(nodes[i].idx));
            assert(nodes.contains(nodes[j]));
            assert(object(g, root).contains(nodes[j]));
            assert(BareNodeKey { layer: (nodes[i].layer as int) as usize, idx: nodes[i].idx } == nodes[i]);
        }
    }
}

impl Graph {
    /// The nodes of the object of `root`, `root` first.
    fn object_nodes(&self, root: BareNodeKey) -> (r: Vec<BareNodeKey>)
        requires
            self.wf(),
            self.all_available(),
            root.layer < self.layer_count(),
        ensures
            r@.len() > 0,
            r@[0] == root,
            r@.no_duplicates(),
            forall|i: int| 0 <= i < r@.len() ==> (#[trigger] r@[i]).layer < self.layer_count(),
            forall|n: BareNodeKey| r@.contains(n) <==> #[trigger] object(*self, root).contains(n),
            exists|edges: Seq<(BareNodeKey, BareNodeKey)>| valid_record(self.tables(), Seq::<usize>::empty(), r@, edges),
            r@ == walk_order(self.tables(), Seq::<usize>::empty(), root),
    {
        let ghost t = self.tables();
        let mut tables: Vec<&Vec<Vec<Option<usize>>>> = Vec::new();
        let mut l: usize = 0;
        while l < self.layers.len()
            invariant
                l <= self.layers@.len(),
                tables@.len() == l,
                forall|k: int| 0 <= k < l ==> (#[trigger] tables@[k])@ == self.layers@[k].edges@,
            decreases self.layers@.len() - l,
        {
            tables.push(&self.layers[l].edges);
            l = l + 1;
        }
        proof {
            assert forall|k: int| 0 <= k < t.len() implies (#[trigger] tables@[k])@.len() == t[k].len() by {}
            assert forall|k: int, b: int| 0 <= k < t.len() && 0 <= b < t[k].len() implies (#[trigger] tables@[k]@[b])@ == t[k][b] by {}
            assert(reads(tables@, t));
            assert forall|k: int| 0 <= k < t.len() implies #[trigger] t[k].len() <= t.len() by {
                assert(self.available(k));
            }
        }
        let stop: Vec<usize> = Vec::new();
        let mut ret = SearchResult { nodes: Vec::new(), edges: Vec::new() };
        ret.nodes.push(root);
        proof {
            assert(stop@ =~= Seq::<usize>::empty());
            assert(entered_in_order(steps(t, stop@), ret.nodes@, 0));
            assert(ret.nodes@.no_duplicates());
        }
        proof {
            assert(ret.nodes@ =~= seq![root]);
        }
        search_all(root, &mut ret, &tables, &stop, Ghost(t), Ghost((bound(t) - 1) as nat));
        proof {
            assert(ret.nodes@[0] == root);
            lemma_walk_complete(t, stop@, root, ret.nodes@, ret.edges@);
        }
        ret.nodes
    }

    /// How many of `nodes` have an edge to `n`.
    fn count_pointing(&self, nodes: &Vec<BareNodeKey>, n: BareNodeKey) -> (r: usize)
        requires
            self.wf(),
            self.all_available(),
            forall|i: int| 0 <= i < nodes@.len() ==> (#[trigger] nodes@[i]).layer < self.layer_count(),
        ensures
            r == count_in(*self, nodes@, n, |v: BareNodeKey| true),
    {
        let mut c: usize = 0;
        let mut p: usize = 0;
        while p < nodes.len()
            invariant
                self.wf(),
                self.all_available(),
                forall|i: int| 0 <= i < nodes@.len() ==> (#[trigger] nodes@[i]).layer < self.layer_count(),
                p <= nodes@.len(),
                c <= p,
                c == count_in(*self, nodes@.take(p as int), n, |v: BareNodeKey| true),
            decreases nodes@.len() - p,
        {
            let v = nodes[p];
            proof {
                lemma_take_push(nodes@, p as int);
                self.lemma_edge(v, n.layer as int);
                assert(self.available(v.layer as int));
            }
            match self.layers[v.layer].neighbor_idx(v.idx, n.layer) {
                Some(t) => {
                    if t == n.idx {
                        c = c + 1;
                    }
                },
                None => {},
            }
            p = p + 1;
        }
        proof {
            assert(nodes@.take(nodes@.len() as int) =~= nodes@);
        }
        c
    }

    /// Delete a whole _object_ from the graph, beginning from the given node.
    ///
    /// The object is everything reachable from the node along edges. A node of it that more
    /// edges point to than the object has is shared with something else: it is kept, with
    /// everything reachable from it. The object's other nodes lose their edges, and every node
    /// of the object that no edge points to anymore is deleted. Does nothing if the node was
    /// deleted already.
    ///
    /// Every layer must be in the graph.
    pub fn delete<T: Component>(&mut self, root: NodeKey<T>)
        requires
            old(self).wf(),
            old(self).all_available(),
            T::LAYER_INDEX < old(self).layer_count(),
            root.index() < old(self).layer(T::LAYER_INDEX as int).slots(),
            root_live(*old(self), root) ==> forall|v: BareNodeKey, b: int|
                object(*old(self), root_node(root)).contains(v) && #[trigger] old(self).edge(v, b) is Some
                ==> old(self).has_slot(BareNodeKey { layer: b as usize, idx: old(self).edge(v, b)->Some_0 }),
            root_live(*old(self), root) ==> forall|m: BareNodeKey| #[trigger] old(self).has_slot(m)
                ==> old(self).refs(m) >= pointing(*old(self), owned(*old(self), root_node(root)), m).len(),
            root_live(*old(self), root) ==> forall|m: BareNodeKey| #[trigger] freed(*old(self), root_node(root)).contains(m)
                ==> old(self).layer(m.layer as int).generation(m.idx as int) < usize::MAX,
        ensures
            !root_live(*old(self), root) ==> *final(self) == *old(self),
            root_live(*old(self), root) ==> deleted(*old(self), *final(self), root_node(root)),
    {
        let r = BareNodeKey { layer: T::LAYER_INDEX, idx: root.idx };
        proof {
            assert(self.available(T::LAYER_INDEX as int));
        }
        // check if the node is already considered deleted before doing anything
        if self.layers[T::LAYER_INDEX].generations[root.idx] != root.gen || self.layers[T::LAYER_INDEX].refcounts[root.idx] == 0 {
            return;
        }
        let ghost g0 = *self;
        let ghost v_set = object(g0, r);
        let nodes = self.object_nodes(r);
        let len = nodes.len();
        proof {
            let edges = choose|edges: Seq<(BareNodeKey, BareNodeKey)>| valid_record(g0.tables(), Seq::<usize>::empty(), nodes@, edges);
            assert(g0.has_slot(r));
            lemma_object_in_range(g0, r, nodes@, edges);
            assert(nodes@.to_set() =~= v_set);
        }

        // how many edges of the object point to each of its nodes
        let mut visit_counts: Vec<usize> = Vec::new();
        let mut q: usize = 0;
        while q < len
            invariant
                *self == g0,
                g0.wf(),
                g0.all_available(),
                len == nodes@.len(),
                forall|i: int| 0 <= i < nodes@.len() ==> (#[trigger] nodes@[i]).layer < g0.layer_count(),
                q <= len,
                visit_counts@.len() == q,
                forall|i: int| 0 <= i < q ==> #[trigger] visit_counts@[i] == count_in(g0, nodes@, nodes@[i], |v: BareNodeKey| true),
            decreases len - q,
        {
            let c = self.count_pointing(&nodes, nodes[q]);
            visit_counts.push(c);
            q = q + 1;
        }

        // every node reachable from a node that something outside the object points to is shared
        let mut is_shared: Vec<bool> = Vec::new();
        q = 0;
        while q < len
            invariant
                len == nodes@.len(),
                q <= len,
                is_shared@.len() == q,
                forall|i: int| 0 <= i < q ==> !(#[trigger] is_shared@[i]),
            decreases len - q,
        {
            is_shared.push(false);
            q = q + 1;
        }
        q = 0;
        while q < len
            invariant
                *self == g0,
                g0.wf(),
                g0.all_available(),
                len == nodes@.len(),
                nodes@.len() > 0,
                nodes@[0] == r,
                r.layer < g0.layer_count(),
                nodes@.no_duplicates(),
                forall|i: int| 0 <= i < nodes@.len() ==> g0.has_slot(#[trigger] nodes@[i]),
                forall|n: BareNodeKey| nodes@.contains(n) <==> #[trigger] v_set.contains(n),
                v_set == object(g0, r),
                visit_counts@.len() == len,
                q <= len,
                is_shared@.len() == len,
                forall|i: int| 0 <= i < len ==> (#[trigger] is_shared@[i] <==> marked_before(g0, nodes@, visit_counts@, q as int, nodes@[i])),
            decreases len - q,
        {
            let n = nodes[q];
            proof {
                assert(g0.has_slot(n));
                assert(self.available(n.layer as int));
            }
            let ghost s0 = is_shared@;
            if self.layers[n.layer].refcounts[n.idx] != visit_counts[q] {
                let reach = self.object_nodes(n);
                proof {
                    assert(nodes@.contains(n));
                    assert forall|x: BareNodeKey| object(g0, n).contains(x) implies v_set.contains(x) by {
                        lemma_reachable_trans(steps(g0.tables(), Seq::<usize>::empty()), r, n, x);
                    }
                }
                let mut k: usize = 0;
                while k < reach.len()
                    invariant
                        len == nodes@.len(),
                        nodes@.no_duplicates(),
                        s0.len() == len,
                        is_shared@.len() == len,
                        forall|x: BareNodeKey| reach@.contains(x) <==> #[trigger] object(g0, n).contains(x),
                        forall|x: BareNodeKey| #[trigger] object(g0, n).contains(x) ==> v_set.contains(x),
                        forall|x: BareNodeKey| nodes@.contains(x) <==> #[trigger] v_set.contains(x),
                        k <= reach@.len(),
                        forall|i: int| 0 <= i < len ==> (#[trigger] is_shared@[i] <==> (s0[i]
                            || exists|k2: int| 0 <= k2 < k && reach@[k2] == nodes@[i])),
                    decreases reach@.len() - k,
                {
                    let w = reach[k];
                    let ghost s1 = is_shared@;
                    match find_node(&nodes, w) {
                        Some(i) => {
                            is_shared.set(i, true);
                            proof {
                                assert forall|i2: int| 0 <= i2 < len implies (#[trigger] is_shared@[i2] <==> (s0[i2]
                                    || exists|k2: int| 0 <= k2 < k + 1 && reach@[k2] == nodes@[i2])) by {
                                    if i2 == i {
                                        assert(reach@[k as int] == nodes@[i2]);
                                    } else {
                                        assert(is_shared@[i2] == s1[i2]);
                                        if exists|k2: int| 0 <= k2 < k + 1 && reach@[k2] == nodes@[i2] {
                                            let k2 = choose|k2: int| 0 <= k2 < k + 1 && reach@[k2] == nodes@[i2];
                                            if k2 == k {
                                                assert(nodes@[i as int] == nodes@[i2]);
                                            }
                                        }
                                    }
                                }
                            }
                        },
                        None => {
                            proof {
                                assert(reach@.contains(w));
                                assert(object(g0, n).contains(w));
                            }
                        },
                    }
                    k = k + 1;
                }
                proof {
                    assert forall|i: int| 0 <= i < len implies (#[trigger] is_shared@[i] <==> marked_before(g0, nodes@, visit_counts@, q + 1, nodes@[i])) by {
                        if is_shared@[i] && !s0[i] {
                            let k2 = choose|k2: int| 0 <= k2 < reach@.len() && reach@[k2] == nodes@[i];
                            assert(reach@.contains(nodes@[i]));
                            assert(object(g0, nodes@[q as int]).contains(nodes@[i]));
                        }
                        if marked_before(g0, nodes@, visit_counts@, q + 1, nodes@[i]) && !marked_before(g0, nodes@, visit_counts@, q as int, nodes@[i]) {
                            let q2 = choose|q2: int| 0 <= q2 < q + 1 && g0.refs(nodes@[q2]) != visit_counts@[q2]
                                && #[trigger] object(g0, nodes@[q2]).contains(nodes@[i]);
                            assert(q2 == q);
                            assert(reach@.contains(nodes@[i]));
                            let k2 = choose|k2: int| 0 <= k2 < reach@.len() && reach@[k2] == nodes@[i];
                        }
                    }
                }
            } else {
                proof {
                    assert forall|i: int| 0 <= i < len implies (#[trigger] is_shared@[i] <==> marked_before(g0, nodes@, visit_counts@, q + 1, nodes@[i])) by {
                        if marked_before(g0, nodes@, visit_counts@, q + 1, nodes@[i]) {
                            let q2 = choose|q2: int| 0 <= q2 < q + 1 && g0.refs(nodes@[q2]) != visit_counts@[q2]
                                && #[trigger] object(g0, nodes@[q2]).contains(nodes@[i]);
                            assert(q2 != q);
                        }
                    }
                }
            }
            q = q + 1;
        }
        let ghost drop = |x: BareNodeKey| !shared(g0, r).contains(x);
        proof {
            lemma_shared_marks(g0, r, nodes@, visit_counts@, is_shared@);
        }

        // remove the edges of the nodes that the object owns alone
        q = 0;
        proof {
            lemma_owned_counts(g0, r, nodes@, drop);
            assert(nodes@.take(0) =~= Seq::<BareNodeKey>::empty());
            assert forall|l: int| 0 <= l < g0.layer_count() implies #[trigger] layer_same_slots(g0.layer(l), self.layer(l)) by {
                assert(g0.available(l));
            }
        }
        while q < len
            invariant
                g0.wf(),
                g0.all_available(),
                len == nodes@.len(),
                nodes@.no_duplicates(),
                forall|i: int| 0 <= i < nodes@.len() ==> g0.has_slot(#[trigger] nodes@[i]),
                forall|n: BareNodeKey| nodes@.contains(n) <==> #[trigger] v_set.contains(n),
                v_set == object(g0, r),
                is_shared@.len() == len,
                forall|i: int| 0 <= i < len ==> (#[trigger] is_shared@[i] <==> !drop(nodes@[i])),
                forall|v: BareNodeKey, b: int| v_set.contains(v) && #[trigger] g0.edge(v, b) is Some
                    ==> g0.has_slot(BareNodeKey { layer: b as usize, idx: g0.edge(v, b)->Some_0 }),
                forall|m: BareNodeKey| #[trigger] g0.has_slot(m) ==> g0.refs(m) >= count_in(g0, nodes@, m, drop),
                q <= len,
                unlink_state(g0, *self, nodes@, q as int, drop),
            decreases len - q,
        {
            let v = nodes[q];
            if !is_shared[q] {
                let ghost g1 = *self;
                proof {
                    lemma_take_push(nodes@, q as int);
                    assert(!nodes@.take(q as int).contains(v)) by {
                        if nodes@.take(q as int).contains(v) {
                            let j = choose|j: int| 0 <= j < q && nodes@.take(q as int)[j] == v;
                            assert(nodes@[j] == nodes@[q as int]);
                        }
                    }
                    assert(g0.has_slot(v));
                    assert(nodes@.contains(v));
                    assert forall|b: int| #[trigger] g1.edge(v, b) is Some implies {
                        let m = BareNodeKey { layer: b as usize, idx: g1.edge(v, b)->Some_0 };
                        &&& g1.has_slot(m)
                        &&& g1.refs(m) > 0
                    } by {
                        let t = g1.edge(v, b)->Some_0;
                        let m = BareNodeKey { layer: b as usize, idx: t };
                        assert(g1.edge(v, b) == g0.edge(v, b));
                        assert(g0.has_slot(m));
                        assert(layer_same_slots(g0.layer(m.layer as int), g1.layer(m.layer as int)));
                        lemma_count_in_prefix(g0, nodes@, m, drop, q + 1);
                        g0.lemma_edge(v, b);
                        assert(BareNodeKey { layer: (m.layer as int) as usize, idx: m.idx } == m);
                        assert(points_to(g0, v, m));
                    }
                }
                self.unlink_node(v);
                proof {
                    lemma_unlink_step(g0, g1, *self, nodes@, q as int, drop);
                }
            } else {
                proof {
                    lemma_unlink_skip(g0, *self, nodes@, q as int, drop);
                }
            }
            q = q + 1;
        }
        let ghost g1 = *self;
        let ghost dead = |x: BareNodeKey| g1.refs(x) == 0;
        proof {
            assert(nodes@.take(len as int) =~= nodes@);
            lemma_owned_counts(g0, r, nodes@, drop);
            assert forall|m: BareNodeKey| #[trigger] g1.has_slot(m) && nodes@.contains(m) && dead(m)
                implies g1.layer(m.layer as int).generation(m.idx as int) < usize::MAX by {
                assert(layer_same_slots(g0.layer(m.layer as int), g1.layer(m.layer as int)));
                assert(g0.has_slot(m));
                assert(g1.refs(m) == g0.refs(m) - count_in(g0, nodes@, m, drop));
                assert(freed(g0, r).contains(m));
            }
            assert(nodes@.take(0) =~= Seq::<BareNodeKey>::empty());
            assert forall|l: int| 0 <= l < g1.layer_count() implies {
                &&& #[trigger] self.layer(l).slots() == g1.layer(l).slots()
                &&& self.layer(l).target_layers() == g1.layer(l).target_layers()
                &&& forall|c: int| 0 <= c < g1.layer(l).target_layers() ==> #[trigger] self.layer(l).row_len(c) == g1.layer(l).row_len(c)
                &&& self.layer(l).vacant() == g1.layer(l).vacant() + idx_in_layer_if(nodes@.take(0), l, dead)
            } by {
                assert(g1.layer(l).vacant() + Seq::<usize>::empty() =~= g1.layer(l).vacant());
            }
        }

        // retire the nodes of the object that nothing points to anymore
        q = 0;
        while q < len
            invariant
                g0.wf(),
                g0.all_available(),
                g1.wf(),
                g1.all_available(),
                same_shape(g0, g1),
                len == nodes@.len(),
                nodes@.no_duplicates(),
                forall|i: int| 0 <= i < nodes@.len() ==> g0.has_slot(#[trigger] nodes@[i]),
                forall|m: BareNodeKey| #[trigger] g1.has_slot(m) && nodes@.contains(m) && dead(m)
                    ==> g1.layer(m.layer as int).generation(m.idx as int) < usize::MAX,
                q <= len,
                forall|x: BareNodeKey| #[trigger] dead(x) == (g1.refs(x) == 0),
                retire_state(g1, *self, nodes@, q as int, dead),
            decreases len - q,
        {
            let n = nodes[q];
            let ghost g2 = *self;
            proof {
                lemma_take_push(nodes@, q as int);
                assert(!nodes@.take(q as int).contains(n)) by {
                    if nodes@.take(q as int).contains(n) {
                        let j = choose|j: int| 0 <= j < q && nodes@.take(q as int)[j] == n;
                        assert(nodes@[j] == nodes@[q as int]);
                    }
                }
                assert(g0.has_slot(n));
                assert(layer_same_slots(g0.layer(n.layer as int), g1.layer(n.layer as int)));
                assert(g1.has_slot(n));
                assert(self.available(n.layer as int));
                assert(self.layer(n.layer as int).slots() == g1.layer(n.layer as int).slots());
                assert(self.refs(n) == g1.refs(n));
            }
            if self.layers[n.layer].refcounts[n.idx] == 0 {
                proof {
                    assert(nodes@.contains(n));
                    assert(dead(n));
                    assert(g1.layer(n.layer as int).generation(n.idx as int) < usize::MAX);
                    assert(self.layer(n.layer as int).generation(n.idx as int) == g1.layer(n.layer as int).generation(n.idx as int));
                }
                self.layers[n.layer].retire(n.idx);
                proof {
                    lemma_retire_step(g1, g2, *self, nodes@, q as int, dead);
                }
            } else {
                proof {
                    lemma_retire_skip(g1, *self, nodes@, q as int, dead);
                }
            }
            q = q + 1;
        }
        proof {
            assert(nodes@.take(len as int) =~= nodes@);
            lemma_delete_outcome(g0, g1, *self, r, nodes@, drop, dead);
        }
    }
}

impl Graph {
    /// Whether any node has an edge.
    pub fn has_edges(&self) -> (r: bool)
        requires
            self.wf(),
            self.all_available(),
        ensures
            r == exists|n: BareNodeKey, b: int| #[trigger] self.edge(n, b) is Some,
    {
        let count = self.layers.len();
        let mut l: usize = 0;
        while l < count
            invariant
                self.wf(),
                self.all_available(),
                count == self.layer_count(),
                l <= count,
                forall|n: BareNodeKey, c: int| #[trigger] self.edge(n, c) is Some ==> n.layer >= l,
            decreases count - l,
        {
            proof {
                assert(self.available(l as int));
            }
            let slots = self.layers[l].generations.len();
            let mut b: usize = 0;
            while b < count
                invariant
                    self.wf(),
                    self.all_available(),
                    count == self.layer_count(),
                    l < count,
                    b <= count,
                    slots == self.layer(l as int).slots(),
                    forall|n: BareNodeKey, c: int| #[trigger] self.edge(n, c) is Some ==> n.layer > l || (n.layer == l && c >= b),
                decreases count - b,
            {
                let mut i: usize = 0;
                while i < slots
                    invariant
                        self.wf(),
                        self.all_available(),
                        count == self.layer_count(),
                        l < count,
                        b < count,
                        i <= slots,
                        slots == self.layer(l as int).slots(),
                        forall|n: BareNodeKey, c: int| #[trigger] self.edge(n, c) is Some
                            ==> n.layer > l || (n.layer == l && (c > b || (c == b && n.idx >= i))),
                    decreases slots - i,
                {
                    let n = BareNodeKey { layer: l, idx: i };
                    proof {
                        self.lemma_edge(n, b as int);
                        assert(self.available(l as int));
                    }
                    if self.layers[l].neighbor_idx(i, b).is_some() {
                        assert(self.edge(n, b as int) is Some);
                        return true;
                    }
                    proof {
                        assert forall|m: BareNodeKey, c: int| #[trigger] self.edge(m, c) is Some
                            implies m.layer > l || (m.layer == l && (c > b || (c == b && m.idx >= i + 1))) by {
                            if m.layer == l && c == b && m.idx == i {
                                assert(m == n);
                            }
                        }
                    }
                    i = i + 1;
                }
                proof {
                    assert forall|m: BareNodeKey, c: int| #[trigger] self.edge(m, c) is Some
                        implies m.layer > l || (m.layer == l && c >= b + 1) by {
                        if m.layer == l && c == b {
                            self.lemma_edge(m, c);
                            assert(self.available(l as int));
                            assert(self.layer(l as int).wf());
                            assert(self.layer(l as int).row_len(c) <= self.layer(l as int).slots());
                        }
                    }
                }
                b = b + 1;
            }
            proof {
                assert forall|m: BareNodeKey, c: int| #[trigger] self.edge(m, c) is Some implies m.layer >= l + 1 by {
                    if m.layer == l {
                        self.lemma_edge(m, c);
                    }
                }
            }
            l = l + 1;
        }
        proof {
            assert forall|m: BareNodeKey, c: int| !(#[trigger] self.edge(m, c) is Some) by {
                self.lemma_edge(m, c);
            }
        }
        false
    }
}

//
// Laws
//

/// The nodes of the first `l` layers form a finite set.
proof fn lemma_layers_finite(l: int)
    requires
        0 <= l,
    ensures
        Set::new(|x: BareNodeKey| x.layer < l).finite(),
{
    let m: int = usize::MAX as int + 1;
    let univ = Set::new(|x: BareNodeKey| x.layer < l);
    let dec = |k: int| BareNodeKey { layer: (k / m) as usize, idx: (k % m) as usize };
    lemma_int_range(0, l * m);
    set_int_range(0, l * m).lemma_map_finite(dec);
    assert forall|x: BareNodeKey| univ.contains(x) implies #[trigger] set_int_range(0, l * m).map(dec).contains(x) by {
        let k = x.layer as int * m + x.idx as int;
        lemma_fundamental_div_mod_converse(k, m, x.layer as int, x.idx as int);
        assert(0 <= k < l * m) by (nonlinear_arith)
            requires
                k == x.layer as int * m + x.idx as int,
                0 <= x.layer < l,
                0 <= x.idx < m,
        ;
        assert(dec(k) == x);
        assert(set_int_range(0, l * m).contains(k));
    }
    lemma_set_subset_finite(set_int_range(0, l * m).map(dec), univ);
}

/// The object of a node lies in the graph's layers, so it is finite.
pub proof fn lemma_object_finite(g: Graph, r: BareNodeKey)
    requires
        g.wf(),
        g.all_available(),
        r.layer < g.layer_count(),
    ensures
        object(g, r).finite(),
        forall|n: BareNodeKey| #[trigger] object(g, r).contains(n) ==> n.layer < g.layer_count(),
{
    let l: int = g.layer_count() as int;
    let univ = Set::new(|x: BareNodeKey| x.layer < l);
    let e = steps(g.tables(), Seq::<usize>::empty());
    assert(crate::base::reach::closed_under(e, univ)) by {
        assert forall|p: (BareNodeKey, BareNodeKey)| #[trigger] e.contains(p) && univ.contains(p.0) implies univ.contains(p.1) by {
            g.lemma_edge(p.0, p.1.layer as int);
            assert(g.available(p.0.layer as int));
        }
    }
    assert(object(g, r).subset_of(univ));
    lemma_layers_finite(l);
    lemma_set_subset_finite(univ, object(g, r));
}

/// An object that nothing outside points to, as the reference counts show, is deleted whole:
/// it owns all of its nodes and all of them are freed.
pub proof fn lemma_island_deleted_whole(g: Graph, r: BareNodeKey)
    requires
        forall|n: BareNodeKey| #[trigger] object(g, r).contains(n) ==> g.refs(n) == pointing(g, object(g, r), n).len(),
    ensures
        owned(g, r) == object(g, r),
        freed(g, r) == object(g, r),
{
    assert(shared_roots(g, r) =~= Set::<BareNodeKey>::empty());
    assert(shared(g, r) =~= Set::<BareNodeKey>::empty());
    assert(owned(g, r) =~= object(g, r));
    assert(freed(g, r) =~= object(g, r));
}

/// A node of the object with more references than the object accounts for is shared: it
/// survives the delete, with everything reachable from it.
pub proof fn lemma_shared_node_kept(g: Graph, r: BareNodeKey, s: BareNodeKey, n: BareNodeKey)
    requires
        g.wf(),
        g.all_available(),
        r.layer < g.layer_count(),
        object(g, r).contains(s),
        g.refs(s) > pointing(g, object(g, r), s).len(),
        object(g, s).contains(n),
    ensures
        !owned(g, r).contains(n),
        shared(g, r).contains(n),
        !freed(g, r).contains(s),
{
    assert(shared_roots(g, r).contains(s));
    assert(shared(g, r).contains(n));
    assert(shared(g, r).contains(s)) by {
        assert(object(g, s).contains(s)) by {
            let e = steps(g.tables(), Seq::<usize>::empty());
            assert forall|c: Set<BareNodeKey>| #[trigger] crate::base::reach::closed_under(e, c) && c.contains(s) implies c.contains(s) by {}
        }
    }
    lemma_object_finite(g, r);
    assert(pointing(g, owned(g, r), s).subset_of(pointing(g, object(g, r), s)));
    lemma_len_subset(pointing(g, owned(g, r), s), pointing(g, object(g, r), s));
}

/// A delete through a stale key, one whose generation is not that of its slot now (such as a
/// key taken before its node was freed and the slot reused), or through a key to a slot that
/// nothing points to, leaves the graph as it was: what `Graph::delete` promises for a root
/// that is not live then fixes the outcome, and the object now in the slot is left alone.
pub proof fn lemma_stale_key_deletes_nothing<T: Component>(old: Graph, new: Graph, root: NodeKey<T>)
    requires
        old.layer(T::LAYER_INDEX as int).generation(root.index() as int) != root.generation()
            || old.refs(root_node(root)) == 0,
        !root_live(old, root) ==> new == old,
    ensures
        new == old,
{
}

/// A key to a node that a delete freed is stale afterwards: the slot's generation moved on,
/// and nothing points to the slot.
pub proof fn lemma_freed_key_stale(old: Graph, new: Graph, r: BareNodeKey, n: BareNodeKey)
    requires
        deleted(old, new, r),
        freed(old, r).contains(n),
        old.has_slot(n),
    ensures
        new.layer(n.layer as int).generation(n.idx as int) != old.layer(n.layer as int).generation(n.idx as int),
        new.refs(n) == 0,
{
}

/// Every edge of the graph ends at a slot of a layer.
pub open spec fn edges_in_range(g: Graph) -> bool {
    forall|v: BareNodeKey, b: int| #[trigger] g.edge(v, b) is Some
        ==> g.has_slot(BareNodeKey { layer: b as usize, idx: g.edge(v, b)->Some_0 })
}

/// The slots of all layers.
pub open spec fn all_slots(g: Graph) -> Set<BareNodeKey> {
    Set::new(|n: BareNodeKey| g.has_slot(n))
}

/// Every slot's reference count is the number of nodes that have an edge to it.
pub open spec fn refs_exact(g: Graph) -> bool {
    forall|m: BareNodeKey| #[trigger] g.has_slot(m) ==> g.refs(m) == pointing(g, all_slots(g), m).len()
}

/// The vacant slots of every layer are distinct, and nothing points to them.
pub open spec fn vacant_sound(g: Graph) -> bool {
    forall|l: int| 0 <= l < g.layer_count() ==> (#[trigger] g.layer(l)).vacant_unused()
}

/// The bookkeeping of the graph agrees with its edges: every edge ends at a slot, every
/// reference count is the number of edges that point at its slot, and the vacant slots are
/// distinct and unreferenced.
pub open spec fn counts_sound(g: Graph) -> bool {
    &&& edges_in_range(g)
    &&& refs_exact(g)
    &&& vacant_sound(g)
}

/// For every finite set of nodes, each slot's count is at least the number of them that
/// have an edge to it.
spec fn refs_cover(g: Graph) -> bool {
    forall|vs: Set<BareNodeKey>, m: BareNodeKey| vs.finite() && #[trigger] g.has_slot(m)
        ==> g.refs(m) >= #[trigger] pointing(g, vs, m).len()
}

/// A node with an edge is a slot of its layer.
proof fn lemma_edge_from_slot(g: Graph, v: BareNodeKey, b: int)
    requires
        g.wf(),
        g.all_available(),
        g.edge(v, b) is Some,
    ensures
        g.has_slot(v),
{
    g.lemma_edge(v, b);
    assert(g.available(v.layer as int));
    assert(g.layer(v.layer as int).wf());
}

/// The slots of a graph form a finite set.
proof fn lemma_all_slots_finite(g: Graph)
    ensures
        all_slots(g).finite(),
{
    let univ = Set::new(|x: BareNodeKey| x.layer < g.layer_count());
    lemma_layers_finite(g.layer_count() as int);
    assert(all_slots(g).subset_of(univ));
    lemma_set_subset_finite(univ, all_slots(g));
}

/// Exact counts cover the edges from any finite set of nodes.
proof fn lemma_exact_covers(g: Graph)
    requires
        g.wf(),
        g.all_available(),
        refs_exact(g),
    ensures
        refs_cover(g),
{
    lemma_all_slots_finite(g);
    let a = all_slots(g);
    assert forall|vs: Set<BareNodeKey>, m: BareNodeKey| vs.finite() && #[trigger] g.has_slot(m)
        implies g.refs(m) >= #[trigger] pointing(g, vs, m).len() by {
        assert(pointing(g, vs, m).subset_of(pointing(g, a, m))) by {
            assert forall|v: BareNodeKey| pointing(g, vs, m).contains(v) implies pointing(g, a, m).contains(v) by {
                lemma_edge_from_slot(g, v, m.layer as int);
            }
        }
        lemma_len_subset(pointing(g, vs, m), pointing(g, a, m));
    }
}

/// In a graph whose bookkeeping agrees with its edges, what a delete asks of the object of
/// `root` holds.
pub proof fn lemma_ready_for_delete(g: Graph, r: BareNodeKey)
    requires
        g.wf(),
        g.all_available(),
        r.layer < g.layer_count(),
        counts_sound(g),
    ensures
        forall|v: BareNodeKey, b: int| object(g, r).contains(v) && #[trigger] g.edge(v, b) is Some
            ==> g.has_slot(BareNodeKey { layer: b as usize, idx: g.edge(v, b)->Some_0 }),
        forall|m: BareNodeKey| #[trigger] g.has_slot(m) ==> g.refs(m) >= pointing(g, owned(g, r), m).len(),
{
    lemma_exact_covers(g);
    lemma_object_finite(g, r);
    let o = owned(g, r);
    assert(o.subset_of(object(g, r)));
    lemma_set_subset_finite(object(g, r), o);
    assert forall|m: BareNodeKey| #[trigger] g.has_slot(m) implies g.refs(m) >= pointing(g, o, m).len() by {
        assert(g.refs(m) >= pointing(g, o, m).len());
    }
}

/// A delete keeps the bookkeeping of the graph in agreement with its edges: every edge still
/// ends at a slot, every count is still the number of edges pointing at its slot, and the
/// vacant slots, the freed ones appended, are still distinct and unreferenced.
pub proof fn lemma_delete_keeps_counts(old: Graph, new: Graph, r: BareNodeKey)
    requires
        old.wf(),
        old.all_available(),
        r.layer < old.layer_count(),
        old.has_slot(r),
        old.refs(r) > 0,
        counts_sound(old),
        deleted(old, new, r),
    ensures
        counts_sound(new),
{
    lemma_exact_covers(old);
    lemma_object_finite(old, r);
    let obj = object(old, r);
    let o = owned(old, r);
    assert(o.subset_of(obj));
    lemma_set_subset_finite(obj, o);
    // slots are kept
    assert forall|m: BareNodeKey| #[trigger] new.has_slot(m) <==> old.has_slot(m) by {
        if m.layer < old.layer_count() {
            assert(new.layer(m.layer as int).slots() == old.layer(m.layer as int).slots());
        }
    }
    assert forall|v: BareNodeKey, b: int| #[trigger] new.edge(v, b) is Some
        implies new.has_slot(BareNodeKey { layer: b as usize, idx: new.edge(v, b)->Some_0 }) by {
        assert(old.edge(v, b) is Some);
        assert(old.has_slot(BareNodeKey { layer: b as usize, idx: old.edge(v, b)->Some_0 }));
    }
    // the nodes of the object are slots, and something points at each of them
    assert forall|n: BareNodeKey| #[trigger] obj.contains(n) implies old.has_slot(n) && old.refs(n) > 0 by {
        if n != r {
            lemma_reachable_entered(steps(old.tables(), Seq::<usize>::empty()), r, n);
            let u = choose|u: BareNodeKey| #[trigger] obj.contains(u) && steps(old.tables(), Seq::<usize>::empty()).contains((u, n));
            assert(old.edge(u, n.layer as int) == Some(n.idx));
            assert(old.has_slot(BareNodeKey { layer: n.layer, idx: old.edge(u, n.layer as int)->Some_0 }));
            assert(pointing(old, obj, n).contains(u));
            assert(pointing(old, obj, n).len() > 0);
            assert(old.refs(n) >= pointing(old, obj, n).len());
        }
    }
    // what points at a slot afterwards pointed at it before, from outside the owned nodes
    lemma_all_slots_finite(old);
    let a = all_slots(old);
    assert(all_slots(new) =~= a);
    assert(o.subset_of(a));
    assert forall|m: BareNodeKey| #[trigger] new.has_slot(m)
        implies new.refs(m) == pointing(new, all_slots(new), m).len() by {
        let rest = a.difference(o);
        assert(pointing(new, a, m) =~= pointing(old, rest, m)) by {
            assert forall|v: BareNodeKey| pointing(new, a, m).contains(v) <==> pointing(old, rest, m).contains(v) by {
                assert(new.edge(v, m.layer as int) == if o.contains(v) { None } else { old.edge(v, m.layer as int) });
            }
        }
        assert(pointing(old, a, m) =~= pointing(old, rest, m).union(pointing(old, o, m)));
        lemma_set_subset_finite(a, rest);
        lemma_set_disjoint_lens(pointing(old, rest, m), pointing(old, o, m));
        assert(old.refs(m) == pointing(old, a, m).len());
        assert(new.refs(m) == old.refs(m) - pointing(old, o, m).len());
    }
    assert forall|l: int| 0 <= l < new.layer_count() implies (#[trigger] new.layer(l)).vacant_unused() by {
        assert(old.layer(l).vacant_unused());
        let v0 = old.layer(l).vacant();
        let v1 = new.layer(l).vacant();
        assert(slots_freed(old.layer(l), new.layer(l), freed(old, r), l));
        let f = v1.skip(v0.len() as int);
        assert(v1 =~= v0 + f) by {
            assert(v1.take(v0.len() as int) == v0);
        }
        assert forall|k: int| 0 <= k < v1.len() implies new.refs(BareNodeKey { layer: l as usize, idx: #[trigger] v1[k] }) == 0 by {
            let m = BareNodeKey { layer: l as usize, idx: v1[k] };
            if k < v0.len() {
                assert(v1[k] == v0[k]);
                assert(old.refs(m) == 0);
                assert(0 <= l < old.layer_count());
                assert(old.available(l));
                assert(old.layer(l).wf());
                assert(v0[k] < old.layer(l).slots());
                assert(old.has_slot(m));
                assert(old.refs(m) >= pointing(old, o, m).len());
            } else {
                assert(f[k - v0.len()] == v1[k]);
                assert(f.contains(v1[k]));
                assert(freed(old, r).contains(m));
                assert(old.has_slot(m));
            }
        }
        assert(v1.no_duplicates()) by {
            assert forall|i: int, j: int| 0 <= i < v1.len() && 0 <= j < v1.len() && i != j implies v1[i] != v1[j] by {
                if i < v0.len() && j < v0.len() {
                    assert(v0[i] == v1[i] && v0[j] == v1[j]);
                } else if i >= v0.len() && j >= v0.len() {
                    assert(f[i - v0.len()] == v1[i] && f[j - v0.len()] == v1[j]);
                } else {
                    let (p, q) = if i < v0.len() { (i, j) } else { (j, i) };
                    let m = BareNodeKey { layer: l as usize, idx: v1[q] };
                    assert(f[q - v0.len()] == v1[q]);
                    assert(f.contains(v1[q]));
                    assert(freed(old, r).contains(m));
                    assert(obj.contains(m));
                    assert(old.has_slot(m));
                    assert(old.refs(m) > 0);
                    assert(v0[p] == v1[p]);
                    assert(old.refs(BareNodeKey { layer: l as usize, idx: v0[p] }) == 0);
                }
            }
        }
    }
}


//
// Bookkeeping across layer views
//

/// The edge from `n` to layer `b` among the layers `ms`, if there is one.
pub open spec fn ms_edge(ms: Seq<LayerMetadata>, n: BareNodeKey, b: int) -> Option<usize> {
    if n.layer < ms.len() {
        ms[n.layer as int].target(n.idx as int, b)
    } else {
        None
    }
}

/// `n` is a slot of one of the layers `ms`.
pub open spec fn ms_has_slot(ms: Seq<LayerMetadata>, n: BareNodeKey) -> bool {
    n.layer < ms.len() && n.idx < ms[n.layer as int].slots()
}

/// The slots of the layers `ms`.
pub open spec fn ms_all_slots(ms: Seq<LayerMetadata>) -> Set<BareNodeKey> {
    Set::new(|n: BareNodeKey| ms_has_slot(ms, n))
}

/// The nodes of `vs` that have an edge to `m` among the layers `ms`.
pub open spec fn ms_pointing(ms: Seq<LayerMetadata>, vs: Set<BareNodeKey>, m: BareNodeKey) -> Set<BareNodeKey> {
    vs.filter(|v: BareNodeKey| ms_edge(ms, v, m.layer as int) == Some(m.idx))
}

/// The bookkeeping of the layers `ms`, whether held by the graph or taken out in views,
/// agrees with their edges: every edge ends at a slot, every reference count is the number of
/// edges that point at its slot, and the vacant slots are distinct and unreferenced.
pub open spec fn layers_sound(ms: Seq<LayerMetadata>) -> bool {
    &&& forall|l: int| 0 <= l < ms.len() ==> (#[trigger] ms[l]).wf() && ms[l].target_layers() == ms.len()
    &&& forall|v: BareNodeKey, b: int| #[trigger] ms_edge(ms, v, b) is Some
        ==> ms_has_slot(ms, BareNodeKey { layer: b as usize, idx: ms_edge(ms, v, b)->Some_0 })
    &&& forall|m: BareNodeKey| #[trigger] ms_has_slot(ms, m)
        ==> ms[m.layer as int].refcount(m.idx as int) == ms_pointing(ms, ms_all_slots(ms), m).len()
    &&& forall|l: int| 0 <= l < ms.len() ==> #[trigger] ms[l].vacant_unused()
}

impl Graph {
    /// The metadata of every layer, in layer order.
    pub open spec fn layer_seq(&self) -> Seq<LayerMetadata> {
        Seq::new(self.layer_count(), |l: int| self.layer(l))
    }
}

/// For a graph that holds all its layers, its bookkeeping agrees with its edges exactly when
/// that of its layers does.
pub proof fn lemma_counts_sound_layers(g: Graph)
    requires
        g.wf(),
        g.all_available(),
    ensures
        counts_sound(g) <==> layers_sound(g.layer_seq()),
{
    let ms = g.layer_seq();
    assert forall|n: BareNodeKey, b: int| #[trigger] g.edge(n, b) == ms_edge(ms, n, b) by {
        g.lemma_edge(n, b);
    }
    assert forall|n: BareNodeKey| #[trigger] g.has_slot(n) == ms_has_slot(ms, n) by {}
    assert(all_slots(g) =~= ms_all_slots(ms));
    assert forall|vs: Set<BareNodeKey>, m: BareNodeKey| #[trigger] pointing(g, vs, m) == ms_pointing(ms, vs, m) by {
        assert(pointing(g, vs, m) =~= ms_pointing(ms, vs, m));
    }
    assert forall|l: int| 0 <= l < ms.len() implies (#[trigger] ms[l]).wf() && ms[l].target_layers() == ms.len() by {
        assert(g.available(l));
    }
    if counts_sound(g) {
        assert forall|m: BareNodeKey| #[trigger] ms_has_slot(ms, m)
            implies ms[m.layer as int].refcount(m.idx as int) == ms_pointing(ms, ms_all_slots(ms), m).len() by {
            assert(g.has_slot(m));
        }
        assert forall|l: int| 0 <= l < ms.len() implies #[trigger] ms[l].vacant_unused() by {
            assert(g.layer(l).vacant_unused());
        }
        assert forall|v: BareNodeKey, b: int| #[trigger] ms_edge(ms, v, b) is Some
            implies ms_has_slot(ms, BareNodeKey { layer: b as usize, idx: ms_edge(ms, v, b)->Some_0 }) by {
            assert(g.edge(v, b) is Some);
        }
        assert(layers_sound(ms));
    }
    if layers_sound(ms) {
        assert forall|v: BareNodeKey, b: int| #[trigger] g.edge(v, b) is Some
            implies g.has_slot(BareNodeKey { layer: b as usize, idx: g.edge(v, b)->Some_0 }) by {
            assert(ms_edge(ms, v, b) is Some);
        }
        assert forall|m: BareNodeKey| #[trigger] g.has_slot(m) implies g.refs(m) == pointing(g, all_slots(g), m).len() by {
            assert(ms_has_slot(ms, m));
        }
        assert forall|l: int| 0 <= l < g.layer_count() implies (#[trigger] g.layer(l)).vacant_unused() by {
            assert(ms[l].vacant_unused());
        }
        assert(counts_sound(g));
    }
}

/// The slots of the layers `ms` form a finite set.
proof fn lemma_ms_slots_finite(ms: Seq<LayerMetadata>)
    ensures
        ms_all_slots(ms).finite(),
{
    let univ = Set::new(|x: BareNodeKey| x.layer < ms.len());
    lemma_layers_finite(ms.len() as int);
    assert(ms_all_slots(ms).subset_of(univ));
    lemma_set_subset_finite(univ, ms_all_slots(ms));
}

/// Giving a layer back to the graph puts its metadata in the layer's place.
pub proof fn lemma_release_layer_seq(before: Graph, after: Graph, l: int, m: LayerMetadata)
    requires
        after.layer_count() == before.layer_count(),
        0 <= l < before.layer_count(),
        after.layer(l) == m,
        forall|k: int| 0 <= k < before.layer_count() && k != l ==> #[trigger] after.layer(k) == before.layer(k),
    ensures
        after.layer_seq() == before.layer_seq().update(l, m),
{
    assert(after.layer_seq() =~= before.layer_seq().update(l, m));
}

/// Inserting a node into a layer keeps the bookkeeping of the layers in agreement with their
/// edges: a reused slot was unreferenced, and a new slot has no edges either way.
pub proof fn lemma_insert_keeps_sound(ms: Seq<LayerMetadata>, l: usize, m2: LayerMetadata, item: usize)
    requires
        layers_sound(ms),
        l < ms.len(),
        inserted(ms[l as int], m2, item as nat),
    ensures
        layers_sound(ms.update(l as int, m2)),
{
    let ms2 = ms.update(l as int, m2);
    let m0 = ms[l as int];
    assert(m0.wf());
    assert forall|v: BareNodeKey, b: int| #[trigger] ms_edge(ms2, v, b) == ms_edge(ms, v, b) by {
        if v.layer == l {
            assert(m2.target(v.idx as int, b) == m0.target(v.idx as int, b));
        }
    }
    assert forall|n: BareNodeKey| #[trigger] ms_has_slot(ms, n) ==> ms_has_slot(ms2, n) by {}
    assert forall|l2: int| 0 <= l2 < ms2.len() implies (#[trigger] ms2[l2]).wf() && ms2[l2].target_layers() == ms2.len() by {
        assert(ms[l2].wf());
    }
    assert forall|v: BareNodeKey, b: int| #[trigger] ms_edge(ms2, v, b) is Some
        implies ms_has_slot(ms2, BareNodeKey { layer: b as usize, idx: ms_edge(ms2, v, b)->Some_0 }) by {
        assert(ms_edge(ms, v, b) is Some);
    }
    let fresh = m0.vacant().len() == 0;
    let new_node = BareNodeKey { layer: l, idx: item };
    lemma_ms_slots_finite(ms);
    // no edge points to a slot that did not exist before
    assert forall|v: BareNodeKey| fresh implies #[trigger] ms_edge(ms, v, l as int) != Some(item) by {
        if ms_edge(ms, v, l as int) == Some(item) {
            assert(ms_has_slot(ms, BareNodeKey { layer: (l as int) as usize, idx: item }));
        }
    }
    assert forall|m: BareNodeKey| #[trigger] ms_has_slot(ms2, m)
        implies ms2[m.layer as int].refcount(m.idx as int) == ms_pointing(ms2, ms_all_slots(ms2), m).len() by {
        let a = ms_all_slots(ms);
        let a2 = ms_all_slots(ms2);
        // the new slot, if any, has no edges, so it points at nothing
        assert(ms_pointing(ms2, a2, m) =~= ms_pointing(ms, a, m)) by {
            assert forall|v: BareNodeKey| ms_pointing(ms2, a2, m).contains(v) implies ms_pointing(ms, a, m).contains(v) by {
                assert(ms_edge(ms, v, m.layer as int) is Some);
                if !ms_has_slot(ms, v) {
                    assert(fresh && v == new_node);
                    assert(m0.target(item as int, m.layer as int) is None);
                }
            }
        }
        if ms_has_slot(ms, m) {
            if m.layer == l {
                assert(m2.refcount(m.idx as int) == m0.refcount(m.idx as int));
            }
        } else {
            assert(m == new_node);
            assert(ms_pointing(ms, a, m) =~= Set::<BareNodeKey>::empty());
        }
    }
    assert forall|l2: int| 0 <= l2 < ms2.len() implies #[trigger] ms2[l2].vacant_unused() by {
        assert(ms[l2].vacant_unused());
    }
}

/// Adding an edge from slot `i` of layer `a` to slot `j` of layer `b`, and one more reference
/// to slot `j`, where slot `i` had no edge to layer `b` and slot `j` is not vacant, keeps the
/// bookkeeping of the layers in agreement with their edges.
proof fn lemma_one_edge_keeps_sound(
    ms: Seq<LayerMetadata>,
    a: usize,
    b: usize,
    ma2: LayerMetadata,
    mb2: LayerMetadata,
    i: usize,
    j: usize,
)
    requires
        layers_sound(ms),
        a < ms.len(),
        b < ms.len(),
        a != b,
        i < ms[a as int].slots(),
        j < ms[b as int].slots(),
        ms[a as int].target(i as int, b as int) is None,
        !ms[b as int].vacant().contains(j),
        edge_added(ms[a as int], ma2, i as int, b as int, j as nat),
        ref_added(ms[b as int], mb2, j as int),
    ensures
        layers_sound(ms.update(a as int, ma2).update(b as int, mb2)),
{
    let ms2 = ms.update(a as int, ma2).update(b as int, mb2);
    let src = BareNodeKey { layer: a, idx: i };
    let dst = BareNodeKey { layer: b, idx: j };
    assert(ms[a as int].wf() && ms[b as int].wf());
    assert(ms2[a as int] == ma2 && ms2[b as int] == mb2);
    assert forall|v: BareNodeKey, c: int| #[trigger] ms_edge(ms2, v, c) == if v == src && c == b as int {
        Some(j)
    } else {
        ms_edge(ms, v, c)
    } by {
        if v.layer == a {
            if v.idx != i || c != b as int {
                assert(ma2.target(v.idx as int, c) == ms[a as int].target(v.idx as int, c));
            }
        } else if v.layer == b {
            assert(mb2.target(v.idx as int, c) == ms[b as int].target(v.idx as int, c));
        }
    }
    assert forall|n: BareNodeKey| #[trigger] ms_has_slot(ms2, n) == ms_has_slot(ms, n) by {}
    assert(ms_all_slots(ms2) =~= ms_all_slots(ms));
    assert forall|l2: int| 0 <= l2 < ms2.len() implies (#[trigger] ms2[l2]).wf() && ms2[l2].target_layers() == ms2.len() by {
        assert(ms[l2].wf());
    }
    assert forall|v: BareNodeKey, c: int| #[trigger] ms_edge(ms2, v, c) is Some
        implies ms_has_slot(ms2, BareNodeKey { layer: c as usize, idx: ms_edge(ms2, v, c)->Some_0 }) by {
        if !(v == src && c == b as int) {
            assert(ms_edge(ms, v, c) is Some);
        }
    }
    lemma_ms_slots_finite(ms);
    let all = ms_all_slots(ms);
    assert(all.contains(src));
    assert forall|m: BareNodeKey| #[trigger] ms_has_slot(ms2, m)
        implies ms2[m.layer as int].refcount(m.idx as int) == ms_pointing(ms2, ms_all_slots(ms2), m).len() by {
        assert(ms_has_slot(ms, m));
        let p = ms_pointing(ms, all, m);
        if m == dst {
            assert(!p.contains(src));
            assert(ms_pointing(ms2, all, m) =~= p.insert(src));
            assert(mb2.refcount(j as int) == ms[b as int].refcount(j as int) + 1);
        } else {
            assert(ms_pointing(ms2, all, m) =~= p);
            if m.layer == a {
                assert(ma2.refcount(m.idx as int) == ms[a as int].refcount(m.idx as int));
            } else if m.layer == b {
                assert(mb2.refcount(m.idx as int) == ms[b as int].refcount(m.idx as int));
            }
        }
    }
    assert forall|l2: int| 0 <= l2 < ms2.len() implies #[trigger] ms2[l2].vacant_unused() by {
        assert(ms[l2].vacant_unused());
        if l2 == a as int {
            lemma_edge_keeps_vacant_unused(ms[a as int], ma2, i as int, b as int, j as nat);
        } else if l2 == b as int {
            lemma_ref_keeps_vacant_unused(ms[b as int], mb2, j as int);
        }
    }
}

/// `connect_oneway` keeps the bookkeeping of the layers in agreement with their edges, where
/// the node connected to is not vacant: one edge and one reference are added.
pub proof fn lemma_connect_oneway_keeps_sound(
    ms: Seq<LayerMetadata>,
    a: usize,
    b: usize,
    ma2: LayerMetadata,
    mb2: LayerMetadata,
    i: usize,
    j: usize,
)
    requires
        layers_sound(ms),
        a < ms.len(),
        b < ms.len(),
        a != b,
        i < ms[a as int].slots(),
        j < ms[b as int].slots(),
        ms[a as int].target(i as int, b as int) is None,
        !ms[b as int].vacant().contains(j),
        edge_added(ms[a as int], ma2, i as int, b as int, j as nat),
        ref_added(ms[b as int], mb2, j as int),
    ensures
        layers_sound(ms.update(a as int, ma2).update(b as int, mb2)),
{
    lemma_one_edge_keeps_sound(ms, a, b, ma2, mb2, i, j);
}

/// `connect` keeps the bookkeeping of the layers in agreement with their edges, where neither
/// node is vacant: an edge each way, and one more reference to each node.
pub proof fn lemma_connect_keeps_sound(
    ms: Seq<LayerMetadata>,
    a: usize,
    b: usize,
    ma2: LayerMetadata,
    mb2: LayerMetadata,
    i: usize,
    j: usize,
)
    requires
        layers_sound(ms),
        a < ms.len(),
        b < ms.len(),
        a != b,
        i < ms[a as int].slots(),
        j < ms[b as int].slots(),
        ms[a as int].target(i as int, b as int) is None,
        ms[b as int].target(j as int, a as int) is None,
        !ms[a as int].vacant().contains(i),
        !ms[b as int].vacant().contains(j),
        connected(ms[a as int], ma2, i as int, b as int, j as nat),
        connected(ms[b as int], mb2, j as int, a as int, i as nat),
    ensures
        layers_sound(ms.update(a as int, ma2).update(b as int, mb2)),
{
    let ms2 = ms.update(a as int, ma2).update(b as int, mb2);
    let src = BareNodeKey { layer: a, idx: i };
    let dst = BareNodeKey { layer: b, idx: j };
    assert(ms[a as int].wf() && ms[b as int].wf());
    assert(ms2[a as int] == ma2 && ms2[b as int] == mb2);
    assert forall|v: BareNodeKey, c: int| #[trigger] ms_edge(ms2, v, c) == if v == src && c == b as int {
        Some(j)
    } else if v == dst && c == a as int {
        Some(i)
    } else {
        ms_edge(ms, v, c)
    } by {
        if v.layer == a {
            if v.idx != i || c != b as int {
                assert(ma2.target(v.idx as int, c) == ms[a as int].target(v.idx as int, c));
            }
        } else if v.layer == b {
            if v.idx != j || c != a as int {
                assert(mb2.target(v.idx as int, c) == ms[b as int].target(v.idx as int, c));
            }
        }
    }
    assert forall|n: BareNodeKey| #[trigger] ms_has_slot(ms2, n) == ms_has_slot(ms, n) by {}
    assert(ms_all_slots(ms2) =~= ms_all_slots(ms));
    assert forall|l2: int| 0 <= l2 < ms2.len() implies (#[trigger] ms2[l2]).wf() && ms2[l2].target_layers() == ms2.len() by {
        assert(ms[l2].wf());
    }
    assert forall|v: BareNodeKey, c: int| #[trigger] ms_edge(ms2, v, c) is Some
        implies ms_has_slot(ms2, BareNodeKey { layer: c as usize, idx: ms_edge(ms2, v, c)->Some_0 }) by {
        if !(v == src && c == b as int) && !(v == dst && c == a as int) {
            assert(ms_edge(ms, v, c) is Some);
        }
    }
    lemma_ms_slots_finite(ms);
    let all = ms_all_slots(ms);
    assert(all.contains(src));
    assert(all.contains(dst));
    assert forall|m: BareNodeKey| #[trigger] ms_has_slot(ms2, m)
        implies ms2[m.layer as int].refcount(m.idx as int) == ms_pointing(ms2, ms_all_slots(ms2), m).len() by {
        assert(ms_has_slot(ms, m));
        let p = ms_pointing(ms, all, m);
        if m == dst {
            assert(!p.contains(src));
            assert(ms_pointing(ms2, all, m) =~= p.insert(src));
            assert(mb2.refcount(j as int) == ms[b as int].refcount(j as int) + 1);
        } else if m == src {
            assert(!p.contains(dst));
            assert(ms_pointing(ms2, all, m) =~= p.insert(dst));
            assert(ma2.refcount(i as int) == ms[a as int].refcount(i as int) + 1);
        } else {
            assert(ms_pointing(ms2, all, m) =~= p);
            if m.layer == a {
                assert(ma2.refcount(m.idx as int) == ms[a as int].refcount(m.idx as int));
            } else if m.layer == b {
                assert(mb2.refcount(m.idx as int) == ms[b as int].refcount(m.idx as int));
            }
        }
    }
    assert forall|l2: int| 0 <= l2 < ms2.len() implies #[trigger] ms2[l2].vacant_unused() by {
        assert(ms[l2].vacant_unused());
        if l2 == a as int {
            lemma_connect_keeps_vacant_unused(ms[a as int], ma2, i as int, b as int, j as nat);
        } else if l2 == b as int {
            lemma_connect_keeps_vacant_unused(ms[b as int], mb2, j as int, a as int, i as nat);
        }
    }
}

} // verus!
