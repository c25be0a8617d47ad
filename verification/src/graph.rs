//! Starframe's entity system: a directed graph of components with generational keys.
//!
//! A game object is a directed graph of components. Each component type has a layer of
//! slots; an edge leads from a node to at most one node of each layer. Nodes are addressed
//! by [`NodeKey`]s that carry the generation of their slot, so a key goes stale once the
//! object it belonged to is deleted, even if the slot is reused.
use vstd::prelude::*;
use std::collections::VecDeque;
use std::marker::PhantomData;
use crate::base::graph::cell_at;
use crate::base::reach::{entered_in_order, has_parent};
use crate::walk::{
    BareNodeKey, Tables, cell, shaped, reads, gathered, steps, sound_record, valid_record, explored,
    explored_edge, SearchResult, search_all, lemma_walk_complete, bound, walk_order,
};

verus! {

/// Gives a type an address in the graph: the index of its layer.
pub trait Component {
    /// Address of this type's graph layer.
    const LAYER_INDEX: usize;
}

/// An identifier for looking up a specific node.
pub struct NodeKey<T: Component> {
    pub(crate) idx: usize,
    pub(crate) gen: usize,
    pub(crate) _marker: PhantomData<T>,
}

impl<T: Component> NodeKey<T> {
    pub closed spec fn index(&self) -> nat {
        self.idx as nat
    }

    pub closed spec fn generation(&self) -> nat {
        self.gen as nat
    }

    /// The slot this key points to.
    pub fn slot(&self) -> (r: usize)
        ensures
            r == self.index(),
    {
        self.idx
    }
}

impl<T: Component> Clone for NodeKey<T> {
    fn clone(&self) -> (r: Self)
        ensures
            r.index() == self.index(),
            r.generation() == self.generation(),
    {
        NodeKey { idx: self.idx, gen: self.gen, _marker: PhantomData }
    }
}

impl<T: Component> Copy for NodeKey<T> {

}

/// Edges, generations, liveness and vacant slots of a single layer.
pub struct LayerMetadata {
    edges: Vec<Vec<Option<usize>>>,
    generations: Vec<usize>,
    exists: Vec<bool>,
    vacant_slots: VecDeque<usize>,
}

impl LayerMetadata {
    /// The number of layers that edges can lead to.
    pub closed spec fn target_layers(&self) -> nat {
        self.edges@.len()
    }

    /// The number of slots, live or dead.
    pub closed spec fn slots(&self) -> nat {
        self.generations@.len()
    }

    /// The slot that the edge from slot `i` to layer `b` ends at, if there is one.
    pub closed spec fn target(&self, i: int, b: int) -> Option<usize> {
        if 0 <= b < self.edges@.len() {
            cell_at(self.edges@[b]@, i)
        } else {
            None
        }
    }

    /// The length of the edge row towards layer `b`.
    pub closed spec fn row_len(&self, b: int) -> nat {
        self.edges@[b]@.len()
    }

    pub closed spec fn generation(&self, i: int) -> usize {
        self.generations@[i]
    }

    pub closed spec fn is_live(&self, i: int) -> bool {
        self.exists@[i]
    }

    /// Dead slots in the order they will be reused.
    pub closed spec fn vacant(&self) -> Seq<usize> {
        self.vacant_slots@
    }

    pub closed spec fn wf(&self) -> bool {
        &&& self.exists@.len() == self.generations@.len()
        &&& forall|b: int| 0 <= b < self.edges@.len() ==> #[trigger] self.edges@[b]@.len() <= self.generations@.len()
        &&& forall|k: int| 0 <= k < self.vacant_slots@.len() ==> #[trigger] self.vacant_slots@[k] < self.generations@.len()
    }

    pub fn new(layer_count: usize) -> (r: Self)
        ensures
            r.wf(),
            r.target_layers() == layer_count,
            r.slots() == 0,
            r.vacant() == Seq::<usize>::empty(),
            forall|b: int| 0 <= b < layer_count ==> #[trigger] r.row_len(b) == 0,
    {
        let mut edges: Vec<Vec<Option<usize>>> = Vec::new();
        let mut b: usize = 0;
        while b < layer_count
            invariant
                0 <= b <= layer_count,
                edges@.len() == b,
                forall|x: int| 0 <= x < b ==> (#[trigger] edges@[x])@.len() == 0,
            decreases layer_count - b,
        {
            edges.push(Vec::new());
            b = b + 1;
        }
        LayerMetadata { edges, generations: Vec::new(), exists: Vec::new(), vacant_slots: VecDeque::new() }
    }

    /// The neighbor of slot `node_idx` in layer `target_layer`, if any.
    pub fn neighbor_idx(&self, node_idx: usize, target_layer: usize) -> (r: Option<usize>)
        ensures
            r == self.target(node_idx as int, target_layer as int),
    {
        if self.edges.len() <= target_layer || self.edges[target_layer].len() <= node_idx {
            None
        } else {
            self.edges[target_layer][node_idx]
        }
    }
}

/// If there's an edge starting from `node_idx` and ending at a node of the layer of `Target`,
/// the index of that node.
pub fn get_neighbor_idx<Target: Component>(node_layer_meta: &LayerMetadata, node_idx: usize) -> (r: Option<usize>)
    ensures
        r == node_layer_meta.target(node_idx as int, Target::LAYER_INDEX as int),
{
    node_layer_meta.neighbor_idx(node_idx, Target::LAYER_INDEX)
}

/// An immutable reference to a node in the graph.
pub struct NodeRef<'a, T: Component> {
    /// The component that this node points to.
    pub c: &'a T,
    idx: usize,
    layer_meta: &'a LayerMetadata,
}

impl<'a, T: Component> NodeRef<'a, T> {
    pub closed spec fn index(&self) -> nat {
        self.idx as nat
    }

    pub closed spec fn meta(&self) -> LayerMetadata {
        *self.layer_meta
    }

    pub closed spec fn component(&self) -> T {
        *self.c
    }

    pub open spec fn wf(&self) -> bool {
        self.meta().wf() && self.index() < self.meta().slots()
    }

    /// If there's an edge starting from this node and ending at a node of the given type,
    /// get a reference to that node, otherwise return None.
    pub fn get_neighbor<'lr, 'l, Target: Component>(&self, layer: &'lr LayerView<'l, Target>) -> (r: Option<
        NodeRef<'lr, Target>,
    >)
        requires
            layer.wf(),
            self.meta().target(self.index() as int, Target::LAYER_INDEX as int) matches Some(t) ==> t < layer.contents().len(),
        ensures
            neighbor_found(r, self.meta().target(self.index() as int, Target::LAYER_INDEX as int), layer),
    {
        get_neighbor(self.layer_meta, self.idx, layer)
    }

    /// If there's an edge starting from this node and ending at a node of the given type,
    /// get a mutable reference to that node, otherwise return None.
    pub fn get_neighbor_mut<'lr, 'l, Target: Component>(&self, layer: &'lr mut LayerViewMut<'l, Target>) -> (r: Option<
        NodeRefMut<'lr, Target>,
    >)
        requires
            old(layer).wf(),
            self.meta().target(self.index() as int, Target::LAYER_INDEX as int) matches Some(t) ==> t < old(layer).contents().len(),
        ensures
            neighbor_found_mut(r, self.meta().target(self.index() as int, Target::LAYER_INDEX as int), *old(layer)),
    {
        get_neighbor_mut(self.layer_meta, self.idx, layer)
    }

    /// Get a key that can be used to access this node later.
    pub fn key(&self) -> (r: NodeKey<T>)
        requires
            self.wf(),
        ensures
            r.index() == self.index(),
            r.generation() == self.meta().generation(self.index() as int),
    {
        NodeKey { idx: self.idx, gen: self.layer_meta.generations[self.idx], _marker: PhantomData }
    }
}

/// `r` is the node that `target` designates in `layer`, or nothing if there is no target.
pub open spec fn neighbor_found<'lr, 'l, Target: Component>(
    r: Option<NodeRef<'lr, Target>>,
    target: Option<usize>,
    layer: &LayerView<'l, Target>,
) -> bool {
    match target {
        None => r is None,
        Some(t) => r matches Some(n) && {
            &&& n.index() == t
            &&& n.meta() == layer.meta()
            &&& n.component() == layer.contents()[t as int]
            &&& n.wf()
        },
    }
}

/// `r` is the node that `target` designates in `layer`, or nothing if there is no target.
pub open spec fn neighbor_found_mut<'lr, 'l, Target: Component>(
    r: Option<NodeRefMut<'lr, Target>>,
    target: Option<usize>,
    layer: LayerViewMut<'l, Target>,
) -> bool {
    match target {
        None => r is None,
        Some(t) => r matches Some(n) && {
            &&& n.index() == t
            &&& n.meta() == layer.meta()
            &&& n.component() == layer.contents()[t as int]
            &&& n.wf()
        },
    }
}

/// A mutable reference to a node in the graph.
pub struct NodeRefMut<'a, T: Component> {
    /// The component that this node points to.
    pub c: &'a mut T,
    /// The node's slot in its layer.
    pub idx: usize,
    /// The metadata of the node's layer.
    pub layer_meta: &'a mut LayerMetadata,
}

impl<'a, T: Component> NodeRefMut<'a, T> {
    pub open spec fn index(&self) -> nat {
        self.idx as nat
    }

    pub open spec fn meta(&self) -> LayerMetadata {
        *self.layer_meta
    }

    pub open spec fn component(&self) -> T {
        *self.c
    }

    pub open spec fn wf(&self) -> bool {
        self.meta().wf() && self.index() < self.meta().slots()
    }

    /// Add edges both ways between this node and `other`.
    ///
    /// Each node has at most one edge to each layer: neither node may have an edge to the
    /// other's layer yet.
    pub fn connect<Other: Component>(&mut self, other: &mut NodeRefMut<'_, Other>)
        requires
            old(self).wf(),
            old(other).wf(),
            Other::LAYER_INDEX < old(self).meta().target_layers(),
            T::LAYER_INDEX < old(other).meta().target_layers(),
            old(self).meta().target(old(self).index() as int, Other::LAYER_INDEX as int) is None,
            old(other).meta().target(old(other).index() as int, T::LAYER_INDEX as int) is None,
        ensures
            final(self).wf(),
            final(other).wf(),
            connected_oneway(old(self).meta(), final(self).meta(), old(self).index(), Other::LAYER_INDEX as int, old(other).index()),
            connected_oneway(old(other).meta(), final(other).meta(), old(other).index(), T::LAYER_INDEX as int, old(self).index()),
            final(self).index() == old(self).index(),
            final(other).index() == old(other).index(),
            final(self).component() == old(self).component(),
            final(other).component() == old(other).component(),
            *final(final(self).layer_meta) == *final(old(self).layer_meta),
            *final(final(self).c) == *final(old(self).c),
            *final(final(other).layer_meta) == *final(old(other).layer_meta),
            *final(final(other).c) == *final(old(other).c),
    {
        self.connect_oneway(other);
        other.connect_oneway(self);
    }

    /// Add an edge from this node to `other`.
    fn connect_oneway<Other: Component>(&mut self, other: &mut NodeRefMut<'_, Other>)
        requires
            old(self).wf(),
            old(other).wf(),
            Other::LAYER_INDEX < old(self).meta().target_layers(),
            old(self).meta().target(old(self).index() as int, Other::LAYER_INDEX as int) is None,
        ensures
            final(self).wf(),
            connected_oneway(old(self).meta(), final(self).meta(), old(self).index(), Other::LAYER_INDEX as int, old(other).index()),
            final(self).index() == old(self).index(),
            final(self).component() == old(self).component(),
            final(other).index() == old(other).index(),
            final(other).meta() == old(other).meta(),
            final(other).component() == old(other).component(),
            *final(final(self).layer_meta) == *final(old(self).layer_meta),
            *final(final(self).c) == *final(old(self).c),
            *final(final(other).layer_meta) == *final(old(other).layer_meta),
            *final(final(other).c) == *final(old(other).c),
    {
        self.layer_meta.set_edge(self.idx, Other::LAYER_INDEX, other.idx);
    }

    /// If there's an edge starting from this node and ending at a node of the given type,
    /// get a reference to that node, otherwise return None.
    pub fn get_neighbor<'lr, 'l, Target: Component>(&self, layer: &'lr LayerView<'l, Target>) -> (r: Option<
        NodeRef<'lr, Target>,
    >)
        requires
            layer.wf(),
            self.meta().target(self.index() as int, Target::LAYER_INDEX as int) matches Some(t) ==> t < layer.contents().len(),
        ensures
            neighbor_found(r, self.meta().target(self.index() as int, Target::LAYER_INDEX as int), layer),
    {
        get_neighbor(self.layer_meta, self.idx, layer)
    }

    /// If there's an edge starting from this node and ending at a node of the given type,
    /// get a mutable reference to that node, otherwise return None.
    pub fn get_neighbor_mut<'lr, 'l, Target: Component>(&self, layer: &'lr mut LayerViewMut<'l, Target>) -> (r: Option<
        NodeRefMut<'lr, Target>,
    >)
        requires
            old(layer).wf(),
            self.meta().target(self.index() as int, Target::LAYER_INDEX as int) matches Some(t) ==> t < old(layer).contents().len(),
        ensures
            neighbor_found_mut(r, self.meta().target(self.index() as int, Target::LAYER_INDEX as int), *old(layer)),
    {
        get_neighbor_mut(self.layer_meta, self.idx, layer)
    }

    /// Get a key that can be used to access this node later.
    pub fn key(&self) -> (r: NodeKey<T>)
        requires
            self.wf(),
        ensures
            r.index() == self.index(),
            r.generation() == self.meta().generation(self.index() as int),
    {
        NodeKey { idx: self.idx, gen: self.layer_meta.generations[self.idx], _marker: PhantomData }
    }

    /// Get an immutable `NodeRef` from the `NodeRefMut`.
    pub fn subview(&self) -> (r: NodeRef<'_, T>)
        ensures
            r.index() == self.index(),
            r.meta() == self.meta(),
            r.component() == self.component(),
    {
        NodeRef { c: self.c, idx: self.idx, layer_meta: self.layer_meta }
    }
}

/// `new` is `old` with an edge from slot `i` to slot `t` of layer `b` added.
pub open spec fn connected_oneway(old: LayerMetadata, new: LayerMetadata, i: nat, b: int, t: nat) -> bool {
    &&& new.wf()
    &&& new.target_layers() == old.target_layers()
    &&& new.slots() == old.slots()
    &&& new.vacant() == old.vacant()
    &&& forall|k: int| 0 <= k < old.slots() ==> new.generation(k) == old.generation(k) && new.is_live(k) == old.is_live(k)
    &&& new.target(i as int, b) == Some(t as usize)
    &&& forall|k: int, c: int| (k != i || c != b) ==> #[trigger] new.target(k, c) == old.target(k, c)
}

impl LayerMetadata {
    /// Record an edge from slot `i` to slot `t` of layer `b`.
    fn set_edge(&mut self, i: usize, b: usize, t: usize)
        requires
            old(self).wf(),
            i < old(self).slots(),
            b < old(self).target_layers(),
        ensures
            connected_oneway(*old(self), *final(self), i as nat, b as int, t as nat),
    {
        let ghost m0 = *self;
        crate::base::graph::set_cell(&mut self.edges[b], i, Some(t));
        proof {
            assert forall|x: int| 0 <= x < self.edges@.len() implies #[trigger] self.edges@[x]@.len() <= self.generations@.len() by {
                if x != b {
                    assert(self.edges@[x] == m0.edges@[x]);
                }
            }
            assert forall|k: int, c: int| (k != i || c != b) implies #[trigger] self.target(k, c) == m0.target(k, c) by {
                if 0 <= c < self.edges@.len() && c != b {
                    assert(self.edges@[c] == m0.edges@[c]);
                }
            }
        }
    }
}

/// The node that the edge from `node_idx` to the layer of `Target` leads to, if any.
fn get_neighbor<'lr, 'l, Target: Component>(
    node_layer_meta: &LayerMetadata,
    node_idx: usize,
    target_layer: &'lr LayerView<'l, Target>,
) -> (r: Option<NodeRef<'lr, Target>>)
    requires
        target_layer.wf(),
        node_layer_meta.target(node_idx as int, Target::LAYER_INDEX as int) matches Some(t) ==> t < target_layer.contents().len(),
    ensures
        neighbor_found(r, node_layer_meta.target(node_idx as int, Target::LAYER_INDEX as int), target_layer),
{
    match get_neighbor_idx::<Target>(node_layer_meta, node_idx) {
        Some(target) => Some(NodeRef { c: &target_layer.components[target], idx: target, layer_meta: target_layer.meta }),
        None => None,
    }
}

/// The node that the edge from `node_idx` to the layer of `Target` leads to, if any, for mutable access.
fn get_neighbor_mut<'lr, 'l, Target: Component>(
    node_layer_meta: &LayerMetadata,
    node_idx: usize,
    target_layer: &'lr mut LayerViewMut<'l, Target>,
) -> (r: Option<NodeRefMut<'lr, Target>>)
    requires
        old(target_layer).wf(),
        node_layer_meta.target(node_idx as int, Target::LAYER_INDEX as int) matches Some(t) ==> t < old(target_layer).contents().len(),
    ensures
        neighbor_found_mut(r, node_layer_meta.target(node_idx as int, Target::LAYER_INDEX as int), *old(target_layer)),
{
    match get_neighbor_idx::<Target>(node_layer_meta, node_idx) {
        Some(target) => Some(NodeRefMut { c: &mut target_layer.components[target], idx: target, layer_meta: &mut target_layer.meta }),
        None => None,
    }
}

/// An immutable view into a single layer of the graph.
pub struct LayerView<'a, T: Component> {
    pub(crate) meta: &'a LayerMetadata,
    pub(crate) components: &'a [T],
}

impl<'a, T: Component> LayerView<'a, T> {
    pub closed spec fn meta(&self) -> LayerMetadata {
        *self.meta
    }

    pub closed spec fn contents(&self) -> Seq<T> {
        self.components@
    }

    pub open spec fn wf(&self) -> bool {
        self.meta().wf() && self.contents().len() == self.meta().slots()
    }
}

/// A mutable view into a single layer of the graph, holding the layer's metadata while it is in use.
pub struct LayerViewMut<'a, T: Component> {
    /// The layer's metadata, given back to the graph by `Graph::release_layer`.
    pub meta: LayerMetadata,
    /// The layer's components.
    pub components: &'a mut Vec<T>,
}

/// `s` with `c` at `i`, where `i` is a position of `s` or the one just past its end.
pub open spec fn placed<T>(s: Seq<T>, i: int, c: T) -> Seq<T> {
    if i < s.len() {
        s.update(i, c)
    } else {
        s.push(c)
    }
}

impl<'a, T: Component> LayerViewMut<'a, T> {
    pub open spec fn meta(&self) -> LayerMetadata {
        self.meta
    }

    pub open spec fn contents(&self) -> Seq<T> {
        self.components@
    }

    pub open spec fn wf(&self) -> bool {
        self.meta().wf() && self.contents().len() == self.meta().slots()
    }
}

impl<'a, T: Component> LayerView<'a, T> {
    /// Get an immutable reference to a node if it still exists, otherwise return None.
    pub fn get(&self, key: NodeKey<T>) -> (r: Option<NodeRef<'_, T>>)
        requires
            self.wf(),
        ensures
            key_found(r, key, self.meta(), self.contents()),
    {
        if self.meta.generations.len() <= key.idx || self.meta.generations[key.idx] != key.gen {
            None
        } else {
            Some(self.get_unchecked(key))
        }
    }

    /// Get an immutable reference to a node without checking if it still exists.
    pub fn get_unchecked(&self, key: NodeKey<T>) -> (r: NodeRef<'_, T>)
        requires
            self.wf(),
            key.index() < self.contents().len(),
        ensures
            r.wf(),
            r.index() == key.index(),
            r.meta() == self.meta(),
            r.component() == self.contents()[key.index() as int],
    {
        self.get_unchecked_by_item_idx(key.idx)
    }

    pub fn get_unchecked_by_item_idx(&self, idx: usize) -> (r: NodeRef<'_, T>)
        requires
            self.wf(),
            idx < self.contents().len(),
        ensures
            r.wf(),
            r.index() == idx,
            r.meta() == self.meta(),
            r.component() == self.contents()[idx as int],
    {
        NodeRef { c: &self.components[idx], idx, layer_meta: self.meta }
    }

    /// Iterate over the live nodes of this layer.
    pub fn iter(&self) -> (r: LayerIter<'_, T>)
        requires
            self.wf(),
        ensures
            r.wf(),
            r.position() == 0,
            r.meta() == self.meta(),
            r.contents() == self.contents(),
    {
        LayerIter { layer_meta: self.meta, components: self.components, pos: 0 }
    }

    /// Take a sub-view into this view.
    pub fn subview(&self) -> (r: LayerView<'_, T>)
        ensures
            r.meta() == self.meta(),
            r.contents() == self.contents(),
    {
        LayerView { meta: self.meta, components: self.components }
    }

    /// The number of slots, live or dead.
    pub fn len(&self) -> (r: usize)
        ensures
            r == self.contents().len(),
    {
        self.components.len()
    }
}

/// `r` is the node that `key` designates in a layer with metadata `meta` and components
/// `contents`, or nothing if the key is stale.
pub open spec fn key_found<'r, T: Component>(r: Option<NodeRef<'r, T>>, key: NodeKey<T>, meta: LayerMetadata, contents: Seq<T>) -> bool {
    if key.index() < meta.slots() && meta.generation(key.index() as int) == key.generation() {
        r matches Some(n) && {
            &&& n.wf()
            &&& n.index() == key.index()
            &&& n.meta() == meta
            &&& n.component() == contents[key.index() as int]
        }
    } else {
        r is None
    }
}

/// An immutable iterator over the live nodes of a single layer.
pub struct LayerIter<'a, T: Component> {
    layer_meta: &'a LayerMetadata,
    components: &'a [T],
    pos: usize,
}

impl<'a, T: Component> LayerIter<'a, T> {
    pub closed spec fn position(&self) -> nat {
        self.pos as nat
    }

    pub closed spec fn meta(&self) -> LayerMetadata {
        *self.layer_meta
    }

    pub closed spec fn contents(&self) -> Seq<T> {
        self.components@
    }

    pub open spec fn wf(&self) -> bool {
        self.meta().wf() && self.contents().len() == self.meta().slots()
    }

    /// The slots the iterator has still to yield: the live ones from its position on, in
    /// increasing order. A fresh iterator has all live slots of the layer still to yield.
    pub open spec fn remaining(&self) -> Seq<usize> {
        live_slots(self.meta(), self.position() as int, self.contents().len() as int)
    }

    /// The next live node at or after the current position.
    pub fn next(&mut self) -> (r: Option<NodeRef<'a, T>>)
        requires
            old(self).wf(),
        ensures
            final(self).wf(),
            final(self).meta() == old(self).meta(),
            final(self).contents() == old(self).contents(),
            match r {
                None => forall|k: int| old(self).position() <= k < old(self).contents().len() ==> !#[trigger] old(self).meta().is_live(k),
                Some(n) => {
                    &&& n.wf()
                    &&& n.meta() == old(self).meta()
                    &&& old(self).position() <= n.index() < old(self).contents().len()
                    &&& old(self).meta().is_live(n.index() as int)
                    &&& forall|k: int| old(self).position() <= k < n.index() ==> !#[trigger] old(self).meta().is_live(k)
                    &&& n.component() == old(self).contents()[n.index() as int]
                    &&& final(self).position() == n.index() + 1
                },
            },
            old(self).remaining() == match r {
                None => Seq::<usize>::empty(),
                Some(n) => seq![n.index() as usize] + final(self).remaining(),
            },
    {
        let ghost it0 = *self;
        let r = self.next_live();
        proof {
            match &r {
                None => {
                    if it0.position() <= it0.contents().len() {
                        lemma_live_skip(it0.meta(), it0.position() as int, it0.contents().len() as int, it0.contents().len() as int);
                    }
                },
                Some(n) => {
                    let x = n.index() as int;
                    lemma_live_skip(it0.meta(), it0.position() as int, x, it0.contents().len() as int);
                    assert(live_slots(it0.meta(), x, it0.contents().len() as int)
                        == seq![x as usize] + live_slots(it0.meta(), x + 1, it0.contents().len() as int));
                },
            }
        }
        r
    }

    /// Find the next live node at or after the current position.
    fn next_live(&mut self) -> (r: Option<NodeRef<'a, T>>)
        requires
            old(self).wf(),
        ensures
            final(self).wf(),
            final(self).meta() == old(self).meta(),
            final(self).contents() == old(self).contents(),
            match r {
                None => forall|k: int| old(self).position() <= k < old(self).contents().len() ==> !#[trigger] old(self).meta().is_live(k),
                Some(n) => {
                    &&& n.wf()
                    &&& n.meta() == old(self).meta()
                    &&& old(self).position() <= n.index() < old(self).contents().len()
                    &&& old(self).meta().is_live(n.index() as int)
                    &&& forall|k: int| old(self).position() <= k < n.index() ==> !#[trigger] old(self).meta().is_live(k)
                    &&& n.component() == old(self).contents()[n.index() as int]
                    &&& final(self).position() == n.index() + 1
                },
            },
    {
        while self.pos < self.components.len()
            invariant
                self.layer_meta == old(self).layer_meta,
                self.components == old(self).components,
                old(self).pos <= self.pos,
                self.wf(),
                forall|k: int| old(self).pos <= k < self.pos ==> !#[trigger] old(self).meta().is_live(k),
            decreases self.components@.len() - self.pos,
        {
            let idx = self.pos;
            self.pos = self.pos + 1;
            if self.layer_meta.exists[idx] {
                return Some(NodeRef { c: &self.components[idx], idx, layer_meta: self.layer_meta });
            }
        }
        None
    }
}

/// The live slots of `m` from `from` up to `to`, in increasing order.
pub open spec fn live_slots(m: LayerMetadata, from: int, to: int) -> Seq<usize>
    decreases to - from,
{
    if from >= to {
        Seq::empty()
    } else {
        let rest = live_slots(m, from + 1, to);
        if m.is_live(from) {
            seq![from as usize] + rest
        } else {
            rest
        }
    }
}

/// Skipping slots that are not live skips nothing of the live ones.
proof fn lemma_live_skip(m: LayerMetadata, p: int, q: int, to: int)
    requires
        p <= q <= to,
        forall|k: int| p <= k < q ==> !#[trigger] m.is_live(k),
    ensures
        live_slots(m, p, to) == live_slots(m, q, to),
    decreases q - p,
{
    if p < q {
        assert(!m.is_live(p));
        lemma_live_skip(m, p + 1, q, to);
    }
}

/// `new` is `old` after making slot `item` live for an inserted component: the oldest vacant
/// slot if there is one, otherwise a new slot at the end with generation zero.
pub open spec fn inserted(old: LayerMetadata, new: LayerMetadata, item: nat) -> bool {
    &&& new.wf()
    &&& new.target_layers() == old.target_layers()
    &&& forall|k: int, c: int| #[trigger] new.target(k, c) == old.target(k, c)
    &&& forall|k: int| 0 <= k < old.slots() ==> #[trigger] new.generation(k) == old.generation(k)
    &&& forall|k: int| 0 <= k < old.slots() && k != item ==> #[trigger] new.is_live(k) == old.is_live(k)
    &&& new.is_live(item as int)
    &&& if old.vacant().len() > 0 {
        &&& item == old.vacant()[0]
        &&& new.vacant() == old.vacant().drop_first()
        &&& new.slots() == old.slots()
    } else {
        &&& item == old.slots()
        &&& new.vacant() == old.vacant()
        &&& new.slots() == old.slots() + 1
        &&& new.generation(item as int) == 0
        &&& forall|c: int| #[trigger] new.target(item as int, c) is None
    }
}

impl LayerMetadata {
    /// Make a slot live for a new component and return it; returns whether it is a new slot.
    fn occupy_slot(&mut self) -> (r: (usize, bool))
        requires
            old(self).wf(),
        ensures
            inserted(*old(self), *final(self), r.0 as nat),
            r.1 == (old(self).vacant().len() == 0),
    {
        let ghost m0 = *self;
        match self.vacant_slots.pop_front() {
            Some(vacant_slot) => {
                // no generation increment here, that happens on delete
                self.exists.set(vacant_slot, true);
                proof {
                    assert forall|k: int| 0 <= k < self.vacant_slots@.len() implies #[trigger] self.vacant_slots@[k] < self.generations@.len() by {
                        assert(self.vacant_slots@[k] == m0.vacant_slots@[k + 1]);
                    }
                }
                (vacant_slot, false)
            },
            None => {
                let idx = self.generations.len();
                self.generations.push(0);
                self.exists.push(true);
                proof {
                    assert forall|b: int| 0 <= b < self.edges@.len() implies #[trigger] self.edges@[b]@.len() <= self.generations@.len() by {
                        assert(m0.edges@[b]@.len() <= m0.generations@.len());
                    }
                    assert forall|k: int, c: int| #[trigger] self.target(k, c) == m0.target(k, c) by {
                        if 0 <= c < self.edges@.len() && k == idx {
                            assert(m0.edges@[c]@.len() <= m0.generations@.len());
                        }
                    }
                }
                (idx, true)
            },
        }
    }
}

impl<'a, T: Component> LayerViewMut<'a, T> {
    /// Insert a component into the layer, reusing the oldest vacant slot if there is one.
    ///
    /// This returns a reference to the node that was created,
    /// which you can use to connect it to other nodes.
    pub fn insert(&mut self, component: T) -> (r: NodeRefMut<'_, T>)
        requires
            old(self).wf(),
        ensures
            r.wf(),
            inserted(old(self).meta(), r.meta(), r.index()),
            r.component() == component,
            final(self).meta() == *final(r.layer_meta),
            final(self).contents() == placed(old(self).contents(), r.index() as int, *final(r.c)),
            *final(final(self).components) == *final(old(self).components),
    {
        let (item_idx, fresh) = self.meta.occupy_slot();
        if fresh {
            self.components.push(component);
        } else {
            self.components.set(item_idx, component);
        }
        NodeRefMut { c: &mut self.components[item_idx], idx: item_idx, layer_meta: &mut self.meta }
    }

    /// Get an immutable reference to a node if it still exists, otherwise return None.
    pub fn get(&self, key: NodeKey<T>) -> (r: Option<NodeRef<'_, T>>)
        requires
            self.wf(),
        ensures
            key_found(r, key, self.meta(), self.contents()),
    {
        if self.meta.generations.len() <= key.idx || self.meta.generations[key.idx] != key.gen {
            None
        } else {
            Some(self.get_unchecked(key))
        }
    }

    /// Get an immutable reference to a node without checking if it still exists.
    pub fn get_unchecked(&self, key: NodeKey<T>) -> (r: NodeRef<'_, T>)
        requires
            self.wf(),
            key.index() < self.contents().len(),
        ensures
            r.wf(),
            r.index() == key.index(),
            r.meta() == self.meta(),
            r.component() == self.contents()[key.index() as int],
    {
        self.get_unchecked_by_item_idx(key.idx)
    }

    pub fn get_unchecked_by_item_idx(&self, idx: usize) -> (r: NodeRef<'_, T>)
        requires
            self.wf(),
            idx < self.contents().len(),
        ensures
            r.wf(),
            r.index() == idx,
            r.meta() == self.meta(),
            r.component() == self.contents()[idx as int],
    {
        NodeRef { c: &self.components[idx], idx, layer_meta: &self.meta }
    }

    /// Get a mutable reference to a node if it still exists, otherwise return None.
    pub fn get_mut(&mut self, key: NodeKey<T>) -> (r: Option<NodeRefMut<'_, T>>)
        requires
            old(self).wf(),
        ensures
            if key.index() < old(self).meta().slots() && old(self).meta().generation(key.index() as int) == key.generation() {
                r matches Some(n) && {
                    &&& n.wf()
                    &&& n.index() == key.index()
                    &&& n.meta() == old(self).meta()
                    &&& n.component() == old(self).contents()[key.index() as int]
                    &&& final(self).meta() == *final(n.layer_meta)
                    &&& final(self).contents() == old(self).contents().update(key.index() as int, *final(n.c))
                }
            } else {
                r is None && *final(self) == *old(self)
            },
            *final(final(self).components) == *final(old(self).components),
    {
        if self.meta.generations.len() <= key.idx || self.meta.generations[key.idx] != key.gen {
            None
        } else {
            Some(self.get_mut_unchecked(key))
        }
    }

    /// Get a mutable reference to a node without checking if it still exists.
    pub fn get_mut_unchecked(&mut self, key: NodeKey<T>) -> (r: NodeRefMut<'_, T>)
        requires
            old(self).wf(),
            key.index() < old(self).contents().len(),
        ensures
            r.wf(),
            r.index() == key.index(),
            r.meta() == old(self).meta(),
            r.component() == old(self).contents()[key.index() as int],
            final(self).meta() == *final(r.layer_meta),
            final(self).contents() == old(self).contents().update(key.index() as int, *final(r.c)),
            *final(final(self).components) == *final(old(self).components),
    {
        self.get_mut_unchecked_by_item_idx(key.idx)
    }

    pub fn get_mut_unchecked_by_item_idx(&mut self, idx: usize) -> (r: NodeRefMut<'_, T>)
        requires
            old(self).wf(),
            idx < old(self).contents().len(),
        ensures
            r.wf(),
            r.index() == idx,
            r.meta() == old(self).meta(),
            r.component() == old(self).contents()[idx as int],
            final(self).meta() == *final(r.layer_meta),
            final(self).contents() == old(self).contents().update(idx as int, *final(r.c)),
            *final(final(self).components) == *final(old(self).components),
    {
        NodeRefMut { c: &mut self.components[idx], idx, layer_meta: &mut self.meta }
    }

    /// Iterate over the live nodes of this layer.
    pub fn iter(&self) -> (r: LayerIter<'_, T>)
        requires
            self.wf(),
        ensures
            r.wf(),
            r.position() == 0,
            r.meta() == self.meta(),
            r.contents() == self.contents(),
    {
        LayerIter { layer_meta: &self.meta, components: self.components.as_slice(), pos: 0 }
    }

    /// Take an immutable sub-view into this mutable view.
    pub fn subview(&self) -> (r: LayerView<'_, T>)
        ensures
            r.meta() == self.meta(),
            r.contents() == self.contents(),
    {
        LayerView { meta: &self.meta, components: self.components.as_slice() }
    }

    /// The number of slots, live or dead.
    pub fn len(&self) -> (r: usize)
        ensures
            r == self.contents().len(),
    {
        self.components.len()
    }
}

/// A node handed out by [`LayerIterMut`]: mutable access to the component, shared access to
/// the layer's metadata.
pub struct NodeMut<'a, T: Component> {
    /// The component that this node points to.
    pub c: &'a mut T,
    idx: usize,
    layer_meta: &'a LayerMetadata,
}

impl<'a, T: Component> NodeMut<'a, T> {
    pub closed spec fn index(&self) -> nat {
        self.idx as nat
    }

    pub closed spec fn meta(&self) -> LayerMetadata {
        *self.layer_meta
    }

    pub closed spec fn component(&self) -> T {
        *self.c
    }

    pub open spec fn wf(&self) -> bool {
        self.meta().wf() && self.index() < self.meta().slots()
    }

    /// If there's an edge starting from this node and ending at a node of the given type,
    /// get a reference to that node, otherwise return None.
    pub fn get_neighbor<'lr, 'l, Target: Component>(&self, layer: &'lr LayerView<'l, Target>) -> (r: Option<
        NodeRef<'lr, Target>,
    >)
        requires
            layer.wf(),
            self.meta().target(self.index() as int, Target::LAYER_INDEX as int) matches Some(t) ==> t < layer.contents().len(),
        ensures
            neighbor_found(r, self.meta().target(self.index() as int, Target::LAYER_INDEX as int), layer),
    {
        get_neighbor(self.layer_meta, self.idx, layer)
    }

    /// If there's an edge starting from this node and ending at a node of the given type,
    /// get a mutable reference to that node, otherwise return None.
    pub fn get_neighbor_mut<'lr, 'l, Target: Component>(&self, layer: &'lr mut LayerViewMut<'l, Target>) -> (r: Option<
        NodeRefMut<'lr, Target>,
    >)
        requires
            old(layer).wf(),
            self.meta().target(self.index() as int, Target::LAYER_INDEX as int) matches Some(t) ==> t < old(layer).contents().len(),
        ensures
            neighbor_found_mut(r, self.meta().target(self.index() as int, Target::LAYER_INDEX as int), *old(layer)),
    {
        get_neighbor_mut(self.layer_meta, self.idx, layer)
    }

    /// Get a key that can be used to access this node later.
    pub fn key(&self) -> (r: NodeKey<T>)
        requires
            self.wf(),
        ensures
            r.index() == self.index(),
            r.generation() == self.meta().generation(self.index() as int),
    {
        NodeKey { idx: self.idx, gen: self.layer_meta.generations[self.idx], _marker: PhantomData }
    }
}

impl<'a, T: Component> LayerViewMut<'a, T> {
    /// Iterate over the live nodes of this layer with mutable access to their components.
    pub fn iter_mut(&mut self) -> (r: LayerIterMut<'_, T>)
        requires
            old(self).wf(),
        ensures
            r.wf(),
            r.position() == 0,
            r.meta() == old(self).meta(),
            r.remaining() == old(self).contents(),
    {
        LayerIterMut { layer_meta: &self.meta, rest: self.components.as_mut_slice(), pos: 0 }
    }
}

/// A mutable iterator over the live nodes of a single layer.
pub struct LayerIterMut<'a, T: Component> {
    layer_meta: &'a LayerMetadata,
    rest: &'a mut [T],
    pos: usize,
}

impl<'a, T: Component> LayerIterMut<'a, T> {
    pub closed spec fn position(&self) -> nat {
        self.pos as nat
    }

    pub closed spec fn meta(&self) -> LayerMetadata {
        *self.layer_meta
    }

    /// The components from the current position on.
    pub closed spec fn remaining(&self) -> Seq<T> {
        self.rest@
    }

    pub open spec fn wf(&self) -> bool {
        self.meta().wf() && self.position() + self.remaining().len() == self.meta().slots()
    }

    /// The next live node at or after the current position.
    pub fn next(&mut self) -> (r: Option<NodeMut<'a, T>>)
        requires
            old(self).wf(),
        ensures
            final(self).wf(),
            final(self).meta() == old(self).meta(),
            match r {
                None => {
                    &&& forall|k: int| old(self).position() <= k < old(self).meta().slots() ==> !#[trigger] old(self).meta().is_live(k)
                    &&& final(self).remaining().len() == 0
                },
                Some(n) => {
                    &&& n.wf()
                    &&& n.meta() == old(self).meta()
                    &&& old(self).position() <= n.index() < old(self).meta().slots()
                    &&& old(self).meta().is_live(n.index() as int)
                    &&& forall|k: int| old(self).position() <= k < n.index() ==> !#[trigger] old(self).meta().is_live(k)
                    &&& n.component() == old(self).remaining()[n.index() - old(self).position()]
                    &&& final(self).position() == n.index() + 1
                    &&& final(self).remaining() == old(self).remaining().subrange(
                        n.index() - old(self).position() + 1,
                        old(self).remaining().len() as int,
                    )
                },
            },
    {
        let ghost p0 = self.pos;
        let ghost r0 = self.rest@;
        loop
            invariant
                p0 <= self.pos,
                p0 == old(self).pos,
                self.layer_meta == old(self).layer_meta,
                r0 == old(self).rest@,
                self.wf(),
                self.pos - p0 + self.rest@.len() == r0.len(),
                self.rest@ == r0.subrange(self.pos - p0, r0.len() as int),
                forall|k: int| p0 <= k < self.pos ==> !#[trigger] old(self).meta().is_live(k),
            decreases self.rest@.len(),
        {
            if self.rest.len() == 0 {
                return None;
            }
            let mut taken: &'a mut [T] = &mut [];
            std::mem::swap(&mut taken, &mut self.rest);
            let (head, tail) = taken.split_at_mut(1);
            self.rest = tail;
            let idx = self.pos;
            proof {
                assert(self.layer_meta.generations@.len() == self.layer_meta.generations.len());
            }
            self.pos = self.pos + 1;
            if self.layer_meta.exists[idx] {
                return Some(NodeMut { c: &mut head[0], idx, layer_meta: self.layer_meta });
            }
        }
    }
}


/// `new` is `old` with the edge from slot `i` to layer `b` removed.
pub open spec fn edge_cleared(old: LayerMetadata, new: LayerMetadata, i: int, b: int) -> bool {
    &&& new.wf()
    &&& layer_kept(old, new)
    &&& new.vacant() == old.vacant()
    &&& forall|k: int| 0 <= k < old.slots() ==> #[trigger] new.generation(k) == old.generation(k)
    &&& forall|k: int| 0 <= k < old.slots() ==> #[trigger] new.is_live(k) == old.is_live(k)
    &&& forall|k: int, c: int| #[trigger] new.target(k, c) == if k == i && c == b {
        None
    } else {
        old.target(k, c)
    }
}

/// `new` is `old` with slot `i` retired: its generation bumped, dead, and queued for reuse.
pub open spec fn slot_retired(old: LayerMetadata, new: LayerMetadata, i: int) -> bool {
    &&& new.wf()
    &&& layer_kept(old, new)
    &&& forall|k: int, c: int| #[trigger] new.target(k, c) == old.target(k, c)
    &&& new.vacant() == old.vacant().push(i as usize)
    &&& forall|k: int| 0 <= k < old.slots() ==> #[trigger] new.generation(k) == if k == i {
        old.generation(k) + 1
    } else {
        old.generation(k) as int
    }
    &&& forall|k: int| 0 <= k < old.slots() ==> #[trigger] new.is_live(k) == (old.is_live(k) && k != i)
}

/// `new` has the slots and edge rows of `old`, row for row.
pub open spec fn layer_kept(old: LayerMetadata, new: LayerMetadata) -> bool {
    &&& new.target_layers() == old.target_layers()
    &&& new.slots() == old.slots()
    &&& forall|c: int| 0 <= c < old.target_layers() ==> #[trigger] new.row_len(c) == old.row_len(c)
}

impl LayerMetadata {
    /// Remove the edge from slot `i` to layer `b`.
    fn clear_edge(&mut self, i: usize, b: usize)
        requires
            old(self).wf(),
            b < old(self).target_layers(),
            i < old(self).row_len(b as int),
        ensures
            edge_cleared(*old(self), *final(self), i as int, b as int),
    {
        let ghost m0 = *self;
        self.edges[b][i] = None;
        proof {
            assert forall|x: int| 0 <= x < self.edges@.len() implies #[trigger] self.edges@[x]@.len() <= self.generations@.len() by {
                if x != b {
                    assert(self.edges@[x] == m0.edges@[x]);
                }
            }
            assert forall|c: int| 0 <= c < m0.target_layers() implies #[trigger] self.row_len(c) == m0.row_len(c) by {
                if c != b {
                    assert(self.edges@[c] == m0.edges@[c]);
                }
            }
            assert forall|k: int, c: int| #[trigger] self.target(k, c) == if k == i && c == b {
                None
            } else {
                m0.target(k, c)
            } by {
                if 0 <= c < self.edges@.len() && c != b {
                    assert(self.edges@[c] == m0.edges@[c]);
                }
            }
        }
    }

    /// Mark slot `i` dead: bump its generation so that old keys go stale, and queue it for reuse.
    fn retire(&mut self, i: usize)
        requires
            old(self).wf(),
            i < old(self).slots(),
            old(self).generation(i as int) < usize::MAX,
        ensures
            slot_retired(*old(self), *final(self), i as int),
    {
        let ghost m0 = *self;
        let g = self.generations[i];
        self.generations.set(i, g + 1);
        self.exists.set(i, false);
        self.vacant_slots.push_back(i);
        proof {
            assert forall|x: int| 0 <= x < self.edges@.len() implies #[trigger] self.edges@[x]@.len() <= self.generations@.len() by {
                assert(m0.edges@[x]@.len() <= m0.generations@.len());
            }
            assert forall|k: int| 0 <= k < self.vacant_slots@.len() implies #[trigger] self.vacant_slots@[k] < self.generations@.len() by {
                if k < m0.vacant_slots@.len() {
                    assert(self.vacant_slots@[k] == m0.vacant_slots@[k]);
                }
            }
        }
    }
}

//
// Graph
//

/// The component graph itself.
///
/// A graph is built out of _layers_, one per type of component stored.
/// Layers contain _nodes_ representing individual components,
/// and these are connected to other components with _edges_.
///
/// The graph keeps the edges, generations and vacant slots of every layer; the components
/// themselves live in one `Vec` per layer that the caller hands in when it takes a view.
/// A layer taken for writing is out of the graph until it is released.
pub struct Graph<const LAYER_COUNT: usize> {
    layers: Vec<LayerMetadata>,
    in_use: Vec<bool>,
}

impl<const LAYER_COUNT: usize> Graph<LAYER_COUNT> {
    /// The metadata of layer `l`.
    pub closed spec fn layer(&self, l: int) -> LayerMetadata {
        self.layers@[l]
    }

    /// Layer `l` is in the graph, not taken for writing.
    pub closed spec fn available(&self, l: int) -> bool {
        !self.in_use@[l]
    }

    pub open spec fn all_available(&self) -> bool {
        forall|l: int| 0 <= l < LAYER_COUNT ==> #[trigger] self.available(l)
    }

    pub closed spec fn wf(&self) -> bool {
        &&& self.layers@.len() == LAYER_COUNT
        &&& self.in_use@.len() == LAYER_COUNT
        &&& forall|l: int| 0 <= l < LAYER_COUNT && #[trigger] self.available(l) ==> {
            &&& self.layer(l).wf()
            &&& self.layer(l).target_layers() == LAYER_COUNT
        }
    }

    /// The edge tables of all layers.
    pub closed spec fn tables(&self) -> Tables {
        Seq::new(LAYER_COUNT as nat, |l: int| self.layers@[l].edges@.map_values(|r: Vec<Option<usize>>| r@))
    }

    /// The slot of layer `b` that node `n` has an edge to, if any.
    pub open spec fn edge(&self, n: BareNodeKey, b: int) -> Option<usize> {
        cell(self.tables(), n, b)
    }

    /// Every edge leads to a slot of its layer and has an edge back: what connecting nodes
    /// two ways keeps.
    pub open spec fn consistent(&self) -> bool {
        forall|n: BareNodeKey, b: int| #[trigger] self.edge(n, b) matches Some(j) ==> {
            &&& 0 <= b < LAYER_COUNT
            &&& j < self.layer(b).slots()
            &&& self.edge(BareNodeKey { layer: b as usize, idx: j }, n.layer as int) == Some(n.idx)
        }
    }

    /// An edge of the graph is an edge of the metadata of its layer.
    pub proof fn lemma_edge(&self, n: BareNodeKey, b: int)
        requires
            self.wf(),
            n.layer < LAYER_COUNT ==> self.available(n.layer as int),
        ensures
            self.edge(n, b) == if n.layer < LAYER_COUNT {
                self.layer(n.layer as int).target(n.idx as int, b)
            } else {
                None
            },
            self.edge(n, b) is Some ==> 0 <= b < LAYER_COUNT && n.layer < LAYER_COUNT
                && n.idx < self.layer(n.layer as int).row_len(b),
    {
        if n.layer < LAYER_COUNT {
            let l = n.layer as int;
            assert(self.tables()[l] == self.layers@[l].edges@.map_values(|r: Vec<Option<usize>>| r@));
            if 0 <= b < self.layers@[l].edges@.len() {
                assert(self.tables()[l][b] == self.layers@[l].edges@[b]@);
            }
        }
    }

    /// A graph with `LAYER_COUNT` empty layers.
    pub fn new() -> (r: Self)
        ensures
            r.wf(),
            r.all_available(),
            r.consistent(),
            forall|l: int| 0 <= l < LAYER_COUNT ==> #[trigger] r.layer(l).slots() == 0 && r.layer(l).vacant() == Seq::<usize>::empty(),
    {
        let mut layers: Vec<LayerMetadata> = Vec::new();
        let mut in_use: Vec<bool> = Vec::new();
        let mut l: usize = 0;
        while l < LAYER_COUNT
            invariant
                l <= LAYER_COUNT,
                layers@.len() == l,
                in_use@.len() == l,
                forall|k: int| 0 <= k < l ==> !(#[trigger] in_use@[k]),
                forall|k: int| 0 <= k < l ==> {
                    &&& (#[trigger] layers@[k]).wf()
                    &&& layers@[k].target_layers() == LAYER_COUNT
                    &&& layers@[k].slots() == 0
                    &&& layers@[k].vacant() == Seq::<usize>::empty()
                },
            decreases LAYER_COUNT - l,
        {
            layers.push(LayerMetadata::new(LAYER_COUNT));
            in_use.push(false);
            l = l + 1;
        }
        let r = Graph { layers, in_use };
        proof {
            assert forall|n: BareNodeKey, b: int| #[trigger] r.edge(n, b) is None by {
                r.lemma_edge(n, b);
            }
        }
        r
    }

    /// View a layer for reading, with `components` as the components of its slots.
    ///
    /// The layer must not be taken for writing.
    pub fn get_layer<'a, T: Component>(&'a self, components: &'a [T]) -> (r: LayerView<'a, T>)
        requires
            self.wf(),
            T::LAYER_INDEX < LAYER_COUNT,
            self.available(T::LAYER_INDEX as int),
            components@.len() == self.layer(T::LAYER_INDEX as int).slots(),
        ensures
            r.wf(),
            r.meta() == self.layer(T::LAYER_INDEX as int),
            r.contents() == components@,
    {
        LayerView { meta: &self.layers[T::LAYER_INDEX], components }
    }

    /// Take a layer out of the graph for writing, with `components` as the components of its
    /// slots. It stays out until it is given back with [`Graph::release_layer`].
    pub fn get_layer_mut<'a, T: Component>(&mut self, components: &'a mut Vec<T>) -> (r: LayerViewMut<'a, T>)
        requires
            old(self).wf(),
            T::LAYER_INDEX < LAYER_COUNT,
            old(self).available(T::LAYER_INDEX as int),
            old(components)@.len() == old(self).layer(T::LAYER_INDEX as int).slots(),
        ensures
            final(self).wf(),
            r.wf(),
            r.meta() == old(self).layer(T::LAYER_INDEX as int),
            r.contents() == old(components)@,
            r.meta().target_layers() == LAYER_COUNT,
            *final(components) == *final(r.components),
            !final(self).available(T::LAYER_INDEX as int),
            forall|l: int| 0 <= l < LAYER_COUNT && l != T::LAYER_INDEX ==> #[trigger] final(self).available(l)
                == old(self).available(l),
            forall|l: int| 0 <= l < LAYER_COUNT && l != T::LAYER_INDEX ==> #[trigger] final(self).layer(l)
                == old(self).layer(l),
    {
        let ghost g0 = *self;
        let mut meta = LayerMetadata::new(0);
        std::mem::swap(&mut meta, &mut self.layers[T::LAYER_INDEX]);
        self.in_use.set(T::LAYER_INDEX, true);
        proof {
            assert(meta == g0.layers@[T::LAYER_INDEX as int]);
            assert forall|l: int| 0 <= l < LAYER_COUNT && l != T::LAYER_INDEX implies self.layers@[l] == g0.layers@[l]
                && self.in_use@[l] == g0.in_use@[l] by {}
            assert forall|l: int| 0 <= l < LAYER_COUNT && #[trigger] self.available(l) implies {
                &&& self.layer(l).wf()
                &&& self.layer(l).target_layers() == LAYER_COUNT
            } by {
                assert(g0.available(l));
            }
        }
        LayerViewMut { meta, components }
    }

    /// Give a layer taken with [`Graph::get_layer_mut`] back to the graph.
    pub fn release_layer<'a, T: Component>(&mut self, view: LayerViewMut<'a, T>)
        requires
            old(self).wf(),
            T::LAYER_INDEX < LAYER_COUNT,
            !old(self).available(T::LAYER_INDEX as int),
            view.wf(),
            view.meta().target_layers() == LAYER_COUNT,
        ensures
            final(self).wf(),
            final(self).available(T::LAYER_INDEX as int),
            final(self).layer(T::LAYER_INDEX as int) == view.meta(),
            *final(view.components) == *old(view.components),
            forall|l: int| 0 <= l < LAYER_COUNT && l != T::LAYER_INDEX ==> #[trigger] final(self).available(l)
                == old(self).available(l),
            forall|l: int| 0 <= l < LAYER_COUNT && l != T::LAYER_INDEX ==> #[trigger] final(self).layer(l)
                == old(self).layer(l),
    {
        let ghost g0 = *self;
        let LayerViewMut { meta, components } = view;
        self.layers.set(T::LAYER_INDEX, meta);
        self.in_use.set(T::LAYER_INDEX, false);
        proof {
            assert forall|l: int| 0 <= l < LAYER_COUNT && #[trigger] self.available(l) implies {
                &&& self.layer(l).wf()
                &&& self.layer(l).target_layers() == LAYER_COUNT
            } by {
                if l != T::LAYER_INDEX {
                    assert(g0.available(l));
                }
            }
        }
    }

    /// Drop all content and recreate the graph from scratch.
    ///
    /// Every layer must be in the graph.
    pub fn reset(&mut self)
        requires
            old(self).wf(),
            old(self).all_available(),
        ensures
            final(self).wf(),
            final(self).all_available(),
            final(self).consistent(),
            forall|l: int| 0 <= l < LAYER_COUNT ==> #[trigger] final(self).layer(l).slots() == 0
                && final(self).layer(l).vacant() == Seq::<usize>::empty(),
    {
        let layer_count = self.layers.len();
        let mut l: usize = 0;
        proof {
            assert forall|k: int| 0 <= k < LAYER_COUNT implies {
                &&& (#[trigger] self.layers@[k]).wf()
                &&& self.layers@[k].target_layers() == LAYER_COUNT
            } by {
                assert(self.available(k));
            }
        }
        while l < layer_count
            invariant
                layer_count == LAYER_COUNT,
                l <= layer_count,
                self.layers@.len() == LAYER_COUNT,
                self.in_use@ == old(self).in_use@,
                self.all_available(),
                forall|k: int| 0 <= k < l ==> {
                    &&& (#[trigger] self.layers@[k]).wf()
                    &&& self.layers@[k].target_layers() == LAYER_COUNT
                    &&& self.layers@[k].slots() == 0
                    &&& self.layers@[k].vacant() == Seq::<usize>::empty()
                    &&& forall|b: int| 0 <= b < LAYER_COUNT ==> #[trigger] self.layers@[k].row_len(b) == 0
                },
                forall|k: int| l <= k < LAYER_COUNT ==> {
                    &&& (#[trigger] self.layers@[k]).wf()
                    &&& self.layers@[k].target_layers() == LAYER_COUNT
                },
            decreases layer_count - l,
        {
            let ghost g1 = *self;
            self.layers.set(l, LayerMetadata::new(layer_count));
            proof {
                assert forall|k: int| 0 <= k < LAYER_COUNT implies #[trigger] self.available(k) by {
                    assert(g1.available(k));
                }
            }
            l = l + 1;
        }
        proof {
            assert forall|n: BareNodeKey, b: int| #[trigger] self.edge(n, b) is None by {
                self.lemma_edge(n, b);
            }
        }
    }

    /// Create a query that finds all nodes accessible from the given node via edges.
    /// This is used to delete segments of the graph.
    pub fn gather<T: Component>(&mut self, node: NodeKey<T>) -> (r: Gather<'_, LAYER_COUNT>)
        ensures
            *r.graph == *old(self),
            *final(r.graph) == *final(self),
            r.inner.root == (BareNodeKey { layer: T::LAYER_INDEX, idx: node.index() as usize }),
            r.inner.root_gen == node.generation(),
            r.inner.stop_at_layers@ == Seq::<usize>::empty(),
    {
        Gather {
            graph: self,
            inner: GatherInner {
                root: BareNodeKey { layer: T::LAYER_INDEX, idx: node.idx },
                root_gen: node.gen,
                stop_at_layers: Vec::new(),
            },
        }
    }
}

//
// Gather & delete
//

/// A deletion query: the graph, and where the search starts and stops.
pub struct Gather<'g, const LAYER_COUNT: usize> {
    pub graph: &'g mut Graph<LAYER_COUNT>,
    pub inner: GatherInner,
}

/// Where a deletion search starts, and the layers it does not enter.
pub struct GatherInner {
    pub root: BareNodeKey,
    pub root_gen: usize,
    pub stop_at_layers: Vec<usize>,
}

/// `root` is a live node of `g` whose generation is `gen`.
pub open spec fn root_live<const LAYER_COUNT: usize>(g: Graph<LAYER_COUNT>, root: BareNodeKey, gen: usize) -> bool {
    &&& root.layer < LAYER_COUNT
    &&& root.idx < g.layer(root.layer as int).slots()
    &&& g.layer(root.layer as int).generation(root.idx as int) == gen
    &&& g.layer(root.layer as int).is_live(root.idx as int)
}

/// Deleting twice is deleting once: after a delete, its root is no longer live, so deleting
/// it again leaves the graph as it is.
pub proof fn lemma_delete_idempotent<const LAYER_COUNT: usize>(
    old: Graph<LAYER_COUNT>,
    new: Graph<LAYER_COUNT>,
    stops: Seq<usize>,
    root: BareNodeKey,
    gen: usize,
)
    requires
        root_live(old, root, gen),
        deleted(old, new, gathered(old.tables(), stops, root)),
    ensures
        !root_live(new, root, gen),
{
    assert(gathered(old.tables(), stops, root).contains(root));
    let l = root.layer;
    let i = root.idx;
    assert(new.layer(l as int).generation(i as int) == old.layer(l as int).generation(i as int) + 1);
    assert(new.layer(root.layer as int).is_live(root.idx as int) == (old.layer(root.layer as int).is_live(root.idx as int)
        && !gathered(old.tables(), stops, root).contains(root)));
}

/// A delete through a stale key, one whose generation is not that of its slot now (such as a
/// key taken before its node was deleted and the slot reused), or through a key to a dead
/// slot, leaves the graph as it was: what `Gather::delete` promises for a root that is not
/// live then fixes the outcome, and the object now in the slot is left alone.
pub proof fn lemma_stale_key_deletes_nothing<const LAYER_COUNT: usize>(
    old: Graph<LAYER_COUNT>,
    new: Graph<LAYER_COUNT>,
    root: BareNodeKey,
    gen: usize,
)
    requires
        old.layer(root.layer as int).generation(root.idx as int) != gen
            || !old.layer(root.layer as int).is_live(root.idx as int),
        !root_live(old, root, gen) ==> new == old,
    ensures
        new == old,
{
}

/// `new` is `old` with the nodes of `gone` deleted: every edge out of or into them removed,
/// their generations bumped, their slots dead and queued for reuse.
pub open spec fn deleted<const LAYER_COUNT: usize>(
    old: Graph<LAYER_COUNT>,
    new: Graph<LAYER_COUNT>,
    gone: Set<BareNodeKey>,
) -> bool {
    &&& new.wf()
    &&& new.all_available()
    &&& forall|l: int| 0 <= l < LAYER_COUNT ==> #[trigger] new.layer(l).slots() == old.layer(l).slots()
    &&& forall|n: BareNodeKey, b: int| #[trigger] new.edge(n, b) == match old.edge(n, b) {
        Some(j) => if gone.contains(n) || gone.contains(BareNodeKey { layer: b as usize, idx: j }) {
            None
        } else {
            Some(j)
        },
        None => None,
    }
    &&& forall|l: usize, i: usize| l < LAYER_COUNT && i < old.layer(l as int).slots() ==> {
        let n = BareNodeKey { layer: l, idx: i };
        &&& #[trigger] new.layer(l as int).generation(i as int) == if gone.contains(n) {
            old.layer(l as int).generation(i as int) + 1
        } else {
            old.layer(l as int).generation(i as int) as int
        }
        &&& new.layer(l as int).is_live(i as int) == (old.layer(l as int).is_live(i as int) && !gone.contains(n))
    }
    &&& forall|l: int| 0 <= l < LAYER_COUNT ==> #[trigger] slots_freed(old.layer(l), new.layer(l), gone, l)
}

/// The vacant slots of layer `l` went from those of `m0` to those of `m` by appending the
/// slots of that layer among `walk`, in the order in which `walk` lists them.
pub open spec fn slots_freed_in_order(m0: LayerMetadata, m: LayerMetadata, walk: Seq<BareNodeKey>, l: int) -> bool {
    m.vacant() == m0.vacant() + idx_in_layer(walk, l)
}

/// The vacant slots of layer `l` went from those of `m0` to those of `m` by appending, each
/// once, the slots of the nodes of `gone` in that layer.
pub open spec fn slots_freed(m0: LayerMetadata, m: LayerMetadata, gone: Set<BareNodeKey>, l: int) -> bool {
    let freed = m.vacant().skip(m0.vacant().len() as int);
    &&& m0.vacant().len() <= m.vacant().len()
    &&& m.vacant().take(m0.vacant().len() as int) == m0.vacant()
    &&& freed.no_duplicates()
    &&& forall|x: usize| freed.contains(x) <==> gone.contains(BareNodeKey { layer: l as usize, idx: x })
}

impl<'g, const LAYER_COUNT: usize> Gather<'g, LAYER_COUNT> {
    /// Do not search past nodes of the layer of `T`: edges into it are removed both ways,
    /// but its nodes are kept.
    pub fn stop_at_layer<T: Component>(self) -> (r: Self)
        ensures
            r.graph == self.graph,
            r.inner.root == self.inner.root,
            r.inner.root_gen == self.inner.root_gen,
            r.inner.stop_at_layers@ == self.inner.stop_at_layers@.push(T::LAYER_INDEX),
    {
        let mut s = self;
        s.inner.stop_at_layers.push(T::LAYER_INDEX);
        s
    }
}

/// Some edge recorded in `edges` starts at `n` and ends in layer `b`.
pub open spec fn recorded(edges: Seq<(BareNodeKey, BareNodeKey)>, n: BareNodeKey, b: int) -> bool {
    exists|k: int| 0 <= k < edges.len() && (#[trigger] edges[k]).0 == n && edges[k].1.layer as int == b
}

/// The slots of layer `l` among `ns`, in order.
pub open spec fn idx_in_layer(ns: Seq<BareNodeKey>, l: int) -> Seq<usize>
    decreases ns.len(),
{
    if ns.len() == 0 {
        Seq::empty()
    } else {
        let rest = idx_in_layer(ns.drop_last(), l);
        if ns.last().layer as int == l {
            rest.push(ns.last().idx)
        } else {
            rest
        }
    }
}

/// The slots of layer `l` among distinct nodes are distinct, and are those of the nodes in `l`.
proof fn lemma_idx_in_layer(ns: Seq<BareNodeKey>, l: int)
    requires
        ns.no_duplicates(),
        0 <= l <= usize::MAX,
    ensures
        idx_in_layer(ns, l).no_duplicates(),
        forall|x: usize| idx_in_layer(ns, l).contains(x) <==> ns.contains(BareNodeKey { layer: l as usize, idx: x }),
    decreases ns.len(),
{
    if ns.len() > 0 {
        let front = ns.drop_last();
        assert(front.no_duplicates()) by {
            assert forall|i: int, j: int| 0 <= i < j < front.len() implies front[i] != front[j] by {
                assert(front[i] == ns[i] && front[j] == ns[j]);
            }
        }
        lemma_idx_in_layer(front, l);
        let rest = idx_in_layer(front, l);
        let last = ns.last();
        assert forall|y: BareNodeKey| ns.contains(y) <==> front.contains(y) || y == last by {
            if ns.contains(y) {
                let i = choose|i: int| 0 <= i < ns.len() && ns[i] == y;
                if i < ns.len() - 1 {
                    assert(front[i] == y);
                }
            }
            if front.contains(y) {
                let i = choose|i: int| 0 <= i < front.len() && front[i] == y;
                assert(ns[i] == y);
            }
            if y == last {
                assert(ns[ns.len() - 1] == y);
            }
        }
        if last.layer as int == l {
            assert(!front.contains(last)) by {
                if front.contains(last) {
                    let i = choose|i: int| 0 <= i < front.len() && front[i] == last;
                    assert(ns[i] == ns[ns.len() - 1]);
                }
            }
            assert(!rest.contains(last.idx));
            assert(rest.push(last.idx).no_duplicates()) by {
                let p = rest.push(last.idx);
                assert forall|i: int, j: int| 0 <= i < j < p.len() implies p[i] != p[j] by {
                    if j == rest.len() {
                        assert(p[i] == rest[i]);
                        assert(rest.contains(rest[i]));
                    } else {
                        assert(p[i] == rest[i] && p[j] == rest[j]);
                    }
                }
            }
            assert forall|x: usize| idx_in_layer(ns, l).contains(x) <==> ns.contains(BareNodeKey { layer: l as usize, idx: x }) by {
                let p = rest.push(last.idx);
                if p.contains(x) {
                    let i = choose|i: int| 0 <= i < p.len() && p[i] == x;
                    if i < rest.len() {
                        assert(rest[i] == x);
                        assert(rest.contains(x));
                    } else {
                        assert(last == BareNodeKey { layer: l as usize, idx: x });
                    }
                }
                if x == last.idx {
                    assert(p[rest.len() as int] == x);
                }
                if rest.contains(x) {
                    let i = choose|i: int| 0 <= i < rest.len() && rest[i] == x;
                    assert(p[i] == x);
                }
            }
        } else {
            assert forall|x: usize| idx_in_layer(ns, l).contains(x) <==> ns.contains(BareNodeKey { layer: l as usize, idx: x }) by {
                assert(BareNodeKey { layer: l as usize, idx: x } != last);
            }
        }
    }
}

impl<const LAYER_COUNT: usize> Graph<LAYER_COUNT> {
    /// Every edge recorded by a walk of a consistent graph is an edge of the graph, and the
    /// recorded edges are exactly those that leave or enter a visited node.
    proof fn lemma_recorded_exactly(
        &self,
        stop: Seq<usize>,
        nodes: Seq<BareNodeKey>,
        edges: Seq<(BareNodeKey, BareNodeKey)>,
    )
        requires
            self.wf(),
            self.all_available(),
            self.consistent(),
            valid_record(self.tables(), stop, nodes, edges),
            forall|i: int| 0 <= i < nodes.len() ==> explored(self.tables(), stop, #[trigger] nodes[i], nodes, edges, LAYER_COUNT as int),
        ensures
            forall|k: int| 0 <= k < edges.len() ==> self.edge((#[trigger] edges[k]).0, edges[k].1.layer as int) == Some(edges[k].1.idx),
            forall|n: BareNodeKey, b: int| recorded(edges, n, b) <==> (#[trigger] self.edge(n, b) matches Some(j) && (
                nodes.contains(n) || nodes.contains(BareNodeKey { layer: b as usize, idx: j }))),
    {
        let t = self.tables();
        assert forall|k: int| 0 <= k < edges.len() implies self.edge((#[trigger] edges[k]).0, edges[k].1.layer as int) == Some(edges[k].1.idx) by {
            let e = edges[k];
            assert(sound_record(t, stop, nodes, e));
            if !(nodes.contains(e.0) && cell(t, e.0, e.1.layer as int) == Some(e.1.idx)) {
                assert(self.edge(e.1, e.0.layer as int) == Some(e.0.idx));
                assert(BareNodeKey { layer: (e.0.layer as int) as usize, idx: e.0.idx } == e.0);
            }
        }
        assert forall|n: BareNodeKey, b: int| recorded(edges, n, b) <==> (#[trigger] self.edge(n, b) matches Some(j) && (
            nodes.contains(n) || nodes.contains(BareNodeKey { layer: b as usize, idx: j }))) by {
            if recorded(edges, n, b) {
                let k = choose|k: int| 0 <= k < edges.len() && (#[trigger] edges[k]).0 == n && edges[k].1.layer as int == b;
                let e = edges[k];
                assert(self.edge(e.0, e.1.layer as int) == Some(e.1.idx));
                assert(sound_record(t, stop, nodes, e));
                assert(BareNodeKey { layer: b as usize, idx: e.1.idx } == e.1);
            }
            if let Some(j) = self.edge(n, b) {
                self.lemma_edge(n, b);
                let next = BareNodeKey { layer: b as usize, idx: j };
                if nodes.contains(n) {
                    let i = choose|i: int| 0 <= i < nodes.len() && nodes[i] == n;
                    assert(explored(t, stop, nodes[i], nodes, edges, LAYER_COUNT as int));
                    assert(explored_edge(t, stop, n, nodes, edges, b as usize));
                    assert(edges.contains((n, next)));
                    let k = choose|k: int| 0 <= k < edges.len() && edges[k] == (n, next);
                    assert(edges[k].0 == n && edges[k].1.layer as int == b);
                } else if nodes.contains(next) {
                    let i = choose|i: int| 0 <= i < nodes.len() && nodes[i] == next;
                    assert(self.edge(next, n.layer as int) == Some(n.idx));
                    self.lemma_edge(next, n.layer as int);
                    assert(explored(t, stop, nodes[i], nodes, edges, LAYER_COUNT as int));
                    assert(explored_edge(t, stop, next, nodes, edges, n.layer));
                    assert(BareNodeKey { layer: n.layer, idx: n.idx } == n);
                    assert(edges.contains((n, next)));
                    let k = choose|k: int| 0 <= k < edges.len() && edges[k] == (n, next);
                    assert(edges[k].0 == n && edges[k].1.layer as int == b);
                }
            }
        }
    }

    /// Remove every edge recorded in `edges`.
    fn clear_recorded(&mut self, edges: &Vec<(BareNodeKey, BareNodeKey)>)
        requires
            old(self).wf(),
            old(self).all_available(),
            forall|k: int| 0 <= k < edges@.len() ==> old(self).edge((#[trigger] edges@[k]).0, edges@[k].1.layer as int) == Some(edges@[k].1.idx),
        ensures
            edges_cleared(*old(self), *final(self), edges@),
    {
        let ghost g0 = *self;
        proof {
            assert(edges@.take(0) =~= Seq::<(BareNodeKey, BareNodeKey)>::empty());
            assert forall|l: int| 0 <= l < LAYER_COUNT implies {
                &&& #[trigger] layer_kept(g0.layer(l), self.layer(l))
                &&& self.layer(l).vacant() == g0.layer(l).vacant()
                &&& forall|k: int| 0 <= k < g0.layer(l).slots() ==> #[trigger] self.layer(l).generation(k) == g0.layer(l).generation(k)
                &&& forall|k: int| 0 <= k < g0.layer(l).slots() ==> #[trigger] self.layer(l).is_live(k) == g0.layer(l).is_live(k)
            } by {}
        }
        let mut k: usize = 0;
        while k < edges.len()
            invariant
                k <= edges@.len(),
                g0.wf(),
                g0.all_available(),
                forall|k: int| 0 <= k < edges@.len() ==> g0.edge((#[trigger] edges@[k]).0, edges@[k].1.layer as int) == Some(edges@[k].1.idx),
                edges_cleared(g0, *self, edges@.take(k as int)),
            decreases edges@.len() - k,
        {
            let (s, e) = edges[k];
            let ghost g1 = *self;
            proof {
                assert(edges@[k as int] == (s, e));
                g0.lemma_edge(s, e.layer as int);
                assert(layer_kept(g0.layer(s.layer as int), self.layer(s.layer as int)));
                assert(self.available(s.layer as int));
            }
            self.layers[s.layer].clear_edge(s.idx, e.layer);
            proof {
                assert(edges@.take(k as int + 1) =~= edges@.take(k as int).push((s, e)));
                lemma_clear_step(g0, g1, *self, edges@.take(k as int), s, e);
            }
            k = k + 1;
        }
        proof {
            assert(edges@.take(edges@.len() as int) =~= edges@);
        }
    }

    /// Retire every node of `nodes`.
    fn retire_nodes(&mut self, nodes: &Vec<BareNodeKey>)
        requires
            old(self).wf(),
            old(self).all_available(),
            nodes@.no_duplicates(),
            forall|i: int| 0 <= i < nodes@.len() ==> {
                &&& (#[trigger] nodes@[i]).layer < LAYER_COUNT
                &&& nodes@[i].idx < old(self).layer(nodes@[i].layer as int).slots()
                &&& old(self).layer(nodes@[i].layer as int).generation(nodes@[i].idx as int) < usize::MAX
            },
        ensures
            nodes_retired(*old(self), *final(self), nodes@),
    {
        let ghost g0 = *self;
        proof {
            assert(nodes@.take(0) =~= Seq::<BareNodeKey>::empty());
            assert forall|l: int| 0 <= l < LAYER_COUNT implies #[trigger] layer_retired(g0.layer(l), self.layer(l), Seq::<BareNodeKey>::empty(), l) by {
                assert(g0.layer(l).vacant() + Seq::<usize>::empty() =~= g0.layer(l).vacant());
            }
        }
        let mut k: usize = 0;
        while k < nodes.len()
            invariant
                k <= nodes@.len(),
                g0.wf(),
                g0.all_available(),
                nodes@.no_duplicates(),
                forall|i: int| 0 <= i < nodes@.len() ==> {
                    &&& (#[trigger] nodes@[i]).layer < LAYER_COUNT
                    &&& nodes@[i].idx < g0.layer(nodes@[i].layer as int).slots()
                    &&& g0.layer(nodes@[i].layer as int).generation(nodes@[i].idx as int) < usize::MAX
                },
                nodes_retired(g0, *self, nodes@.take(k as int)),
            decreases nodes@.len() - k,
        {
            let n = nodes[k];
            let ghost g1 = *self;
            let ghost tk = nodes@.take(k as int);
            proof {
                assert(nodes@[k as int] == n);
                assert(!tk.contains(n)) by {
                    if tk.contains(n) {
                        let j = choose|j: int| 0 <= j < tk.len() && tk[j] == n;
                        assert(nodes@[j] == nodes@[k as int]);
                    }
                }
                assert(self.available(n.layer as int));
                assert(layer_retired(g0.layer(n.layer as int), self.layer(n.layer as int), tk, n.layer as int));
                assert(self.layer(n.layer as int).generation(n.idx as int) == g0.layer(n.layer as int).generation(n.idx as int));
            }
            self.layers[n.layer].retire(n.idx);
            proof {
                assert(nodes@.take(k as int + 1) =~= tk.push(n));
                lemma_retire_step(g0, g1, *self, tk, n);
            }
            k = k + 1;
        }
        proof {
            assert(nodes@.take(nodes@.len() as int) =~= nodes@);
        }
    }
}

/// `g` is `g0` with the edges recorded in `edges` removed.
pub open spec fn edges_cleared<const LAYER_COUNT: usize>(
    g0: Graph<LAYER_COUNT>,
    g: Graph<LAYER_COUNT>,
    edges: Seq<(BareNodeKey, BareNodeKey)>,
) -> bool {
    &&& g.wf()
    &&& g.all_available()
    &&& forall|l: int| 0 <= l < LAYER_COUNT ==> {
        &&& #[trigger] layer_kept(g0.layer(l), g.layer(l))
        &&& g.layer(l).vacant() == g0.layer(l).vacant()
        &&& forall|k: int| 0 <= k < g0.layer(l).slots() ==> #[trigger] g.layer(l).generation(k) == g0.layer(l).generation(k)
        &&& forall|k: int| 0 <= k < g0.layer(l).slots() ==> #[trigger] g.layer(l).is_live(k) == g0.layer(l).is_live(k)
    }
    &&& forall|n: BareNodeKey, b: int| #[trigger] g.edge(n, b) == if recorded(edges, n, b) {
        None
    } else {
        g0.edge(n, b)
    }
}

/// Layer `l` of `g0` became `m` by retiring its slots among `ns`.
pub open spec fn layer_retired(m0: LayerMetadata, m: LayerMetadata, ns: Seq<BareNodeKey>, l: int) -> bool {
    &&& layer_kept(m0, m)
    &&& forall|k: int, c: int| #[trigger] m.target(k, c) == m0.target(k, c)
    &&& m.vacant() == m0.vacant() + idx_in_layer(ns, l)
    &&& forall|i: usize| i < m0.slots() ==> #[trigger] m.generation(i as int) == if ns.contains(BareNodeKey { layer: l as usize, idx: i }) {
        m0.generation(i as int) + 1
    } else {
        m0.generation(i as int) as int
    }
    &&& forall|i: usize| i < m0.slots() ==> #[trigger] m.is_live(i as int) == (m0.is_live(i as int)
        && !ns.contains(BareNodeKey { layer: l as usize, idx: i }))
}

/// `g` is `g0` with the nodes of `ns` retired.
pub open spec fn nodes_retired<const LAYER_COUNT: usize>(
    g0: Graph<LAYER_COUNT>,
    g: Graph<LAYER_COUNT>,
    ns: Seq<BareNodeKey>,
) -> bool {
    &&& g.wf()
    &&& g.all_available()
    &&& forall|l: int| 0 <= l < LAYER_COUNT ==> #[trigger] layer_retired(g0.layer(l), g.layer(l), ns, l)
}

/// Clearing the recorded edge `(s, e)` in its layer extends what the recorded edges before it cleared.
#[verifier::spinoff_prover]
#[verifier::rlimit(40)]
proof fn lemma_clear_step<const LAYER_COUNT: usize>(
    g0: Graph<LAYER_COUNT>,
    g1: Graph<LAYER_COUNT>,
    g2: Graph<LAYER_COUNT>,
    edges: Seq<(BareNodeKey, BareNodeKey)>,
    s: BareNodeKey,
    e: BareNodeKey,
)
    requires
        g0.wf(),
        g0.all_available(),
        edges_cleared(g0, g1, edges),
        s.layer < LAYER_COUNT,
        g2.in_use@ == g1.in_use@,
        g2.layers@ == g1.layers@.update(s.layer as int, g2.layers@[s.layer as int]),
        edge_cleared(g1.layer(s.layer as int), g2.layer(s.layer as int), s.idx as int, e.layer as int),
    ensures
        edges_cleared(g0, g2, edges.push((s, e))),
{
    let sl = s.layer as int;
    assert forall|l: int| 0 <= l < LAYER_COUNT && #[trigger] g2.available(l) implies {
        &&& g2.layer(l).wf()
        &&& g2.layer(l).target_layers() == LAYER_COUNT
    } by {
        assert(g1.available(l));
        assert(layer_kept(g0.layer(l), g1.layer(l)));
    }
    assert forall|l: int| 0 <= l < LAYER_COUNT implies #[trigger] g2.available(l) by {
        assert(g1.available(l));
    }
    assert forall|l: int| 0 <= l < LAYER_COUNT implies {
        &&& #[trigger] layer_kept(g0.layer(l), g2.layer(l))
        &&& g2.layer(l).vacant() == g0.layer(l).vacant()
        &&& forall|k: int| 0 <= k < g0.layer(l).slots() ==> #[trigger] g2.layer(l).generation(k) == g0.layer(l).generation(k)
        &&& forall|k: int| 0 <= k < g0.layer(l).slots() ==> #[trigger] g2.layer(l).is_live(k) == g0.layer(l).is_live(k)
    } by {
        assert(layer_kept(g0.layer(l), g1.layer(l)));
        if l != sl {
            assert(g2.layers@[l] == g1.layers@[l]);
        } else {
            assert forall|c: int| 0 <= c < g0.layer(l).target_layers() implies #[trigger] g2.layer(l).row_len(c) == g0.layer(l).row_len(c) by {
                assert(g1.layer(l).row_len(c) == g0.layer(l).row_len(c));
            }
            assert forall|k: int| 0 <= k < g0.layer(l).slots() implies #[trigger] g2.layer(l).generation(k) == g0.layer(l).generation(k) by {
                assert(g1.layer(l).generation(k) == g0.layer(l).generation(k));
            }
            assert forall|k: int| 0 <= k < g0.layer(l).slots() implies #[trigger] g2.layer(l).is_live(k) == g0.layer(l).is_live(k) by {
                assert(g1.layer(l).is_live(k) == g0.layer(l).is_live(k));
            }
        }
    }
    let e1 = edges.push((s, e));
    assert forall|n: BareNodeKey, b: int| #[trigger] g2.edge(n, b) == if recorded(e1, n, b) {
        None
    } else {
        g0.edge(n, b)
    } by {
        assert(g1.available(sl));
        if n.layer < LAYER_COUNT {
            assert(g1.available(n.layer as int));
        }
        g2.lemma_edge(n, b);
        g1.lemma_edge(n, b);
        if recorded(edges, n, b) {
            let j = choose|j: int| 0 <= j < edges.len() && (#[trigger] edges[j]).0 == n && edges[j].1.layer as int == b;
            assert(e1[j] == edges[j]);
        }
        if recorded(e1, n, b) && !recorded(edges, n, b) {
            let j = choose|j: int| 0 <= j < e1.len() && (#[trigger] e1[j]).0 == n && e1[j].1.layer as int == b;
            if j < edges.len() {
                assert(edges[j] == e1[j]);
            }
        }
        if n == s && b == e.layer as int {
            assert(e1[edges.len() as int] == (s, e));
        }
    }
}

/// Retiring node `n`, not retired yet, extends what retiring the nodes of `ns` did.
proof fn lemma_retire_step<const LAYER_COUNT: usize>(
    g0: Graph<LAYER_COUNT>,
    g1: Graph<LAYER_COUNT>,
    g2: Graph<LAYER_COUNT>,
    ns: Seq<BareNodeKey>,
    n: BareNodeKey,
)
    requires
        g0.wf(),
        g0.all_available(),
        nodes_retired(g0, g1, ns),
        !ns.contains(n),
        n.layer < LAYER_COUNT,
        g2.in_use@ == g1.in_use@,
        g2.layers@ == g1.layers@.update(n.layer as int, g2.layers@[n.layer as int]),
        slot_retired(g1.layer(n.layer as int), g2.layer(n.layer as int), n.idx as int),
    ensures
        nodes_retired(g0, g2, ns.push(n)),
{
    let nl = n.layer as int;
    let ns1 = ns.push(n);
    assert forall|y: BareNodeKey| ns1.contains(y) <==> ns.contains(y) || y == n by {
        if ns1.contains(y) {
            let i = choose|i: int| 0 <= i < ns1.len() && ns1[i] == y;
            if i < ns.len() {
                assert(ns[i] == y);
            }
        }
        if ns.contains(y) {
            let i = choose|i: int| 0 <= i < ns.len() && ns[i] == y;
            assert(ns1[i] == y);
        }
        if y == n {
            assert(ns1[ns.len() as int] == y);
        }
    }
    assert(ns1.drop_last() =~= ns);
    assert forall|l: int| 0 <= l < LAYER_COUNT && #[trigger] g2.available(l) implies {
        &&& g2.layer(l).wf()
        &&& g2.layer(l).target_layers() == LAYER_COUNT
    } by {
        assert(g1.available(l));
        assert(layer_retired(g0.layer(l), g1.layer(l), ns, l));
    }
    assert forall|l: int| 0 <= l < LAYER_COUNT implies #[trigger] g2.available(l) by {
        assert(g1.available(l));
    }
    assert forall|l: int| 0 <= l < LAYER_COUNT implies #[trigger] layer_retired(g0.layer(l), g2.layer(l), ns1, l) by {
        let m0 = g0.layer(l);
        let m1 = g1.layer(l);
        let m2 = g2.layer(l);
        assert(layer_retired(m0, m1, ns, l));
        if l != nl {
            assert(g2.layers@[l] == g1.layers@[l]);
            assert(idx_in_layer(ns1, l) == idx_in_layer(ns, l));
            assert forall|i: usize| i < m0.slots() implies #[trigger] m2.generation(i as int) == if ns1.contains(BareNodeKey { layer: l as usize, idx: i }) {
                m0.generation(i as int) + 1
            } else {
                m0.generation(i as int) as int
            } by {
                assert(BareNodeKey { layer: l as usize, idx: i } != n);
            }
            assert forall|i: usize| i < m0.slots() implies #[trigger] m2.is_live(i as int) == (m0.is_live(i as int)
                && !ns1.contains(BareNodeKey { layer: l as usize, idx: i })) by {
                assert(BareNodeKey { layer: l as usize, idx: i } != n);
            }
        } else {
            assert(idx_in_layer(ns1, l) == idx_in_layer(ns, l).push(n.idx));
            assert(m0.vacant() + idx_in_layer(ns, l).push(n.idx) =~= (m0.vacant() + idx_in_layer(ns, l)).push(n.idx));
            assert forall|c: int| 0 <= c < m0.target_layers() implies #[trigger] m2.row_len(c) == m0.row_len(c) by {
                assert(m1.row_len(c) == m0.row_len(c));
            }
            assert forall|i: usize| i < m0.slots() implies #[trigger] m2.generation(i as int) == if ns1.contains(BareNodeKey { layer: l as usize, idx: i }) {
                m0.generation(i as int) + 1
            } else {
                m0.generation(i as int) as int
            } by {
                assert(m1.generation(i as int) == if ns.contains(BareNodeKey { layer: l as usize, idx: i }) {
                    m0.generation(i as int) + 1
                } else {
                    m0.generation(i as int) as int
                });
                if i == n.idx {
                    assert(BareNodeKey { layer: l as usize, idx: i } == n);
                } else {
                    assert(BareNodeKey { layer: l as usize, idx: i } != n);
                }
            }
            assert forall|i: usize| i < m0.slots() implies #[trigger] m2.is_live(i as int) == (m0.is_live(i as int)
                && !ns1.contains(BareNodeKey { layer: l as usize, idx: i })) by {
                assert(m1.is_live(i as int) == (m0.is_live(i as int) && !ns.contains(BareNodeKey { layer: l as usize, idx: i })));
                if i == n.idx {
                    assert(BareNodeKey { layer: l as usize, idx: i } == n);
                } else {
                    assert(BareNodeKey { layer: l as usize, idx: i } != n);
                }
            }
        }
    }
}

impl GatherInner {
    /// Walk the graph from the root, recording the nodes visited and the edges crossed.
    fn run<const LAYER_COUNT: usize>(&self, graph: &Graph<LAYER_COUNT>) -> (r: SearchResult)
        requires
            graph.wf(),
            graph.all_available(),
            self.root.layer < LAYER_COUNT,
        ensures
            r.nodes@.len() > 0,
            r.nodes@[0] == self.root,
            valid_record(graph.tables(), self.stop_at_layers@, r.nodes@, r.edges@),
            forall|i: int| 0 <= i < r.nodes@.len()
                ==> explored(graph.tables(), self.stop_at_layers@, #[trigger] r.nodes@[i], r.nodes@, r.edges@, LAYER_COUNT as int),
            forall|n: BareNodeKey| r.nodes@.contains(n) <==> #[trigger] gathered(graph.tables(), self.stop_at_layers@, self.root).contains(n),
            r.nodes@ == walk_order(graph.tables(), self.stop_at_layers@, self.root),
    {
        let ghost t = graph.tables();
        let mut tables: Vec<&Vec<Vec<Option<usize>>>> = Vec::new();
        let mut l: usize = 0;
        while l < graph.layers.len()
            invariant
                l <= LAYER_COUNT,
                graph.layers@.len() == LAYER_COUNT,
                tables@.len() == l,
                forall|k: int| 0 <= k < l ==> (#[trigger] tables@[k])@ == graph.layers@[k].edges@,
            decreases LAYER_COUNT - l,
        {
            tables.push(&graph.layers[l].edges);
            l = l + 1;
        }
        proof {
            assert(t.len() == LAYER_COUNT);
            assert forall|k: int| 0 <= k < t.len() implies (#[trigger] tables@[k])@.len() == t[k].len() by {}
            assert forall|k: int, b: int| 0 <= k < t.len() && 0 <= b < t[k].len() implies (#[trigger] tables@[k]@[b])@ == t[k][b] by {}
            assert(reads(tables@, t));
            assert forall|k: int| 0 <= k < t.len() implies #[trigger] t[k].len() <= t.len() by {
                assert(graph.available(k));
            }
        }
        let mut ret = SearchResult { nodes: Vec::new(), edges: Vec::new() };
        ret.nodes.push(self.root);
        proof {
            assert(entered_in_order(steps(t, self.stop_at_layers@), ret.nodes@, 0));
            assert(ret.nodes@.no_duplicates());
        }
        proof {
            assert(ret.nodes@ =~= seq![self.root]);
        }
        search_all(self.root, &mut ret, &tables, &self.stop_at_layers, Ghost(t), Ghost((bound(t) - 1) as nat));
        proof {
            assert(ret.nodes@[0] == self.root);
            lemma_walk_complete(t, self.stop_at_layers@, self.root, ret.nodes@, ret.edges@);
        }
        ret
    }
}

/// Every node a walk of a consistent graph visits, starting from an existing slot, is an
/// existing slot.
proof fn lemma_visited_in_range<const LAYER_COUNT: usize>(
    g: Graph<LAYER_COUNT>,
    stop: Seq<usize>,
    nodes: Seq<BareNodeKey>,
    edges: Seq<(BareNodeKey, BareNodeKey)>,
)
    requires
        g.wf(),
        g.all_available(),
        g.consistent(),
        valid_record(g.tables(), stop, nodes, edges),
        nodes.len() > 0,
        nodes[0].idx < g.layer(nodes[0].layer as int).slots(),
    ensures
        forall|i: int| 0 <= i < nodes.len() ==> (#[trigger] nodes[i]).idx < g.layer(nodes[i].layer as int).slots(),
{
    assert forall|i: int| 0 <= i < nodes.len() implies (#[trigger] nodes[i]).idx < g.layer(nodes[i].layer as int).slots() by {
        if i > 0 {
            assert(has_parent(steps(g.tables(), stop), nodes, i));
            reveal(has_parent);
            let j = choose|j: int| 0 <= j < i && #[trigger] steps(g.tables(), stop).contains((nodes[j], nodes[i]));
            assert(g.edge(nodes[j], nodes[i].layer as int) == Some(nodes[i].idx));
        }
    }
}

/// Clearing the recorded edges and then retiring the visited nodes of a complete walk deletes
/// exactly the gathered nodes, and keeps the graph consistent.
proof fn lemma_delete_outcome<const LAYER_COUNT: usize>(
    g0: Graph<LAYER_COUNT>,
    g1: Graph<LAYER_COUNT>,
    g2: Graph<LAYER_COUNT>,
    gone: Set<BareNodeKey>,
    nodes: Seq<BareNodeKey>,
    edges: Seq<(BareNodeKey, BareNodeKey)>,
)
    requires
        g0.wf(),
        g0.all_available(),
        g0.consistent(),
        nodes.no_duplicates(),
        forall|i: int| 0 <= i < nodes.len() ==> (#[trigger] nodes[i]).layer < LAYER_COUNT,
        forall|n: BareNodeKey| nodes.contains(n) <==> #[trigger] gone.contains(n),
        forall|n: BareNodeKey, b: int| recorded(edges, n, b) <==> (#[trigger] g0.edge(n, b) matches Some(j) && (
            nodes.contains(n) || nodes.contains(BareNodeKey { layer: b as usize, idx: j }))),
        edges_cleared(g0, g1, edges),
        nodes_retired(g1, g2, nodes),
    ensures
        deleted(g0, g2, gone),
        g2.consistent(),
        forall|l: int| 0 <= l < LAYER_COUNT ==> #[trigger] slots_freed_in_order(g0.layer(l), g2.layer(l), nodes, l),
{
    assert forall|l: int| 0 <= l < LAYER_COUNT implies #[trigger] g2.layer(l).slots() == g0.layer(l).slots() by {
        assert(layer_kept(g0.layer(l), g1.layer(l)));
        assert(layer_retired(g1.layer(l), g2.layer(l), nodes, l));
    }
    assert forall|n: BareNodeKey, b: int| #[trigger] g2.edge(n, b) == g1.edge(n, b) by {
        g2.lemma_edge(n, b);
        g1.lemma_edge(n, b);
        if n.layer < LAYER_COUNT {
            assert(layer_retired(g1.layer(n.layer as int), g2.layer(n.layer as int), nodes, n.layer as int));
        }
    }
    assert forall|n: BareNodeKey, b: int| #[trigger] g2.edge(n, b) == match g0.edge(n, b) {
        Some(j) => if gone.contains(n) || gone.contains(BareNodeKey { layer: b as usize, idx: j }) {
            None
        } else {
            Some(j)
        },
        None => None,
    } by {
        assert(g2.edge(n, b) == g1.edge(n, b));
        if let Some(j) = g0.edge(n, b) {
            assert(gone.contains(BareNodeKey { layer: b as usize, idx: j }) == nodes.contains(BareNodeKey { layer: b as usize, idx: j }));
        }
    }
    assert forall|l: usize, i: usize| l < LAYER_COUNT && i < g0.layer(l as int).slots() implies {
        let n = BareNodeKey { layer: l, idx: i };
        &&& #[trigger] g2.layer(l as int).generation(i as int) == if gone.contains(n) {
            g0.layer(l as int).generation(i as int) + 1
        } else {
            g0.layer(l as int).generation(i as int) as int
        }
        &&& g2.layer(l as int).is_live(i as int) == (g0.layer(l as int).is_live(i as int) && !gone.contains(n))
    } by {
        assert(layer_kept(g0.layer(l as int), g1.layer(l as int)));
        assert(layer_retired(g1.layer(l as int), g2.layer(l as int), nodes, l as int));
        assert(g1.layer(l as int).generation(i as int) == g0.layer(l as int).generation(i as int));
        assert(g1.layer(l as int).is_live(i as int) == g0.layer(l as int).is_live(i as int));
        assert(g2.layer(l as int).generation(i as int) == if nodes.contains(BareNodeKey { layer: l, idx: i }) {
            g1.layer(l as int).generation(i as int) + 1
        } else {
            g1.layer(l as int).generation(i as int) as int
        });
        assert(g2.layer(l as int).is_live(i as int) == (g1.layer(l as int).is_live(i as int)
            && !nodes.contains(BareNodeKey { layer: l, idx: i })));
    }
    assert forall|l: int| 0 <= l < LAYER_COUNT implies #[trigger] slots_freed(g0.layer(l), g2.layer(l), gone, l) by {
        assert(layer_kept(g0.layer(l), g1.layer(l)));
        assert(layer_retired(g1.layer(l), g2.layer(l), nodes, l));
        lemma_idx_in_layer(nodes, l);
        let freed = idx_in_layer(nodes, l);
        let v0 = g0.layer(l).vacant();
        assert(g2.layer(l).vacant() == v0 + freed);
        assert((v0 + freed).skip(v0.len() as int) =~= freed);
        assert((v0 + freed).take(v0.len() as int) =~= v0);
    }
    assert forall|l: int| 0 <= l < LAYER_COUNT implies #[trigger] slots_freed_in_order(g0.layer(l), g2.layer(l), nodes, l) by {
        assert(layer_kept(g0.layer(l), g1.layer(l)));
        assert(layer_retired(g1.layer(l), g2.layer(l), nodes, l));
    }
    assert forall|n: BareNodeKey, b: int| #[trigger] g2.edge(n, b) is Some implies {
        let j = g2.edge(n, b)->Some_0;
        &&& 0 <= b < LAYER_COUNT
        &&& j < g2.layer(b).slots()
        &&& g2.edge(BareNodeKey { layer: b as usize, idx: j }, n.layer as int) == Some(n.idx)
    } by {
        let j = g2.edge(n, b)->Some_0;
        assert(g0.edge(n, b) == Some(j));
        let m = BareNodeKey { layer: b as usize, idx: j };
        assert(g0.edge(m, n.layer as int) == Some(n.idx));
        assert(BareNodeKey { layer: n.layer as int as usize, idx: n.idx } == n);
        assert(g2.edge(m, n.layer as int) == match g0.edge(m, n.layer as int) {
            Some(k) => if gone.contains(m) || gone.contains(BareNodeKey { layer: n.layer as int as usize, idx: k }) {
                None
            } else {
                Some(k)
            },
            None => None,
        });
    }
}

impl<'g, const LAYER_COUNT: usize> Gather<'g, LAYER_COUNT> {
    /// Delete the root and every node reachable from it without entering a stop layer,
    /// together with every edge out of or into them. Does nothing if the root node no longer
    /// exists.
    ///
    /// Every layer must be in the graph.
    pub fn delete(self)
        requires
            old(self.graph).wf(),
            old(self.graph).all_available(),
            root_live(*old(self.graph), self.inner.root, self.inner.root_gen) ==> old(self.graph).consistent(),
            self.inner.root.layer < LAYER_COUNT,
            root_live(*old(self.graph), self.inner.root, self.inner.root_gen) ==> forall|n: BareNodeKey|
                #[trigger] gathered(old(self.graph).tables(), self.inner.stop_at_layers@, self.inner.root).contains(n)
                ==> old(self.graph).layer(n.layer as int).generation(n.idx as int) < usize::MAX,
        ensures
            root_live(*old(self.graph), self.inner.root, self.inner.root_gen) ==> {
                &&& deleted(
                    *old(self.graph),
                    *final(self.graph),
                    gathered(old(self.graph).tables(), self.inner.stop_at_layers@, self.inner.root),
                )
                &&& final(self.graph).consistent()
                &&& forall|l: int| 0 <= l < LAYER_COUNT ==> #[trigger] slots_freed_in_order(
                    old(self.graph).layer(l),
                    final(self.graph).layer(l),
                    walk_order(old(self.graph).tables(), self.inner.stop_at_layers@, self.inner.root),
                    l,
                )
            },
            !root_live(*old(self.graph), self.inner.root, self.inner.root_gen) ==> *final(self.graph) == *old(self.graph),
    {
        let root = self.inner.root;
        let root_idx = root.idx;
        proof {
            assert(self.graph.available(root.layer as int));
        }
        // check if the node still exists before doing anything
        let start_layer = &self.graph.layers[root.layer];
        if start_layer.generations.len() <= root_idx || start_layer.generations[root_idx] != self.inner.root_gen
            || start_layer.exists.len() <= root_idx || !start_layer.exists[root_idx] {
            return;
        }
        let ghost g0 = *self.graph;
        let ghost stop = self.inner.stop_at_layers@;
        let result = self.inner.run(&*self.graph);
        proof {
            g0.lemma_recorded_exactly(stop, result.nodes@, result.edges@);
            lemma_visited_in_range(g0, stop, result.nodes@, result.edges@);
            assert forall|i: int| 0 <= i < result.nodes@.len() implies
                g0.layer((#[trigger] result.nodes@[i]).layer as int).generation(result.nodes@[i].idx as int) < usize::MAX by {
                assert(result.nodes@.contains(result.nodes@[i]));
                assert(gathered(g0.tables(), stop, root).contains(result.nodes@[i]));
            }
        }
        self.graph.clear_recorded(&result.edges);
        let ghost g1 = *self.graph;
        proof {
            assert forall|i: int| 0 <= i < result.nodes@.len() implies {
                &&& (#[trigger] result.nodes@[i]).layer < LAYER_COUNT
                &&& result.nodes@[i].idx < g1.layer(result.nodes@[i].layer as int).slots()
                &&& g1.layer(result.nodes@[i].layer as int).generation(result.nodes@[i].idx as int) < usize::MAX
            } by {
                let l = result.nodes@[i].layer as int;
                assert(layer_kept(g0.layer(l), g1.layer(l)));
                assert(g1.layer(l).generation(result.nodes@[i].idx as int) == g0.layer(l).generation(result.nodes@[i].idx as int));
            }
        }
        self.graph.retire_nodes(&result.nodes);
        proof {
            lemma_delete_outcome(g0, g1, *self.graph, gathered(g0.tables(), stop, root), result.nodes@, result.edges@);
        }
    }
}

//
// Laws
//

/// A delete never enters a stop layer: every node it gathers besides the root lies outside
/// the stop layers.
pub proof fn lemma_gathered_outside_stops(t: Tables, stop: Seq<usize>, root: BareNodeKey, n: BareNodeKey)
    requires
        gathered(t, stop, root).contains(n),
        n != root,
    ensures
        !stop.contains(n.layer),
{
    let s = Set::new(|x: BareNodeKey| x == root || !stop.contains(x.layer));
    assert(crate::base::reach::closed_under(steps(t, stop), s));
}

/// A key to a node that a delete removed is stale afterwards: the slot's generation moved on.
pub proof fn lemma_deleted_key_stale<const LAYER_COUNT: usize>(
    old: Graph<LAYER_COUNT>,
    new: Graph<LAYER_COUNT>,
    gone: Set<BareNodeKey>,
    n: BareNodeKey,
)
    requires
        deleted(old, new, gone),
        gone.contains(n),
        n.layer < LAYER_COUNT,
        n.idx < old.layer(n.layer as int).slots(),
    ensures
        new.layer(n.layer as int).generation(n.idx as int) != old.layer(n.layer as int).generation(n.idx as int),
        !new.layer(n.layer as int).is_live(n.idx as int),
{
    let l = n.layer;
    let i = n.idx;
    assert(BareNodeKey { layer: l, idx: i } == n);
}

/// Inserting into a layer keeps the generation of every slot, so a stale key stays stale.
pub proof fn lemma_insert_keeps_stale(old: LayerMetadata, new: LayerMetadata, item: nat, i: int, gen: nat)
    requires
        inserted(old, new, item),
        0 <= i < old.slots(),
        old.generation(i) != gen,
    ensures
        new.generation(i) != gen,
{
}


//
// Consistency across layer views
//

/// The edge from `n` to layer `b` among the layers `ms`, if there is one.
pub open spec fn ms_edge(ms: Seq<LayerMetadata>, n: BareNodeKey, b: int) -> Option<usize> {
    if n.layer < ms.len() {
        ms[n.layer as int].target(n.idx as int, b)
    } else {
        None
    }
}

/// Every edge among the layers `ms`, whether held by the graph or taken out in views, leads
/// to a slot of its layer and has an edge back.
pub open spec fn layers_consistent(ms: Seq<LayerMetadata>) -> bool {
    forall|n: BareNodeKey, b: int| #[trigger] ms_edge(ms, n, b) is Some ==> edge_back(ms, n, b)
}

/// The edge from `n` to layer `b` leads to a slot of that layer, which has an edge back.
pub open spec fn edge_back(ms: Seq<LayerMetadata>, n: BareNodeKey, b: int) -> bool {
    let j = ms_edge(ms, n, b)->Some_0;
    &&& 0 <= b < ms.len()
    &&& j < ms[b].slots()
    &&& ms_edge(ms, BareNodeKey { layer: b as usize, idx: j }, n.layer as int) == Some(n.idx)
}

impl<const LAYER_COUNT: usize> Graph<LAYER_COUNT> {
    /// The metadata of every layer, in layer order.
    pub open spec fn layer_seq(&self) -> Seq<LayerMetadata> {
        Seq::new(LAYER_COUNT as nat, |l: int| self.layer(l))
    }
}

/// For a graph that holds all its layers, it is consistent exactly when its layers are.
pub proof fn lemma_consistent_layers<const LAYER_COUNT: usize>(g: Graph<LAYER_COUNT>)
    requires
        g.wf(),
        g.all_available(),
    ensures
        g.consistent() <==> layers_consistent(g.layer_seq()),
{
    let ms = g.layer_seq();
    assert forall|n: BareNodeKey, b: int| #[trigger] g.edge(n, b) == ms_edge(ms, n, b) by {
        g.lemma_edge(n, b);
    }
    if g.consistent() {
        assert forall|n: BareNodeKey, b: int| #[trigger] ms_edge(ms, n, b) is Some implies edge_back(ms, n, b) by {
            assert(g.edge(n, b) == ms_edge(ms, n, b));
            let j = ms_edge(ms, n, b)->Some_0;
            assert(g.edge(BareNodeKey { layer: b as usize, idx: j }, n.layer as int)
                == ms_edge(ms, BareNodeKey { layer: b as usize, idx: j }, n.layer as int));
        }
    }
    if layers_consistent(ms) {
        assert forall|n: BareNodeKey, b: int| #[trigger] g.edge(n, b) is Some implies {
            let j = g.edge(n, b)->Some_0;
            &&& 0 <= b < LAYER_COUNT
            &&& j < g.layer(b).slots()
            &&& g.edge(BareNodeKey { layer: b as usize, idx: j }, n.layer as int) == Some(n.idx)
        } by {
            assert(g.edge(n, b) == ms_edge(ms, n, b));
            assert(edge_back(ms, n, b));
            let j = g.edge(n, b)->Some_0;
            assert(g.edge(BareNodeKey { layer: b as usize, idx: j }, n.layer as int)
                == ms_edge(ms, BareNodeKey { layer: b as usize, idx: j }, n.layer as int));
        }
    }
}

/// Giving a layer back to the graph puts its metadata in the layer's place.
pub proof fn lemma_release_layer_seq<const LAYER_COUNT: usize>(
    before: Graph<LAYER_COUNT>,
    after: Graph<LAYER_COUNT>,
    l: int,
    m: LayerMetadata,
)
    requires
        0 <= l < LAYER_COUNT,
        after.layer(l) == m,
        forall|k: int| 0 <= k < LAYER_COUNT && k != l ==> #[trigger] after.layer(k) == before.layer(k),
    ensures
        after.layer_seq() == before.layer_seq().update(l, m),
{
    assert(after.layer_seq() =~= before.layer_seq().update(l, m));
}

/// Inserting a node into a layer keeps the layers consistent: no edge changes, and slots
/// are only added.
pub proof fn lemma_insert_keeps_consistent(ms: Seq<LayerMetadata>, l: int, m2: LayerMetadata, item: nat)
    requires
        layers_consistent(ms),
        0 <= l < ms.len(),
        ms[l].wf(),
        inserted(ms[l], m2, item),
    ensures
        layers_consistent(ms.update(l, m2)),
{
    let ms2 = ms.update(l, m2);
    assert forall|n: BareNodeKey, b: int| #[trigger] ms_edge(ms2, n, b) == ms_edge(ms, n, b) by {
        if n.layer as int == l {
            assert(m2.target(n.idx as int, b) == ms[l].target(n.idx as int, b));
        }
    }
    assert(m2.slots() >= ms[l].slots());
    assert forall|n: BareNodeKey, b: int| #[trigger] ms_edge(ms2, n, b) is Some implies edge_back(ms2, n, b) by {
        assert(ms_edge(ms, n, b) == ms_edge(ms2, n, b));
        assert(edge_back(ms, n, b));
        let j = ms_edge(ms, n, b)->Some_0;
        assert(ms_edge(ms2, BareNodeKey { layer: b as usize, idx: j }, n.layer as int)
            == ms_edge(ms, BareNodeKey { layer: b as usize, idx: j }, n.layer as int));
    }
}

/// Connecting slot `i` of layer `a` with slot `j` of layer `b` both ways, where neither had an
/// edge to the other's layer, keeps the layers consistent.
pub proof fn lemma_connect_keeps_consistent(
    ms: Seq<LayerMetadata>,
    a: usize,
    b: usize,
    ma2: LayerMetadata,
    mb2: LayerMetadata,
    i: usize,
    j: usize,
)
    requires
        layers_consistent(ms),
        a < ms.len(),
        b < ms.len(),
        a != b,
        i < ms[a as int].slots(),
        j < ms[b as int].slots(),
        ms[a as int].target(i as int, b as int) is None,
        ms[b as int].target(j as int, a as int) is None,
        connected_oneway(ms[a as int], ma2, i as nat, b as int, j as nat),
        connected_oneway(ms[b as int], mb2, j as nat, a as int, i as nat),
    ensures
        layers_consistent(ms.update(a as int, ma2).update(b as int, mb2)),
{
    let ms2 = ms.update(a as int, ma2).update(b as int, mb2);
    let src = BareNodeKey { layer: a, idx: i };
    let dst = BareNodeKey { layer: b, idx: j };
    assert(ms2[a as int] == ma2 && ms2[b as int] == mb2);
    assert forall|v: BareNodeKey, c: int| #[trigger] ms_edge(ms2, v, c) == if v == src && c == b as int {
        Some(j)
    } else if v == dst && c == a as int {
        Some(i)
    } else {
        ms_edge(ms, v, c)
    } by {
        if v.layer == a {
            if v.idx != i || c != b as int {
                assert(ma2.target(v.idx as int, c) == ms[a as int].target(v.idx as int, c));
            }
        } else if v.layer == b {
            if v.idx != j || c != a as int {
                assert(mb2.target(v.idx as int, c) == ms[b as int].target(v.idx as int, c));
            }
        }
    }
    assert forall|n: BareNodeKey, c: int| #[trigger] ms_edge(ms2, n, c) is Some implies edge_back(ms2, n, c) by {
        let k = ms_edge(ms2, n, c)->Some_0;
        let back = BareNodeKey { layer: c as usize, idx: k };
        if n == src && c == b as int {
            assert(back == dst);
        } else if n == dst && c == a as int {
            assert(back == src);
        } else {
            assert(ms_edge(ms, n, c) == Some(k));
            assert(edge_back(ms, n, c));
            assert(ms_edge(ms, back, n.layer as int) == Some(n.idx));
            // the edge back is none of the new ones: those nodes had no edge to these layers
            if back == src && n.layer as int == b as int {
                assert(ms[a as int].target(i as int, b as int) == ms_edge(ms, back, n.layer as int));
            }
            if back == dst && n.layer as int == a as int {
                assert(ms[b as int].target(j as int, a as int) == ms_edge(ms, back, n.layer as int));
            }
        }
    }
}
} // verus!
