//! Events gathered by sink components, to be answered by the sinks' responders.
use vstd::prelude::*;
use super::graph::{AnyNode, Graph, Layer, TypedNode};

verus! {

/// Something that happened to the components a sink is connected to.
///
/// `C` is the contact report that the physics system produces.
#[derive(Clone, Copy, Debug)]
pub enum Event<C> {
    Contact(C),
}

/// A component that gathers events that occur to the components it's connected to.
///
/// `R` is the sink's responder: what the game runs on each gathered event.
pub struct EventSink<C, R> {
    events: Vec<Event<C>>,
    response: R,
}

impl<C, R> EventSink<C, R> {
    /// The events gathered so far, oldest first.
    pub closed spec fn events(&self) -> Seq<Event<C>> {
        self.events@
    }

    pub closed spec fn response(&self) -> R {
        self.response
    }

    pub fn new(response: R) -> (r: Self)
        ensures
            r.events() == Seq::<Event<C>>::empty(),
            r.response() == response,
    {
        EventSink { events: Vec::new(), response }
    }

    pub fn push(&mut self, evt: Event<C>)
        ensures
            final(self).events() == old(self).events().push(evt),
            final(self).response() == old(self).response(),
    {
        self.events.push(evt);
    }
}

/// The graph layer of event sinks.
pub type EventSinkLayer<C, R> = Layer<EventSink<C, R>>;

/// The events of the sinks in slots `0..upto` that are live, slot by slot and oldest first,
/// each with the slot's node and the sink's responder.
pub open spec fn pending<C, R>(
    sinks: Seq<EventSink<C, R>>,
    live: spec_fn(int) -> bool,
    layer: usize,
    upto: int,
) -> Seq<(Event<C>, AnyNode, R)>
    decreases upto,
{
    if upto <= 0 {
        Seq::empty()
    } else {
        let k = upto - 1;
        let here = if live(k) {
            sinks[k].events().map_values(
                |e: Event<C>| (e, AnyNode { item_idx: k as usize, layer_idx: layer }, sinks[k].response()),
            )
        } else {
            Seq::empty()
        };
        pending(sinks, live, layer, k) + here
    }
}

/// Whether the slot `k` of the layer at `layer` holds a live node of `graph`.
pub open spec fn live_in(graph: &Graph, layer: usize) -> spec_fn(int) -> bool {
    |k: int| graph.count_of(AnyNode { item_idx: k as usize, layer_idx: layer }) > 0
}

impl<C: Copy, R: Copy> EventSinkLayer<C, R> {
    /// Take the events out of every live sink, in slot order, each with its node and the
    /// sink's responder, for the caller to answer.
    pub fn flush(&mut self, graph: &Graph) -> (r: Vec<(Event<C>, TypedNode<EventSink<C, R>>, R)>)
        requires
            graph.wf(),
            old(self).matches(graph),
        ensures
            final(self).layer_index() == old(self).layer_index(),
            final(self).contents().len() == old(self).contents().len(),
            forall|k: int| 0 <= k < old(self).contents().len() ==> {
                &&& (#[trigger] final(self).contents()[k]).response() == old(self).contents()[k].response()
                &&& final(self).contents()[k].events() == if live_in(graph, old(self).layer_index() as usize)(k) {
                    Seq::<Event<C>>::empty()
                } else {
                    old(self).contents()[k].events()
                }
            },
            ({
                let p = pending(old(self).contents(), live_in(graph, old(self).layer_index() as usize),
                    old(self).layer_index() as usize, old(self).contents().len() as int);
                &&& r@.len() == p.len()
                &&& forall|j: int| 0 <= j < p.len() ==> (#[trigger] r@[j]).0 == p[j].0 && r@[j].1@ == p[j].1 && r@[j].2 == p[j].2
            }),
    {
        let ghost s0 = self.contents();
        let idx = self.index();
        let ghost li = idx;
        let ghost live = live_in(graph, li);
        let mut out: Vec<(Event<C>, TypedNode<EventSink<C, R>>, R)> = Vec::new();
        let n = self.len();
        let mut i: usize = 0;
        while i < n
            invariant
                graph.wf(),
                self.matches(graph),
                n == s0.len(),
                i <= n,
                li == idx,
                idx == self.layer_index(),
                idx == old(self).layer_index(),
                live == live_in(graph, li),
                self.contents().len() == s0.len(),
                forall|k: int| 0 <= k < s0.len() ==> {
                    &&& (#[trigger] self.contents()[k]).response() == s0[k].response()
                    &&& self.contents()[k].events() == if k < i && live(k) {
                        Seq::<Event<C>>::empty()
                    } else {
                        s0[k].events()
                    }
                },
                ({
                    let p = pending(s0, live, li, i as int);
                    &&& out@.len() == p.len()
                    &&& forall|j: int| 0 <= j < p.len() ==> (#[trigger] out@[j]).0 == p[j].0 && out@[j].1@ == p[j].1 && out@[j].2 == p[j].2
                }),
            decreases n - i,
        {
            let node = AnyNode { item_idx: i, layer_idx: idx }.typed::<EventSink<C, R>>();
            let ghost p0 = pending(s0, live, li, i as int);
            let ghost out0 = out@;
            if graph.get_edge_count(node) > 0 {
                let ghost c1 = self.contents();
                match self.get_mut(node) {
                    Some(sink) => {
                        let resp = sink.response;
                        let mut taken: Vec<Event<C>> = Vec::new();
                        std::mem::swap(&mut taken, &mut sink.events);
                        let mut k: usize = 0;
                        while k < taken.len()
                            invariant
                                k <= taken@.len(),
                                i < s0.len(),
                                taken@ == s0[i as int].events(),
                                resp == s0[i as int].response(),
                                node@ == (AnyNode { item_idx: i, layer_idx: li }),
                                out@.len() == out0.len() + k,
                                forall|j: int| 0 <= j < out0.len() ==> #[trigger] out@[j] == out0[j],
                                forall|j: int| 0 <= j < k ==> (#[trigger] out@[out0.len() + j]).0 == taken@[j]
                                    && out@[out0.len() + j].1@ == node@ && out@[out0.len() + j].2 == resp,
                            decreases taken@.len() - k,
                        {
                            out.push((taken[k], node, resp));
                            k = k + 1;
                        }
                    },
                    None => {},
                }
                proof {
                    assert(live(i as int));
                    let here = s0[i as int].events().map_values(
                        |e: Event<C>| (e, AnyNode { item_idx: i, layer_idx: li }, s0[i as int].response()),
                    );
                    assert(pending(s0, live, li, i as int + 1) == p0 + here);
                    assert forall|k: int| 0 <= k < s0.len() implies {
                        &&& (#[trigger] self.contents()[k]).response() == s0[k].response()
                        &&& self.contents()[k].events() == if k < i + 1 && live(k) {
                            Seq::<Event<C>>::empty()
                        } else {
                            s0[k].events()
                        }
                    } by {
                        if k != i {
                            assert(self.contents()[k] == c1[k]);
                        }
                    }
                    assert forall|j: int| 0 <= j < p0.len() + here.len() implies (#[trigger] out@[j]).0 == (p0 + here)[j].0
                        && out@[j].1@ == (p0 + here)[j].1 && out@[j].2 == (p0 + here)[j].2 by {
                        if j >= p0.len() {
                            assert(out@[out0.len() + (j - out0.len())] == out@[j]);
                        }
                    }
                }
            } else {
                proof {
                    assert(!live(i as int));
                    assert(pending(s0, live, li, i as int + 1) =~= p0);
                }
            }
            i = i + 1;
        }
        out
    }
}

} // verus!
