use starframe::base::event::{Event, EventSink, EventSinkLayer};
use starframe::base::graph::{Graph, IntoAnyNode, Layer};

#[derive(Clone, Copy, Debug, PartialEq, Eq)]
struct Collider(u32);

fn contact(e: &Event<u32>) -> u32 {
    match e {
        Event::Contact(c) => *c,
    }
}

/// Flushing hands out every event of every connected sink, oldest first, with the sink's
/// node and responder, and empties the sinks.
#[test]
fn sink_flush_hands_out_events_in_order() {
    let mut graph = Graph::new();
    let mut sinks: EventSinkLayer<u32, u8> = graph.create_layer();
    let mut colliders: Layer<Collider> = graph.create_layer();

    let sink_a = sinks.insert(EventSink::new(7u8), &mut graph);
    let sink_b = sinks.insert(EventSink::new(9u8), &mut graph);
    let col_a = colliders.insert(Collider(1), &mut graph);
    let col_b = colliders.insert(Collider(2), &mut graph);
    graph.connect(sink_a, col_a);
    graph.connect(sink_b, col_b);

    sinks.get_mut(sink_b).unwrap().push(Event::Contact(30));
    sinks.get_mut(sink_a).unwrap().push(Event::Contact(10));
    sinks.get_mut(sink_a).unwrap().push(Event::Contact(20));

    let out = sinks.flush(&graph);
    assert_eq!(out.len(), 3);
    // sinks in slot order, each sink's events oldest first
    assert_eq!(contact(&out[0].0), 10);
    assert_eq!(contact(&out[1].0), 20);
    assert_eq!(contact(&out[2].0), 30);
    assert_eq!(out[0].1.into_any_node(), sink_a.into_any_node());
    assert_eq!(out[1].1.into_any_node(), sink_a.into_any_node());
    assert_eq!(out[2].1.into_any_node(), sink_b.into_any_node());
    assert_eq!(out[0].2, 7);
    assert_eq!(out[1].2, 7);
    assert_eq!(out[2].2, 9);

    // the sinks are empty afterwards
    assert!(sinks.flush(&graph).is_empty());
}

/// A sink that is connected to nothing is not live: its events stay where they are.
#[test]
fn sink_flush_skips_unconnected_sinks() {
    let mut graph = Graph::new();
    let mut sinks: EventSinkLayer<u32, u8> = graph.create_layer();
    let mut colliders: Layer<Collider> = graph.create_layer();

    let lonely = sinks.insert(EventSink::new(1u8), &mut graph);
    sinks.get_mut(lonely).unwrap().push(Event::Contact(5));
    assert!(sinks.flush(&graph).is_empty());

    // once connected, the kept event comes out
    let col = colliders.insert(Collider(3), &mut graph);
    graph.connect(lonely, col);
    let out = sinks.flush(&graph);
    assert_eq!(out.len(), 1);
    assert_eq!(contact(&out[0].0), 5);
    assert_eq!(out[0].2, 1);
}
