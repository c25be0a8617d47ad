use starframe::base::graph::{Graph, IntoAnyNode, Layer, TypedNode};

#[derive(Clone, Copy, Debug, PartialEq, Eq)]
struct Transform(usize);
#[derive(Clone, Copy, Debug, PartialEq, Eq)]
struct Velocity(usize);
#[derive(Clone, Copy, Debug, PartialEq, Eq)]
struct RigidBody(usize);
#[derive(Clone, Copy, Debug, PartialEq, Eq)]
struct Shape(usize);

/// The nodes of the live components of a layer, in slot order.
fn live<T>(layer: &Layer<T>, graph: &Graph) -> Vec<TypedNode<T>> {
    let mut out = Vec::new();
    let mut it = layer.iter(graph);
    while let Some((_, node)) = it.next() {
        out.push(node);
    }
    out
}

/// Creating layers generates the correct storages.
#[test]
fn create_layers() {
    let mut graph = Graph::new();
    let l0: Layer<Transform> = graph.create_layer();
    let l1: Layer<Velocity> = graph.create_layer();

    // both layers should now have two target layers
    assert_eq!(graph.target_layer_count(l0.index()), 2);
    assert_eq!(graph.target_layer_count(l1.index()), 2);

    // this should add a target layer to everyone
    let l2: Layer<Shape> = graph.create_layer();
    assert_eq!(graph.target_layer_count(l0.index()), 3);
    assert_eq!(graph.target_layer_count(l1.index()), 3);
    assert_eq!(graph.target_layer_count(l2.index()), 3);
}

/// Nodes can be connected and then queried for their neighbors.
/// Multiple ownership works.
#[test]
fn connect_nodes() {
    let mut graph = Graph::new();
    let mut trs: Layer<Transform> = graph.create_layer();
    let mut vels: Layer<Velocity> = graph.create_layer();
    let mut rbs: Layer<RigidBody> = graph.create_layer();
    let mut shapes: Layer<Shape> = graph.create_layer();

    let everyones_shape = shapes.insert(Shape(69), &mut graph);
    // do this a few times to make sure we connect correctly even with multiple objects there
    for i in 0..3 {
        let tr_node = trs.insert(Transform(i), &mut graph);
        let vel_node = vels.insert(Velocity(i), &mut graph);
        let rb_node = rbs.insert(RigidBody(i), &mut graph);
        graph.connect(vel_node, tr_node);
        graph.connect(rb_node, tr_node);
        graph.connect(rb_node, vel_node);
        graph.connect_oneway(rb_node, everyones_shape);
        assert_eq!(
            graph.get_neighbor(rb_node, &shapes).map(|(n, _)| n),
            Some(&Shape(69))
        );
        assert_eq!(
            graph.get_neighbor(tr_node, &rbs).map(|(n, _)| n),
            Some(&RigidBody(i))
        );
        assert!(graph.get_neighbor(tr_node, &shapes).is_none());
        // check edge counts
        assert_eq!(graph.get_edge_count(tr_node), 4);
        assert_eq!(graph.get_edge_count(rb_node), 5);
        assert_eq!(graph.get_edge_count(everyones_shape), i + 1);

        // spawn something with different connections in between
        let tr_node_ = trs.insert(Transform(42 + i), &mut graph);
        let shape_node_ = shapes.insert(Shape(i), &mut graph);
        graph.connect(tr_node_, shape_node_);
        assert_eq!(
            graph.get_neighbor(tr_node_, &shapes).map(|(n, _)| n),
            Some(&Shape(i))
        );
    }
}

#[test]
fn iterate() {
    let mut graph = Graph::new();
    let mut trs: Layer<Transform> = graph.create_layer();
    let mut vels: Layer<Velocity> = graph.create_layer();
    let mut rbs: Layer<RigidBody> = graph.create_layer();
    let mut shapes: Layer<Shape> = graph.create_layer();

    let everyones_shape = shapes.insert(Shape(69), &mut graph);

    for i in 0..10 {
        let tr_node = trs.insert(Transform(i), &mut graph);
        let vel_node = vels.insert(Velocity(i), &mut graph);
        let rb_node = rbs.insert(RigidBody(0), &mut graph);
        graph.connect(rb_node, tr_node);
        if i % 2 == 0 {
            graph.connect(tr_node, vel_node);
        }
        if i % 4 == 0 {
            graph.connect_oneway(rb_node, everyones_shape);
        }
    }

    println!("Patterns of `iterate`:");

    let mut match_count = 0; // not including shape
    let mut full_match_count = 0; // including shape
    let mut it = rbs.iter_mut(&graph);
    while let Some((rb, rb_pos)) = it.next() {
        let (tr, tr_pos) = match graph.get_neighbor(rb_pos, &trs) {
            Some(tr) => tr,
            None => continue,
        };
        let (vel, _) = match graph.get_neighbor(tr_pos, &vels) {
            Some(vel) => vel,
            None => continue,
        };
        match_count += 1;
        rb.0 = 42;

        let mut shape = graph.get_neighbor_mut(rb_pos, &mut shapes);
        if let Some((shape, _)) = &mut shape {
            full_match_count += 1;
            shape.0 += 1;
        }

        // test that only real connections were followed
        assert_eq!(vel.0 % 2, 0);

        println!("{:?}, {:?}, {:?}, {:?}", rb, tr, vel, shape.map(|(s, _)| *s));
    }
    assert_eq!(match_count, 5);
    assert_eq!(full_match_count, 3);
    assert_eq!(shapes.get(everyones_shape).unwrap(), &Shape(72));

    let mut it = rbs.iter(&graph);
    while let Some((rb, rb_pos)) = it.next() {
        if graph
            .get_neighbor(rb_pos, &trs)
            .and_then(|(_, tr_pos)| graph.get_neighbor(tr_pos, &vels))
            .is_none()
        {
            assert_eq!(rb.0, 0);
        } else {
            assert_eq!(rb.0, 42);
        }
    }
}

#[test]
fn delete() {
    let mut graph = Graph::new();
    let mut trs: Layer<Transform> = graph.create_layer();
    let mut vels: Layer<Velocity> = graph.create_layer();
    let mut rbs: Layer<RigidBody> = graph.create_layer();
    let mut shapes: Layer<Shape> = graph.create_layer();

    let everyones_shape = shapes.insert(Shape(69), &mut graph);

    for i in 0..10 {
        let tr_node = trs.insert(Transform(i), &mut graph);
        let vel_node = vels.insert(Velocity(i), &mut graph);
        let rb_node = rbs.insert(RigidBody(0), &mut graph);
        graph.connect(rb_node, tr_node);
        if i % 2 == 0 {
            graph.connect(tr_node, vel_node);
        } else {
            graph.connect_oneway(vel_node, vel_node); // connect vel to itself to "keep it alive"
        }
        if i % 3 == 0 {
            graph.connect_oneway(rb_node, everyones_shape);
        }
    }

    assert_eq!(live(&vels, &graph).len(), 10);
    for vel_to_del in live(&vels, &graph) {
        graph.delete(vel_to_del);
    }
    // all vels deleted (== have 0 referrers)
    assert_eq!(live(&vels, &graph).len(), 0);
    // half of trs had vels attached and have also been deleted
    assert_eq!(live(&trs, &graph).len(), 5);

    // rbs are connected to everything so deleting all of them should delete everything
    for rb_to_del in live(&rbs, &graph) {
        // everyones_shape should live until the last rb is deleted
        assert_eq!(live(&shapes, &graph).len(), 1);

        graph.delete(rb_to_del);
    }
    assert_eq!(live(&shapes, &graph).len(), 0);
    assert_eq!(live(&trs, &graph).len(), 0);
    assert_eq!(live(&vels, &graph).len(), 0);
    assert_eq!(live(&rbs, &graph).len(), 0);

    // check that edges were all cleared too
    assert!(!graph.has_edges(), "a layer had a non-empty edge");
}

#[test]
fn reuse_deleted_slots() {
    let mut graph = Graph::new();
    let mut trs: Layer<Transform> = graph.create_layer();
    let mut vels: Layer<Velocity> = graph.create_layer();
    let mut rbs: Layer<RigidBody> = graph.create_layer();
    let mut shapes: Layer<Shape> = graph.create_layer();
    let mut pins: Layer<()> = graph.create_layer();

    let everyones_shape = shapes.insert(Shape(69), &mut graph);
    let shape_pin = pins.insert((), &mut graph);
    graph.connect_oneway(shape_pin, everyones_shape);

    // delete and respawn stuff a few times to hopefully see if things get connected wrong at some point
    for i in 0..5 {
        // delete half of everything that was placed,
        // so every new iteration we should be reusing slots for half and pushing new for half
        for tr_node in live(&trs, &graph).into_iter().take(5) {
            graph.delete(tr_node);
        }
        for j in 0..10 {
            let id = i * 20 + j;
            let tr_node = trs.insert(Transform(id), &mut graph);
            let vel_node = vels.insert(Velocity(id), &mut graph);
            let rb_node = rbs.insert(RigidBody(id), &mut graph);
            graph.connect(tr_node, vel_node);
            graph.connect(vel_node, rb_node);
            graph.connect_oneway(tr_node, everyones_shape);
            // delete and replace every other
            if i % 2 == 0 {
                let tr_len_before = trs.len();

                graph.delete(tr_node);
                // delete twice to make sure we don't create garbage on the second go
                graph.delete(tr_node);

                let tr_node = trs.insert(Transform(100), &mut graph);
                let vel_node = vels.insert(Velocity(100), &mut graph);
                graph.connect(tr_node, vel_node);
                if i % 4 == 0 {
                    let rb_node = rbs.insert(RigidBody(100), &mut graph);
                    graph.connect(rb_node, tr_node);
                }

                let tr_len_after = trs.len();
                // reused the slot that was left behind by delete
                assert_eq!(tr_len_before, tr_len_after);
            }
        }
    }

    assert_eq!(trs.len(), 30);
    assert_eq!(vels.len(), 30);
}

/// Slots freed by one delete come back in the order the walk reached their nodes.
#[test]
fn freed_slots_reused_in_walk_order() {
    let mut graph = Graph::new();
    let mut trs: Layer<Transform> = graph.create_layer();
    let mut vels: Layer<Velocity> = graph.create_layer();
    let mut rbs: Layer<RigidBody> = graph.create_layer();

    // the far transform takes slot 0, the one the walk starts from takes slot 1
    let far_tr = trs.insert(Transform(0), &mut graph);
    let start_tr = trs.insert(Transform(1), &mut graph);
    let vel = vels.insert(Velocity(1), &mut graph);
    let rb = rbs.insert(RigidBody(1), &mut graph);
    graph.connect(start_tr, vel);
    graph.connect(vel, rb);
    graph.connect(rb, far_tr);

    graph.delete(start_tr);
    assert_eq!(live(&trs, &graph).len(), 0);
    let a = trs.insert(Transform(2), &mut graph).into_any_node().item_idx;
    let b = trs.insert(Transform(3), &mut graph).into_any_node().item_idx;
    assert_eq!((a, b), (1, 0));
}
