use starframe::graph::{Component, Graph, LayerView, LayerViewMut, NodeKey};

#[derive(Clone, Copy, Debug, PartialEq, Eq)]
struct Pose(usize);
#[derive(Clone, Copy, Debug, PartialEq, Eq)]
struct Velocity(usize);
#[derive(Clone, Copy, Debug, PartialEq, Eq)]
struct Body(usize);
#[derive(Clone, Copy, Debug, PartialEq, Eq)]
struct Shape(usize);

impl Component for Pose {
    const LAYER_INDEX: usize = 0;
}
impl Component for Velocity {
    const LAYER_INDEX: usize = 1;
}
impl Component for Body {
    const LAYER_INDEX: usize = 2;
}
impl Component for Shape {
    const LAYER_INDEX: usize = 3;
}

type G = Graph<4>;

/// Component storage for the four layers of the test graph.
#[derive(Default)]
struct Comps {
    poses: Vec<Pose>,
    vels: Vec<Velocity>,
    bodies: Vec<Body>,
    shapes: Vec<Shape>,
}

fn count<T: Component>(layer: &LayerView<'_, T>) -> usize {
    let mut it = layer.iter();
    let mut n = 0;
    while it.next().is_some() {
        n += 1;
    }
    n
}

fn count_mut<T: Component>(layer: &LayerViewMut<'_, T>) -> usize {
    let mut it = layer.iter();
    let mut n = 0;
    while it.next().is_some() {
        n += 1;
    }
    n
}

fn keys<T: Component>(layer: &LayerView<'_, T>) -> Vec<NodeKey<T>> {
    let mut it = layer.iter();
    let mut out = Vec::new();
    while let Some(n) = it.next() {
        out.push(n.key());
    }
    out
}

/// No node of the layer of `T` has an edge to any layer.
fn assert_no_edges<T: Component>(graph: &G, comps: &Comps, own: &[T]) {
    let layer = graph.get_layer(own);
    let poses = graph.get_layer(&comps.poses);
    let vels = graph.get_layer(&comps.vels);
    let bodies = graph.get_layer(&comps.bodies);
    let shapes = graph.get_layer(&comps.shapes);
    for idx in 0..layer.len() {
        let node = layer.get_unchecked_by_item_idx(idx);
        assert!(node.get_neighbor(&poses).is_none(), "Layer {} had a non-empty edge", T::LAYER_INDEX);
        assert!(node.get_neighbor(&vels).is_none(), "Layer {} had a non-empty edge", T::LAYER_INDEX);
        assert!(node.get_neighbor(&bodies).is_none(), "Layer {} had a non-empty edge", T::LAYER_INDEX);
        assert!(node.get_neighbor(&shapes).is_none(), "Layer {} had a non-empty edge", T::LAYER_INDEX);
    }
}

/// Nodes can be connected and then queried for their neighbors.
#[test]
fn graph_connect_nodes() {
    let mut graph = G::new();
    let mut c = Comps::default();

    // do this a few times to make sure we connect correctly even with multiple objects there
    for i in 0..3 {
        let pose_key = {
            let mut poses = graph.get_layer_mut(&mut c.poses);
            let mut vels = graph.get_layer_mut(&mut c.vels);
            let mut bodies = graph.get_layer_mut(&mut c.bodies);
            let key = {
                let mut pose_node = poses.insert(Pose(i));
                let mut vel_node = vels.insert(Velocity(i));
                let mut body_node = bodies.insert(Body(i));
                vel_node.connect(&mut pose_node);
                body_node.connect(&mut pose_node);
                body_node.connect(&mut vel_node);
                pose_node.key()
            };
            graph.release_layer(poses);
            graph.release_layer(vels);
            graph.release_layer(bodies);
            key
        };
        {
            let poses = graph.get_layer(&c.poses);
            let bodies = graph.get_layer(&c.bodies);
            let shapes = graph.get_layer(&c.shapes);
            assert_eq!(*poses.get(pose_key).unwrap().get_neighbor(&bodies).unwrap().c, Body(i));
            assert!(poses.get(pose_key).unwrap().get_neighbor(&shapes).is_none());
        }

        // spawn something with different connections in between
        let mut poses = graph.get_layer_mut(&mut c.poses);
        let mut shapes = graph.get_layer_mut(&mut c.shapes);
        let pose_key_ = {
            let mut pose_node_ = poses.insert(Pose(42 + i));
            let mut shape_node_ = shapes.insert(Shape(i));
            pose_node_.connect(&mut shape_node_);
            pose_node_.key()
        };
        graph.release_layer(poses);
        graph.release_layer(shapes);
        assert_eq!(
            *graph.get_layer(&c.poses).get(pose_key_).unwrap().get_neighbor(&graph.get_layer(&c.shapes)).unwrap().c,
            Shape(i)
        );
    }
}

/// Iterating over nodes hits every alive node and only every alive node.
#[test]
fn graph_iterate() {
    let mut graph = G::new();
    let mut c = Comps::default();
    let mut poses = graph.get_layer_mut(&mut c.poses);
    let mut vels = graph.get_layer_mut(&mut c.vels);
    let mut bodies = graph.get_layer_mut(&mut c.bodies);
    let mut shapes = graph.get_layer_mut(&mut c.shapes);

    for i in 0..10 {
        let mut pose_node = poses.insert(Pose(i));
        let mut vel_node = vels.insert(Velocity(i));
        let mut body_node = bodies.insert(Body(0));
        body_node.connect(&mut pose_node);
        if i % 2 == 0 {
            pose_node.connect(&mut vel_node);
        }
        if i % 4 == 0 {
            let mut shape_node = shapes.insert(Shape(i));
            body_node.connect(&mut shape_node);
        }
    }

    graph.release_layer(poses);
    graph.release_layer(vels);

    let poses = graph.get_layer(&c.poses);
    let vels = graph.get_layer(&c.vels);

    println!("Patterns of `iterate`:");

    let mut match_count = 0; // not including shape
    let mut full_match_count = 0; // including shape
    let mut it = bodies.iter_mut();
    while let Some(body) = it.next() {
        let pose = match body.get_neighbor(&poses) {
            Some(pose) => pose,
            None => continue,
        };
        let vel = match pose.get_neighbor(&vels) {
            Some(vel) => vel,
            None => continue,
        };
        match_count += 1;
        body.c.0 = 42;

        let mut shape = body.get_neighbor_mut(&mut shapes);
        if let Some(shape) = &mut shape {
            full_match_count += 1;
            shape.c.0 += 1;
        }

        // test that only real connections were followed
        assert_eq!(vel.c.0 % 2, 0);

        println!("{:?}, {:?}, {:?}, {:?}", body.c, pose.c, vel.c, shape.map(|s| *s.c));
    }
    assert_eq!(match_count, 5);
    assert_eq!(full_match_count, 3);

    let mut all_rbs = Vec::new();
    let mut it = bodies.iter();
    while let Some(body) = it.next() {
        all_rbs.push(*body.c);
        if body.get_neighbor(&poses).and_then(|pose| pose.get_neighbor(&vels)).is_none() {
            assert_eq!(body.c.0, 0);
        } else {
            assert_eq!(body.c.0, 42);
        }
    }
    println!("All rbs: {:?}", all_rbs);
}

/// Deleting hits every intended node.
#[test]
fn graph_delete() {
    let mut graph = G::new();
    let mut c = Comps::default();

    let vels_to_del: Vec<NodeKey<Velocity>> = {
        let mut poses = graph.get_layer_mut(&mut c.poses);
        let mut vels = graph.get_layer_mut(&mut c.vels);
        let mut bodies = graph.get_layer_mut(&mut c.bodies);
        let mut shapes = graph.get_layer_mut(&mut c.shapes);

        for i in 0..10 {
            let mut pose_node = poses.insert(Pose(i));
            let mut vel_node = vels.insert(Velocity(i));
            let mut body_node = bodies.insert(Body(0));
            body_node.connect(&mut pose_node);
            if i % 2 == 0 {
                pose_node.connect(&mut vel_node);
            } else {
                let mut shape = shapes.insert(Shape(i));
                vel_node.connect(&mut shape);
            }
        }

        assert_eq!(count_mut(&vels), 10);

        graph.release_layer(poses);
        graph.release_layer(vels);
        graph.release_layer(bodies);
        graph.release_layer(shapes);
        keys(&graph.get_layer(&c.vels))
    };
    for vel_to_del in vels_to_del {
        graph.gather(vel_to_del).delete();
    }
    // all vels deleted
    assert_eq!(count(&graph.get_layer(&c.vels)), 0);
    // half of poses had vels attached and have also been deleted
    assert_eq!(count(&graph.get_layer(&c.poses)), 5);

    let bodies_to_del: Vec<NodeKey<Body>> = keys(&graph.get_layer(&c.bodies));
    // rbs are connected to everything so deleting all of them should delete everything
    for rb_to_del in bodies_to_del {
        graph.gather(rb_to_del).delete();
    }
    assert_eq!(count(&graph.get_layer(&c.shapes)), 0);
    assert_eq!(count(&graph.get_layer(&c.poses)), 0);
    assert_eq!(count(&graph.get_layer(&c.vels)), 0);
    assert_eq!(count(&graph.get_layer(&c.bodies)), 0);

    // check that edges were all cleared too
    assert_no_edges(&graph, &c, &c.poses);
    assert_no_edges(&graph, &c, &c.vels);
    assert_no_edges(&graph, &c, &c.bodies);
    assert_no_edges(&graph, &c, &c.shapes);
}

/// Slots left over by `delete` are reused when spawning more components.
#[test]
fn graph_reuse_deleted_slots() {
    let mut graph = G::new();
    let mut c = Comps::default();

    // delete and respawn stuff a few times to hopefully see if things get connected wrong at some point
    for i in 0..5 {
        // delete half of everything that was placed,
        // so every new iteration we should be reusing slots for half and pushing new for half
        let pose_nodes: Vec<NodeKey<Pose>> = keys(&graph.get_layer(&c.poses)).into_iter().take(5).collect();
        for pose_node in pose_nodes {
            graph.gather(pose_node).delete();
        }
        for j in 0..10 {
            let pose_key;
            {
                let mut poses = graph.get_layer_mut(&mut c.poses);
                let mut vels = graph.get_layer_mut(&mut c.vels);
                let mut bodies = graph.get_layer_mut(&mut c.bodies);

                let id = i * 20 + j;
                {
                    let mut pose_node = poses.insert(Pose(id));
                    let mut vel_node = vels.insert(Velocity(id));
                    let mut rb_node = bodies.insert(Body(id));
                    pose_node.connect(&mut vel_node);
                    vel_node.connect(&mut rb_node);
                    pose_key = pose_node.key();
                }
                graph.release_layer(poses);
                graph.release_layer(vels);
                graph.release_layer(bodies);
            }
            // delete and replace on every other loop
            if i % 2 == 0 {
                let pose_len_before = c.poses.len();

                graph.gather(pose_key).delete();
                let mut poses = graph.get_layer_mut(&mut c.poses);
                assert!(poses.get(pose_key).is_none(), "pose_node was deleted so checking it should now give None");
                let mut vels = graph.get_layer_mut(&mut c.vels);
                let mut bodies = graph.get_layer_mut(&mut c.bodies);

                {
                    let mut pose_node = poses.insert(Pose(100));
                    let mut vel_node = vels.insert(Velocity(100));
                    pose_node.connect(&mut vel_node);
                    if i % 4 == 0 {
                        let mut body_node = bodies.insert(Body(100));
                        body_node.connect(&mut pose_node);
                    }
                }

                let pose_len_after = poses.len();
                // reused the slot that was left behind by delete
                assert_eq!(pose_len_before, pose_len_after);
                graph.release_layer(poses);
                graph.release_layer(vels);
                graph.release_layer(bodies);
            }
        }
    }

    println!("poses.content: {:?}", &c.poses);
    println!("vels.content: {:?}", &c.vels);
    println!("bodies.content: {:?}", &c.bodies);

    assert_eq!(c.poses.len(), 30);
    assert_eq!(c.vels.len(), 30);
}

/// If stopping layers are specified, delete stops there
#[test]
fn delete_stop() {
    let mut graph = G::new();
    let mut c = Comps::default();

    let mut pose_keys = Vec::new();
    {
        let mut poses = graph.get_layer_mut(&mut c.poses);
        let mut vels = graph.get_layer_mut(&mut c.vels);
        let mut bodies = graph.get_layer_mut(&mut c.bodies);
        let mut shapes = graph.get_layer_mut(&mut c.shapes);
        for i in 0..10 {
            let mut pose = poses.insert(Pose(i));
            let mut vel = vels.insert(Velocity(i));
            let mut body = bodies.insert(Body(i));
            let mut shape = shapes.insert(Shape(i));
            // triangle shape of pose, body, and vel,
            // attached to shape at the body
            pose.connect(&mut vel);
            vel.connect(&mut body);
            body.connect(&mut pose);
            body.connect(&mut shape);

            pose_keys.push(pose.key());
        }
        graph.release_layer(poses);
        graph.release_layer(vels);
        graph.release_layer(bodies);
        graph.release_layer(shapes);
    }

    for (i, pose) in pose_keys.iter().enumerate() {
        let mut gather = graph.gather(*pose).stop_at_layer::<Body>();
        if i % 2 == 0 {
            gather = gather.stop_at_layer::<Velocity>();
        }
        gather.delete();
    }

    let poses = graph.get_layer(&c.poses);
    let vels = graph.get_layer(&c.vels);
    let bodies = graph.get_layer(&c.bodies);
    let shapes = graph.get_layer(&c.shapes);
    // poses should all be deleted, half of vels should, and none of bodies and shapes
    assert_eq!(count(&poses), 0);
    assert_eq!(count(&vels), 5);
    assert_eq!(count(&bodies), 10);
    assert_eq!(count(&shapes), 10);
    let mut it = vels.iter();
    while let Some(vel) = it.next() {
        let body = vel.get_neighbor(&bodies).expect("unwanted edge deleted");
        let _shape = body.get_neighbor(&shapes).expect("unwanted edge deleted");
    }
    let mut it = bodies.iter();
    while let Some(body) = it.next() {
        let _shape = body.get_neighbor(&shapes).expect("unwanted edge deleted");
    }
}

/// Slots freed by one delete come back in the order the walk reached their nodes.
#[test]
fn graph_freed_slots_reused_in_walk_order() {
    let mut graph = G::new();
    let mut c = Comps::default();
    let start_key = {
        let mut poses = graph.get_layer_mut(&mut c.poses);
        let mut vels = graph.get_layer_mut(&mut c.vels);
        let mut bodies = graph.get_layer_mut(&mut c.bodies);
        let key = {
            // the far pose takes slot 0, the pose the walk starts from takes slot 1
            let far_key = poses.insert(Pose(0)).key();
            let mut start_pose = poses.insert(Pose(1));
            let mut vel = vels.insert(Velocity(1));
            let mut body = bodies.insert(Body(1));
            start_pose.connect(&mut vel);
            vel.connect(&mut body);
            let start_key = start_pose.key();
            let mut far_pose = poses.get_mut(far_key).expect("far pose exists");
            body.connect(&mut far_pose);
            start_key
        };
        graph.release_layer(bodies);
        graph.release_layer(vels);
        graph.release_layer(poses);
        key
    };
    assert_eq!(start_key.slot(), 1);
    graph.gather(start_key).delete();
    let mut poses = graph.get_layer_mut(&mut c.poses);
    let a = poses.insert(Pose(2)).key().slot();
    let b = poses.insert(Pose(3)).key().slot();
    assert_eq!((a, b), (1, 0));
    graph.release_layer(poses);
}
