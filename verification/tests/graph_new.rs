use starframe::graph_new::{Component, Graph, LayerView, LayerViewMut, NodeKey};

#[derive(Clone, Copy, Debug, PartialEq, Eq)]
struct Pose(usize);
#[derive(Clone, Copy, Debug, PartialEq, Eq)]
struct Velocity(usize);
#[derive(Clone, Copy, Debug, PartialEq, Eq)]
struct Body(usize);
#[derive(Clone, Copy, Debug, PartialEq, Eq)]
struct Shape(usize);
#[derive(Clone, Copy, Debug, PartialEq, Eq)]
struct Subshape(usize);

impl Component for Pose {
    const LAYER_INDEX: usize = 0;
}
impl Component for Velocity {
    const LAYER_INDEX: usize = 1;
}
impl Component for Body {
    const LAYER_INDEX: usize = 2;
}
impl Component for Shape {
    const LAYER_INDEX: usize = 3;
}
impl Component for Subshape {
    const LAYER_INDEX: usize = 4;
}

fn graph() -> Graph {
    Graph::new(5)
}

/// Component storage for the five layers of the test graph.
#[derive(Default)]
struct Comps {
    poses: Vec<Pose>,
    vels: Vec<Velocity>,
    bodies: Vec<Body>,
    shapes: Vec<Shape>,
    subshapes: Vec<Subshape>,
}

fn count<T: Component>(layer: &LayerView<'_, T>) -> usize {
    let mut it = layer.iter();
    let mut n = 0;
    while it.next().is_some() {
        n += 1;
    }
    n
}

fn count_mut<T: Component>(layer: &LayerViewMut<'_, T>) -> usize {
    let mut it = layer.iter();
    let mut n = 0;
    while it.next().is_some() {
        n += 1;
    }
    n
}

fn keys<T: Component>(layer: &LayerView<'_, T>) -> Vec<NodeKey<T>> {
    let mut it = layer.iter();
    let mut out = Vec::new();
    while let Some(n) = it.next() {
        out.push(n.key());
    }
    out
}

fn keys_mut<T: Component>(layer: &LayerViewMut<'_, T>) -> Vec<NodeKey<T>> {
    let mut it = layer.iter();
    let mut out = Vec::new();
    while let Some(n) = it.next() {
        out.push(n.key());
    }
    out
}

/// Nodes can be connected and then queried for their neighbors.
/// Multiple ownership works.
#[test]
fn graph_new_connect_nodes() {
    let mut graph = graph();
    let mut c = Comps::default();

    let everyones_shape = {
        let mut shapes = graph.get_layer_mut(&mut c.shapes);
        let key = shapes.insert(Shape(69)).key();
        graph.release_layer(shapes);
        key
    };

    // do this a few times to make sure we connect correctly even with multiple objects there
    for i in 0..3 {
        let pose_key;
        let rb_key;
        {
            let mut poses = graph.get_layer_mut(&mut c.poses);
            let mut vels = graph.get_layer_mut(&mut c.vels);
            let mut bodies = graph.get_layer_mut(&mut c.bodies);
            let mut shapes = graph.get_layer_mut(&mut c.shapes);
            {
                let mut everyones_shape = shapes.get_mut(everyones_shape).unwrap();

                let mut pose_node = poses.insert(Pose(i));
                let mut vel_node = vels.insert(Velocity(i));
                let mut body_node = bodies.insert(Body(i));
                vel_node.connect(&mut pose_node);
                body_node.connect(&mut pose_node);
                body_node.connect(&mut vel_node);
                body_node.connect_oneway(&mut everyones_shape);
                // refcounts
                assert_eq!(pose_node.refcount(), 2);
                assert_eq!(body_node.refcount(), 2);
                assert_eq!(everyones_shape.refcount(), i + 1);
                pose_key = pose_node.key();
                rb_key = body_node.key();
            }
            graph.release_layer(poses);
            graph.release_layer(vels);
            graph.release_layer(bodies);
            graph.release_layer(shapes);
        }
        {
            let poses = graph.get_layer(&c.poses);
            let bodies = graph.get_layer(&c.bodies);
            let shapes = graph.get_layer(&c.shapes);
            assert_eq!(*bodies.get(rb_key).unwrap().get_neighbor(&shapes).unwrap().c, Shape(69));
            assert_eq!(*poses.get(pose_key).unwrap().get_neighbor(&bodies).unwrap().c, Body(i));
            assert!(poses.get(pose_key).unwrap().get_neighbor(&shapes).is_none());
        }

        // spawn something with different connections in between
        let mut poses = graph.get_layer_mut(&mut c.poses);
        let mut shapes = graph.get_layer_mut(&mut c.shapes);
        let pose_key_ = {
            let mut pose_node_ = poses.insert(Pose(42 + i));
            let mut shape_node_ = shapes.insert(Shape(i));
            pose_node_.connect(&mut shape_node_);
            pose_node_.key()
        };
        graph.release_layer(poses);
        graph.release_layer(shapes);
        assert_eq!(
            *graph.get_layer(&c.poses).get(pose_key_).unwrap().get_neighbor(&graph.get_layer(&c.shapes)).unwrap().c,
            Shape(i)
        );
    }
}

#[test]
fn graph_new_iterate() {
    let mut graph = graph();
    let mut c = Comps::default();
    let mut poses = graph.get_layer_mut(&mut c.poses);
    let mut vels = graph.get_layer_mut(&mut c.vels);
    let mut bodies = graph.get_layer_mut(&mut c.bodies);
    let mut shapes = graph.get_layer_mut(&mut c.shapes);

    let everyones_shape = shapes.insert(Shape(69)).key();

    for i in 0..10 {
        let mut pose_node = poses.insert(Pose(i));
        let mut vel_node = vels.insert(Velocity(i));
        let mut body_node = bodies.insert(Body(0));
        body_node.connect(&mut pose_node);
        if i % 2 == 0 {
            pose_node.connect(&mut vel_node);
        }
        if i % 4 == 0 {
            body_node.connect_oneway(&mut shapes.get_mut(everyones_shape).unwrap());
        }
    }

    graph.release_layer(poses);
    graph.release_layer(vels);

    let poses = graph.get_layer(&c.poses);
    let vels = graph.get_layer(&c.vels);

    println!("Patterns of `iterate`:");

    let mut match_count = 0; // not including shape
    let mut full_match_count = 0; // including shape
    let mut it = bodies.iter_mut();
    while let Some(body) = it.next() {
        let pose = match body.get_neighbor(&poses) {
            Some(pose) => pose,
            None => continue,
        };
        let vel = match pose.get_neighbor(&vels) {
            Some(vel) => vel,
            None => continue,
        };
        match_count += 1;
        body.c.0 = 42;

        let mut shape = body.get_neighbor_mut(&mut shapes);
        if let Some(shape) = &mut shape {
            full_match_count += 1;
            shape.c.0 += 1;
        }

        // test that only real connections were followed
        assert_eq!(vel.c.0 % 2, 0);

        println!("{:?}, {:?}, {:?}, {:?}", body.c, pose.c, vel.c, shape.map(|s| *s.c));
    }
    assert_eq!(match_count, 5);
    assert_eq!(full_match_count, 3);
    assert_eq!(*shapes.get(everyones_shape).unwrap().c, Shape(72));

    let mut all_rbs = Vec::new();
    let mut it = bodies.iter();
    while let Some(body) = it.next() {
        all_rbs.push(*body.c);
        if body.get_neighbor(&poses).and_then(|pose| pose.get_neighbor(&vels)).is_none() {
            assert_eq!(body.c.0, 0);
        } else {
            assert_eq!(body.c.0, 42);
        }
    }
    println!("All rbs: {:?}", all_rbs);
}

#[test]
fn graph_new_delete() {
    let mut graph = graph();
    let mut c = Comps::default();

    let vels_to_del: Vec<NodeKey<Velocity>> = {
        let mut poses = graph.get_layer_mut(&mut c.poses);
        let mut vels = graph.get_layer_mut(&mut c.vels);
        let mut bodies = graph.get_layer_mut(&mut c.bodies);
        let mut shapes = graph.get_layer_mut(&mut c.shapes);
        let mut sub_shapes = graph.get_layer_mut(&mut c.subshapes);

        {
            let mut everyones_shape = shapes.insert(Shape(69));
            let mut shape_owns_thing = sub_shapes.insert(Subshape(42));
            everyones_shape.connect(&mut shape_owns_thing);

            for i in 0..10 {
                let mut pose_node = poses.insert(Pose(i));
                let mut vel_node = vels.insert(Velocity(i));
                let mut body_node = bodies.insert(Body(0));
                body_node.connect(&mut pose_node);
                if i % 2 == 0 {
                    pose_node.connect(&mut vel_node);
                } else {
                    let mut subshape = sub_shapes.insert(Subshape(i));
                    vel_node.connect(&mut subshape);
                }
                if i % 3 == 0 {
                    body_node.connect_oneway(&mut everyones_shape);
                }
            }
        }

        assert_eq!(count_mut(&vels), 10);

        let keys = keys_mut(&vels);
        graph.release_layer(poses);
        graph.release_layer(vels);
        graph.release_layer(bodies);
        graph.release_layer(shapes);
        graph.release_layer(sub_shapes);
        keys
    };
    for vel_to_del in vels_to_del {
        graph.delete(vel_to_del);
    }
    // all vels deleted (== have 0 referrers)
    assert_eq!(count(&graph.get_layer(&c.vels)), 0);
    // half of poses had vels attached and have also been deleted
    assert_eq!(count(&graph.get_layer(&c.poses)), 5);

    let bodies_to_del: Vec<NodeKey<Body>> = keys(&graph.get_layer(&c.bodies));
    // rbs are connected to everything so deleting all of them should delete everything
    for rb_to_del in bodies_to_del {
        // everyones_shape and its subcomponent should live until the last rb is deleted
        // BECAUSE the last rb is connected to it
        // (remember this if changing the iteration counts!)
        assert_eq!(count(&graph.get_layer(&c.shapes)), 1);
        assert_eq!(count(&graph.get_layer(&c.subshapes)), 1);

        graph.delete(rb_to_del);
    }
    assert_eq!(count(&graph.get_layer(&c.shapes)), 0);
    assert_eq!(count(&graph.get_layer(&c.poses)), 0);
    assert_eq!(count(&graph.get_layer(&c.vels)), 0);
    assert_eq!(count(&graph.get_layer(&c.bodies)), 0);

    // check that edges were all cleared too
    assert!(!graph.has_edges(), "a layer had a non-empty edge");
}

#[test]
fn graph_new_reuse_deleted_slots() {
    let mut graph = graph();
    let mut c = Comps::default();

    let everyones_shape = {
        let mut shapes = graph.get_layer_mut(&mut c.shapes);
        let mut subshapes = graph.get_layer_mut(&mut c.subshapes);
        let key = {
            let mut everyones_shape = shapes.insert(Shape(69));
            // connect everyones_shape to something to make sure we don't accidentally delete it
            let mut shape_guardian = subshapes.insert(Subshape(69));
            shape_guardian.connect_oneway(&mut everyones_shape);
            everyones_shape.key()
        };
        graph.release_layer(subshapes);
        graph.release_layer(shapes);
        key
    };

    // delete and respawn stuff a few times to hopefully see if things get connected wrong at some point
    for i in 0..5 {
        // delete half of everything that was placed,
        // so every new iteration we should be reusing slots for half and pushing new for half
        let pose_nodes: Vec<NodeKey<Pose>> = keys(&graph.get_layer(&c.poses)).into_iter().take(5).collect();
        for pose_node in pose_nodes {
            graph.delete(pose_node);
        }
        for j in 0..10 {
            let pose_key;
            {
                let mut poses = graph.get_layer_mut(&mut c.poses);
                let mut vels = graph.get_layer_mut(&mut c.vels);
                let mut bodies = graph.get_layer_mut(&mut c.bodies);
                let mut shapes = graph.get_layer_mut(&mut c.shapes);

                let id = i * 20 + j;
                {
                    let mut pose_node = poses.insert(Pose(id));
                    let mut vel_node = vels.insert(Velocity(id));
                    let mut rb_node = bodies.insert(Body(id));
                    pose_node.connect(&mut vel_node);
                    vel_node.connect(&mut rb_node);
                    pose_node.connect_oneway(&mut shapes.get_mut(everyones_shape).expect("everyones_shape was deleted"));

                    pose_key = pose_node.key();
                }
                graph.release_layer(poses);
                graph.release_layer(vels);
                graph.release_layer(bodies);
                graph.release_layer(shapes);
            }
            // delete and replace on every other loop
            if i % 2 == 0 {
                let pose_len_before = c.poses.len();

                graph.delete(pose_key);
                let mut poses = graph.get_layer_mut(&mut c.poses);
                assert!(poses.get(pose_key).is_none(), "pose_node was deleted so checking it should now give None");
                let mut vels = graph.get_layer_mut(&mut c.vels);
                let mut bodies = graph.get_layer_mut(&mut c.bodies);

                {
                    let mut pose_node = poses.insert(Pose(100));
                    let mut vel_node = vels.insert(Velocity(100));
                    pose_node.connect(&mut vel_node);
                    if i % 4 == 0 {
                        let mut body_node = bodies.insert(Body(100));
                        body_node.connect(&mut pose_node);
                    }
                }

                let pose_len_after = poses.len();
                // reused the slot that was left behind by delete
                assert_eq!(pose_len_before, pose_len_after);
                graph.release_layer(poses);
                graph.release_layer(vels);
                graph.release_layer(bodies);
            }
        }
    }

    println!("poses.content: {:?}", &c.poses);
    println!("vels.content: {:?}", &c.vels);
    println!("bodies.content: {:?}", &c.bodies);

    assert_eq!(c.poses.len(), 30);
    assert_eq!(c.vels.len(), 30);
    // everyones_shape was never deleted
    assert_eq!(c.shapes.len(), 1);
}

#[test]
fn graph_new_reused_slot_starts_unreferenced() {
    let mut graph = graph();
    let mut c = Comps::default();
    let pose_key = {
        let mut poses = graph.get_layer_mut(&mut c.poses);
        let mut vels = graph.get_layer_mut(&mut c.vels);
        let key = {
            let mut pose_node = poses.insert(Pose(1));
            let mut vel_node = vels.insert(Velocity(1));
            pose_node.connect(&mut vel_node);
            assert_eq!(pose_node.refcount(), 1);
            pose_node.key()
        };
        graph.release_layer(vels);
        graph.release_layer(poses);
        key
    };
    graph.delete(pose_key);
    let mut poses = graph.get_layer_mut(&mut c.poses);
    {
        let pose_node = poses.insert(Pose(2));
        // the freed slot is reused, and nothing points to it yet
        assert_eq!(pose_node.key().slot(), pose_key.slot());
        assert_eq!(pose_node.refcount(), 0);
    }
    assert_eq!(poses.len(), 1);
    assert_eq!(count_mut(&poses), 0);
    graph.release_layer(poses);
}

#[test]
fn graph_new_freed_slots_reused_in_walk_order() {
    let mut graph = graph();
    let mut c = Comps::default();
    let first_key = {
        let mut poses = graph.get_layer_mut(&mut c.poses);
        let mut vels = graph.get_layer_mut(&mut c.vels);
        let mut bodies = graph.get_layer_mut(&mut c.bodies);
        let key = {
            // the far pose takes slot 0, the pose the walk starts from takes slot 1
            let far_key = poses.insert(Pose(0)).key();
            let mut start_pose = poses.insert(Pose(1));
            let mut vel = vels.insert(Velocity(1));
            let mut body = bodies.insert(Body(1));
            start_pose.connect(&mut vel);
            vel.connect(&mut body);
            let start_key = start_pose.key();
            let mut far_pose = poses.get_mut(far_key).expect("far pose is live");
            body.connect(&mut far_pose);
            start_key
        };
        graph.release_layer(bodies);
        graph.release_layer(vels);
        graph.release_layer(poses);
        key
    };
    assert_eq!(first_key.slot(), 1);
    graph.delete(first_key);
    let mut poses = graph.get_layer_mut(&mut c.poses);
    // the walk reaches the start pose before the far one, so its slot comes back first
    let a = poses.insert(Pose(2)).key().slot();
    let b = poses.insert(Pose(3)).key().slot();
    assert_eq!((a, b), (1, 0));
    assert_eq!(poses.len(), 2);
    graph.release_layer(poses);
}
