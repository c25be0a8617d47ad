# starframe

The object model and game-loop logic of the Starframe 2D game engine, with their behaviour
stated as Verus contracts and proved.

## Layout

- `src/graph.rs`, `src/graph_new.rs`: the entity graph. Components live in per-type layers;
  edges between them make up game objects. `graph.rs` keys slots by generation: deleting an
  object removes the nodes reachable from its root, stopping at the requested layers.
  `graph_new.rs` counts references: deleting an object removes its nodes, keeping those that
  something outside the object still points to. Freed slots are queued in the order the walk
  reached them and reused oldest first. A graph whose counts match its edges keeps them
  matching across deletes (`counts_sound`), and layers taken out for writing keep them
  matching across inserts and connections (`layers_sound`); `graph.rs` keeps its two-way
  edges the same way (`layers_consistent`).
- `src/walk.rs`: the depth-first walk that finds the nodes of an object, and a spec of the
  order in which it visits them (`walk_order`).
- `src/base/`: the earlier graph with untyped layers, component storages and containers (with
  the join of enabled objects and component users), event sinks, the lockstep loop clock, and
  the object space that hands out ids, with pools of recipe instances.
- `src/ecs/`: the entity-component-system space, with object generations, lifecycle events and
  object pools.
- `src/bits.rs`: the `hibitset` bit sets that the spaces use, behind small trusted wrappers.
- `src/input.rs`, `src/game.rs`, `src/animation.rs`: button state queries, the frame clock of
  the managed game loop with its tick/draw/exit decisions, and choosing an animation by name.
- `src/mesh.rs`: the CPU side of batched mesh buffers: appending meshes with shifted indices,
  and padding the index buffer for upload.
- Recipes (`src/base/recipe.rs`) say through two spec functions what creating their
  components does to the feature set; pools and spawning are stated in those terms.
- `tests/`: tests of the library on concrete values.
- `app/`: what works with floating point, time and sleeping: animation playback time, cursor
  and scroll tracking, and the loop driver.
