//! Starframe's game-object storage and game-loop logic, verified with Verus.

pub mod animation;
pub mod base;
pub mod bits;
pub mod ecs;
pub mod event;
pub mod game;
pub mod graph;
pub mod graph_new;
pub mod input;
pub mod mesh;
pub mod walk;
