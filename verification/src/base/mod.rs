//! The component graph, component storages and containers, events, loop timing, and the
//! object space that hands out ids.

pub mod container;
pub mod event;
pub mod gameloop;
pub mod graph;
pub mod reach;
pub mod recipe;
pub mod space;
pub mod storage;
