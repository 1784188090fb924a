//! Generic dataflow-analysis infrastructure: a fixed-point engine over a
//! control-flow graph, a random-access cursor for replaying computed facts at
//! arbitrary program points, and a dependence-graph based backward slicer,
//! together with the bitset domain, gen-kill fast path and worklist they run
//! on.

pub mod analysis;
pub mod bitset;
pub mod cfg;
pub mod cursors;
pub mod engine;
pub mod gen_kill;
pub mod graph;
pub mod slicing;
pub mod string_literals;
pub mod targets;
pub mod work_queue;
