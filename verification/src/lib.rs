//! Mesh-benchmark core: the lifecycle protocol, graph generation, circular
//! peer logs and latency accounting used by a coordinator process and a set
//! of peer processes that cooperate through a replicated document store.

pub mod caps;
pub mod consumer;
pub mod coord;
pub mod defaults;
pub mod graph;
pub mod lifecycle;
pub mod minheap;
pub mod producer;
pub mod strutil;
pub mod types;
