//! Verified bookkeeping for a graph of incremental tasks.

pub mod access;
pub mod consistency;
pub mod context;
pub mod dirty;
pub mod done;
pub mod event;
pub mod execute;
pub mod fault;
pub mod graph;
pub mod laws;
pub mod lifecycle;
pub mod previous_nodes;
pub mod schedule;
pub mod slot;
pub mod task;
pub mod text;
