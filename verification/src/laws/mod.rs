//! What the operations keep and undo: laws that relate several of them.

pub mod dirty;
pub mod done;
pub mod schedule;
pub mod lifecycle;
pub mod effects;
pub mod slots;
pub mod outcomes;
pub mod shapes;
pub mod spread;
pub mod faults;
pub mod text;
