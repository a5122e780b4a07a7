//! Discrete-event simulation core for greedy multi-robot task allocation.
//!
//! Robots and tasks live in a registry owned by a [`simulation::Simulation`],
//! next to a logical clock and a queue of pending events.  One tick advances
//! the clock, executes every event that has become due, and then hands each
//! idle robot the nearest task that nobody has taken yet.
//!
//! All quantities are whole numbers: lengths are millimetres (a world unit is
//! 1000 of them) and times are milliseconds.  Nothing here reads a clock or
//! a source of randomness, so a run is determined by its frame times.
//!
//! - [`geometry`]: positions, squared distances, integer square roots.
//! - [`placement`]: where robots and tasks stand when an epoch begins.
//! - [`event`]: events and the order in which they are executed.
//! - [`queue`]: the pending events, as a binary heap.
//! - [`model`]: the records of robots and tasks.
//! - [`rules`]: how one state follows from another, as mathematics.
//! - [`simulation`]: the executable simulation, proved to follow the rules.
//! - [`laws`] and [`progress`]: what holds of every run.

pub mod event;
pub mod geometry;
pub mod laws;
pub mod model;
pub mod placement;
pub mod progress;
pub mod queue;
pub mod rules;
pub mod simulation;
