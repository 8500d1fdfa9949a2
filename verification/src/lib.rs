//! Verified building blocks of a real-time Newtonian gravity simulation:
//! the order in which one integration step visits the bodies, the
//! append-only body registry, the decisions behind the view controls and the
//! wording of simulated durations.

pub mod controls;
pub mod quantity;
pub mod registry;
pub mod schedule;
pub mod time;
