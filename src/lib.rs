//! A discrete-event simulation core: time-stamped events, a scheduler that
//! executes them in time order on a logical clock, and a log of what ran.
//!
//! - `event`: events and the `Action` trait for their behaviour.
//! - `scheduler`: the clock, the queue of pending events, the run loop.
//! - `laws`: what the contracts imply about the order of execution.
pub mod event;
pub mod laws;
pub mod scheduler;

pub use event::{Action, Event};
pub use scheduler::EventScheduler;
