//! A cooperative, allocation-free task scheduler driven by a fixed-width
//! signal register.
//!
//! Interrupt handlers (or any other event source) record events by setting
//! one bit per named signal in a [`SignalRegister`]. Task-context code drains
//! the register atomically into a [`Signals`] snapshot, and an [`Executor`]
//! maps each drained identifier through a [`Router`] back to the one task
//! waiting on it, resuming tasks from a fixed-capacity FIFO ready queue.
//!
//! All capacities are fixed at compile time: at most 32 distinct signals
//! (one per bit of the register word) and at most 8 tasks.

pub mod bits;
pub mod executor;
pub mod router;
pub mod signal;

pub use executor::{CapacityExceeded, Executor, Step, Task};
pub use router::{RouteCapacityExceeded, Router};
pub use signal::{Id, Signal, SignalRegister, Signals};
