//! A process-tracing core: software breakpoints over a traced process.
//!
//! The library decides; the caller performs. [`Observer`] keeps the set of
//! breakpoints and the state of one run. Each call of
//! [`Observer::run_until_breakpoint`] takes the outcome of the last
//! operation on the traced process and answers with the next operation to
//! perform, or with the event that ends the run.

pub mod word;
pub mod breakpoint;
pub mod protocol;
pub mod observer;
pub mod target;

pub use crate::breakpoint::Breakpoint;
pub use crate::observer::Observer;
pub use crate::observer::State;
pub use crate::protocol::{Error, Event, Phase, Reply, Request, Step};
pub use crate::word::TRAP_OPCODE;
