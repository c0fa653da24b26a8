//! A tick-based digital logic simulator over a tristate signal model.
//!
//! Circuits are built from leaf gates and nested composite circuits. One
//! update evaluates every gate from the values that stood before the tick,
//! then carries the new outputs along the wires. A traversal of the circuit
//! tree yields the plain data of a value-change trace.

pub mod bit;
pub mod circuit;
pub mod driver;
pub mod laws;
pub mod model;
pub mod trace;
pub mod nand;
pub mod or2;

pub use bit::Bit;
pub use circuit::{CompIo, Component, Composite};
pub use driver::{simulation_trace, Tick, Trace};
pub use model::Index;
pub use nand::Nand;
pub use or2::Or2;
pub use trace::{declare, emit, trace_steps, Declaration, InstanceIndex, SignalChange, Step, Visit};
