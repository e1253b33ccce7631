//! An execution engine for Befunge-93 programs.
//!
//! A program is a rectangular grid of single-character instructions. An
//! instruction pointer moves through the grid in one of four cardinal
//! directions, wrapping at the edges, executing one instruction per step and
//! mutating an operand stack, the grid itself, and a pair of input/output
//! byte streams.
//!
//! The [`playfield`] module holds the grid and the toroidal navigator, the
//! [`interpreter`] module the step-at-a-time virtual machine, and the
//! [`numeric`] module the decimal reading and writing that the machine's
//! input/output instructions use. The [`runtime`] module models the pacing
//! decisions of an interactive driver.

pub mod interpreter;
pub mod numeric;
pub mod playfield;
pub mod runtime;
