//! A dataflow graph evaluator: a network of nodes is compiled to bytecode and
//! run on a small stack machine.
//!
//! - [`value`] holds the values that travel through a network, and
//!   [`binary32`] the arithmetic on the bit patterns of floats.
//! - [`network`] holds the graph and its queries, [`validate`] the checks
//!   that a network passes before it is compiled, and [`drawing`] the places
//!   of its nodes in a drawing.
//! - [`bytecode`] is the instruction set, [`compiler`] generates code for a
//!   network and [`vm`] runs it.
//! - [`evaluation`] says what a network evaluates to, without reference to
//!   bytecode. [`laws`] states what holds of compiling and running
//!   together, above all that the program of a network computes what the
//!   network evaluates to; [`layout`] and [`correctness`] hold the proof.

pub mod binary32;
pub mod bytecode;
pub mod compiler;
pub mod correctness;
pub mod drawing;
pub mod evaluation;
pub mod laws;
pub mod layout;
pub mod network;
mod text;
pub mod validate;
pub mod value;
pub mod vm;
