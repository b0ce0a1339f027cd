//! A small model of an asynchronous runtime, verified with Verus.
//!
//! A *freezable* task is a procedure that runs one chunk of code at a time
//! and hands control back between chunks. The crate holds
//!
//! - the contract that every such task obeys ([`task`]), and two tasks
//!   written by hand in two styles ([`generator`], [`complex`],
//!   [`desugared`]);
//! - procedures with suspension markers and what their statements mean
//!   ([`procedure`], [`interpreter`]);
//! - the lowering engine, which cuts a procedure at its markers into the
//!   chunks of a state machine ([`lowering`]), the instances that run such a
//!   machine ([`machine`]), the proof that lowering keeps what a procedure
//!   hands back ([`equivalence`]), the hand-written tasks as procedures
//!   ([`examples`]), and the state type of a machine as Rust syntax
//!   ([`rendering`]);
//! - the three workers of a cooperative scheduler as state machines that
//!   exchange resource ids: the executor ([`executor`]), the reactor
//!   ([`reactor`]) and a synthetic operating system ([`os`]), with a run of
//!   all three on one thread that is proved to finish every task
//!   ([`runtime`]).
//!
//! Random numbers ([`random`]), the parser of `syn` for enum variants and
//! two operations on text ([`text`]) come from outside and are trusted.

pub mod complex;
pub mod desugared;
pub mod equivalence;
pub mod examples;
pub mod executor;
pub mod generator;
pub mod interpreter;
pub mod lowering;
pub mod machine;
pub mod os;
pub mod procedure;
pub mod random;
pub mod reactor;
pub mod rendering;
pub mod runtime;
pub mod task;
pub mod text;

pub use complex::FreezableComplex;
pub use generator::FreezableGenerator4;
pub use task::{Freezable, FreezableError, FreezableState};
