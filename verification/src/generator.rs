//! A generator of four consecutive numbers, written out as a state machine.
//!
//! It stands for the procedure
//!
//! ```text
//! fn freezable_generator_4(begin: u8) -> u8 {
//!     let mut next = begin;
//!     freeze!(next);
//!     next += 1;
//!     freeze!(next);
//!     next += 1;
//!     freeze!(next);
//!     next += 1;
//!     next
//! }
//! ```
//!
//! where each `freeze!` hands `next` back to the caller and suspends.

use crate::task::{Freezable, FreezableError, FreezableState};
use vstd::prelude::*;

verus! {

/// One state per chunk of the procedure, each holding the number that the
/// chunk starts from, and the two terminal states.
#[derive(Debug, PartialEq, Eq)]
pub enum FreezableGenerator4 {
    Chunk0(u8),
    Chunk1(u8),
    Chunk2(u8),
    Chunk3(u8),
    Finished,
    Cancelled,
}

impl FreezableGenerator4 {
    /// The generator before its first chunk.
    pub fn start(begin: u8) -> (machine: Self)
        ensures
            machine == FreezableGenerator4::Chunk0(begin),
    {
        FreezableGenerator4::Chunk0(begin)
    }

    /// Whether the generator can be stepped.
    pub fn is_well_formed(&self) -> (answer: bool)
        ensures
            answer == self.well_formed(),
    {
        match *self {
            FreezableGenerator4::Chunk0(n) => n <= u8::MAX - 3,
            FreezableGenerator4::Chunk1(n) => n <= u8::MAX - 3,
            FreezableGenerator4::Chunk2(n) => n <= u8::MAX - 2,
            FreezableGenerator4::Chunk3(n) => n <= u8::MAX - 1,
            FreezableGenerator4::Finished => true,
            FreezableGenerator4::Cancelled => true,
        }
    }

    /// The state and the result that one call of `unfreeze` leads to.
    pub open spec fn next(self) -> (Self, Result<FreezableState<u8>, FreezableError>) {
        match self {
            FreezableGenerator4::Chunk0(begin) => (
                FreezableGenerator4::Chunk1(begin),
                Ok(FreezableState::Frozen(Some(begin))),
            ),
            FreezableGenerator4::Chunk1(n) => (
                FreezableGenerator4::Chunk2((n + 1) as u8),
                Ok(FreezableState::Frozen(Some((n + 1) as u8))),
            ),
            FreezableGenerator4::Chunk2(n) => (
                FreezableGenerator4::Chunk3((n + 1) as u8),
                Ok(FreezableState::Frozen(Some((n + 1) as u8))),
            ),
            FreezableGenerator4::Chunk3(n) => (
                FreezableGenerator4::Finished,
                Ok(FreezableState::Finished((n + 1) as u8)),
            ),
            FreezableGenerator4::Finished => (
                FreezableGenerator4::Finished,
                Err(FreezableError::AlreadyFinished),
            ),
            FreezableGenerator4::Cancelled => (
                FreezableGenerator4::Cancelled,
                Err(FreezableError::Cancelled),
            ),
        }
    }
}

impl Freezable for FreezableGenerator4 {
    type Output = u8;

    /// The increments that are still ahead stay within `u8`.
    open spec fn well_formed(&self) -> bool {
        match *self {
            FreezableGenerator4::Chunk0(n) => n + 3 <= u8::MAX,
            FreezableGenerator4::Chunk1(n) => n + 3 <= u8::MAX,
            FreezableGenerator4::Chunk2(n) => n + 2 <= u8::MAX,
            FreezableGenerator4::Chunk3(n) => n + 1 <= u8::MAX,
            FreezableGenerator4::Finished => true,
            FreezableGenerator4::Cancelled => true,
        }
    }

    open spec fn chunks_left(&self) -> nat {
        match *self {
            FreezableGenerator4::Chunk0(_) => 4,
            FreezableGenerator4::Chunk1(_) => 3,
            FreezableGenerator4::Chunk2(_) => 2,
            FreezableGenerator4::Chunk3(_) => 1,
            FreezableGenerator4::Finished => 0,
            FreezableGenerator4::Cancelled => 0,
        }
    }

    open spec fn cancelled(&self) -> bool {
        *self is Cancelled
    }

    fn unfreeze(&mut self) -> (result: Result<FreezableState<u8>, FreezableError>)
        ensures
            (*final(self), result) == old(self).next(),
    {
        match *self {
            FreezableGenerator4::Chunk0(begin) => {
                let next: u8 = begin;
                *self = FreezableGenerator4::Chunk1(next);
                Ok(FreezableState::Frozen(Some(next)))
            },
            FreezableGenerator4::Chunk1(next) => {
                let next: u8 = next + 1;
                *self = FreezableGenerator4::Chunk2(next);
                Ok(FreezableState::Frozen(Some(next)))
            },
            FreezableGenerator4::Chunk2(next) => {
                let next: u8 = next + 1;
                *self = FreezableGenerator4::Chunk3(next);
                Ok(FreezableState::Frozen(Some(next)))
            },
            FreezableGenerator4::Chunk3(next) => {
                let next: u8 = next + 1;
                *self = FreezableGenerator4::Finished;
                Ok(FreezableState::Finished(next))
            },
            FreezableGenerator4::Finished => Err(FreezableError::AlreadyFinished),
            FreezableGenerator4::Cancelled => Err(FreezableError::Cancelled),
        }
    }

    fn cancel(&mut self)
        ensures
            *final(self) == FreezableGenerator4::Cancelled,
    {
        *self = FreezableGenerator4::Cancelled
    }

    fn is_cancelled(&self) -> (answer: bool) {
        matches!(self, FreezableGenerator4::Cancelled)
    }

    fn is_finished(&self) -> (answer: bool) {
        matches!(self, FreezableGenerator4::Finished)
    }
}

} // verus!
