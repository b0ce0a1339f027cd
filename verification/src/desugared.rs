//! The two hand-written tasks once more, in the plainest style: every state
//! holds its values directly, and a chunk that needs a value that cannot be
//! copied for free clones it out of the state.
//!
//! Both machines do, step by step, what their counterparts at the root of
//! the crate do; their views are the states of those.

use crate::complex::{result_view, ComplexModel};
use crate::task::{fails_with, is_final, is_frozen, FreezableError, FreezableState};
use crate::text::{lemma_decimal_is_ascii, number_to_string, truncate_string};
use vstd::prelude::*;
use vstd::string::*;
use vstd::utf8::is_ascii_chars;

verus! {

/// A task that runs one chunk per call of `unfreeze`, in its first form:
/// it cannot yet be asked whether it is finished.
pub trait DesugaredFreezable: Sized {
    type Output;

    /// Every chunk that is still ahead can run: none of them leaves the range
    /// of the machine's integers or meets a value that it cannot work on.
    /// Terminal states are always well formed.
    spec fn well_formed(&self) -> bool;

    /// The number of calls of `unfreeze` that will still succeed.
    spec fn chunks_left(&self) -> nat;

    /// The task was cancelled.
    spec fn cancelled(&self) -> bool;

    /// Runs the next chunk and advances by exactly one position.
    fn unfreeze(&mut self) -> (result: Result<FreezableState<Self::Output>, FreezableError>)
        requires
            old(self).well_formed(),
        ensures
            old(self).cancelled() ==> {
                &&& fails_with(result, FreezableError::Cancelled)
                &&& *final(self) == *old(self)
            },
            !old(self).cancelled() && old(self).chunks_left() == 0 ==> {
                &&& fails_with(result, FreezableError::AlreadyFinished)
                &&& *final(self) == *old(self)
            },
            !old(self).cancelled() && old(self).chunks_left() > 0 ==> {
                &&& final(self).well_formed()
                &&& !final(self).cancelled()
                &&& final(self).chunks_left() == old(self).chunks_left() - 1
                &&& if final(self).chunks_left() == 0 {
                    is_final(result)
                } else {
                    is_frozen(result)
                }
            },
    ;

    /// Overwrites the state with the cancelled one, whatever it was.
    fn cancel(&mut self)
        ensures
            final(self).cancelled(),
            final(self).well_formed(),
            final(self).chunks_left() == 0,
            old(self).cancelled() ==> *final(self) == *old(self),
    ;

    /// Whether the task was cancelled.
    fn is_cancelled(&self) -> (answer: bool)
        ensures
            answer == self.cancelled(),
    ;
}

/// The generator of four consecutive numbers.
#[derive(Debug, PartialEq, Eq)]
pub enum FreezableGenerator4 {
    Chunk0(u8),
    Chunk1(u8),
    Chunk2(u8),
    Chunk3(u8),
    Finished,
    Cancelled,
}

impl View for FreezableGenerator4 {
    type V = crate::generator::FreezableGenerator4;

    open spec fn view(&self) -> crate::generator::FreezableGenerator4 {
        match *self {
            FreezableGenerator4::Chunk0(n) => crate::generator::FreezableGenerator4::Chunk0(n),
            FreezableGenerator4::Chunk1(n) => crate::generator::FreezableGenerator4::Chunk1(n),
            FreezableGenerator4::Chunk2(n) => crate::generator::FreezableGenerator4::Chunk2(n),
            FreezableGenerator4::Chunk3(n) => crate::generator::FreezableGenerator4::Chunk3(n),
            FreezableGenerator4::Finished => crate::generator::FreezableGenerator4::Finished,
            FreezableGenerator4::Cancelled => crate::generator::FreezableGenerator4::Cancelled,
        }
    }
}

impl FreezableGenerator4 {
    /// The generator before its first chunk.
    pub fn start(begin: u8) -> (machine: Self)
        ensures
            machine == FreezableGenerator4::Chunk0(begin),
    {
        FreezableGenerator4::Chunk0(begin)
    }
}

impl DesugaredFreezable for FreezableGenerator4 {
    type Output = u8;

    /// The increments that are still ahead stay within `u8`.
    open spec fn well_formed(&self) -> bool {
        match *self {
            FreezableGenerator4::Chunk0(n) => n + 3 <= u8::MAX,
            FreezableGenerator4::Chunk1(n) => n + 3 <= u8::MAX,
            FreezableGenerator4::Chunk2(n) => n + 2 <= u8::MAX,
            FreezableGenerator4::Chunk3(n) => n + 1 <= u8::MAX,
            FreezableGenerator4::Finished => true,
            FreezableGenerator4::Cancelled => true,
        }
    }

    open spec fn chunks_left(&self) -> nat {
        match *self {
            FreezableGenerator4::Chunk0(_) => 4,
            FreezableGenerator4::Chunk1(_) => 3,
            FreezableGenerator4::Chunk2(_) => 2,
            FreezableGenerator4::Chunk3(_) => 1,
            FreezableGenerator4::Finished => 0,
            FreezableGenerator4::Cancelled => 0,
        }
    }

    open spec fn cancelled(&self) -> bool {
        *self is Cancelled
    }

    fn unfreeze(&mut self) -> (result: Result<FreezableState<u8>, FreezableError>)
        ensures
            (final(self)@, result) == old(self)@.next(),
    {
        match *self {
            FreezableGenerator4::Chunk0(num) => {
                let current_num: u8 = num;
                *self = FreezableGenerator4::Chunk1(current_num);
                Ok(FreezableState::Frozen(Some(current_num)))
            },
            FreezableGenerator4::Chunk1(num) => {
                let current_num: u8 = num;
                *self = FreezableGenerator4::Chunk2(current_num + 1);
                Ok(FreezableState::Frozen(Some(current_num + 1)))
            },
            FreezableGenerator4::Chunk2(num) => {
                let current_num: u8 = num;
                *self = FreezableGenerator4::Chunk3(current_num + 1);
                Ok(FreezableState::Frozen(Some(current_num + 1)))
            },
            FreezableGenerator4::Chunk3(num) => {
                let current_num: u8 = num;
                *self = FreezableGenerator4::Finished;
                Ok(FreezableState::Finished(current_num + 1))
            },
            FreezableGenerator4::Finished => Err(FreezableError::AlreadyFinished),
            FreezableGenerator4::Cancelled => Err(FreezableError::Cancelled),
        }
    }

    fn cancel(&mut self)
        ensures
            *final(self) == FreezableGenerator4::Cancelled,
    {
        *self = FreezableGenerator4::Cancelled
    }

    fn is_cancelled(&self) -> (answer: bool) {
        matches!(self, FreezableGenerator4::Cancelled)
    }
}

/// The task of three suspensions that hands back no partial results.
#[derive(Debug, PartialEq, Eq)]
pub enum FreezableComplex {
    Chunk0(u8),
    Chunk1(u8),
    Chunk2(u8, u8),
    Chunk3(String),
    Finished,
    Cancelled,
}

impl View for FreezableComplex {
    type V = ComplexModel;

    open spec fn view(&self) -> ComplexModel {
        match *self {
            FreezableComplex::Chunk0(begin) => ComplexModel::Chunk0(begin),
            FreezableComplex::Chunk1(current) => ComplexModel::Chunk1(current),
            FreezableComplex::Chunk2(num1, num2) => ComplexModel::Chunk2(num1, num2),
            FreezableComplex::Chunk3(text) => ComplexModel::Chunk3(Some(text@)),
            FreezableComplex::Finished => ComplexModel::Finished,
            FreezableComplex::Cancelled => ComplexModel::Cancelled,
        }
    }
}

impl FreezableComplex {
    /// The task before its first chunk.
    pub fn start(begin: u8) -> (machine: Self)
        ensures
            machine == FreezableComplex::Chunk0(begin),
    {
        FreezableComplex::Chunk0(begin)
    }
}

impl DesugaredFreezable for FreezableComplex {
    type Output = String;

    /// The arithmetic that is still ahead stays within `u8`, and the text of
    /// the last chunk is made of ASCII characters.
    open spec fn well_formed(&self) -> bool {
        match *self {
            FreezableComplex::Chunk0(begin) => 1 <= begin && (begin + 1) * (begin - 1) <= u8::MAX,
            FreezableComplex::Chunk1(current) => 1 <= current && (current + 1) * (current - 1)
                <= u8::MAX,
            FreezableComplex::Chunk2(num1, num2) => num1 * num2 <= u8::MAX,
            FreezableComplex::Chunk3(text) => is_ascii_chars(text@),
            FreezableComplex::Finished => true,
            FreezableComplex::Cancelled => true,
        }
    }

    open spec fn chunks_left(&self) -> nat {
        match *self {
            FreezableComplex::Chunk0(_) => 4,
            FreezableComplex::Chunk1(_) => 3,
            FreezableComplex::Chunk2(_, _) => 2,
            FreezableComplex::Chunk3(_) => 1,
            FreezableComplex::Finished => 0,
            FreezableComplex::Cancelled => 0,
        }
    }

    open spec fn cancelled(&self) -> bool {
        *self is Cancelled
    }

    fn unfreeze(&mut self) -> (result: Result<FreezableState<String>, FreezableError>)
        ensures
            (final(self)@, result_view(result)) == old(self)@.next(),
    {
        match self {
            FreezableComplex::Chunk0(num) => {
                let current_num: u8 = *num;
                *self = FreezableComplex::Chunk1(current_num);
                Ok(FreezableState::Frozen(None))
            },
            FreezableComplex::Chunk1(num) => {
                let num: u8 = *num;
                assert(num + 1 <= u8::MAX) by (nonlinear_arith)
                    requires
                        1 <= num,
                        (num + 1) * (num - 1) <= u8::MAX,
                ;
                let (current_num1, current_num2): (u8, u8) = (num + 1, num - 1);
                *self = FreezableComplex::Chunk2(current_num1, current_num2);
                Ok(FreezableState::Frozen(None))
            },
            FreezableComplex::Chunk2(num1, num2) => {
                let (current_num1, current_num2): (u8, u8) = (*num1, *num2);
                let result = number_to_string((current_num1 * current_num2) as usize);
                proof {
                    lemma_decimal_is_ascii((current_num1 * current_num2) as nat);
                }
                *self = FreezableComplex::Chunk3(result);
                Ok(FreezableState::Frozen(None))
            },
            FreezableComplex::Chunk3(result) => {
                let mut current_result = result.clone();
                proof {
                    reveal_strlit(" a random text");
                }
                current_result.append(" a random text");
                truncate_string(&mut current_result, 10);
                *self = FreezableComplex::Finished;
                Ok(FreezableState::Finished(current_result))
            },
            FreezableComplex::Finished => Err(FreezableError::AlreadyFinished),
            FreezableComplex::Cancelled => Err(FreezableError::Cancelled),
        }
    }

    fn cancel(&mut self)
        ensures
            *final(self) == FreezableComplex::Cancelled,
    {
        *self = FreezableComplex::Cancelled
    }

    fn is_cancelled(&self) -> (answer: bool) {
        matches!(self, FreezableComplex::Cancelled)
    }
}

} // verus!
