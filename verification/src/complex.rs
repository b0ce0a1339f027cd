//! A task of three suspensions that hands back no partial results, written
//! out as a state machine.
//!
//! It stands for the procedure
//!
//! ```text
//! fn freezable_complex(begin: u8) -> String {
//!     let current_num = begin;
//!     freeze!();
//!     let (num1, num2) = (current_num + 1, current_num - 1);
//!     freeze!();
//!     let mut mult_str = (num1 * num2).to_string();
//!     freeze!();
//!     mult_str.push_str(" a random text");
//!     mult_str.truncate(10);
//!     mult_str
//! }
//! ```

use crate::task::{Freezable, FreezableError, FreezableState};
use crate::text::{number_to_string, decimal, lemma_decimal_is_ascii, truncate_string, truncated};
use vstd::prelude::*;
use vstd::string::*;
use vstd::utf8::is_ascii_chars;

verus! {

/// One state per chunk of the procedure, each holding what the chunk starts
/// from, and the two terminal states.
///
/// The text of the last chunk sits in an `Option` so that the chunk can take
/// it out of the state without copying it.
#[derive(Debug, PartialEq, Eq)]
pub enum FreezableComplex {
    Chunk0(u8),
    Chunk1(u8),
    Chunk2(u8, u8),
    Chunk3(Option<String>),
    Finished,
    Cancelled,
}

/// The state of a `FreezableComplex` as a mathematical value.
pub enum ComplexModel {
    Chunk0(u8),
    Chunk1(u8),
    Chunk2(u8, u8),
    Chunk3(Option<Seq<char>>),
    Finished,
    Cancelled,
}

/// A result of `unfreeze` with its text as a sequence of characters.
pub open spec fn result_view(
    result: Result<FreezableState<String>, FreezableError>,
) -> Result<FreezableState<Seq<char>>, FreezableError> {
    match result {
        Ok(FreezableState::Finished(text)) => Ok(FreezableState::Finished(text@)),
        Ok(FreezableState::Frozen(Some(text))) => Ok(FreezableState::Frozen(Some(text@))),
        Ok(FreezableState::Frozen(None)) => Ok(FreezableState::Frozen(None)),
        Err(error) => Err(error),
    }
}

/// The text that the last chunk appends.
pub open spec fn suffix() -> Seq<char> {
    " a random text"@
}

/// The length that the last chunk cuts the text to.
pub open spec fn result_len() -> nat {
    10
}

impl ComplexModel {
    /// The state and the result that one call of `unfreeze` leads to.
    pub open spec fn next(self) -> (Self, Result<FreezableState<Seq<char>>, FreezableError>) {
        match self {
            ComplexModel::Chunk0(begin) => (
                ComplexModel::Chunk1(begin),
                Ok(FreezableState::Frozen(None)),
            ),
            ComplexModel::Chunk1(current) => (
                ComplexModel::Chunk2((current + 1) as u8, (current - 1) as u8),
                Ok(FreezableState::Frozen(None)),
            ),
            ComplexModel::Chunk2(num1, num2) => (
                ComplexModel::Chunk3(Some(decimal((num1 * num2) as nat))),
                Ok(FreezableState::Frozen(None)),
            ),
            ComplexModel::Chunk3(Some(text)) => (
                ComplexModel::Finished,
                Ok(FreezableState::Finished(truncated(text + suffix(), result_len()))),
            ),
            ComplexModel::Chunk3(None) => (
                ComplexModel::Chunk3(None),
                Ok(FreezableState::Frozen(None)),
            ),
            ComplexModel::Finished => (ComplexModel::Finished, Err(FreezableError::AlreadyFinished)),
            ComplexModel::Cancelled => (ComplexModel::Cancelled, Err(FreezableError::Cancelled)),
        }
    }
}

impl View for FreezableComplex {
    type V = ComplexModel;

    open spec fn view(&self) -> ComplexModel {
        match *self {
            FreezableComplex::Chunk0(begin) => ComplexModel::Chunk0(begin),
            FreezableComplex::Chunk1(current) => ComplexModel::Chunk1(current),
            FreezableComplex::Chunk2(num1, num2) => ComplexModel::Chunk2(num1, num2),
            FreezableComplex::Chunk3(Some(text)) => ComplexModel::Chunk3(Some(text@)),
            FreezableComplex::Chunk3(None) => ComplexModel::Chunk3(None),
            FreezableComplex::Finished => ComplexModel::Finished,
            FreezableComplex::Cancelled => ComplexModel::Cancelled,
        }
    }
}

impl FreezableComplex {
    /// The task before its first chunk.
    pub fn start(begin: u8) -> (machine: Self)
        ensures
            machine == FreezableComplex::Chunk0(begin),
    {
        FreezableComplex::Chunk0(begin)
    }
}

/// Whether the product of the two numbers next to `n` fits into a `u8`.
fn neighbours_multiply(n: u8) -> (fits: bool)
    ensures
        fits == (1 <= n && (n + 1) * (n - 1) <= u8::MAX),
{
    if n < 1 {
        false
    } else if n > 16 {
        assert((n + 1) * (n - 1) > u8::MAX) by (nonlinear_arith)
            requires
                n > 16,
        ;
        false
    } else {
        assert((n + 1) * (n - 1) <= u8::MAX) by (nonlinear_arith)
            requires
                1 <= n <= 16,
        ;
        true
    }
}

impl FreezableComplex {
    /// Whether the task can be stepped.
    pub fn is_well_formed(&self) -> (answer: bool)
        ensures
            answer == self.well_formed(),
    {
        match self {
            FreezableComplex::Chunk0(begin) => neighbours_multiply(*begin),
            FreezableComplex::Chunk1(current) => neighbours_multiply(*current),
            FreezableComplex::Chunk2(num1, num2) => num1.checked_mul(*num2).is_some(),
            FreezableComplex::Chunk3(text) => match text {
                Some(text) => text.is_ascii(),
                None => false,
            },
            FreezableComplex::Finished => true,
            FreezableComplex::Cancelled => true,
        }
    }
}

impl Freezable for FreezableComplex {
    type Output = String;

    /// The arithmetic that is still ahead stays within `u8`, and the text of
    /// the last chunk is in place and made of ASCII characters.
    open spec fn well_formed(&self) -> bool {
        match *self {
            FreezableComplex::Chunk0(begin) => 1 <= begin && (begin + 1) * (begin - 1) <= u8::MAX,
            FreezableComplex::Chunk1(current) => 1 <= current && (current + 1) * (current - 1)
                <= u8::MAX,
            FreezableComplex::Chunk2(num1, num2) => num1 * num2 <= u8::MAX,
            FreezableComplex::Chunk3(text) => text is Some && is_ascii_chars(text->0@),
            FreezableComplex::Finished => true,
            FreezableComplex::Cancelled => true,
        }
    }

    open spec fn chunks_left(&self) -> nat {
        match *self {
            FreezableComplex::Chunk0(_) => 4,
            FreezableComplex::Chunk1(_) => 3,
            FreezableComplex::Chunk2(_, _) => 2,
            FreezableComplex::Chunk3(_) => 1,
            FreezableComplex::Finished => 0,
            FreezableComplex::Cancelled => 0,
        }
    }

    open spec fn cancelled(&self) -> bool {
        *self is Cancelled
    }

    fn unfreeze(&mut self) -> (result: Result<FreezableState<String>, FreezableError>)
        ensures
            (final(self)@, result_view(result)) == old(self)@.next(),
    {
        match self {
            FreezableComplex::Chunk0(begin) => {
                let current_num: u8 = *begin;
                *self = FreezableComplex::Chunk1(current_num);
                Ok(FreezableState::Frozen(None))
            },
            FreezableComplex::Chunk1(current_num) => {
                let current_num: u8 = *current_num;
                assert(current_num + 1 <= u8::MAX) by (nonlinear_arith)
                    requires
                        1 <= current_num,
                        (current_num + 1) * (current_num - 1) <= u8::MAX,
                ;
                let (num1, num2): (u8, u8) = (current_num + 1, current_num - 1);
                *self = FreezableComplex::Chunk2(num1, num2);
                Ok(FreezableState::Frozen(None))
            },
            FreezableComplex::Chunk2(num1, num2) => {
                let mult_str = number_to_string((*num1 * *num2) as usize);
                proof {
                    lemma_decimal_is_ascii((*num1 * *num2) as nat);
                }
                *self = FreezableComplex::Chunk3(Some(mult_str));
                Ok(FreezableState::Frozen(None))
            },
            FreezableComplex::Chunk3(mult_str) => {
                let mut mult_str = mult_str.take().expect("the text is in place");
                proof {
                    reveal_strlit(" a random text");
                }
                mult_str.append(" a random text");
                truncate_string(&mut mult_str, 10);
                *self = FreezableComplex::Finished;
                Ok(FreezableState::Finished(mult_str))
            },
            FreezableComplex::Finished => Err(FreezableError::AlreadyFinished),
            FreezableComplex::Cancelled => Err(FreezableError::Cancelled),
        }
    }

    fn cancel(&mut self)
        ensures
            *final(self) == FreezableComplex::Cancelled,
    {
        *self = FreezableComplex::Cancelled
    }

    fn is_cancelled(&self) -> (answer: bool) {
        matches!(self, FreezableComplex::Cancelled)
    }

    fn is_finished(&self) -> (answer: bool) {
        matches!(self, FreezableComplex::Finished)
    }
}

} // verus!
