//! The contract shared by every resumable task.

use vstd::prelude::*;
use vstd::string::*;

verus! {

/// What one successful call of `unfreeze` hands back.
///
/// `Frozen` means that chunks remain, and may carry a partial result;
/// `Finished` carries the final result and is returned exactly once.
#[derive(Debug, PartialEq, Eq)]
pub enum FreezableState<T> {
    Finished(T),
    Frozen(Option<T>),
}

/// Why a call of `unfreeze` ran no chunk. Both conditions are permanent.
#[derive(Debug, PartialEq, Eq)]
pub enum FreezableError {
    Cancelled,
    AlreadyFinished,
}

impl FreezableError {
    /// The condition in words.
    pub fn message(&self) -> (text: String)
        ensures
            text@ == match *self {
                FreezableError::Cancelled => "The function is cancelled!"@,
                FreezableError::AlreadyFinished => "The function is already finished!"@,
            },
    {
        match self {
            FreezableError::Cancelled => String::from_str("The function is cancelled!"),
            FreezableError::AlreadyFinished => String::from_str("The function is already finished!"),
        }
    }
}

impl<T: core::fmt::Display> FreezableState<T> {
    /// The state in words, with the value that it carries as `to_string`
    /// writes it.
    pub fn describe(&self) -> (text: String)
        ensures
            match *self {
                FreezableState::Finished(value) => exists|written: String|
                    to_string_from_display_ensures::<T>(&value, written) && text@
                        == "function finished with value: "@ + written@,
                FreezableState::Frozen(None) => text@ == "function is frozen"@,
                FreezableState::Frozen(Some(value)) => exists|written: String|
                    to_string_from_display_ensures::<T>(&value, written) && text@
                        == "function is frozen with value:  "@ + written@,
            },
    {
        match self {
            FreezableState::Finished(value) => {
                let written = value.to_string();
                let mut text = String::from_str("function finished with value: ");
                text.append(written.as_str());
                text
            },
            FreezableState::Frozen(None) => String::from_str("function is frozen"),
            FreezableState::Frozen(Some(value)) => {
                let written = value.to_string();
                let mut text = String::from_str("function is frozen with value:  ");
                text.append(written.as_str());
                text
            },
        }
    }
}

/// The result is `Ok(Frozen(_))`.
pub open spec fn is_frozen<T>(result: Result<FreezableState<T>, FreezableError>) -> bool {
    result matches Ok(FreezableState::Frozen(_))
}

/// The result is `Ok(Finished(_))`.
pub open spec fn is_final<T>(result: Result<FreezableState<T>, FreezableError>) -> bool {
    result matches Ok(FreezableState::Finished(_))
}

/// The result is the given error.
pub open spec fn fails_with<T>(
    result: Result<FreezableState<T>, FreezableError>,
    error: FreezableError,
) -> bool {
    result == Err::<FreezableState<T>, FreezableError>(error)
}

/// A task that runs one chunk per call of `unfreeze`.
///
/// The state of a task is abstracted by three spec functions: whether it is
/// `cancelled`, how many chunks it has still to run (`chunks_left`, zero once
/// it is finished or cancelled), and whether each remaining chunk can run
/// within the limits of the machine (`well_formed`).
pub trait Freezable: Sized {
    type Output;

    /// Every chunk that is still ahead can run: none of them leaves the range
    /// of the machine's integers or meets a value that it cannot work on.
    /// Terminal states are always well formed.
    spec fn well_formed(&self) -> bool;

    /// The number of calls of `unfreeze` that will still succeed.
    spec fn chunks_left(&self) -> nat;

    /// The task was cancelled.
    spec fn cancelled(&self) -> bool;

    /// Runs the next chunk and advances by exactly one position.
    fn unfreeze(&mut self) -> (result: Result<FreezableState<Self::Output>, FreezableError>)
        requires
            old(self).well_formed(),
        ensures
            old(self).cancelled() ==> {
                &&& fails_with(result, FreezableError::Cancelled)
                &&& *final(self) == *old(self)
            },
            !old(self).cancelled() && old(self).chunks_left() == 0 ==> {
                &&& fails_with(result, FreezableError::AlreadyFinished)
                &&& *final(self) == *old(self)
            },
            !old(self).cancelled() && old(self).chunks_left() > 0 ==> {
                &&& final(self).well_formed()
                &&& !final(self).cancelled()
                &&& final(self).chunks_left() == old(self).chunks_left() - 1
                &&& if final(self).chunks_left() == 0 {
                    is_final(result)
                } else {
                    is_frozen(result)
                }
            },
    ;

    /// Overwrites the state with the cancelled one, whatever it was.
    fn cancel(&mut self)
        ensures
            final(self).cancelled(),
            final(self).well_formed(),
            final(self).chunks_left() == 0,
            old(self).cancelled() ==> *final(self) == *old(self),
    ;

    /// Whether the task was cancelled.
    fn is_cancelled(&self) -> (answer: bool)
        ensures
            answer == self.cancelled(),
    ;

    /// Whether the task has run its last chunk and was not cancelled since.
    fn is_finished(&self) -> (answer: bool)
        ensures
            answer == (!self.cancelled() && self.chunks_left() == 0),
    ;
}

/// A task is finished when it has run all of its chunks and was not cancelled.
pub open spec fn finished<T: Freezable>(task: &T) -> bool {
    !task.cancelled() && task.chunks_left() == 0
}

/// A task is running while a call of `unfreeze` can still succeed.
pub open spec fn running<T: Freezable>(task: &T) -> bool {
    !task.cancelled() && task.chunks_left() > 0
}

/// The relation between the state before a call of `unfreeze`, the state
/// after it and the result.
///
/// A cancelled or finished task stays as it is and reports its condition. A
/// running task loses exactly one chunk; it answers `Finished` when that was
/// its last chunk and `Frozen` otherwise.
pub open spec fn steps_to<T: Freezable>(
    pre: &T,
    post: &T,
    result: Result<FreezableState<T::Output>, FreezableError>,
) -> bool {
    if pre.cancelled() {
        &&& fails_with(result, FreezableError::Cancelled)
        &&& *post == *pre
    } else if pre.chunks_left() == 0 {
        &&& fails_with(result, FreezableError::AlreadyFinished)
        &&& *post == *pre
    } else {
        &&& pre.well_formed() ==> post.well_formed()
        &&& !post.cancelled()
        &&& post.chunks_left() == pre.chunks_left() - 1
        &&& if post.chunks_left() == 0 {
            is_final(result)
        } else {
            is_frozen(result)
        }
    }
}

/// The second state is what one call of `unfreeze` makes of the first.
pub open spec fn advances<T: Freezable>(pre: &T, post: &T) -> bool {
    exists|result: Result<FreezableState<T::Output>, FreezableError>| steps_to(pre, post, result)
}

/// The relation between the states before and after a call of `cancel`.
pub open spec fn cancels_to<T: Freezable>(pre: &T, post: &T) -> bool {
    &&& post.cancelled()
    &&& post.well_formed()
    &&& post.chunks_left() == 0
    &&& pre.cancelled() ==> *post == *pre
}

/// A history of calls of `unfreeze` on one task: `states[k]` is the state
/// before call `k` and `states[k + 1]` the state after it, `results[k]` what
/// the call returned.
pub open spec fn is_run<T: Freezable>(
    states: Seq<T>,
    results: Seq<Result<FreezableState<T::Output>, FreezableError>>,
) -> bool {
    &&& states.len() == results.len() + 1
    &&& forall|k: int|
        0 <= k < results.len() ==> steps_to(&states[k], &states[k + 1], #[trigger] results[k])
}

/// A task that is not cancelled and has `n` chunks left answers exactly `n`
/// calls of `unfreeze` with success: the first `n - 1` with `Frozen`, call
/// `n` with `Finished`. Every later call fails with `AlreadyFinished`, and
/// the count of chunks left goes down by one per successful call.
pub proof fn lemma_run_succeeds_once_per_chunk<T: Freezable>(
    states: Seq<T>,
    results: Seq<Result<FreezableState<T::Output>, FreezableError>>,
)
    requires
        is_run(states, results),
        !states[0].cancelled(),
    ensures
        forall|k: int|
            0 <= k < results.len() ==> {
                &&& k + 1 < states[0].chunks_left() ==> is_frozen(#[trigger] results[k])
                &&& k + 1 == states[0].chunks_left() ==> is_final(results[k])
                &&& k + 1 > states[0].chunks_left() ==> fails_with(
                    results[k],
                    FreezableError::AlreadyFinished,
                )
            },
        forall|k: int|
            0 <= k < states.len() ==> {
                &&& !(#[trigger] states[k]).cancelled()
                &&& states[k].chunks_left() == if k <= states[0].chunks_left() {
                    states[0].chunks_left() - k
                } else {
                    0
                }
            },
    decreases results.len(),
{
    if results.len() > 0 {
        let n = results.len() as int;
        let shorter_states = states.take(n);
        let shorter_results = results.take(n - 1);
        assert forall|k: int| 0 <= k < shorter_results.len() implies steps_to(
            &shorter_states[k],
            &shorter_states[k + 1],
            #[trigger] shorter_results[k],
        ) by {
            assert(steps_to(&states[k], &states[k + 1], results[k]));
        }
        lemma_run_succeeds_once_per_chunk(shorter_states, shorter_results);
        assert(shorter_states[n - 1] == states[n - 1]);
        assert(steps_to(&states[n - 1], &states[n], results[n - 1]));
        assert forall|k: int| 0 <= k < results.len() implies {
            &&& k + 1 < states[0].chunks_left() ==> is_frozen(#[trigger] results[k])
            &&& k + 1 == states[0].chunks_left() ==> is_final(results[k])
            &&& k + 1 > states[0].chunks_left() ==> fails_with(
                results[k],
                FreezableError::AlreadyFinished,
            )
        } by {
            if k < n - 1 {
                assert(results[k] == shorter_results[k]);
            }
        }
        assert forall|k: int| 0 <= k < states.len() implies {
            &&& !(#[trigger] states[k]).cancelled()
            &&& states[k].chunks_left() == if k <= states[0].chunks_left() {
                states[0].chunks_left() - k
            } else {
                0
            }
        } by {
            if k < n {
                assert(states[k] == shorter_states[k]);
            }
        }
    }
}

/// Cancelling is idempotent and absorbing: a second `cancel` changes nothing,
/// a call of `unfreeze` on a cancelled task changes nothing and reports
/// `Cancelled`, and a cancelled task is not finished, whatever state it was
/// cancelled in.
pub proof fn lemma_cancel_absorbs<T: Freezable>(
    before: T,
    cancelled: T,
    again: T,
    stepped: T,
    result: Result<FreezableState<T::Output>, FreezableError>,
)
    requires
        cancels_to(&before, &cancelled),
        cancels_to(&cancelled, &again),
        steps_to(&cancelled, &stepped, result),
    ensures
        again == cancelled,
        stepped == cancelled,
        fails_with(result, FreezableError::Cancelled),
        !finished(&cancelled),
        !finished(&stepped),
{
}

} // verus!
