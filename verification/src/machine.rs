//! Instances of lowered state machines: tasks that run a procedure one
//! chunk per call of `unfreeze`.

use crate::interpreter::Scope;
use crate::lowering::{Chunk, Exit, StateMachine};
use crate::procedure::{
    eval, lookup, models, names, option_model, run_all, texts, variables, ScopeModel, Value,
    ValueModel, Variable,
};
use crate::task::{fails_with, is_final, is_frozen, Freezable, FreezableError, FreezableState};
use vstd::prelude::*;

verus! {

/// Where an instance stands: at the start of a chunk, holding the values of
/// the chunk's capture set, or in one of the two terminal states.
///
/// Each captured value sits in an `Option` of its own. Resuming takes every
/// value out of its field, so that no value is read twice.
#[derive(Debug, PartialEq, Eq)]
pub enum TaskState {
    Chunk(usize, Vec<Option<Value>>),
    Finished,
    Cancelled,
}

/// A state as a mathematical object.
pub enum StateModel {
    Chunk(int, Seq<Option<ValueModel>>),
    Finished,
    Cancelled,
}

/// A state machine together with the state it is in.
#[derive(Debug, PartialEq, Eq)]
pub struct Instance {
    pub machine: StateMachine,
    pub state: TaskState,
}

/// The fields of a state, each as a mathematical object.
pub open spec fn fields(payload: Seq<Option<Value>>) -> Seq<Option<ValueModel>> {
    Seq::new(payload.len(), |i: int| option_model(payload[i]))
}

/// Every field of a state holds its value.
pub open spec fn present(payload: Seq<Option<ValueModel>>) -> bool {
    forall|i: int| 0 <= i < payload.len() ==> (#[trigger] payload[i]) is Some
}

/// The values that the fields of a state hold.
pub open spec fn contents(payload: Seq<Option<ValueModel>>) -> Seq<ValueModel> {
    Seq::new(payload.len(), |i: int| payload[i]->0)
}

/// The fields of the state that holds the given values.
pub open spec fn filled(values: Seq<ValueModel>) -> Seq<Option<ValueModel>> {
    Seq::new(values.len(), |i: int| Some(values[i]))
}

impl View for TaskState {
    type V = StateModel;

    open spec fn view(&self) -> StateModel {
        match *self {
            TaskState::Chunk(index, payload) => StateModel::Chunk(index as int, fields(payload@)),
            TaskState::Finished => StateModel::Finished,
            TaskState::Cancelled => StateModel::Cancelled,
        }
    }
}

/// A result of `unfreeze` as a mathematical object.
pub open spec fn result_model(
    result: Result<FreezableState<Value>, FreezableError>,
) -> Result<FreezableState<ValueModel>, FreezableError> {
    match result {
        Ok(FreezableState::Finished(value)) => Ok(FreezableState::Finished(value@)),
        Ok(FreezableState::Frozen(value)) => Ok(FreezableState::Frozen(option_model(value))),
        Err(error) => Err(error),
    }
}

/// The scope in which a chunk starts: its capture set, holding `values`.
pub open spec fn entry_scope(chunk: Chunk, values: Seq<ValueModel>) -> ScopeModel {
    ScopeModel { names: names(variables(chunk.captures@)), values }
}

/// What a suspension hands back: the value of the named variable at the end
/// of the chunk, or nothing.
pub open spec fn emitted_value(emission: Option<String>, scope: ScopeModel) -> Option<ValueModel> {
    match emission {
        Some(name) => match lookup(scope.names, name@) {
            Some(slot) => Some(scope.values[slot]),
            None => None,
        },
        None => None,
    }
}

/// The machine can run to its end from the start of chunk `index` with the
/// captured `values`: there is a value for every captured variable, every
/// statement on the way can run, every suspension that names a variable
/// finds it in scope, and the last chunk, and no other, finishes, with an
/// expression that has a value.
pub open spec fn runs_from(machine: StateMachine, index: int, values: Seq<ValueModel>) -> bool
    decreases machine.chunks.len() - index,
{
    if index < 0 || index >= machine.chunks.len() {
        false
    } else {
        let chunk = machine.chunks[index];
        &&& values.len() == chunk.captures.len()
        &&& match run_all(chunk.body@, entry_scope(chunk, values)) {
            Some(scope) => match chunk.exit {
                Exit::Freeze { emission } => {
                    &&& emission is Some ==> emitted_value(emission, scope) is Some
                    &&& runs_from(machine, index + 1, scope.values)
                },
                Exit::Finish { result } => {
                    &&& index == machine.chunks.len() - 1
                    &&& eval(result, scope) is Some
                },
            },
            None => false,
        }
    }
}

/// The state and the result that one call of `unfreeze` leads to.
///
/// A chunk takes the captured values, runs its statements and leaves as its
/// exit says: to the next chunk, which captures every variable in scope, with
/// `Frozen` and the emitted value; or to the finished state, with `Finished`
/// and the value of the final expression. An instance that is not well
/// formed may come to a statement or a final expression that cannot run; it
/// then gives up and is cancelled.
pub open spec fn step(machine: StateMachine, state: StateModel) -> (
    StateModel,
    Result<FreezableState<ValueModel>, FreezableError>,
) {
    match state {
        StateModel::Finished => (StateModel::Finished, Err(FreezableError::AlreadyFinished)),
        StateModel::Cancelled => (StateModel::Cancelled, Err(FreezableError::Cancelled)),
        StateModel::Chunk(index, payload) => {
            let chunk = machine.chunks[index];
            match run_all(chunk.body@, entry_scope(chunk, contents(payload))) {
                Some(scope) => match chunk.exit {
                    Exit::Freeze { emission } => (
                        StateModel::Chunk(index + 1, filled(scope.values)),
                        Ok(FreezableState::Frozen(emitted_value(emission, scope))),
                    ),
                    Exit::Finish { result } => match eval(result, scope) {
                        Some(value) => (StateModel::Finished, Ok(FreezableState::Finished(value))),
                        None => (StateModel::Cancelled, Err(FreezableError::Cancelled)),
                    },
                },
                None => (StateModel::Cancelled, Err(FreezableError::Cancelled)),
            }
        },
    }
}

/// Takes every value out of its field.
fn take_all(payload: &mut Vec<Option<Value>>) -> (values: Vec<Value>)
    requires
        present(fields(old(payload)@)),
    ensures
        models(values@) == contents(fields(old(payload)@)),
        final(payload).len() == old(payload).len(),
        forall|i: int| 0 <= i < final(payload).len() ==> (#[trigger] final(payload)[i]) is None,
{
    let mut values: Vec<Value> = Vec::new();
    let mut done: usize = 0;
    while done < payload.len()
        invariant
            done <= payload.len(),
            payload.len() == old(payload).len(),
            forall|i: int| 0 <= i < done ==> (#[trigger] payload[i]) is None,
            forall|i: int| done <= i < payload.len() ==> payload[i] == old(payload)[i],
            present(fields(old(payload)@)),
            models(values@) == contents(fields(old(payload)@)).take(done as int),
        decreases payload.len() - done,
    {
        let mut field: Option<Value> = None;
        payload.set_and_swap(done, &mut field);
        assert(fields(old(payload)@)[done as int] is Some);
        let value = field.unwrap();
        assert(models(values@.push(value)) == models(values@).push(value@));
        assert(contents(fields(old(payload)@)).take(done + 1) == contents(
            fields(old(payload)@),
        ).take(done as int).push(value@));
        values.push(value);
        done = done + 1;
    }
    assert(contents(fields(old(payload)@)).take(done as int) == contents(fields(old(payload)@)));
    values
}

/// Puts every value into a field of its own.
fn fill(values: Vec<Value>) -> (payload: Vec<Option<Value>>)
    ensures
        fields(payload@) == filled(models(values@)),
{
    let mut payload: Vec<Option<Value>> = Vec::new();
    for value in it: values
        invariant
            fields(payload@) == filled(models(values@)).take(it.index() as int),
    {
        let ghost position = it.index() as int;
        assert(fields(payload@.push(Some(value))) == fields(payload@).push(Some(value@)));
        assert(filled(models(values@)).take(position + 1) == filled(models(values@)).take(
            position,
        ).push(Some(value@)));
        payload.push(Some(value));
    }
    assert(filled(models(values@)).take(values@.len() as int) == filled(models(values@)));
    payload
}

/// The names of a list of variables, copied.
fn names_of(list: &Vec<Variable>) -> (copy: Vec<String>)
    ensures
        texts(copy@) == names(variables(list@)),
{
    let mut copy: Vec<String> = Vec::new();
    let mut done: usize = 0;
    while done < list.len()
        invariant
            done <= list.len(),
            texts(copy@) == names(variables(list@)).take(done as int),
        decreases list.len() - done,
    {
        let name = list[done].name.clone();
        assert(texts(copy@.push(name)) == texts(copy@).push(name@));
        assert(names(variables(list@)).take(done + 1) == names(variables(list@)).take(
            done as int,
        ).push(name@));
        copy.push(name);
        done = done + 1;
    }
    assert(names(variables(list@)).take(done as int) == names(variables(list@)));
    copy
}

impl Instance {
    /// An instance of the machine at the start of its first chunk, holding
    /// the arguments as the values of the parameters.
    pub fn start(machine: StateMachine, arguments: Vec<Value>) -> (instance: Instance)
        ensures
            instance.machine == machine,
            instance.state@ == StateModel::Chunk(0, filled(models(arguments@))),
    {
        Instance { machine, state: TaskState::Chunk(0, fill(arguments)) }
    }
}

/// A copy of the values that the fields of a state hold, or `None` where a
/// field is empty.
fn copy_all(payload: &Vec<Option<Value>>) -> (values: Option<Vec<Value>>)
    ensures
        match values {
            Some(list) => present(fields(payload@)) && models(list@) == contents(fields(payload@)),
            None => !present(fields(payload@)),
        },
{
    let mut list: Vec<Value> = Vec::new();
    let mut done: usize = 0;
    while done < payload.len()
        invariant
            done <= payload.len(),
            forall|i: int| 0 <= i < done ==> (#[trigger] fields(payload@)[i]) is Some,
            models(list@) == contents(fields(payload@)).take(done as int),
        decreases payload.len() - done,
    {
        match &payload[done] {
            Some(value) => {
                let copy = value.duplicate();
                assert(models(list@.push(copy)) == models(list@).push(copy@));
                assert(contents(fields(payload@)).take(done + 1) == contents(
                    fields(payload@),
                ).take(done as int).push(copy@));
                list.push(copy);
            },
            None => {
                assert(fields(payload@)[done as int] is None);
                return None;
            },
        }
        done = done + 1;
    }
    assert(contents(fields(payload@)).take(done as int) == contents(fields(payload@)));
    Some(list)
}

impl Instance {
    /// Whether the instance can be stepped: runs the rest of the machine on
    /// a copy of the captured values and tells whether it came to the end.
    pub fn is_well_formed(&self) -> (answer: bool)
        ensures
            answer == self.well_formed(),
    {
        match &self.state {
            TaskState::Chunk(start, payload) => {
                let mut values = match copy_all(payload) {
                    Some(values) => values,
                    None => {
                        return false;
                    },
                };
                let mut index: usize = *start;
                loop
                    invariant
                        self.well_formed() == runs_from(
                            self.machine,
                            index as int,
                            models(values@),
                        ),
                    decreases self.machine.chunks.len() - index,
                {
                    if index >= self.machine.chunks.len() {
                        return false;
                    }
                    let chunk = &self.machine.chunks[index];
                    assert(models(values@).len() == values.len());
                    if values.len() != chunk.captures.len() {
                        return false;
                    }
                    let mut scope = Scope { names: names_of(&chunk.captures), values };
                    assert(scope.names.len() == texts(scope.names@).len());
                    assert(scope@ == entry_scope(*chunk, models(scope.values@)));
                    if !scope.execute_all(&chunk.body) {
                        return false;
                    }
                    match &chunk.exit {
                        Exit::Freeze { emission } => {
                            let in_scope = match emission {
                                Some(name) => scope.find(name).is_some(),
                                None => true,
                            };
                            if !in_scope {
                                return false;
                            }
                            values = scope.values;
                            index = index + 1;
                        },
                        Exit::Finish { result } => {
                            return index == self.machine.chunks.len() - 1 && scope.evaluate(
                                result,
                            ).is_some();
                        },
                    }
                }
            },
            _ => true,
        }
    }
}

impl Freezable for Instance {
    type Output = Value;

    /// At the start of a chunk every field holds its value, and the machine
    /// can run to its end from there.
    open spec fn well_formed(&self) -> bool {
        match self.state@ {
            StateModel::Chunk(index, payload) => {
                &&& present(payload)
                &&& runs_from(self.machine, index, contents(payload))
            },
            _ => true,
        }
    }

    open spec fn chunks_left(&self) -> nat {
        match self.state@ {
            StateModel::Chunk(index, _) => if index < self.machine.chunks.len() {
                (self.machine.chunks.len() - index) as nat
            } else {
                1
            },
            _ => 0,
        }
    }

    open spec fn cancelled(&self) -> bool {
        self.state is Cancelled
    }

    fn unfreeze(&mut self) -> (result: Result<FreezableState<Value>, FreezableError>)
        ensures
            final(self).machine == old(self).machine,
            (final(self).state@, result_model(result)) == step(old(self).machine, old(self).state@),
    {
        match &mut self.state {
            TaskState::Finished => Err(FreezableError::AlreadyFinished),
            TaskState::Cancelled => Err(FreezableError::Cancelled),
            TaskState::Chunk(index, payload) => {
                let index = *index;
                let values = take_all(payload);
                let chunk = &self.machine.chunks[index];
                let mut scope = Scope { names: names_of(&chunk.captures), values };
                assert(scope.names.len() == texts(scope.names@).len());
                assert(scope.values.len() == models(scope.values@).len());
                assert(scope@ == entry_scope(*chunk, contents(old(self).state@->Chunk_1)));
                let ran = scope.execute_all(&chunk.body);
                if !ran {
                    self.state = TaskState::Cancelled;
                    return Err(FreezableError::Cancelled);
                }
                match &chunk.exit {
                    Exit::Freeze { emission } => {
                        let emitted = match emission {
                            Some(name) => match scope.find(name) {
                                Some(slot) => Some(scope.values[slot].duplicate()),
                                None => None,
                            },
                            None => None,
                        };
                        proof {
                            assert(contents(filled(scope@.values)) == scope@.values);
                            assert(present(filled(scope@.values)));
                        }
                        self.state = TaskState::Chunk(index + 1, fill(scope.values));
                        Ok(FreezableState::Frozen(emitted))
                    },
                    Exit::Finish { result } => match scope.evaluate(result) {
                        Some(value) => {
                            self.state = TaskState::Finished;
                            Ok(FreezableState::Finished(value))
                        },
                        None => {
                            self.state = TaskState::Cancelled;
                            Err(FreezableError::Cancelled)
                        },
                    },
                }
            },
        }
    }

    fn cancel(&mut self)
        ensures
            final(self).machine == old(self).machine,
            final(self).state == TaskState::Cancelled,
    {
        self.state = TaskState::Cancelled
    }

    fn is_cancelled(&self) -> (answer: bool) {
        matches!(self.state, TaskState::Cancelled)
    }

    fn is_finished(&self) -> (answer: bool) {
        matches!(self.state, TaskState::Finished)
    }
}

/// The state after a number of calls of `unfreeze`.
pub open spec fn after_steps(machine: StateMachine, state: StateModel, count: nat) -> StateModel
    decreases count,
{
    if count == 0 {
        state
    } else {
        step(machine, after_steps(machine, state, (count - 1) as nat)).0
    }
}

/// One step of an instance that can run to its end: from a chunk that is
/// not the last it leads to the start of the next chunk, from where the
/// instance can run to its end, and answers `Frozen`; from the last chunk it
/// leads to the finished state and answers `Finished`.
proof fn lemma_one_step(machine: StateMachine, index: int, payload: Seq<Option<ValueModel>>)
    requires
        present(payload),
        runs_from(machine, index, contents(payload)),
    ensures
        0 <= index < machine.chunks.len(),
        ({
            let (next, result) = step(machine, StateModel::Chunk(index, payload));
            if index + 1 < machine.chunks.len() {
                &&& next is Chunk
                &&& next->Chunk_0 == index + 1
                &&& present(next->Chunk_1)
                &&& runs_from(machine, index + 1, contents(next->Chunk_1))
                &&& is_frozen(result)
            } else {
                &&& next is Finished
                &&& is_final(result)
            }
        }),
{
    reveal_with_fuel(runs_from, 2);
    let chunk = machine.chunks[index];
    let scope = run_all(chunk.body@, entry_scope(chunk, contents(payload)))->0;
    assert(contents(filled(scope.values)) == scope.values);
    assert(present(filled(scope.values)));
}

/// An instance that can run to its end walks through the chunks one by
/// one: after `count` steps it is at the start of chunk `count`, and the
/// step from there answers `Frozen` until the last chunk, whose step answers
/// `Finished`; from then on the instance is finished and every step fails
/// with `AlreadyFinished`. A machine of `n` chunks so takes exactly `n`
/// successful steps.
pub proof fn lemma_steps_through_chunks(
    machine: StateMachine,
    values: Seq<ValueModel>,
    count: nat,
)
    requires
        runs_from(machine, 0, values),
    ensures
        ({
            let state = after_steps(machine, StateModel::Chunk(0, filled(values)), count);
            let result = step(machine, state).1;
            if count < machine.chunks.len() {
                &&& state is Chunk
                &&& state->Chunk_0 == count
                &&& present(state->Chunk_1)
                &&& runs_from(machine, count as int, contents(state->Chunk_1))
                &&& if count + 1 < machine.chunks.len() {
                    is_frozen(result)
                } else {
                    is_final(result)
                }
            } else {
                &&& state is Finished
                &&& fails_with(result, FreezableError::AlreadyFinished)
            }
        }),
    decreases count,
{
    if count == 0 {
        assert(contents(filled(values)) == values);
        assert(present(filled(values)));
        lemma_one_step(machine, 0, filled(values));
    } else {
        lemma_steps_through_chunks(machine, values, (count - 1) as nat);
        let before = after_steps(machine, StateModel::Chunk(0, filled(values)), (count - 1) as nat);
        if count - 1 < machine.chunks.len() {
            lemma_one_step(machine, count - 1, before->Chunk_1);
            let state = step(machine, before).0;
            if count < machine.chunks.len() {
                lemma_one_step(machine, count as int, state->Chunk_1);
            }
        }
    }
}

} // verus!
