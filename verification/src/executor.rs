//! The executor: owns the tasks, steps each of them when the resource that
//! it waits for is ready, and asks for the next resource.

use crate::random::{random_byte, thread_rng};
use crate::task::{advances, finished, running, steps_to, Freezable};
use rand::rngs::ThreadRng;
use std::collections::HashMap;
use vstd::prelude::*;
use vstd::std_specs::hash::*;

verus! {

broadcast use vstd::std_specs::hash::group_hash_axioms;

/// The executor. Its view maps the index of each task that waits to the
/// resource that the task waits for.
pub struct Executor {
    rng: ThreadRng,
    awaiting: HashMap<usize, u8>,
}

/// A violation of the protocol between the executor and the reactor.
#[derive(Debug, PartialEq, Eq)]
pub enum ExecutorError {
    /// A wake-up came for a resource that no task waits for.
    UnknownResource,
}

impl View for Executor {
    type V = Map<usize, u8>;

    closed spec fn view(&self) -> Map<usize, u8> {
        self.awaiting@
    }
}

/// The task waits for the resource.
pub open spec fn addressed(awaiting: Map<usize, u8>, resource: u8, task: usize) -> bool {
    awaiting.contains_key(task) && awaiting[task] == resource
}

/// The tasks among the first `count` that wait for the resource.
pub open spec fn addressees(awaiting: Map<usize, u8>, resource: u8, count: nat) -> Set<usize> {
    Set::new(|task: usize| task < count && addressed(awaiting, resource, task))
}

/// The list holds, in ascending order, the tasks that are running.
pub open spec fn lists_running<T: Freezable>(tasks: Seq<T>, list: Seq<usize>) -> bool {
    &&& forall|task: usize| #[trigger]
        list.contains(task) <==> task < tasks.len() && running(&tasks[task as int])
    &&& ascending(list)
}

/// The tasks that wait are exactly the tasks that are running.
pub open spec fn schedules<T: Freezable>(awaiting: Map<usize, u8>, tasks: Seq<T>) -> bool {
    forall|task: usize| #[trigger]
        awaiting.contains_key(task) <==> task < tasks.len() && running(&tasks[task as int])
}

/// Every task can be stepped.
pub open spec fn all_well_formed<T: Freezable>(tasks: Seq<T>) -> bool {
    forall|i: int| 0 <= i < tasks.len() ==> (#[trigger] tasks[i]).well_formed()
}

/// The list is in strictly ascending order.
pub open spec fn ascending(list: Seq<usize>) -> bool {
    forall|i: int, j: int| 0 <= i < j < list.len() ==> list[i] < list[j]
}

/// What a wake-up for `resource` does to the tasks: each task that waits
/// for the resource is stepped once, every other task is left alone, and
/// `progressing` lists, in ascending order, the stepped tasks that are
/// still running.
pub open spec fn woken<T: Freezable>(
    awaiting: Map<usize, u8>,
    resource: u8,
    before: Seq<T>,
    after: Seq<T>,
    progressing: Seq<usize>,
) -> bool {
    &&& after.len() == before.len()
    &&& forall|task: usize|
        task < before.len() ==> if addressed(awaiting, resource, task) {
            advances(&before[task as int], &#[trigger] after[task as int])
        } else {
            after[task as int] == before[task as int]
        }
    &&& forall|task: usize| #[trigger]
        progressing.contains(task) <==> task < after.len() && addressed(awaiting, resource, task)
            && running(&after[task as int])
    &&& ascending(progressing)
}

/// The waiting tasks after each task of `tasks` was given the event at the
/// same position of `events` to wait for.
pub open spec fn assigned(awaiting: Map<usize, u8>, tasks: Seq<usize>, events: Seq<u8>) -> Map<
    usize,
    u8,
>
    decreases tasks.len(),
{
    if tasks.len() == 0 {
        awaiting
    } else {
        assigned(awaiting, tasks.drop_last(), events.drop_last()).insert(tasks.last(), events.last())
    }
}

impl Executor {
    /// An executor for which no task waits.
    pub fn new() -> (executor: Executor)
        ensures
            executor@ == Map::<usize, u8>::empty(),
    {
        Executor { rng: thread_rng(), awaiting: HashMap::new() }
    }

    /// The resource that a task waits for, if it waits.
    pub fn awaited(&self, task: usize) -> (resource: Option<u8>)
        ensures
            match resource {
                Some(id) => self@.contains_key(task) && self@[task] == id,
                None => !self@.contains_key(task),
            },
    {
        match self.awaiting.get(&task) {
            Some(id) => Some(*id),
            None => None,
        }
    }

    /// Whether no task waits.
    pub fn is_idle(&self) -> (idle: bool)
        ensures
            idle == forall|task: usize| !self@.contains_key(task),
    {
        let idle = self.awaiting.is_empty();
        proof {
            if idle {
                assert(self@.dom() =~= Set::<usize>::empty());
            } else {
                assert(!(self@.dom() =~= Set::<usize>::empty()));
            }
        }
        idle
    }

    /// Lets a task wait for an event.
    pub fn schedule(&mut self, task: usize, event: u8)
        ensures
            final(self)@ == old(self)@.insert(task, event),
    {
        self.awaiting.insert(task, event);
    }

    /// Gives each of the tasks a new event to wait for, drawn at random, and
    /// returns the events in the order of the tasks: the interest to
    /// announce to the reactor.
    pub fn reschedule(&mut self, progressing: &Vec<usize>) -> (interests: Vec<u8>)
        ensures
            interests.len() == progressing.len(),
            final(self)@ == assigned(old(self)@, progressing@, interests@),
    {
        let mut interests: Vec<u8> = Vec::new();
        let mut done: usize = 0;
        while done < progressing.len()
            invariant
                done <= progressing.len(),
                interests.len() == done,
                self@ == assigned(old(self)@, progressing@.take(done as int), interests@),
            decreases progressing.len() - done,
        {
            let ghost earlier = interests@;
            let event = random_byte(&mut self.rng);
            self.schedule(progressing[done], event);
            interests.push(event);
            assert(progressing@.take(done + 1).drop_last() == progressing@.take(done as int));
            assert(interests@.drop_last() == earlier);
            done = done + 1;
        }
        assert(progressing@.take(done as int) == progressing@);
        interests
    }

    /// Steps every task that waits for `resource`, and stops it waiting.
    /// Returns the stepped tasks that are still running, in ascending order.
    /// A resource that no task waits for is an error, and changes nothing.
    pub fn advance<T: Freezable>(&mut self, tasks: &mut [T], resource: u8) -> (progressing: Result<
        Vec<usize>,
        ExecutorError,
    >)
        requires
            all_well_formed(old(tasks)@),
        ensures
            all_well_formed(final(tasks)@),
            match progressing {
                Ok(list) => {
                    &&& exists|task: usize|
                        task < old(tasks).len() && addressed(old(self)@, resource, task)
                    &&& woken(old(self)@, resource, old(tasks)@, final(tasks)@, list@)
                    &&& final(self)@ == old(self)@.remove_keys(
                        addressees(old(self)@, resource, old(tasks).len() as nat),
                    )
                },
                Err(error) => {
                    &&& error == ExecutorError::UnknownResource
                    &&& forall|task: usize|
                        task < old(tasks).len() ==> !addressed(old(self)@, resource, task)
                    &&& final(tasks)@ == old(tasks)@
                    &&& final(self)@ == old(self)@
                },
            },
    {
        let mut list: Vec<usize> = Vec::new();
        let mut any = false;
        let mut next: usize = 0;
        let count = tasks.len();
        while next < count
            invariant
                next <= count,
                count == tasks.len(),
                tasks.len() == old(tasks).len(),
                self.rng == old(self).rng,
                all_well_formed(tasks@),
                forall|i: int| next <= i < count ==> tasks[i] == old(tasks)[i],
                forall|task: usize|
                    task < next ==> if addressed(old(self)@, resource, task) {
                        advances(&old(tasks)[task as int], &#[trigger] tasks[task as int])
                    } else {
                        tasks[task as int] == old(tasks)[task as int]
                    },
                forall|task: usize| #[trigger]
                    list@.contains(task) <==> task < next && addressed(old(self)@, resource, task)
                        && running(&tasks[task as int]),
                ascending(list@),
                any <==> exists|task: usize| task < next && addressed(old(self)@, resource, task),
                self@ == old(self)@.remove_keys(
                    Set::new(|task: usize| task < next && addressed(old(self)@, resource, task)),
                ),
            decreases count - next,
        {
            let ghost before = list@;
            let ghost earlier = tasks@;
            let hit = match self.awaiting.get(&next) {
                Some(id) => *id == resource,
                None => false,
            };
            assert(hit == addressed(old(self)@, resource, next));
            if hit {
                let result = tasks[next].unfreeze();
                assert(steps_to(
                    &old(tasks)[next as int],
                    &tasks[next as int],
                    result,
                ));
                self.awaiting.remove(&next);
                any = true;
                let still_running = !tasks[next].is_finished() && !tasks[next].is_cancelled();
                assert(still_running == running(&tasks[next as int]));
                if still_running {
                    list.push(next);
                    assert(list@[before.len() as int] == next);
                    assert forall|i: int, j: int| 0 <= i < j < list.len() implies list[i]
                        < list[j] by {
                        if j == list.len() - 1 {
                            assert(before.contains(before[i]));
                        }
                    }
                }
                assert forall|task: usize| #[trigger]
                    list@.contains(task) <==> task < next + 1 && addressed(
                        old(self)@,
                        resource,
                        task,
                    ) && running(&tasks[task as int]) by {
                    if list@.contains(task) {
                        let i = choose|i: int| 0 <= i < list@.len() && list@[i] == task;
                        if i < before.len() {
                            assert(before[i] == task);
                            assert(before.contains(task));
                            assert(tasks[task as int] == earlier[task as int]);
                        }
                    }
                    if task < next && addressed(old(self)@, resource, task) && running(
                        &tasks[task as int],
                    ) {
                        assert(tasks[task as int] == earlier[task as int]);
                        assert(before.contains(task));
                        let i = choose|i: int| 0 <= i < before.len() && before[i] == task;
                        assert(list@[i] == task);
                    }
                }
                assert(all_well_formed(tasks@)) by {
                    assert forall|i: int| 0 <= i < tasks.len() implies (
                    #[trigger] tasks[i]).well_formed() by {
                        if i != next {
                            assert(tasks[i] == earlier[i]);
                        }
                    }
                }
            }
            assert(self@ =~= old(self)@.remove_keys(
                Set::new(|task: usize| task < next + 1 && addressed(old(self)@, resource, task)),
            ));
            assert forall|task: usize| task < next + 1 implies if addressed(
                old(self)@,
                resource,
                task,
            ) {
                advances(&old(tasks)[task as int], &#[trigger] tasks[task as int])
            } else {
                tasks[task as int] == old(tasks)[task as int]
            } by {
                if task < next {
                    assert(tasks[task as int] == earlier[task as int]);
                }
            }
            next = next + 1;
        }
        if any {
            assert(self@ =~= old(self)@.remove_keys(
                addressees(old(self)@, resource, old(tasks).len() as nat),
            ));
            Ok(list)
        } else {
            assert(self@ =~= old(self)@);
            assert(tasks@ =~= old(tasks)@);
            Err(ExecutorError::UnknownResource)
        }
    }

    /// Steps every task once to prime it, and lets every task that is then
    /// running wait for an event drawn at random. Returns the executor and
    /// the events in the order of the tasks: the interest to announce to the
    /// reactor.
    pub fn start<T: Freezable>(tasks: &mut [T]) -> (started: (Executor, Vec<u8>))
        requires
            all_well_formed(old(tasks)@),
        ensures
            all_well_formed(final(tasks)@),
            final(tasks).len() == old(tasks).len(),
            forall|i: int|
                0 <= i < old(tasks).len() ==> advances(&old(tasks)[i], &#[trigger] final(tasks)[i]),
            schedules(started.0@, final(tasks)@),
            exists|progressing: Seq<usize>|
                lists_running(final(tasks)@, progressing) && started.1.len() == progressing.len()
                    && started.0@ == assigned(Map::empty(), progressing, started.1@),
    {
        let mut list: Vec<usize> = Vec::new();
        let mut next: usize = 0;
        let count = tasks.len();
        while next < count
            invariant
                next <= count,
                count == tasks.len(),
                tasks.len() == old(tasks).len(),
                all_well_formed(tasks@),
                forall|i: int| next <= i < count ==> tasks[i] == old(tasks)[i],
                forall|i: int| 0 <= i < next ==> advances(&old(tasks)[i], &#[trigger] tasks[i]),
                forall|task: usize| #[trigger]
                    list@.contains(task) <==> task < next && running(&tasks[task as int]),
                ascending(list@),
            decreases count - next,
        {
            let ghost before = list@;
            let ghost earlier = tasks@;
            let result = tasks[next].unfreeze();
            assert(steps_to(&old(tasks)[next as int], &tasks[next as int], result));
            let still_running = !tasks[next].is_finished() && !tasks[next].is_cancelled();
            if still_running {
                list.push(next);
                assert(list@[before.len() as int] == next);
                assert forall|i: int, j: int| 0 <= i < j < list.len() implies list[i] < list[j] by {
                    if j == list.len() - 1 {
                        assert(before.contains(before[i]));
                    }
                }
            }
            assert forall|task: usize| #[trigger]
                list@.contains(task) <==> task < next + 1 && running(&tasks[task as int]) by {
                if list@.contains(task) {
                    let i = choose|i: int| 0 <= i < list@.len() && list@[i] == task;
                    if i < before.len() {
                        assert(before[i] == task);
                        assert(before.contains(task));
                        assert(tasks[task as int] == earlier[task as int]);
                    }
                }
                if task < next && running(&tasks[task as int]) {
                    assert(tasks[task as int] == earlier[task as int]);
                    assert(before.contains(task));
                    let i = choose|i: int| 0 <= i < before.len() && before[i] == task;
                    assert(list@[i] == task);
                }
            }
            assert forall|i: int| 0 <= i < tasks.len() implies (#[trigger] tasks[i]).well_formed() by {
                if i != next {
                    assert(tasks[i] == earlier[i]);
                }
            }
            assert forall|i: int| 0 <= i < next + 1 implies advances(
                &old(tasks)[i],
                &#[trigger] tasks[i],
            ) by {
                if i < next {
                    assert(tasks[i] == earlier[i]);
                }
            }
            next = next + 1;
        }
        let mut executor = Executor::new();
        let interests = executor.reschedule(&list);
        proof {
            lemma_assigned_domain(Map::empty(), list@, interests@);
            assert(lists_running(tasks@, list@));
        }
        (executor, interests)
    }

    /// Handles the wake-up for a resource: steps every task that waits for
    /// it, and lets each of them that is still running wait for a new event
    /// drawn at random. Returns the new events in the order of the tasks:
    /// the interest to announce to the reactor. A resource that no task
    /// waits for is an error, and changes nothing.
    pub fn wake<T: Freezable>(&mut self, tasks: &mut [T], resource: u8) -> (interests: Result<
        Vec<u8>,
        ExecutorError,
    >)
        requires
            all_well_formed(old(tasks)@),
        ensures
            all_well_formed(final(tasks)@),
            match interests {
                Ok(events) => {
                    &&& exists|task: usize|
                        task < old(tasks).len() && addressed(old(self)@, resource, task)
                    &&& exists|progressing: Seq<usize>|
                        {
                            &&& woken(
                                old(self)@,
                                resource,
                                old(tasks)@,
                                final(tasks)@,
                                progressing,
                            )
                            &&& events.len() == progressing.len()
                            &&& final(self)@ == assigned(
                                old(self)@.remove_keys(
                                    addressees(old(self)@, resource, old(tasks).len() as nat),
                                ),
                                progressing,
                                events@,
                            )
                        }
                },
                Err(error) => {
                    &&& error == ExecutorError::UnknownResource
                    &&& forall|task: usize|
                        task < old(tasks).len() ==> !addressed(old(self)@, resource, task)
                    &&& final(tasks)@ == old(tasks)@
                    &&& final(self)@ == old(self)@
                },
            },
            schedules(old(self)@, old(tasks)@) ==> schedules(final(self)@, final(tasks)@),
    {
        match self.advance(tasks, resource) {
            Ok(progressing) => {
                let ghost stepped = self@;
                let interests = self.reschedule(&progressing);
                proof {
                    lemma_assigned_domain(stepped, progressing@, interests@);
                    if schedules(old(self)@, old(tasks)@) {
                        assert forall|task: usize| #[trigger]
                            self@.contains_key(task) <==> task < tasks.len() && running(
                                &tasks[task as int],
                            ) by {
                            if task < tasks.len() && !addressed(old(self)@, resource, task) {
                                assert(tasks[task as int] == old(tasks)[task as int]);
                            }
                        }
                    }
                }
                Ok(interests)
            },
            Err(error) => Err(error),
        }
    }

    /// Whether every task reports that it is finished.
    pub fn all_finished<T: Freezable>(tasks: &[T]) -> (done: bool)
        ensures
            done == forall|i: int| 0 <= i < tasks.len() ==> finished(&#[trigger] tasks[i]),
    {
        let mut next: usize = 0;
        while next < tasks.len()
            invariant
                next <= tasks.len(),
                forall|i: int| 0 <= i < next ==> finished(&#[trigger] tasks[i]),
            decreases tasks.len() - next,
        {
            if !tasks[next].is_finished() {
                return false;
            }
            next = next + 1;
        }
        true
    }
}

/// The tasks `after` are what a wake-up for `resource` makes of the tasks
/// `before`.
pub open spec fn wakes_up<T: Freezable>(
    awaiting: Map<usize, u8>,
    resource: u8,
    before: Seq<T>,
    after: Seq<T>,
) -> bool {
    exists|progressing: Seq<usize>| woken(awaiting, resource, before, after, progressing)
}

/// The number of wake-ups of a history that were addressed to a task:
/// wake-up `k` is for `resources[k]`, and `awaiting[k]` says who waited for
/// what when it came.
pub open spec fn wake_count(awaiting: Seq<Map<usize, u8>>, resources: Seq<u8>, task: usize) -> nat
    decreases resources.len(),
{
    if resources.len() == 0 || awaiting.len() != resources.len() {
        0
    } else {
        wake_count(awaiting.drop_last(), resources.drop_last(), task) + if addressed(
            awaiting.last(),
            resources.last(),
            task,
        ) {
            1nat
        } else {
            0nat
        }
    }
}

/// A history of wake-ups: `states[k]` are the tasks and `awaiting[k]` the
/// waiting tasks before wake-up `k`, which is for `resources[k]`, and
/// `states[k + 1]` are the tasks after it. Before every wake-up the waiting
/// tasks are the running ones.
pub open spec fn is_schedule<T: Freezable>(
    states: Seq<Seq<T>>,
    awaiting: Seq<Map<usize, u8>>,
    resources: Seq<u8>,
) -> bool {
    &&& states.len() == resources.len() + 1
    &&& awaiting.len() == resources.len()
    &&& forall|k: int|
        0 <= k < resources.len() ==> {
            &&& schedules(#[trigger] awaiting[k], states[k])
            &&& wakes_up(awaiting[k], resources[k], states[k], states[k + 1])
        }
}

/// Over any history of wake-ups, a task has run exactly as many chunks as
/// wake-ups were addressed to it: it is stepped once per wake-up for the
/// resource that it waits for, and never otherwise. Together with the one
/// step of priming, the steps of a task are its wake-ups plus one.
pub proof fn lemma_steps_match_wakes<T: Freezable>(
    states: Seq<Seq<T>>,
    awaiting: Seq<Map<usize, u8>>,
    resources: Seq<u8>,
    task: usize,
)
    requires
        is_schedule(states, awaiting, resources),
        task < states[0].len(),
    ensures
        states.last().len() == states[0].len(),
        states.last()[task as int].chunks_left() + wake_count(awaiting, resources, task)
            == states[0][task as int].chunks_left(),
        states.last()[task as int].cancelled() == states[0][task as int].cancelled(),
    decreases resources.len(),
{
    let n = resources.len() as int;
    if n > 0 {
        let earlier_states = states.drop_last();
        let earlier_awaiting = awaiting.drop_last();
        let earlier_resources = resources.drop_last();
        assert forall|k: int| 0 <= k < earlier_resources.len() implies {
            &&& schedules(#[trigger] earlier_awaiting[k], earlier_states[k])
            &&& wakes_up(
                earlier_awaiting[k],
                earlier_resources[k],
                earlier_states[k],
                earlier_states[k + 1],
            )
        } by {
            assert(schedules(awaiting[k], states[k]));
        }
        lemma_steps_match_wakes(earlier_states, earlier_awaiting, earlier_resources, task);
        let before = states[n - 1];
        let after = states[n];
        let waiting = awaiting[n - 1];
        let resource = resources[n - 1];
        assert(schedules(waiting, before));
        assert(wakes_up(waiting, resource, before, after));
        let progressing = choose|progressing: Seq<usize>|
            woken(waiting, resource, before, after, progressing);
        assert(earlier_states.last() == before);
        if addressed(waiting, resource, task) {
            assert(advances(&before[task as int], &after[task as int]));
            assert(awaiting[n - 1].contains_key(task));
            assert(running(&before[task as int]));
        } else {
            assert(after[task as int] == before[task as int]);
        }
    }
}

/// The chunks that the tasks have left, all together.
pub open spec fn total_left<T: Freezable>(tasks: Seq<T>) -> nat
    decreases tasks.len(),
{
    if tasks.len() == 0 {
        0
    } else {
        total_left(tasks.drop_last()) + tasks.last().chunks_left()
    }
}

/// Where no task of one list has more chunks left than the task at the same
/// position of another, the first list has no more left in total; and where
/// one task has fewer, the first list has fewer in total.
pub(crate) proof fn lemma_total_left_monotone<T: Freezable>(after: Seq<T>, before: Seq<T>)
    requires
        after.len() == before.len(),
        forall|i: int|
            0 <= i < after.len() ==> (#[trigger] after[i]).chunks_left() <= before[i].chunks_left(),
    ensures
        total_left(after) <= total_left(before),
        (exists|i: int|
            0 <= i < after.len() && (#[trigger] after[i]).chunks_left() < before[i].chunks_left())
            ==> total_left(after) < total_left(before),
    decreases after.len(),
{
    if after.len() > 0 {
        let shorter_after = after.drop_last();
        let shorter_before = before.drop_last();
        assert forall|i: int| 0 <= i < shorter_after.len() implies (
        #[trigger] shorter_after[i]).chunks_left() <= shorter_before[i].chunks_left() by {
            assert(after[i].chunks_left() <= before[i].chunks_left());
        }
        lemma_total_left_monotone(shorter_after, shorter_before);
        let last = after.len() - 1;
        assert(after[last].chunks_left() <= before[last].chunks_left());
        if exists|i: int|
            0 <= i < after.len() && (#[trigger] after[i]).chunks_left() < before[i].chunks_left() {
            let i = choose|i: int|
                0 <= i < after.len() && (#[trigger] after[i]).chunks_left()
                    < before[i].chunks_left();
            if i < last {
                assert(shorter_after[i].chunks_left() < shorter_before[i].chunks_left());
            }
        }
    }
}

/// Every wake-up makes progress: where the waiting tasks are the running
/// ones, a wake-up for a resource that some task waits for leaves fewer
/// chunks to run in total. So the tasks can be woken up only as many times
/// as they have chunks left. (The tasks are as many as a slice can hold.)
pub proof fn lemma_wake_makes_progress<T: Freezable>(
    awaiting: Map<usize, u8>,
    resource: u8,
    before: Seq<T>,
    after: Seq<T>,
    progressing: Seq<usize>,
)
    requires
        before.len() <= usize::MAX,
        schedules(awaiting, before),
        woken(awaiting, resource, before, after, progressing),
        exists|task: usize| task < before.len() && addressed(awaiting, resource, task),
    ensures
        total_left(after) < total_left(before),
{
    assert forall|i: int| 0 <= i < after.len() implies (#[trigger] after[i]).chunks_left()
        <= before[i].chunks_left() by {
        let task = i as usize;
        if addressed(awaiting, resource, task) {
            assert(advances(&before[task as int], &after[task as int]));
        } else {
            assert(after[task as int] == before[task as int]);
        }
    }
    let woken_task = choose|task: usize| task < before.len() && addressed(awaiting, resource, task);
    assert(awaiting.contains_key(woken_task));
    assert(running(&before[woken_task as int]));
    assert(advances(&before[woken_task as int], &after[woken_task as int]));
    assert(after[woken_task as int].chunks_left() < before[woken_task as int].chunks_left());
    lemma_total_left_monotone(after, before);
}

/// Where no task is cancelled and no chunk is left, every task is finished.
pub proof fn lemma_nothing_left_is_finished<T: Freezable>(tasks: Seq<T>)
    requires
        total_left(tasks) == 0,
        forall|i: int| 0 <= i < tasks.len() ==> !(#[trigger] tasks[i]).cancelled(),
    ensures
        forall|i: int| 0 <= i < tasks.len() ==> finished(&#[trigger] tasks[i]),
    decreases tasks.len(),
{
    if tasks.len() > 0 {
        let shorter = tasks.drop_last();
        assert forall|i: int| 0 <= i < shorter.len() implies !(#[trigger] shorter[i]).cancelled() by {
            assert(!tasks[i].cancelled());
        }
        lemma_nothing_left_is_finished(shorter);
        assert forall|i: int| 0 <= i < tasks.len() implies finished(&#[trigger] tasks[i]) by {
            if i < tasks.len() - 1 {
                assert(finished(&shorter[i]));
            } else {
                assert(!tasks[i].cancelled());
            }
        }
    }
}

/// Giving tasks events to wait for adds exactly those tasks to the waiting
/// ones.
pub(crate) proof fn lemma_assigned_domain(awaiting: Map<usize, u8>, tasks: Seq<usize>, events: Seq<u8>)
    requires
        tasks.len() == events.len(),
    ensures
        forall|task: usize| #[trigger]
            assigned(awaiting, tasks, events).contains_key(task) <==> awaiting.contains_key(task)
                || tasks.contains(task),
    decreases tasks.len(),
{
    if tasks.len() > 0 {
        lemma_assigned_domain(awaiting, tasks.drop_last(), events.drop_last());
        let shorter = assigned(awaiting, tasks.drop_last(), events.drop_last());
        assert(assigned(awaiting, tasks, events) == shorter.insert(tasks.last(), events.last()));
        assert forall|task: usize| #[trigger]
            assigned(awaiting, tasks, events).contains_key(task) <==> awaiting.contains_key(task)
                || tasks.contains(task) by {
            assert(shorter.contains_key(task) <==> awaiting.contains_key(task)
                || tasks.drop_last().contains(task));
            if tasks.contains(task) {
                let i = choose|i: int| 0 <= i < tasks.len() && tasks[i] == task;
                if i < tasks.len() - 1 {
                    assert(tasks.drop_last()[i] == task);
                }
            }
            if tasks.drop_last().contains(task) {
                let i = choose|i: int| 0 <= i < tasks.drop_last().len() && tasks.drop_last()[i] == task;
                assert(tasks[i] == task);
            }
            if task == tasks.last() {
                assert(tasks[tasks.len() - 1] == task);
            }
        }
    }
}

/// Tasks that are given events to wait for, in ascending order, wait for
/// the event at their position; every other task waits as before.
pub(crate) proof fn lemma_assigned_values(awaiting: Map<usize, u8>, tasks: Seq<usize>, events: Seq<u8>)
    requires
        tasks.len() == events.len(),
        ascending(tasks),
    ensures
        forall|i: int|
            0 <= i < tasks.len() ==> assigned(awaiting, tasks, events).contains_key(
                #[trigger] tasks[i],
            ) && assigned(awaiting, tasks, events)[tasks[i]] == events[i],
        forall|task: usize|
            !tasks.contains(task) && awaiting.contains_key(task) ==> #[trigger] assigned(
                awaiting,
                tasks,
                events,
            ).contains_key(task) && assigned(awaiting, tasks, events)[task] == awaiting[task],
    decreases tasks.len(),
{
    if tasks.len() > 0 {
        let shorter = tasks.drop_last();
        let fewer = events.drop_last();
        assert forall|i: int, j: int| 0 <= i < j < shorter.len() implies shorter[i] < shorter[j] by {
            assert(tasks[i] < tasks[j]);
        }
        lemma_assigned_values(awaiting, shorter, fewer);
        let last = tasks.len() - 1;
        assert forall|i: int| 0 <= i < tasks.len() implies assigned(
            awaiting,
            tasks,
            events,
        ).contains_key(#[trigger] tasks[i]) && assigned(awaiting, tasks, events)[tasks[i]]
            == events[i] by {
            let before = assigned(awaiting, shorter, fewer);
            assert(assigned(awaiting, tasks, events) == before.insert(tasks[last], events[last]));
            if i < last {
                assert(tasks[i] < tasks[last]);
                assert(shorter[i] == tasks[i]);
                assert(fewer[i] == events[i]);
                assert(before.contains_key(shorter[i]) && before[shorter[i]] == fewer[i]);
            }
        }
        assert forall|task: usize|
            !tasks.contains(task) && awaiting.contains_key(task) implies #[trigger] assigned(
            awaiting,
            tasks,
            events,
        ).contains_key(task) && assigned(awaiting, tasks, events)[task] == awaiting[task] by {
            assert(tasks.contains(tasks[last]));
            if shorter.contains(task) {
                let i = choose|i: int| 0 <= i < shorter.len() && shorter[i] == task;
                assert(tasks[i] == task);
            }
            let before = assigned(awaiting, shorter, fewer);
            assert(before.contains_key(task) && before[task] == awaiting[task]);
            assert(assigned(awaiting, tasks, events) == before.insert(tasks[last], events[last]));
        }
    }
}

} // verus!
