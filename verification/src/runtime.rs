//! The three workers of the scheduler taking turns on one thread: a run of
//! the whole protocol, tick by tick, until every task is finished.

use crate::executor::{
    addressed, all_well_formed, lemma_assigned_domain, lemma_assigned_values,
    lemma_total_left_monotone, lemma_wake_makes_progress, schedules, total_left, Executor,
};
use crate::os::{Os, OsModel, LATENCY_LIMIT, MIN_LATENCY};
use crate::reactor::Reactor;
use crate::task::{advances, finished, running, Freezable};
use vstd::pervasive::unreached;
use vstd::prelude::*;

verus! {

/// Why a run ended before every task was finished.
#[derive(Debug, PartialEq, Eq)]
pub enum RuntimeError {
    /// No task waits for anything, and yet not every task is finished: some
    /// task was cancelled.
    Stalled,
    /// The clock of the operating system has come to its last ticks.
    ClockExhausted,
}

/// A member of the first `n` members of a list is a member of the first
/// `n - 1` or is member `n - 1`.
proof fn lemma_take_contains(list: Seq<u8>, n: int, id: u8)
    requires
        0 < n <= list.len(),
    ensures
        list.take(n).contains(id) <==> list.take(n - 1).contains(id) || list[n - 1] == id,
{
    let longer = list.take(n);
    let shorter = list.take(n - 1);
    if longer.contains(id) {
        let i = choose|i: int| 0 <= i < longer.len() && longer[i] == id;
        if i < n - 1 {
            assert(shorter[i] == id);
        }
    }
    if shorter.contains(id) {
        let i = choose|i: int| 0 <= i < shorter.len() && shorter[i] == id;
        assert(longer[i] == id);
    }
    if list[n - 1] == id {
        assert(longer[n - 1] == id);
    }
}

/// Announces the executor's interest to the reactor, which subscribes with
/// the operating system to every event that is new to it.
fn announce(reactor: &mut Reactor, os: &mut Os, interests: &Vec<u8>)
    requires
        old(os)@.now + LATENCY_LIMIT <= u64::MAX,
    ensures
        final(os)@.now == old(os)@.now,
        forall|id: u8| #[trigger]
            final(reactor)@.contains(id) <==> old(reactor)@.contains(id) || interests@.contains(id),
        forall|id: u8| #[trigger]
            final(os)@.deadlines.contains_key(id) <==> old(os)@.deadlines.contains_key(id) || (
            interests@.contains(id) && !old(reactor)@.contains(id)),
        forall|id: u8|
            old(os)@.deadlines.contains_key(id) ==> #[trigger] final(os)@.deadlines[id] == old(
                os,
            )@.deadlines[id],
        forall|id: u8|
            final(os)@.deadlines.contains_key(id) && !old(os)@.deadlines.contains_key(id)
                ==> old(os)@.now + MIN_LATENCY <= #[trigger] final(os)@.deadlines[id] < old(os)@.now
                + LATENCY_LIMIT,
{
    let mut done: usize = 0;
    while done < interests.len()
        invariant
            done <= interests.len(),
            os@.now == old(os)@.now,
            old(os)@.now + LATENCY_LIMIT <= u64::MAX,
            forall|id: u8| #[trigger]
                reactor@.contains(id) <==> old(reactor)@.contains(id) || interests@.take(
                    done as int,
                ).contains(id),
            forall|id: u8| #[trigger]
                os@.deadlines.contains_key(id) <==> old(os)@.deadlines.contains_key(id) || (
                interests@.take(done as int).contains(id) && !old(reactor)@.contains(id)),
            forall|id: u8|
                old(os)@.deadlines.contains_key(id) ==> #[trigger] os@.deadlines[id] == old(
                    os,
                )@.deadlines[id],
            forall|id: u8|
                os@.deadlines.contains_key(id) && !old(os)@.deadlines.contains_key(id) ==> old(
                    os,
                )@.now + MIN_LATENCY <= #[trigger] os@.deadlines[id] < old(os)@.now + LATENCY_LIMIT,
        decreases interests.len() - done,
    {
        let event = interests[done];
        let ghost before = os@;
        let ghost waiting = reactor@;
        proof {
            assert forall|id: u8|
                interests@.take(done + 1).contains(id) <==> interests@.take(done as int).contains(id)
                    || id == event by {
                lemma_take_contains(interests@, done + 1, id);
            }
        }
        match reactor.register(event) {
            Some(resource) => {
                os.subscribe(resource);
                let ghost latency = choose|latency: nat|
                    MIN_LATENCY <= latency < LATENCY_LIMIT && os@ == before.track(resource, latency);
                assert(os@ == before.track(event, latency));
            },
            None => {},
        }
        assert forall|id: u8| #[trigger]
            reactor@.contains(id) <==> old(reactor)@.contains(id) || interests@.take(
                done + 1,
            ).contains(id) by {
            assert(waiting.contains(id) <==> old(reactor)@.contains(id) || interests@.take(
                done as int,
            ).contains(id));
        }
        assert forall|id: u8| #[trigger]
            os@.deadlines.contains_key(id) <==> old(os)@.deadlines.contains_key(id) || (
            interests@.take(done + 1).contains(id) && !old(reactor)@.contains(id)) by {
            assert(before.deadlines.contains_key(id) <==> old(os)@.deadlines.contains_key(id) || (
            interests@.take(done as int).contains(id) && !old(reactor)@.contains(id)));
            assert(waiting.contains(id) <==> old(reactor)@.contains(id) || interests@.take(
                done as int,
            ).contains(id));
        }
        done = done + 1;
    }
    assert(interests@.take(done as int) == interests@);
}

/// Some task waits for the resource.
spec fn awaited(awaiting: Map<usize, u8>, resource: u8) -> bool {
    exists|task: usize| addressed(awaiting, resource, task)
}

/// The three workers are in step. The reactor waits for exactly the
/// resources that the operating system tracks or has announced in the list
/// `pending`, which the reactor has not seen yet; every task that waits,
/// waits for a resource that the reactor waits for; somebody waits for
/// every such resource; and every tracked resource is ready between now and
/// the tick `horizon`.
spec fn in_step(
    awaiting: Map<usize, u8>,
    waiting: Set<u8>,
    os: OsModel,
    pending: Seq<u8>,
    horizon: nat,
) -> bool {
    &&& forall|id: u8| #[trigger]
        waiting.contains(id) <==> os.deadlines.contains_key(id) || pending.contains(id)
    &&& forall|id: u8| #[trigger] pending.contains(id) ==> !os.deadlines.contains_key(id)
    &&& forall|task: usize| #[trigger]
        awaiting.contains_key(task) ==> waiting.contains(awaiting[task])
    &&& forall|id: u8| #[trigger] waiting.contains(id) ==> awaited(awaiting, id)
    &&& forall|id: u8|
        os.deadlines.contains_key(id) ==> os.now <= #[trigger] os.deadlines[id] <= horizon
}

/// No task is cancelled that was not cancelled before, and none that was
/// cancelled runs again.
pub open spec fn same_cancelled<T: Freezable>(before: Seq<T>, after: Seq<T>) -> bool {
    &&& after.len() == before.len()
    &&& forall|i: int|
        0 <= i < after.len() ==> (#[trigger] after[i]).cancelled() == before[i].cancelled()
}

/// Serves one resource that the operating system has announced: the reactor
/// turns it into a wake-up, the executor steps the tasks that wait for it,
/// and their new interest goes through the reactor to the operating system.
fn serve<T: Freezable>(
    executor: &mut Executor,
    reactor: &mut Reactor,
    os: &mut Os,
    tasks: &mut [T],
    resource: u8,
    Ghost(rest): Ghost<Seq<u8>>,
    Ghost(horizon): Ghost<nat>,
)
    requires
        all_well_formed(old(tasks)@),
        schedules(old(executor)@, old(tasks)@),
        in_step(old(executor)@, old(reactor)@, old(os)@, seq![resource] + rest, horizon),
        !rest.contains(resource),
        old(os)@.now + LATENCY_LIMIT <= u64::MAX,
        horizon < old(os)@.now + LATENCY_LIMIT,
    ensures
        all_well_formed(final(tasks)@),
        same_cancelled(old(tasks)@, final(tasks)@),
        schedules(final(executor)@, final(tasks)@),
        in_step(
            final(executor)@,
            final(reactor)@,
            final(os)@,
            rest,
            (old(os)@.now + LATENCY_LIMIT - 1) as nat,
        ),
        final(os)@.now == old(os)@.now,
        total_left(final(tasks)@) < total_left(old(tasks)@),
{
    let ghost pending = seq![resource] + rest;
    proof {
        assert(pending[0] == resource);
        assert(pending.contains(resource));
        assert(old(reactor)@.contains(resource));
        assert(awaited(old(executor)@, resource));
    }
    let wake = match reactor.complete(resource) {
        Ok(wake) => wake,
        Err(_) => unreached(),
    };
    let ghost waiting = reactor@;
    let interests = match executor.wake(tasks, wake) {
        Ok(interests) => interests,
        Err(_) => {
            proof {
                let task = choose|task: usize| addressed(old(executor)@, resource, task);
                assert(old(executor)@.contains_key(task));
            }
            unreached()
        },
    };
    announce(reactor, os, &interests);
    proof {
        let before = old(executor)@;
        let count = old(tasks).len() as nat;
        let progressing = choose|progressing: Seq<usize>|
            {
                &&& crate::executor::woken(before, resource, old(tasks)@, tasks@, progressing)
                &&& interests.len() == progressing.len()
                &&& executor@ == crate::executor::assigned(
                    before.remove_keys(crate::executor::addressees(before, resource, count)),
                    progressing,
                    interests@,
                )
            };
        let kept = before.remove_keys(crate::executor::addressees(before, resource, count));
        lemma_assigned_domain(kept, progressing, interests@);
        lemma_assigned_values(kept, progressing, interests@);
        lemma_wake_makes_progress(before, resource, old(tasks)@, tasks@, progressing);
        assert forall|i: int| 0 <= i < tasks.len() implies (#[trigger] tasks[i]).cancelled() == old(
            tasks,
        )[i].cancelled() by {
            let task = i as usize;
            if addressed(before, resource, task) {
                assert(before.contains_key(task));
                assert(running(&old(tasks)[task as int]));
                assert(advances(&old(tasks)[task as int], &tasks[task as int]));
            } else {
                assert(tasks[task as int] == old(tasks)[task as int]);
            }
        }
        assert forall|id: u8| #[trigger]
            reactor@.contains(id) <==> os@.deadlines.contains_key(id) || rest.contains(id) by {
            assert(old(reactor)@.contains(id) <==> old(os)@.deadlines.contains_key(id)
                || pending.contains(id));
            lemma_pending(resource, rest, id);
            assert(waiting.contains(id) <==> old(reactor)@.contains(id) && id != resource);
        }
        assert forall|id: u8| #[trigger] rest.contains(id) implies !os@.deadlines.contains_key(
            id,
        ) by {
            lemma_pending(resource, rest, id);
            assert(pending.contains(id));
            assert(old(reactor)@.contains(id));
            assert(waiting.contains(id));
        }
        assert forall|task: usize| #[trigger] executor@.contains_key(task) implies reactor@.contains(
            executor@[task],
        ) by {
            if progressing.contains(task) {
                let j = choose|j: int| 0 <= j < progressing.len() && progressing[j] == task;
                assert(executor@[progressing[j]] == interests@[j]);
                assert(interests@.contains(interests@[j]));
            } else {
                assert(kept.contains_key(task));
                assert(before.contains_key(task));
                assert(executor@[task] == kept[task]);
                assert(kept[task] == before[task]);
                assert(old(reactor)@.contains(before[task]));
                assert(waiting.contains(before[task]));
            }
        }
        assert forall|id: u8| #[trigger] reactor@.contains(id) implies awaited(executor@, id) by {
            if interests@.contains(id) {
                let j = choose|j: int| 0 <= j < interests@.len() && interests@[j] == id;
                assert(executor@.contains_key(progressing[j]));
                assert(addressed(executor@, id, progressing[j]));
            } else {
                assert(waiting.contains(id));
                assert(old(reactor)@.contains(id));
                assert(awaited(before, id));
                let task = choose|task: usize| addressed(before, id, task);
                assert(!addressed(before, resource, task));
                assert(kept.contains_key(task));
                assert(!progressing.contains(task));
                assert(executor@.contains_key(task));
                assert(executor@[task] == kept[task]);
                assert(kept[task] == before[task]);
                assert(addressed(executor@, id, task));
            }
        }
    }
}

/// A member of a list is its first member or a member of the rest.
proof fn lemma_pending(first: u8, rest: Seq<u8>, id: u8)
    ensures
        (seq![first] + rest).contains(id) <==> id == first || rest.contains(id),
{
    let all = seq![first] + rest;
    if all.contains(id) {
        let i = choose|i: int| 0 <= i < all.len() && all[i] == id;
        if i > 0 {
            assert(rest[i - 1] == id);
        }
    }
    if rest.contains(id) {
        let i = choose|i: int| 0 <= i < rest.len() && rest[i] == id;
        assert(all[i + 1] == id);
    }
    if id == first {
        assert(all[0] == id);
    }
}

/// The members of a list from one position on are the member at that
/// position and the members after it; in a strictly ascending list these
/// do not hold that member once more.
proof fn lemma_skip(list: Seq<u8>, position: int)
    requires
        0 <= position < list.len(),
        forall|i: int, j: int| 0 <= i < j < list.len() ==> list[i] < list[j],
    ensures
        list.skip(position) == seq![list[position]] + list.skip(position + 1),
        !list.skip(position + 1).contains(list[position]),
{
    let rest = list.skip(position + 1);
    if rest.contains(list[position]) {
        let i = choose|i: int| 0 <= i < rest.len() && rest[i] == list[position];
        assert(list[position] < list[position + 1 + i]);
    }
}

/// Runs the tasks to completion on one thread.
///
/// The executor primes the tasks and announces their interest. Then, tick
/// by tick, the operating system announces the resources that are due, the
/// reactor turns each into a wake-up, and the executor steps the tasks that
/// wait for it and announces their new interest. The run ends when every
/// task is finished.
///
/// A run cannot end well with a task that was cancelled: once every other
/// task is finished and nobody waits for anything it gives up, with
/// `Stalled`. Without such a task the run ends well, within ten ticks per
/// chunk that the tasks have left; it gives up with `ClockExhausted` only
/// where the clock cannot count that far.
pub fn runtime<T: Freezable>(tasks: &mut [T]) -> (outcome: Result<(), RuntimeError>)
    requires
        all_well_formed(old(tasks)@),
    ensures
        all_well_formed(final(tasks)@),
        same_cancelled(old(tasks)@, final(tasks)@),
        match outcome {
            Ok(()) => forall|i: int|
                0 <= i < final(tasks).len() ==> finished(&#[trigger] final(tasks)[i]),
            Err(RuntimeError::Stalled) => {
                &&& exists|i: int|
                    0 <= i < old(tasks).len() && (#[trigger] old(tasks)[i]).cancelled()
                &&& forall|i: int|
                    0 <= i < final(tasks).len() ==> finished(&#[trigger] final(tasks)[i])
                        || final(tasks)[i].cancelled()
            },
            Err(RuntimeError::ClockExhausted) => 10 * total_left(old(tasks)@) + 2 * LATENCY_LIMIT
                > u64::MAX,
        },
{
    let (mut executor, interests) = Executor::start(tasks);
    let mut reactor = Reactor::new();
    let mut os = Os::new();
    announce(&mut reactor, &mut os, &interests);
    let ghost mut horizon: nat = (LATENCY_LIMIT - 1) as nat;
    proof {
        let progressing = choose|progressing: Seq<usize>|
            crate::executor::lists_running(tasks@, progressing) && interests.len()
                == progressing.len() && executor@ == crate::executor::assigned(
                Map::empty(),
                progressing,
                interests@,
            );
        lemma_assigned_domain(Map::empty(), progressing, interests@);
        lemma_assigned_values(Map::empty(), progressing, interests@);
        assert forall|task: usize| #[trigger] executor@.contains_key(task) implies reactor@.contains(
            executor@[task],
        ) by {
            let j = choose|j: int| 0 <= j < progressing.len() && progressing[j] == task;
            assert(executor@[progressing[j]] == interests@[j]);
            assert(interests@.contains(interests@[j]));
        }
        assert forall|id: u8| #[trigger] reactor@.contains(id) implies awaited(executor@, id) by {
            let j = choose|j: int| 0 <= j < interests@.len() && interests@[j] == id;
            assert(executor@.contains_key(progressing[j]));
            assert(addressed(executor@, id, progressing[j]));
        }
        assert forall|i: int| 0 <= i < tasks.len() implies (#[trigger] tasks[i]).chunks_left()
            <= old(tasks)[i].chunks_left() && tasks[i].cancelled() == old(tasks)[i].cancelled() by {
            assert(advances(&old(tasks)[i], &tasks[i]));
        }
        lemma_total_left_monotone(tasks@, old(tasks)@);
    }
    while !Executor::all_finished(tasks)
        invariant
            all_well_formed(tasks@),
            same_cancelled(old(tasks)@, tasks@),
            schedules(executor@, tasks@),
            in_step(executor@, reactor@, os@, Seq::empty(), horizon),
            horizon < os@.now + LATENCY_LIMIT,
            horizon + 10 * total_left(tasks@) <= 10 * total_left(old(tasks)@) + LATENCY_LIMIT - 1,
        decreases total_left(tasks@), horizon + 1 - os@.now,
    {
        if executor.is_idle() {
            proof {
                let i = choose|i: int| 0 <= i < tasks.len() && !finished(&#[trigger] tasks[i]);
                assert(!executor@.contains_key(i as usize));
                assert(tasks[i].cancelled());
                assert(old(tasks)[i].cancelled());
                assert forall|i: int| 0 <= i < tasks.len() implies finished(&#[trigger] tasks[i])
                    || tasks[i].cancelled() by {
                    assert(!executor@.contains_key(i as usize));
                }
            }
            return Err(RuntimeError::Stalled);
        }
        proof {
            let task = choose|task: usize| executor@.contains_key(task);
            assert(reactor@.contains(executor@[task]));
            assert(os@.deadlines.contains_key(executor@[task]));
            assert(os@.now <= os@.deadlines[executor@[task]] <= horizon);
        }
        if os.now() >= u64::MAX - LATENCY_LIMIT as u64 {
            return Err(RuntimeError::ClockExhausted);
        }
        let ghost before = os@;
        let ghost started = tasks@;
        let ready = os.tick();
        let ghost mut reach: nat = horizon;
        proof {
            assert(ready@.skip(0) == ready@);
            assert forall|id: u8| #[trigger]
                reactor@.contains(id) <==> os@.deadlines.contains_key(id) || ready@.contains(id) by {
                assert(reactor@.contains(id) <==> before.deadlines.contains_key(id));
            }
            assert forall|id: u8|
                os@.deadlines.contains_key(id) implies os@.now <= #[trigger] os@.deadlines[id]
                <= horizon by {
                assert(before.now <= before.deadlines[id] <= horizon);
                assert(!before.due().contains(id));
            }
        }
        let mut served: usize = 0;
        while served < ready.len()
            invariant
                served <= ready.len(),
                all_well_formed(tasks@),
                same_cancelled(old(tasks)@, tasks@),
                schedules(executor@, tasks@),
                in_step(executor@, reactor@, os@, ready@.skip(served as int), reach),
                forall|i: int, j: int| 0 <= i < j < ready.len() ==> ready[i] < ready[j],
                os@.now == before.now + 1,
                os@.now + LATENCY_LIMIT <= u64::MAX,
                reach < os@.now + LATENCY_LIMIT,
                served == 0 ==> reach == horizon && tasks@ == started,
                served > 0 ==> reach == os@.now + LATENCY_LIMIT - 1 && total_left(tasks@)
                    < total_left(started),
            decreases ready.len() - served,
        {
            proof {
                lemma_skip(ready@, served as int);
            }
            serve(
                &mut executor,
                &mut reactor,
                &mut os,
                tasks,
                ready[served],
                Ghost(ready@.skip(served + 1)),
                Ghost(reach),
            );
            proof {
                reach = (os@.now + LATENCY_LIMIT - 1) as nat;
            }
            served = served + 1;
        }
        proof {
            assert(ready@.skip(served as int) == Seq::<u8>::empty());
            horizon = reach;
        }
    }
    Ok(())
}

} // verus!
