use freezable::executor::{Executor, ExecutorError};
use freezable::os::{Os, LATENCY_LIMIT, MIN_LATENCY};
use freezable::reactor::{Reactor, ReactorError};
use freezable::{Freezable, FreezableGenerator4};

#[test]
fn a_new_os_is_at_tick_zero_and_tracks_nothing() {
    let mut os = Os::new();
    assert_eq!(os.now(), 0);
    assert_eq!(os.deadline(3), None);
    assert_eq!(os.tick(), Vec::<u8>::new());
    assert_eq!(os.now(), 1);
}

#[test]
fn a_resource_is_ready_when_its_latency_has_passed() {
    let mut os = Os::new();
    os.track(7, 3);
    assert_eq!(os.deadline(7), Some(3));
    for tick in 0..3 {
        assert_eq!(os.now(), tick);
        assert_eq!(os.tick(), Vec::<u8>::new());
        assert_eq!(os.deadline(7), Some(3));
    }
    assert_eq!(os.tick(), vec![7]);
    assert_eq!(os.deadline(7), None);
    assert_eq!(os.now(), 4);
    assert_eq!(os.tick(), Vec::<u8>::new());
}

#[test]
fn a_latency_counts_from_the_tick_of_the_subscription() {
    let mut os = Os::new();
    os.tick();
    os.tick();
    os.track(1, 4);
    assert_eq!(os.deadline(1), Some(6));
    os.track(2, 0);
    assert_eq!(os.tick(), vec![2]);
}

#[test]
fn a_second_subscription_keeps_the_first_deadline() {
    let mut os = Os::new();
    os.track(9, 2);
    os.track(9, 5);
    assert_eq!(os.deadline(9), Some(2));
    os.tick();
    os.subscribe(9);
    assert_eq!(os.deadline(9), Some(2));
}

#[test]
fn resources_that_are_due_together_come_in_ascending_order() {
    let mut os = Os::new();
    for id in [200u8, 3, 255, 0, 77] {
        os.track(id, 1);
    }
    os.track(5, 2);
    assert_eq!(os.tick(), Vec::<u8>::new());
    assert_eq!(os.tick(), vec![0, 3, 77, 200, 255]);
    assert_eq!(os.tick(), vec![5]);
}

#[test]
fn a_resource_can_be_subscribed_to_again_after_it_was_ready() {
    let mut os = Os::new();
    os.track(4, 0);
    assert_eq!(os.tick(), vec![4]);
    os.track(4, 1);
    assert_eq!(os.deadline(4), Some(2));
    assert_eq!(os.tick(), Vec::<u8>::new());
    assert_eq!(os.tick(), vec![4]);
}

#[test]
fn a_random_latency_is_between_one_and_nine_ticks() {
    assert_eq!(MIN_LATENCY, 1);
    assert_eq!(LATENCY_LIMIT, 10);
    let mut seen = [false; 10];
    for round in 0..400u64 {
        let mut os = Os::new();
        for _ in 0..(round % 5) {
            os.tick();
        }
        let start = os.now();
        os.subscribe(42);
        let latency = os.deadline(42).unwrap() - start;
        assert!((1..=9).contains(&latency));
        seen[latency as usize] = true;
        let mut ticks = 0;
        while os.tick() != vec![42] {
            ticks += 1;
            assert!(ticks <= 9);
        }
        assert_eq!(ticks, latency);
    }
    assert!(seen.iter().filter(|s| **s).count() > 1);
}

#[test]
fn five_subscriptions_are_all_announced_once() {
    let mut os = Os::new();
    let mut waiting = vec![13u8, 200, 7, 99, 0];
    for id in &waiting {
        os.subscribe(*id);
    }
    for _ in 0..10 {
        for id in os.tick() {
            let position = waiting.iter().position(|w| *w == id).unwrap();
            waiting.remove(position);
        }
    }
    assert!(waiting.is_empty());
}

#[test]
fn the_reactor_subscribes_once_per_event() {
    let mut reactor = Reactor::new();
    assert!(!reactor.is_waiting_for(5));
    assert_eq!(reactor.register(5), Some(5));
    assert!(reactor.is_waiting_for(5));
    assert_eq!(reactor.register(5), None);
    assert_eq!(reactor.register(6), Some(6));
    assert_eq!(reactor.register(5), None);
    assert!(reactor.is_waiting_for(5));
}

#[test]
fn the_reactor_wakes_for_a_resource_that_it_waits_for() {
    let mut reactor = Reactor::new();
    reactor.register(5);
    reactor.register(6);
    assert_eq!(reactor.complete(5), Ok(5));
    assert!(!reactor.is_waiting_for(5));
    assert!(reactor.is_waiting_for(6));
    assert_eq!(reactor.register(5), Some(5));
}

#[test]
fn the_reactor_rejects_a_resource_that_it_does_not_wait_for() {
    let mut reactor = Reactor::new();
    assert_eq!(reactor.complete(1), Err(ReactorError::UnknownResource));
    reactor.register(1);
    assert_eq!(reactor.complete(2), Err(ReactorError::UnknownResource));
    assert!(reactor.is_waiting_for(1));
    assert_eq!(reactor.complete(1), Ok(1));
    assert_eq!(reactor.complete(1), Err(ReactorError::UnknownResource));
}

#[test]
fn reactor_and_os_announce_every_event_once() {
    let mut reactor = Reactor::new();
    let mut os = Os::new();
    let mut events = vec![100u8, 3, 3, 250, 100, 17];
    for event in &events {
        if let Some(resource) = reactor.register(*event) {
            os.subscribe(resource);
        }
    }
    events.sort();
    events.dedup();
    let mut woken = vec![];
    for _ in 0..10 {
        for resource in os.tick() {
            woken.push(reactor.complete(resource).unwrap());
        }
    }
    woken.sort();
    assert_eq!(woken, events);
}

#[test]
fn starting_primes_every_task_and_makes_it_wait() {
    let mut tasks =
        vec![FreezableGenerator4::start(3), FreezableGenerator4::start(7), FreezableGenerator4::start(10)];
    let (executor, interests) = Executor::start(&mut tasks);
    assert_eq!(
        tasks,
        vec![
            FreezableGenerator4::Chunk1(3),
            FreezableGenerator4::Chunk1(7),
            FreezableGenerator4::Chunk1(10)
        ]
    );
    assert_eq!(interests.len(), 3);
    for task in 0..3 {
        assert_eq!(executor.awaited(task), Some(interests[task]));
    }
    assert_eq!(executor.awaited(3), None);
}

#[test]
fn a_task_that_cannot_run_is_not_made_to_wait() {
    let mut cancelled = FreezableGenerator4::start(1);
    cancelled.cancel();
    let mut tasks = vec![FreezableGenerator4::Finished, FreezableGenerator4::start(1), cancelled];
    let (executor, interests) = Executor::start(&mut tasks);
    assert_eq!(interests.len(), 1);
    assert_eq!(executor.awaited(0), None);
    assert_eq!(executor.awaited(1), Some(interests[0]));
    assert_eq!(executor.awaited(2), None);
    assert_eq!(tasks[0], FreezableGenerator4::Finished);
    assert_eq!(tasks[2], FreezableGenerator4::Cancelled);
    assert!(!Executor::all_finished(&tasks));
}

#[test]
fn a_wake_up_steps_exactly_the_tasks_that_wait_for_the_resource() {
    let mut tasks =
        vec![FreezableGenerator4::Chunk1(1), FreezableGenerator4::Chunk1(2), FreezableGenerator4::Chunk3(3)];
    let mut executor = Executor::new();
    executor.schedule(0, 50);
    executor.schedule(1, 60);
    executor.schedule(2, 50);
    let progressing = executor.advance(&mut tasks, 50).unwrap();
    assert_eq!(progressing, vec![0]);
    assert_eq!(
        tasks,
        vec![FreezableGenerator4::Chunk2(2), FreezableGenerator4::Chunk1(2), FreezableGenerator4::Finished]
    );
    assert_eq!(executor.awaited(0), None);
    assert_eq!(executor.awaited(1), Some(60));
    assert_eq!(executor.awaited(2), None);
    let interests = executor.reschedule(&progressing);
    assert_eq!(interests.len(), 1);
    assert_eq!(executor.awaited(0), Some(interests[0]));
}

#[test]
fn a_wake_up_for_a_resource_that_nobody_waits_for_is_an_error() {
    let mut tasks = vec![FreezableGenerator4::Chunk1(1)];
    let mut executor = Executor::new();
    executor.schedule(0, 50);
    assert_eq!(executor.advance(&mut tasks, 51), Err(ExecutorError::UnknownResource));
    assert_eq!(executor.wake(&mut tasks, 51), Err(ExecutorError::UnknownResource));
    assert_eq!(tasks, vec![FreezableGenerator4::Chunk1(1)]);
    assert_eq!(executor.awaited(0), Some(50));
    let mut idle = Executor::new();
    assert_eq!(idle.wake(&mut tasks, 50), Err(ExecutorError::UnknownResource));
}

#[test]
fn a_woken_task_waits_for_a_new_event_until_it_is_finished() {
    let mut tasks = vec![FreezableGenerator4::start(5)];
    let (mut executor, interests) = Executor::start(&mut tasks);
    let mut awaited = interests[0];
    let interests = executor.wake(&mut tasks, awaited).unwrap();
    assert_eq!(tasks[0], FreezableGenerator4::Chunk2(6));
    assert_eq!(interests.len(), 1);
    awaited = interests[0];
    let interests = executor.wake(&mut tasks, awaited).unwrap();
    assert_eq!(tasks[0], FreezableGenerator4::Chunk3(7));
    awaited = interests[0];
    assert!(!Executor::all_finished(&tasks));
    let interests = executor.wake(&mut tasks, awaited).unwrap();
    assert_eq!(tasks[0], FreezableGenerator4::Finished);
    assert!(interests.is_empty());
    assert_eq!(executor.awaited(0), None);
    assert!(Executor::all_finished(&tasks));
    assert_eq!(executor.wake(&mut tasks, awaited), Err(ExecutorError::UnknownResource));
}

fn chunks_run(task: &FreezableGenerator4) -> usize {
    match task {
        FreezableGenerator4::Chunk0(_) => 0,
        FreezableGenerator4::Chunk1(_) => 1,
        FreezableGenerator4::Chunk2(_) => 2,
        FreezableGenerator4::Chunk3(_) => 3,
        FreezableGenerator4::Finished => 4,
        FreezableGenerator4::Cancelled => panic!("no task is cancelled here"),
    }
}

#[test]
fn a_task_is_stepped_once_for_priming_and_once_per_wake_up_addressed_to_it() {
    let mut tasks: Vec<FreezableGenerator4> =
        (0..8).map(|n| FreezableGenerator4::start(n * 10)).collect();
    let (mut executor, _) = Executor::start(&mut tasks);
    let mut wakes = vec![0usize; tasks.len()];
    let mut resource = 0u8;
    while !Executor::all_finished(&tasks) {
        let addressed: Vec<usize> =
            (0..tasks.len()).filter(|task| executor.awaited(*task) == Some(resource)).collect();
        let before: Vec<usize> = tasks.iter().map(chunks_run).collect();
        match executor.wake(&mut tasks, resource) {
            Ok(_) => assert!(!addressed.is_empty()),
            Err(ExecutorError::UnknownResource) => assert!(addressed.is_empty()),
        }
        for task in 0..tasks.len() {
            if addressed.contains(&task) {
                wakes[task] += 1;
                assert_eq!(chunks_run(&tasks[task]), before[task] + 1);
            } else {
                assert_eq!(chunks_run(&tasks[task]), before[task]);
            }
            assert_eq!(chunks_run(&tasks[task]), wakes[task] + 1);
        }
        resource = resource.wrapping_add(1);
    }
    assert_eq!(wakes, vec![3; 8]);
}

#[test]
fn executor_reactor_and_os_run_the_tasks_to_completion() {
    let mut tasks =
        vec![FreezableGenerator4::start(3), FreezableGenerator4::start(7), FreezableGenerator4::start(10)];
    let mut os = Os::new();
    let mut reactor = Reactor::new();
    let (mut executor, mut interests) = Executor::start(&mut tasks);
    let mut ticks = 0;
    loop {
        for event in interests.drain(..) {
            if let Some(resource) = reactor.register(event) {
                os.subscribe(resource);
            }
        }
        if Executor::all_finished(&tasks) {
            break;
        }
        ticks += 1;
        assert!(ticks <= 3 * 10);
        for resource in os.tick() {
            let wake = reactor.complete(resource).unwrap();
            for event in executor.wake(&mut tasks, wake).unwrap() {
                if let Some(resource) = reactor.register(event) {
                    os.subscribe(resource);
                }
            }
        }
    }
    assert!(tasks.iter().all(|task| task.is_finished()));
}
