//! The synthetic operating system: a clock that counts ticks, and resources
//! that become ready a few ticks after somebody subscribed to them.

use crate::random::{random_between, thread_rng};
use rand::rngs::ThreadRng;
use std::collections::HashMap;
use vstd::prelude::*;
use vstd::std_specs::hash::*;

verus! {

broadcast use vstd::std_specs::hash::group_hash_axioms;

/// The smallest number of ticks that a resource takes to become ready.
pub const MIN_LATENCY: u8 = 1;

/// The number of ticks that no resource takes: a resource is ready less
/// than this many ticks after the subscription.
pub const LATENCY_LIMIT: u8 = 10;

/// The synthetic operating system.
pub struct Os {
    rng: ThreadRng,
    turn: u64,
    resources: HashMap<u8, u64>,
}

/// The state of the operating system: the current tick, and for each
/// resource that it tracks the tick at which the resource becomes ready.
pub struct OsModel {
    pub now: nat,
    pub deadlines: Map<u8, nat>,
}

impl OsModel {
    /// The resources that become ready at the current tick.
    pub open spec fn due(self) -> Set<u8> {
        Set::new(|id: u8| self.deadlines.contains_key(id) && self.deadlines[id] == self.now)
    }

    /// The state after a subscription to `resource` that takes `latency`
    /// ticks: a resource that is tracked already keeps its tick.
    pub open spec fn track(self, resource: u8, latency: nat) -> OsModel {
        if self.deadlines.contains_key(resource) {
            self
        } else {
            OsModel { now: self.now, deadlines: self.deadlines.insert(resource, self.now + latency) }
        }
    }

    /// The state after a tick: the resources that were due are forgotten,
    /// and the clock has advanced.
    pub open spec fn tick(self) -> OsModel {
        OsModel { now: self.now + 1, deadlines: self.deadlines.remove_keys(self.due()) }
    }

    /// No tracked resource was due at an earlier tick.
    pub open spec fn well_formed(self) -> bool {
        forall|id: u8| self.deadlines.contains_key(id) ==> self.now <= #[trigger] self.deadlines[id]
    }

    /// The state after a number of ticks.
    pub open spec fn after(self, ticks: nat) -> OsModel
        decreases ticks,
    {
        if ticks == 0 {
            self
        } else {
            self.after((ticks - 1) as nat).tick()
        }
    }
}

impl View for Os {
    type V = OsModel;

    closed spec fn view(&self) -> OsModel {
        OsModel {
            now: self.turn as nat,
            deadlines: Map::new(
                |id: u8| self.resources@.contains_key(id),
                |id: u8| self.resources@[id] as nat,
            ),
        }
    }
}

impl Os {
    /// An operating system at tick zero that tracks nothing.
    pub fn new() -> (os: Os)
        ensures
            os@ == (OsModel { now: 0, deadlines: Map::empty() }),
    {
        let os = Os { rng: thread_rng(), turn: 0, resources: HashMap::new() };
        assert(os@.deadlines == Map::<u8, nat>::empty());
        os
    }

    /// The current tick.
    pub fn now(&self) -> (turn: u64)
        ensures
            turn == self@.now,
    {
        self.turn
    }

    /// The tick at which a resource becomes ready, if it is tracked.
    pub fn deadline(&self, resource: u8) -> (turn: Option<u64>)
        ensures
            match turn {
                Some(turn) => self@.deadlines.contains_key(resource) && self@.deadlines[resource]
                    == turn,
                None => !self@.deadlines.contains_key(resource),
            },
    {
        match self.resources.get(&resource) {
            Some(turn) => Some(*turn),
            None => None,
        }
    }

    /// Takes a subscription to `resource` that will take `latency` ticks.
    /// A resource that is tracked already keeps the tick it has.
    pub fn track(&mut self, resource: u8, latency: u8)
        requires
            old(self)@.now + latency <= u64::MAX,
        ensures
            final(self)@ == old(self)@.track(resource, latency as nat),
    {
        if !self.resources.contains_key(&resource) {
            self.resources.insert(resource, self.turn + latency as u64);
        }
        assert(self@.deadlines == old(self)@.track(resource, latency as nat).deadlines);
    }

    /// Takes a subscription to `resource`. A resource that is not yet tracked
    /// becomes ready after a random number of ticks, at least `MIN_LATENCY`
    /// and less than `LATENCY_LIMIT`.
    pub fn subscribe(&mut self, resource: u8)
        requires
            old(self)@.now + LATENCY_LIMIT <= u64::MAX,
        ensures
            exists|latency: nat|
                MIN_LATENCY <= latency < LATENCY_LIMIT && final(self)@ == old(self)@.track(
                    resource,
                    latency,
                ),
    {
        let latency = random_between(&mut self.rng, MIN_LATENCY, LATENCY_LIMIT);
        self.track(resource, latency);
        assert(final(self)@ == old(self)@.track(resource, latency as nat));
    }

    /// Runs one tick: announces the resources that are due, in ascending
    /// order, stops tracking them and advances the clock.
    pub fn tick(&mut self) -> (ready: Vec<u8>)
        requires
            old(self)@.now < u64::MAX,
        ensures
            final(self)@ == old(self)@.tick(),
            forall|id: u8| ready@.contains(id) <==> old(self)@.due().contains(id),
            forall|i: int, j: int| 0 <= i < j < ready.len() ==> ready[i] < ready[j],
    {
        let mut ready: Vec<u8> = Vec::new();
        let mut next: u16 = 0;
        let ghost due = old(self)@.due();
        while next < 256
            invariant
                next <= 256,
                self.turn == old(self).turn,
                self.rng == old(self).rng,
                due == old(self)@.due(),
                forall|id: u8| #[trigger] ready@.contains(id) <==> id < next && due.contains(id),
                forall|i: int, j: int| 0 <= i < j < ready.len() ==> ready[i] < ready[j],
                self.resources@ == old(self).resources@.remove_keys(
                    Set::new(|id: u8| id < next && due.contains(id)),
                ),
            decreases 256 - next,
        {
            let id = next as u8;
            let ghost before = ready@;
            let is_due = match self.resources.get(&id) {
                Some(turn) => *turn == self.turn,
                None => false,
            };
            assert(is_due == due.contains(id));
            if is_due {
                self.resources.remove(&id);
                ready.push(id);
                assert(ready@ == before.push(id));
                assert forall|other: u8| #[trigger] ready@.contains(other) <==> other < next + 1
                    && due.contains(other) by {
                    if ready@.contains(other) {
                        let i = choose|i: int| 0 <= i < ready@.len() && ready@[i] == other;
                        if i < before.len() {
                            assert(before[i] == other);
                            assert(before.contains(other));
                        }
                    }
                    if other < next + 1 && due.contains(other) {
                        if other == id {
                            assert(ready@[before.len() as int] == id);
                        } else {
                            assert(before.contains(other));
                            let i = choose|i: int| 0 <= i < before.len() && before[i] == other;
                            assert(ready@[i] == other);
                        }
                    }
                }
                assert forall|i: int, j: int| 0 <= i < j < ready.len() implies ready[i]
                    < ready[j] by {
                    if j == ready.len() - 1 {
                        assert(before.contains(before[i]));
                    }
                }
            }
            assert(self.resources@ =~= old(self).resources@.remove_keys(
                Set::new(|other: u8| other < next + 1 && due.contains(other)),
            ));
            next = next + 1;
        }
        self.turn = self.turn + 1;
        assert(Set::new(|id: u8| id < 256 && due.contains(id)) =~= due);
        assert(self@.deadlines =~= old(self)@.tick().deadlines);
        ready
    }
}

/// A subscription is served on time and once: a resource that was not
/// tracked and then subscribed to with a latency is tracked, and not due,
/// during the ticks before the latency has passed; it is due at the tick
/// after exactly that many ticks; and it is no longer tracked after that
/// tick.
pub proof fn lemma_ready_on_time(os: OsModel, resource: u8, latency: nat, ticks: nat)
    requires
        !os.deadlines.contains_key(resource),
        ticks <= latency,
    ensures
        os.track(resource, latency).after(ticks).now == os.now + ticks,
        os.track(resource, latency).after(ticks).deadlines.contains_key(resource),
        os.track(resource, latency).after(ticks).deadlines[resource] == os.now + latency,
        os.track(resource, latency).after(ticks).due().contains(resource) == (ticks == latency),
        ticks == latency ==> !os.track(resource, latency).after(ticks).tick().deadlines.contains_key(
            resource,
        ),
    decreases ticks,
{
    if ticks > 0 {
        lemma_ready_on_time(os, resource, latency, (ticks - 1) as nat);
    }
}

/// Subscriptions and ticks keep every tracked resource ahead of the clock
/// or due.
pub proof fn lemma_stays_well_formed(os: OsModel, resource: u8, latency: nat)
    requires
        os.well_formed(),
    ensures
        os.track(resource, latency).well_formed(),
        os.tick().well_formed(),
{
}

} // verus!
