//! The reactor: stands between the executor and the operating system and
//! keeps the set of events that somebody waits for.

use std::collections::HashSet;
use vstd::prelude::*;
use vstd::std_specs::hash::*;

verus! {

broadcast use vstd::std_specs::hash::group_hash_axioms;

/// The reactor. Its view is the set of events that it has subscribed to and
/// that have not completed yet.
pub struct Reactor {
    events: HashSet<u8>,
}

/// A violation of the protocol between the reactor and the operating system.
#[derive(Debug, PartialEq, Eq)]
pub enum ReactorError {
    /// A resource was announced ready that the reactor does not wait for.
    UnknownResource,
}

impl View for Reactor {
    type V = Set<u8>;

    closed spec fn view(&self) -> Set<u8> {
        self.events@
    }
}

impl Reactor {
    /// A reactor that waits for nothing.
    pub fn new() -> (reactor: Reactor)
        ensures
            reactor@ == Set::<u8>::empty(),
    {
        Reactor { events: HashSet::new() }
    }

    /// Whether the reactor waits for the event.
    pub fn is_waiting_for(&self, event: u8) -> (waiting: bool)
        ensures
            waiting == self@.contains(event),
    {
        self.events.contains(&event)
    }

    /// Takes note that the executor is interested in `event`. Returns the
    /// subscription to hand on to the operating system: the event itself
    /// where it is new, and nothing where a subscription for it is under way.
    pub fn register(&mut self, event: u8) -> (subscription: Option<u8>)
        ensures
            final(self)@ == old(self)@.insert(event),
            subscription == if old(self)@.contains(event) {
                None
            } else {
                Some(event)
            },
    {
        if self.events.contains(&event) {
            assert(self@ == old(self)@.insert(event));
            None
        } else {
            self.events.insert(event);
            Some(event)
        }
    }

    /// Takes note that the operating system announced `resource` ready.
    /// Returns the wake-up to hand on to the executor, and stops waiting for
    /// the resource. A resource that the reactor does not wait for is an
    /// error, and leaves the reactor as it is.
    pub fn complete(&mut self, resource: u8) -> (wake: Result<u8, ReactorError>)
        ensures
            match wake {
                Ok(event) => {
                    &&& old(self)@.contains(resource)
                    &&& event == resource
                    &&& final(self)@ == old(self)@.remove(resource)
                },
                Err(error) => {
                    &&& !old(self)@.contains(resource)
                    &&& error == ReactorError::UnknownResource
                    &&& final(self)@ == old(self)@
                },
            },
    {
        if self.events.remove(&resource) {
            Ok(resource)
        } else {
            Err(ReactorError::UnknownResource)
        }
    }
}

} // verus!
