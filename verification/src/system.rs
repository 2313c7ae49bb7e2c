//! Ordered lists of per-tick systems.
//!
//! A system is an opaque unit of work supplied by client code; running it
//! gives it exclusive access to the whole store.  A [`SystemBundle`] runs
//! its systems strictly in registration order, with no isolation between
//! them: a system may mutate data a later system in the same bundle
//! observes.

use vstd::prelude::*;
use crate::ecs::Ecs;

verus! {

/// An opaque per-tick unit of work.  Client code implements this; the one
/// obligation is to leave the store well-formed.
pub trait System {
    /// Runs the system once, with exclusive access to the store.
    fn run(&mut self, ecs: &mut Ecs)
        requires
            old(ecs).wf(),
        ensures
            final(ecs).wf(),
    ;
}

/// One registered system, behind a box.
pub struct SystemEntry {
    system: Box<dyn System>,
}

/// A value that can be turned into a registrable system.
pub trait IntoSystem: System + Sized + 'static {
    /// Wraps the value for registration in a bundle.
    fn into_system(self) -> (r: SystemEntry) {
        SystemEntry { system: Box::new(self) }
    }
}

impl<S: System + 'static> IntoSystem for S {
}

/// An ordered list of systems, each given exclusive store access in turn.
pub struct SystemBundle {
    systems: Vec<SystemEntry>,
}

impl SystemBundle {
    /// How many systems are registered.
    pub closed spec fn spec_len(self) -> nat {
        self.systems@.len()
    }

    /// A bundle with no systems.
    pub fn new() -> (r: SystemBundle)
        ensures
            r.spec_len() == 0,
    {
        SystemBundle { systems: Vec::new() }
    }

    /// Appends a system; it will run after every previously added one.
    pub fn add_system(&mut self, system: SystemEntry)
        ensures
            final(self).spec_len() == old(self).spec_len() + 1,
    {
        self.systems.push(system);
    }

    /// How many systems the bundle holds.
    pub fn len(&self) -> (r: usize)
        ensures
            r == self.spec_len(),
    {
        self.systems.len()
    }

    /// Runs every system once, strictly in registration order,
    /// synchronously; each sees the store as the previous one left it.
    pub fn step(&mut self, ecs: &mut Ecs)
        requires
            old(ecs).wf(),
        ensures
            final(ecs).wf(),
            final(self).spec_len() == old(self).spec_len(),
    {
        let mut finished: Vec<SystemEntry> = Vec::new();
        while self.systems.len() > 0
            invariant
                finished@.len() + self.systems@.len() == old(self).spec_len(),
                ecs.wf(),
            decreases self.systems@.len(),
        {
            let mut entry = self.systems.remove(0);
            entry.system.run(ecs);
            finished.push(entry);
        }
        self.systems = finished;
    }
}

} // verus!
