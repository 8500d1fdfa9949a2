//! The append-only collection of simulated bodies.
//!
//! A body is known by its index, which it keeps for good: bodies are added at
//! the end and never removed or moved.
//!
//! The registry is a plain value with one owner. Where threads share it, the
//! caller keeps the registry behind one lock, which guards the membership, and
//! makes each body a lock of its own around the body's state.

use vstd::prelude::*;

verus! {

/// The bodies of a simulation, in the order in which they were added.
#[derive(Debug)]
pub struct Registry<T> {
    bodies: Vec<T>,
}

impl<T> View for Registry<T> {
    type V = Seq<T>;

    closed spec fn view(&self) -> Seq<T> {
        self.bodies@
    }
}

impl<T> Registry<T> {
    /// A registry without bodies.
    pub fn new() -> (registry: Self)
        ensures
            registry@ == Seq::<T>::empty(),
    {
        Registry { bodies: Vec::new() }
    }

    /// The number of bodies.
    pub fn len(&self) -> (n: usize)
        ensures
            n == self@.len(),
    {
        self.bodies.len()
    }

    /// Whether there is no body.
    pub fn is_empty(&self) -> (empty: bool)
        ensures
            empty == (self@.len() == 0),
    {
        self.bodies.len() == 0
    }

    /// Adds `body` behind the others and returns its index.
    pub fn append(&mut self, body: T) -> (index: usize)
        ensures
            final(self)@ == old(self)@.push(body),
            index == old(self)@.len(),
            final(self)@.len() == old(self)@.len() + 1,
            final(self)@[index as int] == body,
            forall|i: int| 0 <= i < old(self)@.len() ==> final(self)@[i] == old(self)@[i],
    {
        let index: usize = self.bodies.len();
        self.bodies.push(body);
        index
    }

    /// The body at `index`.
    pub fn get(&self, index: usize) -> (body: &T)
        requires
            index < self@.len(),
        ensures
            *body == self@[index as int],
    {
        &self.bodies[index]
    }
}

/// Indices are stable: after any run of appends every body that was there
/// before is still at its index, and the added bodies follow in order.
pub proof fn lemma_appends_keep_indices<T>(before: Seq<T>, added: Seq<T>, i: int)
    requires
        0 <= i < before.len() + added.len(),
    ensures
        (before + added).len() == before.len() + added.len(),
        i < before.len() ==> (before + added)[i] == before[i],
        i >= before.len() ==> (before + added)[i] == added[i - before.len()],
{
}

} // verus!
