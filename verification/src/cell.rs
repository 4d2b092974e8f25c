//! The user-facing read-copy-update cell.
//!
//! `Rcu` keeps its generations in an arena: the index of a slot is the
//! identity of the generation, a retired slot is emptied and its index never
//! reused, so a stale identity can never be mistaken for a fresh one. This
//! embodiment is used under exclusive access: the writer path still runs the
//! full install/retire protocol (allocate, compare the marker, swap, retire),
//! but with no reader in flight the quiescence wait is already satisfied and
//! the compare-and-swap cannot lose a race. The interleaved protocol itself,
//! with racing readers and writers, is the subject of [`crate::gate`] and
//! [`crate::guard`].

use vstd::pervasive::cloned;
use vstd::pervasive::VecAdditionalExecFns;
use vstd::prelude::*;

verus! {

/// A read-copy-update cell protecting a value of type `T`.
pub struct Rcu<T> {
    /// Arena of generations; a live generation's slot holds its value.
    gens: Vec<Option<T>>,
    /// Index of the installed (currently visible) generation.
    current: usize,
    /// Marker of the previously installed generation: the expected value of
    /// the writer path's compare-and-swap. Never dereferenced.
    prev_marker: usize,
    /// Installation order: every generation that ever became current.
    hist: Ghost<Seq<int>>,
}

impl<T: Clone> Rcu<T> {
    /// The cell is well formed: the current slot is live, the marker agrees
    /// with it (no update is in flight), and every superseded slot has been
    /// emptied.
    pub closed spec fn wf(&self) -> bool {
        &&& (self.current as int) < self.gens@.len()
        &&& self.prev_marker == self.current
        &&& self.gens@[self.current as int] is Some
        &&& forall|g: int|
            0 <= g < self.gens@.len() && g != self.current ==> (#[trigger] self.gens@[g]) is None
        &&& self.hist@.len() >= 1
        &&& self.hist@.last() == self.current as int
    }

    /// The installed value.
    pub closed spec fn value(&self) -> T {
        self.gens@[self.current as int].unwrap()
    }

    /// How many generations were ever created (live and retired).
    pub closed spec fn generations(&self) -> int {
        self.gens@.len() as int
    }

    /// Identity of the installed generation.
    pub closed spec fn current_gen(&self) -> int {
        self.current as int
    }

    /// Whether the generation `g` has been retired: its slot emptied, its
    /// index never to be reused.
    pub closed spec fn retired(&self, g: int) -> bool {
        self.gens@[g] is None
    }

    /// The identities of the installed generations, oldest first.
    pub closed spec fn install_order(&self) -> Seq<int> {
        self.hist@
    }

    /// Create a cell holding `value` as its first generation, with a
    /// quiescence count of zero.
    pub fn new(value: T) -> (cell: Self)
        ensures
            cell.wf(),
            cell.value() == value,
            cell.generations() == 1,
            cell.current_gen() == 0,
            cell.install_order() == seq![0int],
    {
        let mut gens: Vec<Option<T>> = Vec::new();
        gens.push(Some(value));
        let ghost order: Seq<int> = seq![0int];
        Rcu { gens, current: 0, prev_marker: 0, hist: Ghost(order) }
    }

    /// Produce a full copy of the installed value.
    ///
    /// The caller never blocks: under exclusive access no writer holds the
    /// write gate, so registration succeeds at once, the current generation
    /// is copied, and the registration is released again.
    pub fn read(&self) -> (snapshot: T)
        requires
            self.wf(),
        ensures
            cloned(self.value(), snapshot),
    {
        self.gens[self.current].as_ref().unwrap().clone()
    }

    /// Install `new_val` as a fresh generation and retire the superseded one.
    ///
    /// This is the writer path: allocate the new generation, compare the
    /// cell's current reference against the previous-generation marker and
    /// swap on a match, then drain readers of the old generation and empty
    /// its slot. With exclusive access the marker always matches and no
    /// reader is registered, so the swap wins and the drain is immediate;
    /// the returned flag reports that success. Exactly one generation is
    /// created and exactly one is retired.
    pub fn update(&mut self, new_val: T) -> (won: bool)
        requires
            old(self).wf(),
        ensures
            final(self).wf(),
            won,
            final(self).value() == new_val,
            final(self).generations() == old(self).generations() + 1,
            final(self).current_gen() == old(self).generations(),
            final(self).install_order() == old(self).install_order().push(old(self).generations()),
            final(self).retired(old(self).current_gen()),
    {
        let neo: usize = self.gens.len();
        self.gens.push(Some(new_val));
        // the compare-and-swap of `current` against the marker: exclusive
        // access keeps the marker equal to `current`, so it cannot fail here
        let retiring = self.current;
        self.current = neo;
        proof {
            self.hist@ = self.hist@.push(neo as int);
        }
        // the write gate would now close; the quiescence count of a cell
        // used under exclusive access is already zero, so the drain is over
        // before it starts
        self.prev_marker = neo;
        self.gens.set(retiring, None);
        true
    }

    /// Hand out a read-only capability onto this cell.
    pub fn subscribe(&self) -> (sub: RcuSubscriber<'_, T>)
        ensures
            sub.source() == *self,
    {
        RcuSubscriber { cell: self }
    }
}

/// A capability-restricted view of an [`Rcu`]: it exposes the read
/// operation and nothing else, for callers that must never write.
pub struct RcuSubscriber<'a, T> {
    cell: &'a Rcu<T>,
}

impl<'a, T: Clone> RcuSubscriber<'a, T> {
    /// The cell this subscriber was drawn from.
    pub closed spec fn source(&self) -> Rcu<T> {
        *self.cell
    }

    /// Produce a full copy of the value installed in the subscribed cell.
    pub fn read(&self) -> (snapshot: T)
        requires
            self.source().wf(),
        ensures
            cloned(self.source().value(), snapshot),
    {
        self.cell.read()
    }
}

} // verus!
