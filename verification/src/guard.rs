//! The guard-based reclamation strategy, one atomic action per method.
//!
//! Instead of one global quiescence counter behind a write gate, every
//! generation carries its own reference count. The cell's own handle on the
//! current generation counts as one reference; a read guard counts as one
//! more for exactly the generation it loaded. Whoever drives a count from
//! one to zero — the last guard released, or the installer retiring a
//! generation nobody reads — frees that generation on the spot: no writer
//! ever spins waiting for readers. The law proved here is the
//! zero-crossing: a generation is freed exactly when its last reference is
//! released, never while a guard still holds it, and never twice.
//!
//! An update compares against the cell's live generation, not against a
//! possibly stale guard, so a writer can never starve itself by racing
//! against its own outdated snapshot.

use vstd::pervasive::cloned;
use vstd::pervasive::unreached;
use vstd::pervasive::VecAdditionalExecFns;
use vstd::prelude::*;

use crate::counting::{
    count_matching, lemma_count_lt_len, lemma_count_none, lemma_count_pos, lemma_count_update,
};

verus! {

broadcast use vstd::seq_lib::lemma_seq_contains_after_push, vstd::std_specs::vec::axiom_spec_len;

/// A guard slot holding generation `g`.
pub open spec fn holds_pred(g: int) -> spec_fn(Option<usize>) -> bool {
    |o: Option<usize>| o matches Some(x) && x as int == g
}

/// The cell of the guard strategy, opened up for step-by-step driving: a
/// fixed set of guard slots stands for the guards outstanding at any
/// moment.
pub struct GuardRcu<T> {
    /// Arena of generations; a live generation's slot holds its value.
    pub gens: Vec<Option<T>>,
    /// Reference count of each generation: its outstanding guards, plus one
    /// for the cell itself while the generation is current.
    pub counts: Vec<usize>,
    /// Index of the installed (currently visible) generation.
    pub current: usize,
    /// The outstanding guards: which generation each slot has loaded.
    pub slots: Vec<Option<usize>>,
    /// Installation order: every generation that ever became current.
    pub hist: Ghost<Seq<int>>,
}

impl<T> GuardRcu<T> {
    /// How many generations were ever created.
    pub open spec fn num_gens(&self) -> int {
        self.gens@.len() as int
    }

    /// Generation `g`'s slot has been emptied.
    pub open spec fn freed(&self, g: int) -> bool {
        self.gens@[g] is None
    }

    /// Generation `g` was installed at some point.
    pub open spec fn installed(&self, g: int) -> bool {
        self.hist@.contains(g)
    }

    /// The value generation `g` holds.
    pub open spec fn value_of(&self, g: int) -> T {
        self.gens@[g].unwrap()
    }

    /// The installed value.
    pub open spec fn value(&self) -> T {
        self.value_of(self.current as int)
    }

    /// How many guards hold generation `g`.
    pub open spec fn guard_refs(&self, g: int) -> nat {
        count_matching(self.slots@, holds_pred(g))
    }

    /// All references to generation `g`: its guards, plus the cell's own
    /// handle while `g` is current.
    pub open spec fn refs(&self, g: int) -> nat {
        self.guard_refs(g) + if self.current as int == g {
            1nat
        } else {
            0nat
        }
    }

    /// The generation guard slot `i` holds, if any.
    pub open spec fn slot_gen(&self, i: int) -> int {
        match self.slots@[i] {
            Some(g) => g as int,
            None => -1,
        }
    }

    /// The protocol invariant: counts agree with the outstanding
    /// references, and a slot is empty exactly when its count is zero.
    pub open spec fn inv(&self) -> bool {
        &&& self.counts@.len() == self.gens@.len()
        &&& (self.current as int) < self.num_gens()
        &&& self.slots@.len() < usize::MAX
        &&& self.hist@.len() >= 1
        &&& self.hist@.last() == self.current as int
        &&& self.hist@.no_duplicates()
        &&& forall|k: int| 0 <= k < self.hist@.len() ==> 0 <= #[trigger] self.hist@[k] < self.num_gens()
        &&& self.installed(self.current as int)
        &&& forall|g: int| 0 <= g < self.num_gens() ==> (#[trigger] self.counts@[g]) as nat
            == self.refs(g)
        &&& forall|g: int|
            0 <= g < self.num_gens() ==> ((#[trigger] self.freed(g)) <==> self.counts@[g] == 0)
        &&& forall|i: int|
            0 <= i < self.slots@.len() ==> ((#[trigger] self.slots@[i]) matches Some(g) ==> {
                &&& (g as int) < self.num_gens()
                &&& self.installed(g as int)
            })
    }
}

/// One atomic action of the guard strategy.
pub enum GuardEvent<T> {
    Acquire { i: int },
    Release { i: int },
    Install { expected: int, value: T, won: bool },
}

pub open spec fn rel_acquire<T>(pre: GuardRcu<T>, i: int, post: GuardRcu<T>) -> bool {
    &&& 0 <= i < pre.slots@.len()
    &&& pre.slots@[i] is None
    &&& (pre.current as int) < pre.counts@.len()
    &&& post.slots@ == pre.slots@.update(i, Some(pre.current))
    &&& post.counts@ == pre.counts@.update(
        pre.current as int,
        (pre.counts@[pre.current as int] + 1) as usize,
    )
    &&& post.gens@ == pre.gens@
    &&& post.current == pre.current
    &&& post.hist@ == pre.hist@
}

pub open spec fn rel_release<T>(pre: GuardRcu<T>, i: int, post: GuardRcu<T>) -> bool {
    &&& 0 <= i < pre.slots@.len()
    &&& pre.slots@[i] matches Some(g) && {
        &&& (g as int) < pre.counts@.len()
        &&& (g as int) < pre.gens@.len()
        &&& post.slots@ == pre.slots@.update(i, None)
        &&& post.counts@ == pre.counts@.update(g as int, (pre.counts@[g as int] - 1) as usize)
        &&& post.gens@ == (if pre.counts@[g as int] == 1 {
            pre.gens@.update(g as int, None)
        } else {
            pre.gens@
        })
    }
    &&& post.current == pre.current
    &&& post.hist@ == pre.hist@
}

pub open spec fn rel_install<T>(
    pre: GuardRcu<T>,
    expected: int,
    value: T,
    won: bool,
    post: GuardRcu<T>,
) -> bool {
    &&& won == (expected == pre.current as int)
    &&& if won {
        &&& (pre.current as int) < pre.counts@.len()
        &&& (pre.current as int) < pre.gens@.len()
        &&& post.current == pre.gens.len()
        &&& post.hist@ == pre.hist@.push(pre.gens.len() as int)
        &&& post.gens@ == (if pre.counts@[pre.current as int] == 1 {
            pre.gens@.push(Some(value)).update(pre.current as int, None)
        } else {
            pre.gens@.push(Some(value))
        })
        &&& post.counts@ == pre.counts@.push(1usize).update(
            pre.current as int,
            (pre.counts@[pre.current as int] - 1) as usize,
        )
        &&& post.slots@ == pre.slots@
    } else {
        &&& post.gens@ == pre.gens@
        &&& post.counts@ == pre.counts@
        &&& post.current == pre.current
        &&& post.slots@ == pre.slots@
        &&& post.hist@ == pre.hist@
    }
}

/// The step relation of the guard strategy.
pub open spec fn guard_step<T>(pre: GuardRcu<T>, ev: GuardEvent<T>, post: GuardRcu<T>) -> bool {
    match ev {
        GuardEvent::Acquire { i } => rel_acquire(pre, i, post),
        GuardEvent::Release { i } => rel_release(pre, i, post),
        GuardEvent::Install { expected, value, won } => rel_install(
            pre,
            expected,
            value,
            won,
            post,
        ),
    }
}


proof fn lemma_inv_acquire<T>(pre: GuardRcu<T>, i: int, post: GuardRcu<T>)
    requires
        pre.inv(),
        rel_acquire(pre, i, post),
    ensures
        post.inv(),
{
    let cur = pre.current as int;
    assert(pre.counts@[cur] as nat == pre.refs(cur));
    // the fresh reference fits: the empty slot keeps the guard count below
    // the number of slots
    lemma_count_lt_len(pre.slots@, holds_pred(cur), i);
    assert forall|g: int| 0 <= g < post.num_gens() implies (#[trigger] post.counts@[g]) as nat
        == post.refs(g) by {
        lemma_count_update(pre.slots@, holds_pred(g), i, Some(pre.current));
        assert(pre.counts@[g] as nat == pre.refs(g));
    }
    assert forall|g: int| 0 <= g < post.num_gens() implies ((#[trigger] post.freed(g))
        <==> post.counts@[g] == 0) by {
        lemma_count_update(pre.slots@, holds_pred(g), i, Some(pre.current));
        assert(pre.counts@[g] as nat == pre.refs(g));
        assert((pre.freed(g)) <==> pre.counts@[g] == 0);
        if g == cur {
            assert(pre.counts@[cur] >= 1);
            assert(pre.counts@[cur] + 1 <= usize::MAX);
            assert(post.counts@[g] == (pre.counts@[cur] + 1) as usize);
            assert(post.counts@[g] != 0);
            assert(!pre.freed(g));
            assert(!post.freed(g));
        } else {
            assert(post.counts@[g] == pre.counts@[g]);
            assert(post.freed(g) == pre.freed(g));
        }
    }
}

proof fn lemma_inv_release<T>(pre: GuardRcu<T>, i: int, post: GuardRcu<T>)
    requires
        pre.inv(),
        rel_release(pre, i, post),
    ensures
        post.inv(),
{
    match pre.slots@[i] {
        Some(g0u) => {
            let g0 = g0u as int;
            lemma_count_pos(pre.slots@, holds_pred(g0), i);
            assert(pre.counts@[g0] as nat == pre.refs(g0));
            assert forall|g: int| 0 <= g < post.num_gens() implies (#[trigger] post.counts@[g]) as nat
                == post.refs(g) by {
                lemma_count_update(pre.slots@, holds_pred(g), i, None);
                assert(pre.counts@[g] as nat == pre.refs(g));
            }
            assert forall|g: int| 0 <= g < post.num_gens() implies ((#[trigger] post.freed(g))
                <==> post.counts@[g] == 0) by {
                lemma_count_update(pre.slots@, holds_pred(g), i, None);
                assert(pre.counts@[g] as nat == pre.refs(g));
                assert((pre.freed(g)) <==> pre.counts@[g] == 0);
            }
        },
        None => {},
    }
}

proof fn lemma_inv_install<T>(pre: GuardRcu<T>, expected: int, value: T, won: bool, post: GuardRcu<T>)
    requires
        pre.inv(),
        rel_install(pre, expected, value, won, post),
    ensures
        post.inv(),
{
    if won {
        let neo = pre.gens.len() as int;
        assert(neo == pre.gens@.len());
        let ret = pre.current as int;
        assert(pre.counts@[ret] as nat == pre.refs(ret));
        // the fresh slot was never installed and no guard holds it
        assert(!pre.installed(neo));
        lemma_count_none(pre.slots@, holds_pred(neo));
        assert(post.hist@.no_duplicates()) by {
            assert forall|a: int, b: int|
                0 <= a < post.hist@.len() && 0 <= b < post.hist@.len() && a != b implies post.hist@[a]
                != post.hist@[b] by {
                if a < pre.hist@.len() && b < pre.hist@.len() {
                    assert(pre.hist@[a] != pre.hist@[b]);
                } else if a < pre.hist@.len() {
                    if pre.hist@[a] == neo {
                        assert(pre.hist@.contains(neo));
                    }
                } else {
                    if pre.hist@[b] == neo {
                        assert(pre.hist@.contains(neo));
                    }
                }
            }
        }
        assert(post.installed(post.current as int));
        assert forall|g: int| 0 <= g < post.num_gens() implies (#[trigger] post.counts@[g]) as nat
            == post.refs(g) by {
            if g < pre.num_gens() {
                assert(pre.counts@[g] as nat == pre.refs(g));
            }
            assert(post.guard_refs(g) == count_matching(pre.slots@, holds_pred(g)));
        }
        assert forall|g: int| 0 <= g < post.num_gens() implies ((#[trigger] post.freed(g))
            <==> post.counts@[g] == 0) by {
            if g < pre.num_gens() {
                assert(pre.counts@[g] as nat == pre.refs(g));
                assert((pre.freed(g)) <==> pre.counts@[g] == 0);
                if g == ret {
                    if pre.counts@[ret] == 1 {
                        assert(post.gens@[g] is None);
                        assert(post.counts@[g] == 0);
                    } else {
                        assert(post.counts@[g] == (pre.counts@[ret] - 1) as usize);
                        assert(post.counts@[g] != 0);
                        assert(!pre.freed(g));
                        assert(post.gens@[g] == pre.gens@[g]);
                    }
                } else {
                    assert(post.counts@[g] == pre.counts@[g]);
                    assert(post.gens@[g] == pre.gens@[g]);
                }
            } else {
                assert(g == neo);
                assert(post.counts@[g] == 1usize);
                assert(post.gens@[g] == Some(value));
            }
        }
        assert forall|j: int|
            0 <= j < post.slots@.len() implies ((#[trigger] post.slots@[j]) matches Some(g) ==> {
            &&& (g as int) < post.num_gens()
            &&& post.installed(g as int)
        }) by {
            assert(pre.slots@[j] == post.slots@[j]);
        }
    } else {
        assert forall|g: int| 0 <= g < post.num_gens() implies (#[trigger] post.counts@[g]) as nat
            == post.refs(g) by {
            assert(pre.counts@[g] as nat == pre.refs(g));
        }
        assert forall|g: int| 0 <= g < post.num_gens() implies ((#[trigger] post.freed(g))
            <==> post.counts@[g] == 0) by {
            assert(pre.counts@[g] as nat == pre.refs(g));
            assert((pre.freed(g)) <==> pre.counts@[g] == 0);
        }
        assert forall|j: int|
            0 <= j < post.slots@.len() implies ((#[trigger] post.slots@[j]) matches Some(g) ==> {
            &&& (g as int) < post.num_gens()
            &&& post.installed(g as int)
        }) by {
            assert(pre.slots@[j] == post.slots@[j]);
        }
    }
}

/// Every step of the guard strategy preserves the invariant.
pub proof fn lemma_guard_step_inv<T>(pre: GuardRcu<T>, ev: GuardEvent<T>, post: GuardRcu<T>)
    requires
        pre.inv(),
        guard_step(pre, ev, post),
    ensures
        post.inv(),
{
    match ev {
        GuardEvent::Acquire { i } => lemma_inv_acquire(pre, i, post),
        GuardEvent::Release { i } => lemma_inv_release(pre, i, post),
        GuardEvent::Install { expected, value, won } => lemma_inv_install(
            pre,
            expected,
            value,
            won,
            post,
        ),
    }
}

impl<T> GuardRcu<T> {
    /// Set up a cell holding `initial` as its first generation — reference
    /// count one, for the cell's own handle — with `nslots` guard slots.
    pub fn new(initial: T, nslots: usize) -> (m: Self)
        requires
            nslots < usize::MAX,
        ensures
            m.inv(),
            m.num_gens() == 1,
            m.current == 0,
            m.value_of(0) == initial,
            m.counts@ == seq![1usize],
            m.slots@.len() == nslots,
            forall|i: int| 0 <= i < nslots ==> (#[trigger] m.slots@[i]) is None,
            m.hist@ == seq![0int],
    {
        let mut gens: Vec<Option<T>> = Vec::new();
        gens.push(Some(initial));
        let mut counts: Vec<usize> = Vec::new();
        counts.push(1);
        let mut slots: Vec<Option<usize>> = Vec::new();
        while slots.len() < nslots
            invariant
                slots@.len() <= nslots,
                forall|i: int| 0 <= i < slots@.len() ==> (#[trigger] slots@[i]) is None,
            decreases nslots - slots.len(),
        {
            slots.push(None);
        }
        let ghost order: Seq<int> = seq![0int];
        let m = GuardRcu { gens, counts, current: 0, slots, hist: Ghost(order) };
        proof {
            assert(m.hist@[0] == 0);
            assert forall|g: int| 0 <= g < m.num_gens() implies (#[trigger] m.counts@[g]) as nat
                == m.refs(g) by {
                lemma_count_none(m.slots@, holds_pred(g));
            }
        }
        m
    }

    /// Take a guard: load the current generation into slot `i` and count
    /// one more reference to it.
    pub fn acquire(&mut self, i: usize)
        requires
            old(self).inv(),
            (i as int) < old(self).slots@.len(),
            old(self).slots@[i as int] is None,
        ensures
            final(self).inv(),
            guard_step(*old(self), GuardEvent::Acquire { i: i as int }, *final(self)),
            final(self).slots@[i as int] == Some(old(self).current),
    {
        let g = self.current;
        proof {
            assert(self.counts@[g as int] as nat == self.refs(g as int));
            lemma_count_lt_len(self.slots@, holds_pred(g as int), i as int);
        }
        let c = self.counts[g];
        self.counts.set(g, c + 1);
        self.slots.set(i, Some(g));
        proof {
            lemma_inv_acquire(*old(self), i as int, *self);
        }
    }

    /// Release the guard in slot `i`: count its reference off and, if that
    /// was the last reference, free the generation on the spot. Returns
    /// whether this release freed it.
    ///
    /// The zero-crossing law, per step: the generation is freed exactly
    /// when the released reference was the last one — never while the cell
    /// or another guard still holds it, and a freed generation cannot be
    /// released again.
    pub fn release(&mut self, i: usize) -> (was_last: bool)
        requires
            old(self).inv(),
            (i as int) < old(self).slots@.len(),
            old(self).slots@[i as int] is Some,
        ensures
            final(self).inv(),
            guard_step(*old(self), GuardEvent::Release { i: i as int }, *final(self)),
            was_last == (old(self).counts@[old(self).slot_gen(i as int)] == 1),
            was_last ==> final(self).freed(old(self).slot_gen(i as int)) && old(self).current as int
                != old(self).slot_gen(i as int),
            !was_last ==> !final(self).freed(old(self).slot_gen(i as int)),
    {
        let stp = self.slots[i];
        match stp {
            Some(g) => {
                proof {
                    assert(self.inv());
                    assert(self.slots@[i as int] matches Some(gg) && (gg as int)
                        < self.num_gens());
                    lemma_count_pos(self.slots@, holds_pred(g as int), i as int);
                    assert(self.counts@[g as int] as nat == self.refs(g as int));
                }
                self.slots.set(i, None);
                let c = self.counts[g];
                self.counts.set(g, c - 1);
                if c == 1 {
                    self.gens.set(g, None);
                    proof {
                        lemma_inv_release(*old(self), i as int, *self);
                    }
                    true
                } else {
                    proof {
                        lemma_inv_release(*old(self), i as int, *self);
                    }
                    false
                }
            },
            None => unreached(),
        }
    }

    /// Install `value` as a fresh generation if the cell's current
    /// generation is still `expected` — the compare-and-swap against the
    /// live cell, not against any guard. On success the cell releases its
    /// own reference to the retired generation, freeing it at once if no
    /// guard holds it; on failure nothing changes and the rejected value is
    /// dropped.
    pub fn install(&mut self, expected: usize, value: T) -> (won: bool)
        requires
            old(self).inv(),
        ensures
            final(self).inv(),
            guard_step(
                *old(self),
                GuardEvent::Install { expected: expected as int, value, won },
                *final(self),
            ),
            won == (expected == old(self).current),
            won ==> final(self).value() == value && final(self).num_gens() == old(
                self,
            ).num_gens() + 1,
            !won ==> *final(self) == *old(self),
    {
        if expected == self.current {
            let neo = self.gens.len();
            self.gens.push(Some(value));
            self.counts.push(1);
            let retiring = self.current;
            self.current = neo;
            proof {
                self.hist@ = self.hist@.push(neo as int);
                assert(old(self).counts@[retiring as int] as nat == old(self).refs(
                    retiring as int,
                ));
            }
            let c = self.counts[retiring];
            self.counts.set(retiring, c - 1);
            if c == 1 {
                self.gens.set(retiring, None);
            }
            proof {
                lemma_inv_install(*old(self), expected as int, value, true, *self);
            }
            true
        } else {
            false
        }
    }
}

/// A held guard is never too late: in every reachable state, the
/// generation a guard holds is still live — it cannot have been freed
/// under the guard — and was installed at some point.
pub proof fn lemma_guarded_generation_live<T>(s: GuardRcu<T>, i: int)
    requires
        s.inv(),
        0 <= i < s.slots@.len(),
        s.slots@[i] is Some,
    ensures
        0 <= s.slot_gen(i) < s.num_gens(),
        s.installed(s.slot_gen(i)),
        !s.freed(s.slot_gen(i)),
{
    match s.slots@[i] {
        Some(g) => {
            lemma_count_pos(s.slots@, holds_pred(g as int), i);
            assert(s.counts@[g as int] as nat == s.refs(g as int));
        },
        None => {},
    }
}

impl<T: Clone> GuardRcu<T> {
    /// A copy of the installed value; the cell's own reference keeps the
    /// current generation live.
    pub fn value_now(&self) -> (snapshot: T)
        requires
            self.inv(),
        ensures
            cloned(self.value(), snapshot),
    {
        proof {
            let cur = self.current as int;
            assert(self.counts@[cur] as nat == self.refs(cur));
            assert(self.refs(cur) >= 1);
            assert((self.freed(cur)) <==> self.counts@[cur] == 0);
            assert(!self.freed(cur));
        }
        self.gens[self.current].as_ref().unwrap().clone()
    }

    /// Dereference through the guard in slot `i`: a copy of exactly the
    /// generation that guard holds, which the invariant proves live.
    pub fn guard_value(&self, i: usize) -> (snapshot: T)
        requires
            self.inv(),
            (i as int) < self.slots@.len(),
            self.slots@[i as int] is Some,
        ensures
            cloned(self.value_of(self.slot_gen(i as int)), snapshot),
            self.installed(self.slot_gen(i as int)),
            !self.freed(self.slot_gen(i as int)),
    {
        proof {
            lemma_guarded_generation_live(*self, i as int);
        }
        let stp = self.slots[i];
        match stp {
            Some(g) => self.gens[g].as_ref().unwrap().clone(),
            None => unreached(),
        }
    }
}

/// A run of the guard strategy: `states[0]` stepped through `evs`, under
/// any order of acquisitions, releases and installations.
pub open spec fn valid_guard_run<T>(states: Seq<GuardRcu<T>>, evs: Seq<GuardEvent<T>>) -> bool {
    &&& states.len() == evs.len() + 1
    &&& forall|i: int| 0 <= i < evs.len() ==> #[trigger] guard_step(states[i], evs[i], states[i + 1])
}

/// Along a run that starts in an invariant state, every state satisfies
/// the invariant.
pub proof fn lemma_guard_run_inv<T>(states: Seq<GuardRcu<T>>, evs: Seq<GuardEvent<T>>, i: int)
    requires
        valid_guard_run(states, evs),
        states[0].inv(),
        0 <= i < states.len(),
    ensures
        states[i].inv(),
    decreases i,
{
    if i > 0 {
        lemma_guard_run_inv(states, evs, i - 1);
        let k = i - 1;
        assert(guard_step(states[k], evs[k], states[k + 1]));
        lemma_guard_step_inv(states[k], evs[k], states[i]);
    }
}

/// A step of the guard strategy never revives a freed generation and never
/// shrinks the arena.
proof fn lemma_guard_step_freed_monotone<T>(
    pre: GuardRcu<T>,
    ev: GuardEvent<T>,
    post: GuardRcu<T>,
    g: int,
)
    requires
        guard_step(pre, ev, post),
        0 <= g < pre.num_gens(),
        pre.freed(g),
    ensures
        post.freed(g),
        g < post.num_gens(),
{
    match ev {
        GuardEvent::Acquire { i } => {},
        GuardEvent::Release { i } => {},
        GuardEvent::Install { expected, value, won } => {},
    }
}

/// Once freed, a generation stays freed for the rest of the run.
pub proof fn lemma_guard_freed_stays<T>(
    states: Seq<GuardRcu<T>>,
    evs: Seq<GuardEvent<T>>,
    i: int,
    j: int,
    g: int,
)
    requires
        valid_guard_run(states, evs),
        0 <= i <= j < states.len(),
        0 <= g < states[i].num_gens(),
        states[i].freed(g),
    ensures
        g < states[j].num_gens(),
        states[j].freed(g),
    decreases j - i,
{
    if j > i {
        assert(guard_step(states[i], evs[i], states[i + 1]));
        lemma_guard_step_freed_monotone(states[i], evs[i], states[i + 1], g);
        lemma_guard_freed_stays(states, evs, i + 1, j, g);
    }
}

/// Step `i` of a run frees generation `g`.
pub open spec fn guard_frees_at<T>(states: Seq<GuardRcu<T>>, i: int, g: int) -> bool {
    &&& 0 <= g < states[i].num_gens()
    &&& !states[i].freed(g)
    &&& states[i + 1].freed(g)
}

/// Never twice: whatever the order of releases and installations, each
/// generation is freed at most once along any run.
pub proof fn lemma_guard_freed_at_most_once<T>(
    states: Seq<GuardRcu<T>>,
    evs: Seq<GuardEvent<T>>,
    i: int,
    j: int,
    g: int,
)
    requires
        valid_guard_run(states, evs),
        0 <= i < j < evs.len(),
        guard_frees_at(states, i, g),
    ensures
        !guard_frees_at(states, j, g),
{
    assert(guard_step(states[i], evs[i], states[i + 1]));
    lemma_guard_freed_stays(states, evs, i + 1, j, g);
}
} // verus!
