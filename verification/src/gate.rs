//! The write-gate reclamation protocol, one atomic action per method.
//!
//! `GateRcu` is the cell of [`crate::cell`] opened up: a fixed set of reader
//! threads and writer threads each hold a program position (`ReaderStep`,
//! `WriterStep`), and every atomic action of the protocol — the reader's
//! gate check, registration, pointer load and unregistration; the writer's
//! allocation, gate check, compare-and-swap, gate close, quiescence
//! observation, marker move, reclamation and gate open — is a method that
//! performs exactly that action. Any interleaving of the protocol is a
//! sequence of such calls, so the safety laws hold of every interleaving:
//!
//! - a registered reader's pinned generation is never reclaimed under it;
//! - at most one writer at a time owns a generation's retirement, and a
//!   generation is reclaimed at most once along any run;
//! - the generations installed by successful swaps form one total order,
//!   append-only, and later loads observe later (or equal) positions in it;
//! - a failed compare-and-swap changes nothing observable, and the rejected
//!   generation — never installed — is discarded exactly once.
//!
//! Allocation of the new generation and the load of the previous-generation
//! marker are taken as one step: allocation touches no shared state, so
//! folding it into the adjacent load loses no observable interleaving.

use vstd::pervasive::cloned;
use vstd::pervasive::unreached;
use vstd::pervasive::VecAdditionalExecFns;
use vstd::prelude::*;

use crate::counting::{
    count_matching, lemma_count_lt_len, lemma_count_none, lemma_count_pos, lemma_count_update,
    lemma_count_zero,
};

verus! {

broadcast use vstd::seq_lib::lemma_seq_contains_after_push, vstd::std_specs::vec::axiom_spec_len;

/// Where a reader thread stands in the read protocol.
#[derive(Clone, Copy)]
pub enum ReaderStep {
    /// Not reading.
    Outside,
    /// Saw the write gate open; about to register.
    Passed,
    /// Counted in the quiescence counter; about to load the current
    /// generation.
    Registered,
    /// Loaded `gen` and is copying out of it.
    Pinned { gen: usize },
}

/// Where a writer thread stands in the update protocol.
#[derive(Clone, Copy)]
pub enum WriterStep {
    /// Not writing.
    Outside,
    /// Allocated the generation `neo` and loaded the previous-generation
    /// marker as `expected`; has not checked the write gate yet.
    Ready { expected: usize, neo: usize },
    /// Saw the write gate open; about to attempt the compare-and-swap.
    Armed { expected: usize, neo: usize },
    /// Won the compare-and-swap; `retiring` is now this writer's alone to
    /// reclaim.
    Swapped { retiring: usize, neo: usize },
    /// Closed the write gate; waiting for the quiescence count to drain.
    Draining { retiring: usize, neo: usize },
    /// Observed the count at zero: no reader holds `retiring` any more.
    Quiesced { retiring: usize, neo: usize },
    /// Moved the previous-generation marker onto `neo`; about to reclaim.
    MarkerMoved { retiring: usize, neo: usize },
    /// Emptied the retired slot; about to reopen the write gate.
    Freed { neo: usize },
    /// Lost the compare-and-swap; still owns the rejected generation `neo`.
    Rejected { neo: usize },
}

/// A reader in this position is counted in the quiescence counter.
pub open spec fn reader_active(s: ReaderStep) -> bool {
    s is Registered || s is Pinned
}

/// The counted-reader predicate, as one shared closure.
pub open spec fn active_pred() -> spec_fn(ReaderStep) -> bool {
    |s: ReaderStep| reader_active(s)
}

/// A writer in this position has won a compare-and-swap and not yet
/// finished retiring the superseded generation.
pub open spec fn winner(s: WriterStep) -> bool {
    s is Swapped || s is Draining || s is Quiesced || s is MarkerMoved || s is Freed
}

/// A writer in this position holds the write gate closed.
pub open spec fn gate_holder(s: WriterStep) -> bool {
    s is Draining || s is Quiesced || s is MarkerMoved || s is Freed
}

/// A winner that has not yet moved the previous-generation marker.
pub open spec fn early_winner(s: WriterStep) -> bool {
    s is Swapped || s is Draining || s is Quiesced
}

/// A writer in this position owns a generation that was never installed.
pub open spec fn pending(s: WriterStep) -> bool {
    s is Ready || s is Armed || s is Rejected
}

/// The generation a non-idle writer owns or installed.
pub open spec fn neo_of(s: WriterStep) -> int {
    match s {
        WriterStep::Outside => -1,
        WriterStep::Ready { neo, .. } => neo as int,
        WriterStep::Armed { neo, .. } => neo as int,
        WriterStep::Swapped { neo, .. } => neo as int,
        WriterStep::Draining { neo, .. } => neo as int,
        WriterStep::Quiesced { neo, .. } => neo as int,
        WriterStep::MarkerMoved { neo, .. } => neo as int,
        WriterStep::Freed { neo } => neo as int,
        WriterStep::Rejected { neo } => neo as int,
    }
}

/// Pairwise obligations of two distinct writer threads: never two winners
/// at once, and never two pending writers owning the same slot.
pub open spec fn writer_pair_ok(a: WriterStep, b: WriterStep) -> bool {
    &&& !(winner(a) && winner(b))
    &&& (pending(a) && pending(b) ==> neo_of(a) != neo_of(b))
}

/// The cell of the write-gate protocol, opened up for step-by-step driving.
pub struct GateRcu<T> {
    /// Arena of generations; a live generation's slot holds its value.
    pub gens: Vec<Option<T>>,
    /// Index of the installed (currently visible) generation.
    pub current: usize,
    /// Marker of the previously installed generation, the expected value of
    /// the writer's compare-and-swap.
    pub prev_marker: usize,
    /// The quiescence counter: how many readers are registered right now.
    pub quiescence: usize,
    /// The write gate: closed while a winner retires a generation.
    pub gate: bool,
    /// Program position of each reader thread.
    pub readers: Vec<ReaderStep>,
    /// Program position of each writer thread.
    pub writers: Vec<WriterStep>,
    /// Installation order: every generation that ever became current.
    pub hist: Ghost<Seq<int>>,
}

impl<T> GateRcu<T> {
    /// How many generations were ever created (live, pending and retired).
    pub open spec fn num_gens(&self) -> int {
        self.gens@.len() as int
    }

    /// Generation `g`'s slot has been emptied.
    pub open spec fn freed(&self, g: int) -> bool {
        self.gens@[g] is None
    }

    /// Generation `g` was installed (became current) at some point.
    pub open spec fn installed(&self, g: int) -> bool {
        self.hist@.contains(g)
    }

    /// The value generation `g` holds.
    pub open spec fn value_of(&self, g: int) -> T {
        self.gens@[g].unwrap()
    }

    /// Obligations of one reader position.
    pub open spec fn reader_ok(&self, s: ReaderStep) -> bool {
        match s {
            ReaderStep::Pinned { gen } => {
                &&& (gen as int) < self.num_gens()
                &&& self.installed(gen as int)
                &&& !self.freed(gen as int)
            },
            _ => true,
        }
    }

    /// No reader is pinned to generation `g`.
    pub open spec fn no_pinned(&self, g: usize) -> bool {
        forall|r: int|
            0 <= r < self.readers@.len() ==> !((#[trigger] self.readers@[r]) matches
                ReaderStep::Pinned { gen } && gen == g)
    }

    /// Obligations of a writer that owns an uninstalled generation.
    pub open spec fn pending_ok(&self, expected: usize, neo: usize) -> bool {
        &&& (expected as int) < self.num_gens()
        &&& (neo as int) < self.num_gens()
        &&& self.installed(expected as int)
        &&& !self.installed(neo as int)
        &&& !self.freed(neo as int)
    }

    /// Obligations shared by all winner positions that still track the
    /// retiring generation.
    pub open spec fn winner_ok(&self, retiring: usize, neo: usize) -> bool {
        &&& (retiring as int) < self.num_gens()
        &&& (neo as int) < self.num_gens()
        &&& retiring != neo
        &&& neo == self.current
        &&& self.installed(retiring as int)
        &&& self.installed(neo as int)
    }

    /// The writer's expected marker differs from the slot of every winner
    /// that has not yet moved the marker.
    pub open spec fn clear_of_early_winners(&self, expected: usize) -> bool {
        forall|w: int|
            0 <= w < self.writers@.len() && early_winner(#[trigger] self.writers@[w])
                ==> expected as int != neo_of(self.writers@[w])
    }

    /// The writer's expected marker differs from the slot of every winner.
    pub open spec fn clear_of_winners(&self, expected: usize) -> bool {
        forall|w: int|
            0 <= w < self.writers@.len() && winner(#[trigger] self.writers@[w]) ==> expected as int
                != neo_of(self.writers@[w])
    }

    /// Obligations of one writer position.
    pub open spec fn writer_ok(&self, s: WriterStep) -> bool {
        match s {
            WriterStep::Outside => true,
            WriterStep::Ready { expected, neo } => {
                &&& self.pending_ok(expected, neo)
                &&& self.clear_of_early_winners(expected)
            },
            WriterStep::Armed { expected, neo } => {
                &&& self.pending_ok(expected, neo)
                &&& self.clear_of_winners(expected)
            },
            WriterStep::Swapped { retiring, neo } => {
                &&& self.winner_ok(retiring, neo)
                &&& self.prev_marker == retiring
                &&& !self.freed(retiring as int)
            },
            WriterStep::Draining { retiring, neo } => {
                &&& self.winner_ok(retiring, neo)
                &&& self.prev_marker == retiring
                &&& !self.freed(retiring as int)
            },
            WriterStep::Quiesced { retiring, neo } => {
                &&& self.winner_ok(retiring, neo)
                &&& self.prev_marker == retiring
                &&& !self.freed(retiring as int)
                &&& self.no_pinned(retiring)
            },
            WriterStep::MarkerMoved { retiring, neo } => {
                &&& self.winner_ok(retiring, neo)
                &&& self.prev_marker == neo
                &&& !self.freed(retiring as int)
                &&& self.no_pinned(retiring)
            },
            WriterStep::Freed { neo } => {
                &&& (neo as int) < self.num_gens()
                &&& neo == self.current
                &&& self.installed(neo as int)
                &&& self.prev_marker == neo
            },
            WriterStep::Rejected { neo } => {
                &&& (neo as int) < self.num_gens()
                &&& !self.installed(neo as int)
                &&& !self.freed(neo as int)
            },
        }
    }

    /// The protocol invariant: what holds of every reachable state.
    pub open spec fn inv(&self) -> bool {
        &&& (self.current as int) < self.num_gens()
        &&& (self.prev_marker as int) < self.num_gens()
        &&& self.hist@.len() >= 1
        &&& self.hist@.last() == self.current as int
        &&& self.hist@.no_duplicates()
        &&& forall|k: int| 0 <= k < self.hist@.len() ==> 0 <= #[trigger] self.hist@[k] < self.num_gens()
        &&& self.installed(self.current as int)
        &&& self.installed(self.prev_marker as int)
        &&& !self.freed(self.current as int)
        &&& self.quiescence == count_matching(self.readers@, active_pred())
        &&& forall|r: int| 0 <= r < self.readers@.len() ==> self.reader_ok(#[trigger] self.readers@[r])
        &&& forall|w: int| 0 <= w < self.writers@.len() ==> self.writer_ok(#[trigger] self.writers@[w])
        &&& forall|w1: int, w2: int|
            0 <= w1 < self.writers@.len() && 0 <= w2 < self.writers@.len() && w1 != w2
                ==> writer_pair_ok(#[trigger] self.writers@[w1], #[trigger] self.writers@[w2])
        &&& (self.gate <==> exists|w: int|
            0 <= w < self.writers@.len() && gate_holder(#[trigger] self.writers@[w]))
        &&& (self.prev_marker == self.current || (exists|w: int|
            0 <= w < self.writers@.len() && winner(#[trigger] self.writers@[w])))
    }
}

/// One atomic action of the protocol, with its outcome where the action is
/// a test that may have to be retried (a gate check, the compare-and-swap,
/// the quiescence observation).
pub enum GateEvent<T> {
    ReaderArrive { r: int, entered: bool },
    ReaderRegister { r: int },
    ReaderLoad { r: int },
    ReaderUnregister { r: int },
    WriterPrepare { w: int, value: T },
    WriterArm { w: int, entered: bool },
    WriterSwap { w: int, won: bool },
    WriterCloseGate { w: int },
    WriterObserve { w: int, quiet: bool },
    WriterMoveMarker { w: int },
    WriterReclaim { w: int },
    WriterOpenGate { w: int },
    WriterDiscard { w: int },
}

/// The shared cell fields `post` leaves exactly as in `pre`.
pub open spec fn same_cell<T>(pre: GateRcu<T>, post: GateRcu<T>) -> bool {
    &&& post.gens@ == pre.gens@
    &&& post.current == pre.current
    &&& post.prev_marker == pre.prev_marker
    &&& post.gate == pre.gate
    &&& post.hist@ == pre.hist@
}

pub open spec fn rel_reader_arrive<T>(
    pre: GateRcu<T>,
    r: int,
    entered: bool,
    post: GateRcu<T>,
) -> bool {
    &&& 0 <= r < pre.readers@.len()
    &&& pre.readers@[r] is Outside
    &&& entered == !pre.gate
    &&& same_cell(pre, post)
    &&& post.quiescence == pre.quiescence
    &&& post.writers@ == pre.writers@
    &&& post.readers@ == if entered {
        pre.readers@.update(r, ReaderStep::Passed)
    } else {
        pre.readers@
    }
}

pub open spec fn rel_reader_register<T>(pre: GateRcu<T>, r: int, post: GateRcu<T>) -> bool {
    &&& 0 <= r < pre.readers@.len()
    &&& pre.readers@[r] is Passed
    &&& same_cell(pre, post)
    &&& post.quiescence == pre.quiescence + 1
    &&& post.writers@ == pre.writers@
    &&& post.readers@ == pre.readers@.update(r, ReaderStep::Registered)
}

pub open spec fn rel_reader_load<T>(pre: GateRcu<T>, r: int, post: GateRcu<T>) -> bool {
    &&& 0 <= r < pre.readers@.len()
    &&& pre.readers@[r] is Registered
    &&& same_cell(pre, post)
    &&& post.quiescence == pre.quiescence
    &&& post.writers@ == pre.writers@
    &&& post.readers@ == pre.readers@.update(r, ReaderStep::Pinned { gen: pre.current })
}

pub open spec fn rel_reader_unregister<T>(pre: GateRcu<T>, r: int, post: GateRcu<T>) -> bool {
    &&& 0 <= r < pre.readers@.len()
    &&& pre.readers@[r] is Pinned
    &&& same_cell(pre, post)
    &&& post.quiescence == pre.quiescence - 1
    &&& post.writers@ == pre.writers@
    &&& post.readers@ == pre.readers@.update(r, ReaderStep::Outside)
}

pub open spec fn rel_writer_prepare<T>(
    pre: GateRcu<T>,
    w: int,
    value: T,
    post: GateRcu<T>,
) -> bool {
    &&& 0 <= w < pre.writers@.len()
    &&& pre.writers@[w] is Outside
    &&& post.gens@ == pre.gens@.push(Some(value))
    &&& post.current == pre.current
    &&& post.prev_marker == pre.prev_marker
    &&& post.gate == pre.gate
    &&& post.hist@ == pre.hist@
    &&& post.quiescence == pre.quiescence
    &&& post.readers@ == pre.readers@
    &&& post.writers@ == pre.writers@.update(
        w,
        WriterStep::Ready { expected: pre.prev_marker, neo: pre.gens.len() },
    )
}

pub open spec fn rel_writer_arm<T>(
    pre: GateRcu<T>,
    w: int,
    entered: bool,
    post: GateRcu<T>,
) -> bool {
    &&& 0 <= w < pre.writers@.len()
    &&& pre.writers@[w] matches WriterStep::Ready { expected, neo } && post.writers@ == (if entered {
        pre.writers@.update(w, WriterStep::Armed { expected, neo })
    } else {
        pre.writers@
    })
    &&& entered == !pre.gate
    &&& same_cell(pre, post)
    &&& post.quiescence == pre.quiescence
    &&& post.readers@ == pre.readers@
}

pub open spec fn rel_writer_swap<T>(pre: GateRcu<T>, w: int, won: bool, post: GateRcu<T>) -> bool {
    &&& 0 <= w < pre.writers@.len()
    &&& pre.writers@[w] matches WriterStep::Armed { expected, neo } && {
        &&& won == (expected == pre.current)
        &&& if won {
            &&& post.gens@ == pre.gens@
            &&& post.current == neo
            &&& post.prev_marker == pre.prev_marker
            &&& post.gate == pre.gate
            &&& post.hist@ == pre.hist@.push(neo as int)
            &&& post.writers@ == pre.writers@.update(
                w,
                WriterStep::Swapped { retiring: pre.current, neo },
            )
        } else {
            &&& same_cell(pre, post)
            &&& post.writers@ == pre.writers@.update(w, WriterStep::Rejected { neo })
        }
    }
    &&& post.quiescence == pre.quiescence
    &&& post.readers@ == pre.readers@
}

pub open spec fn rel_writer_close_gate<T>(pre: GateRcu<T>, w: int, post: GateRcu<T>) -> bool {
    &&& 0 <= w < pre.writers@.len()
    &&& pre.writers@[w] matches WriterStep::Swapped { retiring, neo } && post.writers@
        == pre.writers@.update(w, WriterStep::Draining { retiring, neo })
    &&& post.gens@ == pre.gens@
    &&& post.current == pre.current
    &&& post.prev_marker == pre.prev_marker
    &&& post.gate == true
    &&& post.hist@ == pre.hist@
    &&& post.quiescence == pre.quiescence
    &&& post.readers@ == pre.readers@
}

pub open spec fn rel_writer_observe<T>(
    pre: GateRcu<T>,
    w: int,
    quiet: bool,
    post: GateRcu<T>,
) -> bool {
    &&& 0 <= w < pre.writers@.len()
    &&& pre.writers@[w] matches WriterStep::Draining { retiring, neo } && post.writers@ == (if quiet {
        pre.writers@.update(w, WriterStep::Quiesced { retiring, neo })
    } else {
        pre.writers@
    })
    &&& quiet == (pre.quiescence == 0)
    &&& same_cell(pre, post)
    &&& post.quiescence == pre.quiescence
    &&& post.readers@ == pre.readers@
}

pub open spec fn rel_writer_move_marker<T>(pre: GateRcu<T>, w: int, post: GateRcu<T>) -> bool {
    &&& 0 <= w < pre.writers@.len()
    &&& pre.writers@[w] matches WriterStep::Quiesced { retiring, neo } && {
        &&& post.writers@ == pre.writers@.update(w, WriterStep::MarkerMoved { retiring, neo })
        &&& post.prev_marker == neo
    }
    &&& post.gens@ == pre.gens@
    &&& post.current == pre.current
    &&& post.gate == pre.gate
    &&& post.hist@ == pre.hist@
    &&& post.quiescence == pre.quiescence
    &&& post.readers@ == pre.readers@
}

pub open spec fn rel_writer_reclaim<T>(pre: GateRcu<T>, w: int, post: GateRcu<T>) -> bool {
    &&& 0 <= w < pre.writers@.len()
    &&& pre.writers@[w] matches WriterStep::MarkerMoved { retiring, neo } && {
        &&& (retiring as int) < pre.num_gens()
        &&& post.writers@ == pre.writers@.update(w, WriterStep::Freed { neo })
        &&& post.gens@ == pre.gens@.update(retiring as int, None)
    }
    &&& post.current == pre.current
    &&& post.prev_marker == pre.prev_marker
    &&& post.gate == pre.gate
    &&& post.hist@ == pre.hist@
    &&& post.quiescence == pre.quiescence
    &&& post.readers@ == pre.readers@
}

pub open spec fn rel_writer_open_gate<T>(pre: GateRcu<T>, w: int, post: GateRcu<T>) -> bool {
    &&& 0 <= w < pre.writers@.len()
    &&& pre.writers@[w] is Freed
    &&& post.writers@ == pre.writers@.update(w, WriterStep::Outside)
    &&& post.gens@ == pre.gens@
    &&& post.current == pre.current
    &&& post.prev_marker == pre.prev_marker
    &&& post.gate == false
    &&& post.hist@ == pre.hist@
    &&& post.quiescence == pre.quiescence
    &&& post.readers@ == pre.readers@
}

pub open spec fn rel_writer_discard<T>(pre: GateRcu<T>, w: int, post: GateRcu<T>) -> bool {
    &&& 0 <= w < pre.writers@.len()
    &&& pre.writers@[w] matches WriterStep::Rejected { neo } && {
        &&& (neo as int) < pre.num_gens()
        &&& post.gens@ == pre.gens@.update(neo as int, None)
    }
    &&& post.writers@ == pre.writers@.update(w, WriterStep::Outside)
    &&& post.current == pre.current
    &&& post.prev_marker == pre.prev_marker
    &&& post.gate == pre.gate
    &&& post.hist@ == pre.hist@
    &&& post.quiescence == pre.quiescence
    &&& post.readers@ == pre.readers@
}

/// The step relation of the protocol: `post` is the result of performing
/// `ev` in `pre`.
pub open spec fn gate_step<T>(pre: GateRcu<T>, ev: GateEvent<T>, post: GateRcu<T>) -> bool {
    match ev {
        GateEvent::ReaderArrive { r, entered } => rel_reader_arrive(pre, r, entered, post),
        GateEvent::ReaderRegister { r } => rel_reader_register(pre, r, post),
        GateEvent::ReaderLoad { r } => rel_reader_load(pre, r, post),
        GateEvent::ReaderUnregister { r } => rel_reader_unregister(pre, r, post),
        GateEvent::WriterPrepare { w, value } => rel_writer_prepare(pre, w, value, post),
        GateEvent::WriterArm { w, entered } => rel_writer_arm(pre, w, entered, post),
        GateEvent::WriterSwap { w, won } => rel_writer_swap(pre, w, won, post),
        GateEvent::WriterCloseGate { w } => rel_writer_close_gate(pre, w, post),
        GateEvent::WriterObserve { w, quiet } => rel_writer_observe(pre, w, quiet, post),
        GateEvent::WriterMoveMarker { w } => rel_writer_move_marker(pre, w, post),
        GateEvent::WriterReclaim { w } => rel_writer_reclaim(pre, w, post),
        GateEvent::WriterOpenGate { w } => rel_writer_open_gate(pre, w, post),
        GateEvent::WriterDiscard { w } => rel_writer_discard(pre, w, post),
    }
}


/// The invariant holds of the initial state built by `GateRcu::new` and is
/// preserved by every step; these lemmas prove preservation case by case.
proof fn lemma_inv_reader_arrive<T>(pre: GateRcu<T>, r: int, entered: bool, post: GateRcu<T>)
    requires
        pre.inv(),
        rel_reader_arrive(pre, r, entered, post),
    ensures
        post.inv(),
{
    if entered {
        lemma_count_update(pre.readers@, active_pred(), r, ReaderStep::Passed);
    }
    assert forall|i: int| 0 <= i < post.readers@.len() implies post.reader_ok(
        #[trigger] post.readers@[i],
    ) by {
        assert(pre.reader_ok(pre.readers@[i]));
    }
    assert forall|w: int| 0 <= w < post.writers@.len() implies post.writer_ok(
        #[trigger] post.writers@[w],
    ) by {
        assert(pre.writer_ok(pre.writers@[w]));
    }
}

proof fn lemma_inv_reader_register<T>(pre: GateRcu<T>, r: int, post: GateRcu<T>)
    requires
        pre.inv(),
        rel_reader_register(pre, r, post),
    ensures
        post.inv(),
{
    lemma_count_update(pre.readers@, active_pred(), r, ReaderStep::Registered);
    assert forall|i: int| 0 <= i < post.readers@.len() implies post.reader_ok(
        #[trigger] post.readers@[i],
    ) by {
        assert(pre.reader_ok(pre.readers@[i]));
    }
    assert forall|w: int| 0 <= w < post.writers@.len() implies post.writer_ok(
        #[trigger] post.writers@[w],
    ) by {
        assert(pre.writer_ok(pre.writers@[w]));
    }
}

proof fn lemma_inv_reader_load<T>(pre: GateRcu<T>, r: int, post: GateRcu<T>)
    requires
        pre.inv(),
        rel_reader_load(pre, r, post),
    ensures
        post.inv(),
{
    lemma_count_update(pre.readers@, active_pred(), r, ReaderStep::Pinned { gen: pre.current });
    assert forall|i: int| 0 <= i < post.readers@.len() implies post.reader_ok(
        #[trigger] post.readers@[i],
    ) by {
        assert(pre.reader_ok(pre.readers@[i]));
    }
    assert forall|w: int| 0 <= w < post.writers@.len() implies post.writer_ok(
        #[trigger] post.writers@[w],
    ) by {
        assert(pre.writer_ok(pre.writers@[w]));
        // a winner past its quiescence observation is retiring a generation
        // other than the current one, so the fresh pin cannot touch it
    }
}

proof fn lemma_inv_reader_unregister<T>(pre: GateRcu<T>, r: int, post: GateRcu<T>)
    requires
        pre.inv(),
        rel_reader_unregister(pre, r, post),
    ensures
        post.inv(),
{
    lemma_count_pos(pre.readers@, active_pred(), r);
    lemma_count_update(pre.readers@, active_pred(), r, ReaderStep::Outside);
    assert forall|i: int| 0 <= i < post.readers@.len() implies post.reader_ok(
        #[trigger] post.readers@[i],
    ) by {
        assert(pre.reader_ok(pre.readers@[i]));
    }
    assert forall|w: int| 0 <= w < post.writers@.len() implies post.writer_ok(
        #[trigger] post.writers@[w],
    ) by {
        assert(pre.writer_ok(pre.writers@[w]));
    }
}

proof fn lemma_inv_writer_prepare<T>(pre: GateRcu<T>, w: int, value: T, post: GateRcu<T>)
    requires
        pre.inv(),
        rel_writer_prepare(pre, w, value, post),
    ensures
        post.inv(),
{
    let neo = pre.gens.len();
    assert(neo == pre.gens@.len());
    // the fresh slot was never installed: every installed index is below it
    assert(!post.installed(neo as int));
    assert(post.gens@[neo as int] == Some(value));
    assert forall|i: int| 0 <= i < post.readers@.len() implies post.reader_ok(
        #[trigger] post.readers@[i],
    ) by {
        assert(pre.reader_ok(pre.readers@[i]));
    }
    assert forall|v: int| 0 <= v < post.writers@.len() implies post.writer_ok(
        #[trigger] post.writers@[v],
    ) by {
        assert(pre.writer_ok(pre.writers@[v]));
        if v == w {
            // the loaded marker clears every early winner: such a winner
            // keeps the marker equal to its retiring slot, never its own
            assert forall|u: int|
                0 <= u < post.writers@.len() && early_winner(#[trigger] post.writers@[u]) implies (
            pre.prev_marker as int) != neo_of(post.writers@[u]) by {
                assert(u != w);
                assert(pre.writer_ok(pre.writers@[u]));
            }
        } else {
            match pre.writers@[v] {
                WriterStep::Ready { expected: e2, neo: n2 } => {
                    assert(post.pending_ok(e2, n2));
                    assert forall|u: int|
                        0 <= u < post.writers@.len() && early_winner(
                        #[trigger] post.writers@[u],
                    ) implies (e2 as int) != neo_of(post.writers@[u]) by {
                        assert(u != w);
                        assert(pre.writer_ok(pre.writers@[u]));
                        assert(early_winner(pre.writers@[u]));
                    }
                },
                WriterStep::Armed { expected: e2, neo: n2 } => {
                    assert(post.pending_ok(e2, n2));
                    assert forall|u: int|
                        0 <= u < post.writers@.len() && winner(#[trigger] post.writers@[u]) implies (
                    e2 as int) != neo_of(post.writers@[u]) by {
                        assert(u != w);
                        assert(pre.writer_ok(pre.writers@[u]));
                        assert(winner(pre.writers@[u]));
                    }
                },
                _ => {},
            }
        }
    }
    assert forall|w1: int, w2: int|
        0 <= w1 < post.writers@.len() && 0 <= w2 < post.writers@.len() && w1 != w2 implies writer_pair_ok(
        #[trigger] post.writers@[w1],
        #[trigger] post.writers@[w2],
    ) by {
        if w1 != w && w2 != w {
            assert(writer_pair_ok(pre.writers@[w1], pre.writers@[w2]));
        } else {
            let other = if w1 == w {
                w2
            } else {
                w1
            };
            assert(pre.writer_ok(pre.writers@[other]));
            // a pending slot of another writer lies below the fresh index
        }
    }
    assert(post.gate <==> (exists|v: int|
        0 <= v < post.writers@.len() && gate_holder(#[trigger] post.writers@[v]))) by {
        if pre.gate {
            let v = choose|v: int|
                0 <= v < pre.writers@.len() && gate_holder(#[trigger] pre.writers@[v]);
            assert(v != w);
            assert(gate_holder(post.writers@[v]));
        } else {
            assert forall|v: int| 0 <= v < post.writers@.len() implies !gate_holder(
                #[trigger] post.writers@[v],
            ) by {
                if v != w {
                    assert(!gate_holder(pre.writers@[v]));
                }
            }
        }
    }
    if pre.prev_marker != pre.current {
        let v = choose|v: int| 0 <= v < pre.writers@.len() && winner(#[trigger] pre.writers@[v]);
        assert(winner(post.writers@[v]));
    }
}


proof fn lemma_inv_writer_arm<T>(pre: GateRcu<T>, w: int, entered: bool, post: GateRcu<T>)
    requires
        pre.inv(),
        rel_writer_arm(pre, w, entered, post),
    ensures
        post.inv(),
{
    assert forall|i: int| 0 <= i < post.readers@.len() implies post.reader_ok(
        #[trigger] post.readers@[i],
    ) by {
        assert(pre.reader_ok(pre.readers@[i]));
    }
    assert forall|v: int| 0 <= v < post.writers@.len() implies post.writer_ok(
        #[trigger] post.writers@[v],
    ) by {
        assert(pre.writer_ok(pre.writers@[v]));
        if entered && v == w {
            match pre.writers@[w] {
                WriterStep::Ready { expected: e, neo: n } => {
                    // the write gate stands open, so any winner still sits before
                    // its gate close: an early winner, which the loaded
                    // marker already clears
                    assert forall|u: int|
                        0 <= u < post.writers@.len() && winner(#[trigger] post.writers@[u]) implies (
                    e as int) != neo_of(post.writers@[u]) by {
                        assert(u != w);
                        assert(pre.writer_ok(pre.writers@[u]));
                        if gate_holder(pre.writers@[u]) {
                            assert(pre.gate);
                        }
                        assert(early_winner(pre.writers@[u]));
                    }
                },
                _ => {},
            }
        }
    }
    assert forall|w1: int, w2: int|
        0 <= w1 < post.writers@.len() && 0 <= w2 < post.writers@.len() && w1 != w2 implies writer_pair_ok(
        #[trigger] post.writers@[w1],
        #[trigger] post.writers@[w2],
    ) by {
        assert(writer_pair_ok(pre.writers@[w1], pre.writers@[w2]));
    }
    assert(post.gate <==> (exists|v: int|
        0 <= v < post.writers@.len() && gate_holder(#[trigger] post.writers@[v]))) by {
        if pre.gate {
            let v: int = choose|v: int|
                0 <= v < pre.writers@.len() && gate_holder(#[trigger] pre.writers@[v]);
            assert(v != w);
            assert(gate_holder(post.writers@[v]));
        } else {
            assert forall|v: int| 0 <= v < post.writers@.len() implies !gate_holder(
                #[trigger] post.writers@[v],
            ) by {
                if v != w {
                    assert(!gate_holder(pre.writers@[v]));
                }
            }
        }
    }
    if pre.prev_marker != pre.current {
        let v: int = choose|v: int|
            0 <= v < pre.writers@.len() && winner(#[trigger] pre.writers@[v]);
        assert(v != w);
        assert(winner(post.writers@[v]));
    }
}

proof fn lemma_inv_writer_swap<T>(pre: GateRcu<T>, w: int, won: bool, post: GateRcu<T>)
    requires
        pre.inv(),
        rel_writer_swap(pre, w, won, post),
    ensures
        post.inv(),
{
    match pre.writers@[w] {
        WriterStep::Armed { expected: e, neo: n } => {
            if won {
                // no winner is in flight: a winner's installed slot is the
                // current one, and the armed writer's loaded marker clears
                // the slot of every winner, yet the swap found the marker
                // equal to current
                assert forall|v: int| 0 <= v < pre.writers@.len() implies !winner(
                    #[trigger] pre.writers@[v],
                ) by {
                    if winner(pre.writers@[v]) {
                        assert(v != w);
                        assert(pre.writer_ok(pre.writers@[v]));
                        assert(neo_of(pre.writers@[v]) == pre.current as int);
                        assert((e as int) != neo_of(pre.writers@[v]));
                        assert(false);
                    }
                }
                if pre.prev_marker != pre.current {
                    let v: int = choose|v: int|
                        0 <= v < pre.writers@.len() && winner(#[trigger] pre.writers@[v]);
                    assert(false);
                }
                // the fresh installation order: one more slot, still unique
                assert(post.hist@.last() == n as int);
                assert(post.hist@.no_duplicates()) by {
                    assert forall|i: int, j: int|
                        0 <= i < post.hist@.len() && 0 <= j < post.hist@.len() && i != j implies
                    post.hist@[i] != post.hist@[j] by {
                        if i < pre.hist@.len() && j < pre.hist@.len() {
                            assert(pre.hist@[i] != pre.hist@[j]);
                        } else if i < pre.hist@.len() {
                            if pre.hist@[i] == n as int {
                                assert(pre.hist@.contains(n as int));
                            }
                        } else {
                            if pre.hist@[j] == n as int {
                                assert(pre.hist@.contains(n as int));
                            }
                        }
                    }
                }
                assert(post.installed(post.current as int));
                assert forall|i: int| 0 <= i < post.readers@.len() implies post.reader_ok(
                    #[trigger] post.readers@[i],
                ) by {
                    assert(pre.reader_ok(pre.readers@[i]));
                }
                assert forall|v: int| 0 <= v < post.writers@.len() implies post.writer_ok(
                    #[trigger] post.writers@[v],
                ) by {
                    assert(pre.writer_ok(pre.writers@[v]));
                    if v == w {
                        assert(post.writer_ok(post.writers@[w]));
                    } else {
                        match pre.writers@[v] {
                            WriterStep::Ready { expected: e2, neo: n2 } => {
                                assert(writer_pair_ok(pre.writers@[v], pre.writers@[w]));
                                assert(!post.installed(n2 as int));
                                assert forall|u: int|
                                    0 <= u < post.writers@.len() && early_winner(
                                    #[trigger] post.writers@[u],
                                ) implies (e2 as int) != neo_of(post.writers@[u]) by {
                                    if u != w {
                                        assert(!winner(pre.writers@[u]));
                                    }
                                }
                            },
                            WriterStep::Armed { expected: e2, neo: n2 } => {
                                assert(writer_pair_ok(pre.writers@[v], pre.writers@[w]));
                                assert(!post.installed(n2 as int));
                                assert forall|u: int|
                                    0 <= u < post.writers@.len() && winner(
                                    #[trigger] post.writers@[u],
                                ) implies (e2 as int) != neo_of(post.writers@[u]) by {
                                    if u != w {
                                        assert(!winner(pre.writers@[u]));
                                    }
                                }
                            },
                            WriterStep::Rejected { neo: n2 } => {
                                assert(writer_pair_ok(pre.writers@[v], pre.writers@[w]));
                                assert(!post.installed(n2 as int));
                            },
                            _ => {},
                        }
                    }
                }
                assert forall|w1: int, w2: int|
                    0 <= w1 < post.writers@.len() && 0 <= w2 < post.writers@.len() && w1 != w2 implies writer_pair_ok(
                    #[trigger] post.writers@[w1],
                    #[trigger] post.writers@[w2],
                ) by {
                    assert(writer_pair_ok(pre.writers@[w1], pre.writers@[w2]));
                    if w1 != w && w2 != w {
                        assert(!winner(pre.writers@[w1]) && !winner(pre.writers@[w2]));
                    }
                }
                assert(post.gate <==> (exists|v: int|
                    0 <= v < post.writers@.len() && gate_holder(#[trigger] post.writers@[v]))) by {
                    assert forall|v: int| 0 <= v < post.writers@.len() implies !gate_holder(
                        #[trigger] post.writers@[v],
                    ) by {
                        if v != w {
                            assert(!winner(pre.writers@[v]));
                        }
                    }
                    if pre.gate {
                        let v: int = choose|v: int|
                            0 <= v < pre.writers@.len() && gate_holder(#[trigger] pre.writers@[v]);
                        assert(winner(pre.writers@[v]));
                        assert(false);
                    }
                }
                assert(winner(post.writers@[w]));
            } else {
                assert forall|i: int| 0 <= i < post.readers@.len() implies post.reader_ok(
                    #[trigger] post.readers@[i],
                ) by {
                    assert(pre.reader_ok(pre.readers@[i]));
                }
                assert forall|v: int| 0 <= v < post.writers@.len() implies post.writer_ok(
                    #[trigger] post.writers@[v],
                ) by {
                    assert(pre.writer_ok(pre.writers@[v]));
                    if v != w {
                        match pre.writers@[v] {
                            WriterStep::Ready { expected: e2, neo: n2 } => {
                                assert forall|u: int|
                                    0 <= u < post.writers@.len() && early_winner(
                                    #[trigger] post.writers@[u],
                                ) implies (e2 as int) != neo_of(post.writers@[u]) by {
                                    assert(u != w);
                                    assert(early_winner(pre.writers@[u]));
                                }
                            },
                            WriterStep::Armed { expected: e2, neo: n2 } => {
                                assert forall|u: int|
                                    0 <= u < post.writers@.len() && winner(
                                    #[trigger] post.writers@[u],
                                ) implies (e2 as int) != neo_of(post.writers@[u]) by {
                                    assert(u != w);
                                    assert(winner(pre.writers@[u]));
                                }
                            },
                            _ => {},
                        }
                    }
                }
                assert forall|w1: int, w2: int|
                    0 <= w1 < post.writers@.len() && 0 <= w2 < post.writers@.len() && w1 != w2 implies writer_pair_ok(
                    #[trigger] post.writers@[w1],
                    #[trigger] post.writers@[w2],
                ) by {
                    assert(writer_pair_ok(pre.writers@[w1], pre.writers@[w2]));
                }
                assert(post.gate <==> (exists|v: int|
                    0 <= v < post.writers@.len() && gate_holder(#[trigger] post.writers@[v]))) by {
                    if pre.gate {
                        let v: int = choose|v: int|
                            0 <= v < pre.writers@.len() && gate_holder(#[trigger] pre.writers@[v]);
                        assert(v != w);
                        assert(gate_holder(post.writers@[v]));
                    } else {
                        assert forall|v: int| 0 <= v < post.writers@.len() implies !gate_holder(
                            #[trigger] post.writers@[v],
                        ) by {
                            if v != w {
                                assert(!gate_holder(pre.writers@[v]));
                            }
                        }
                    }
                }
                if pre.prev_marker != pre.current {
                    let v: int = choose|v: int|
                        0 <= v < pre.writers@.len() && winner(#[trigger] pre.writers@[v]);
                    assert(v != w);
                    assert(winner(post.writers@[v]));
                }
            }
        },
        _ => {},
    }
}

proof fn lemma_inv_writer_close_gate<T>(pre: GateRcu<T>, w: int, post: GateRcu<T>)
    requires
        pre.inv(),
        rel_writer_close_gate(pre, w, post),
    ensures
        post.inv(),
{
    assert forall|i: int| 0 <= i < post.readers@.len() implies post.reader_ok(
        #[trigger] post.readers@[i],
    ) by {
        assert(pre.reader_ok(pre.readers@[i]));
    }
    assert forall|v: int| 0 <= v < post.writers@.len() implies post.writer_ok(
        #[trigger] post.writers@[v],
    ) by {
        assert(pre.writer_ok(pre.writers@[v]));
        if v != w {
            match pre.writers@[v] {
                WriterStep::Ready { expected: e2, neo: n2 } => {
                    assert forall|u: int|
                        0 <= u < post.writers@.len() && early_winner(
                        #[trigger] post.writers@[u],
                    ) implies (e2 as int) != neo_of(post.writers@[u]) by {
                        assert(pre.writer_ok(pre.writers@[u]));
                        if u != w {
                            assert(early_winner(pre.writers@[u]));
                        }
                    }
                },
                WriterStep::Armed { expected: e2, neo: n2 } => {
                    assert forall|u: int|
                        0 <= u < post.writers@.len() && winner(#[trigger] post.writers@[u]) implies (
                    e2 as int) != neo_of(post.writers@[u]) by {
                        assert(pre.writer_ok(pre.writers@[u]));
                        if u != w {
                            assert(winner(pre.writers@[u]));
                        }
                    }
                },
                _ => {},
            }
        }
    }
    assert forall|w1: int, w2: int|
        0 <= w1 < post.writers@.len() && 0 <= w2 < post.writers@.len() && w1 != w2 implies writer_pair_ok(
        #[trigger] post.writers@[w1],
        #[trigger] post.writers@[w2],
    ) by {
        assert(writer_pair_ok(pre.writers@[w1], pre.writers@[w2]));
    }
    assert(post.gate <==> (exists|v: int|
        0 <= v < post.writers@.len() && gate_holder(#[trigger] post.writers@[v]))) by {
        assert(gate_holder(post.writers@[w]));
    }
    assert(winner(post.writers@[w]));
}

proof fn lemma_inv_writer_observe<T>(pre: GateRcu<T>, w: int, quiet: bool, post: GateRcu<T>)
    requires
        pre.inv(),
        rel_writer_observe(pre, w, quiet, post),
    ensures
        post.inv(),
{
    if quiet {
        // a zero count leaves no reader registered or pinned at all
        assert forall|r: int| 0 <= r < pre.readers@.len() implies !reader_active(
            #[trigger] pre.readers@[r],
        ) by {
            lemma_count_zero(pre.readers@, active_pred(), r);
        }
    }
    assert forall|i: int| 0 <= i < post.readers@.len() implies post.reader_ok(
        #[trigger] post.readers@[i],
    ) by {
        assert(pre.reader_ok(pre.readers@[i]));
    }
    assert forall|v: int| 0 <= v < post.writers@.len() implies post.writer_ok(
        #[trigger] post.writers@[v],
    ) by {
        assert(pre.writer_ok(pre.writers@[v]));
        if v != w {
            match pre.writers@[v] {
                WriterStep::Ready { expected: e2, neo: n2 } => {
                    assert forall|u: int|
                        0 <= u < post.writers@.len() && early_winner(
                        #[trigger] post.writers@[u],
                    ) implies (e2 as int) != neo_of(post.writers@[u]) by {
                        assert(pre.writer_ok(pre.writers@[u]));
                        if u != w {
                            assert(early_winner(pre.writers@[u]));
                        }
                    }
                },
                WriterStep::Armed { expected: e2, neo: n2 } => {
                    assert forall|u: int|
                        0 <= u < post.writers@.len() && winner(#[trigger] post.writers@[u]) implies (
                    e2 as int) != neo_of(post.writers@[u]) by {
                        assert(pre.writer_ok(pre.writers@[u]));
                        if u != w {
                            assert(winner(pre.writers@[u]));
                        }
                    }
                },
                _ => {},
            }
        }
    }
    assert forall|w1: int, w2: int|
        0 <= w1 < post.writers@.len() && 0 <= w2 < post.writers@.len() && w1 != w2 implies writer_pair_ok(
        #[trigger] post.writers@[w1],
        #[trigger] post.writers@[w2],
    ) by {
        assert(writer_pair_ok(pre.writers@[w1], pre.writers@[w2]));
    }
    assert(post.gate <==> (exists|v: int|
        0 <= v < post.writers@.len() && gate_holder(#[trigger] post.writers@[v]))) by {
        assert(gate_holder(post.writers@[w]));
    }
    assert(winner(post.writers@[w]));
}

proof fn lemma_inv_writer_move_marker<T>(pre: GateRcu<T>, w: int, post: GateRcu<T>)
    requires
        pre.inv(),
        rel_writer_move_marker(pre, w, post),
    ensures
        post.inv(),
{
    assert forall|i: int| 0 <= i < post.readers@.len() implies post.reader_ok(
        #[trigger] post.readers@[i],
    ) by {
        assert(pre.reader_ok(pre.readers@[i]));
    }
    assert forall|v: int| 0 <= v < post.writers@.len() implies post.writer_ok(
        #[trigger] post.writers@[v],
    ) by {
        assert(pre.writer_ok(pre.writers@[v]));
        if v != w {
            match pre.writers@[v] {
                WriterStep::Ready { expected: e2, neo: n2 } => {
                    assert forall|u: int|
                        0 <= u < post.writers@.len() && early_winner(
                        #[trigger] post.writers@[u],
                    ) implies (e2 as int) != neo_of(post.writers@[u]) by {
                        assert(pre.writer_ok(pre.writers@[u]));
                        if u != w {
                            assert(early_winner(pre.writers@[u]));
                        }
                    }
                },
                WriterStep::Armed { expected: e2, neo: n2 } => {
                    assert forall|u: int|
                        0 <= u < post.writers@.len() && winner(#[trigger] post.writers@[u]) implies (
                    e2 as int) != neo_of(post.writers@[u]) by {
                        assert(pre.writer_ok(pre.writers@[u]));
                        if u != w {
                            assert(winner(pre.writers@[u]));
                        }
                    }
                },
                _ => {},
            }
        }
    }
    assert forall|w1: int, w2: int|
        0 <= w1 < post.writers@.len() && 0 <= w2 < post.writers@.len() && w1 != w2 implies writer_pair_ok(
        #[trigger] post.writers@[w1],
        #[trigger] post.writers@[w2],
    ) by {
        assert(writer_pair_ok(pre.writers@[w1], pre.writers@[w2]));
    }
    assert(post.gate <==> (exists|v: int|
        0 <= v < post.writers@.len() && gate_holder(#[trigger] post.writers@[v]))) by {
        assert(gate_holder(post.writers@[w]));
    }
    assert(winner(post.writers@[w]));
}

proof fn lemma_inv_writer_reclaim<T>(pre: GateRcu<T>, w: int, post: GateRcu<T>)
    requires
        pre.inv(),
        rel_writer_reclaim(pre, w, post),
    ensures
        post.inv(),
{
    match pre.writers@[w] {
        WriterStep::MarkerMoved { retiring: ret, neo: n } => {
            assert forall|i: int| 0 <= i < post.readers@.len() implies post.reader_ok(
                #[trigger] post.readers@[i],
            ) by {
                assert(pre.reader_ok(pre.readers@[i]));
                // no reader pins the slot being emptied: the writer saw the
                // count drain before it moved the marker
            }
    assert forall|v: int| 0 <= v < post.writers@.len() implies post.writer_ok(
        #[trigger] post.writers@[v],
    ) by {
        assert(pre.writer_ok(pre.writers@[v]));
        if v != w {
            match pre.writers@[v] {
                WriterStep::Ready { expected: e2, neo: n2 } => {
                    assert forall|u: int|
                        0 <= u < post.writers@.len() && early_winner(
                        #[trigger] post.writers@[u],
                    ) implies (e2 as int) != neo_of(post.writers@[u]) by {
                        assert(pre.writer_ok(pre.writers@[u]));
                        if u != w {
                            assert(early_winner(pre.writers@[u]));
                        }
                    }
                },
                WriterStep::Armed { expected: e2, neo: n2 } => {
                    assert forall|u: int|
                        0 <= u < post.writers@.len() && winner(#[trigger] post.writers@[u]) implies (
                    e2 as int) != neo_of(post.writers@[u]) by {
                        assert(pre.writer_ok(pre.writers@[u]));
                        if u != w {
                            assert(winner(pre.writers@[u]));
                        }
                    }
                },
                _ => {},
            }
        }
        match pre.writers@[v] {
            WriterStep::Ready { expected: e3, neo: n3 } => {
                assert(!pre.installed(n3 as int));
            },
            WriterStep::Armed { expected: e3, neo: n3 } => {
                assert(!pre.installed(n3 as int));
            },
            WriterStep::Rejected { neo: n3 } => {
                assert(!pre.installed(n3 as int));
            },
            _ => {},
        }
    }
    assert forall|w1: int, w2: int|
        0 <= w1 < post.writers@.len() && 0 <= w2 < post.writers@.len() && w1 != w2 implies writer_pair_ok(
        #[trigger] post.writers@[w1],
        #[trigger] post.writers@[w2],
    ) by {
        assert(writer_pair_ok(pre.writers@[w1], pre.writers@[w2]));
    }
    assert(post.gate <==> (exists|v: int|
        0 <= v < post.writers@.len() && gate_holder(#[trigger] post.writers@[v]))) by {
        assert(gate_holder(post.writers@[w]));
    }
    assert(winner(post.writers@[w]));
        },
        _ => {},
    }
}

proof fn lemma_inv_writer_open_gate<T>(pre: GateRcu<T>, w: int, post: GateRcu<T>)
    requires
        pre.inv(),
        rel_writer_open_gate(pre, w, post),
    ensures
        post.inv(),
{
    assert forall|i: int| 0 <= i < post.readers@.len() implies post.reader_ok(
        #[trigger] post.readers@[i],
    ) by {
        assert(pre.reader_ok(pre.readers@[i]));
    }
    assert forall|v: int| 0 <= v < post.writers@.len() implies post.writer_ok(
        #[trigger] post.writers@[v],
    ) by {
        assert(pre.writer_ok(pre.writers@[v]));
        if v != w {
            match pre.writers@[v] {
                WriterStep::Ready { expected: e2, neo: n2 } => {
                    assert forall|u: int|
                        0 <= u < post.writers@.len() && early_winner(
                        #[trigger] post.writers@[u],
                    ) implies (e2 as int) != neo_of(post.writers@[u]) by {
                        assert(pre.writer_ok(pre.writers@[u]));
                        if u != w {
                            assert(early_winner(pre.writers@[u]));
                        }
                    }
                },
                WriterStep::Armed { expected: e2, neo: n2 } => {
                    assert forall|u: int|
                        0 <= u < post.writers@.len() && winner(#[trigger] post.writers@[u]) implies (
                    e2 as int) != neo_of(post.writers@[u]) by {
                        assert(pre.writer_ok(pre.writers@[u]));
                        if u != w {
                            assert(winner(pre.writers@[u]));
                        }
                    }
                },
                _ => {},
            }
        }
    }
    assert forall|w1: int, w2: int|
        0 <= w1 < post.writers@.len() && 0 <= w2 < post.writers@.len() && w1 != w2 implies writer_pair_ok(
        #[trigger] post.writers@[w1],
        #[trigger] post.writers@[w2],
    ) by {
        assert(writer_pair_ok(pre.writers@[w1], pre.writers@[w2]));
    }
    assert(post.gate <==> (exists|v: int|
        0 <= v < post.writers@.len() && gate_holder(#[trigger] post.writers@[v]))) by {
        assert forall|v: int| 0 <= v < post.writers@.len() implies !gate_holder(
            #[trigger] post.writers@[v],
        ) by {
            if v != w {
                assert(writer_pair_ok(pre.writers@[v], pre.writers@[w]));
                assert(!winner(pre.writers@[v]));
            }
        }
    }
}

proof fn lemma_inv_writer_discard<T>(pre: GateRcu<T>, w: int, post: GateRcu<T>)
    requires
        pre.inv(),
        rel_writer_discard(pre, w, post),
    ensures
        post.inv(),
{
    match pre.writers@[w] {
        WriterStep::Rejected { neo: n } => {
            assert forall|i: int| 0 <= i < post.readers@.len() implies post.reader_ok(
                #[trigger] post.readers@[i],
            ) by {
                assert(pre.reader_ok(pre.readers@[i]));
            }
    assert forall|v: int| 0 <= v < post.writers@.len() implies post.writer_ok(
        #[trigger] post.writers@[v],
    ) by {
        assert(pre.writer_ok(pre.writers@[v]));
        if v != w {
            match pre.writers@[v] {
                WriterStep::Ready { expected: e2, neo: n2 } => {
                    assert forall|u: int|
                        0 <= u < post.writers@.len() && early_winner(
                        #[trigger] post.writers@[u],
                    ) implies (e2 as int) != neo_of(post.writers@[u]) by {
                        assert(pre.writer_ok(pre.writers@[u]));
                        if u != w {
                            assert(early_winner(pre.writers@[u]));
                        }
                    }
                },
                WriterStep::Armed { expected: e2, neo: n2 } => {
                    assert forall|u: int|
                        0 <= u < post.writers@.len() && winner(#[trigger] post.writers@[u]) implies (
                    e2 as int) != neo_of(post.writers@[u]) by {
                        assert(pre.writer_ok(pre.writers@[u]));
                        if u != w {
                            assert(winner(pre.writers@[u]));
                        }
                    }
                },
                _ => {},
            }
        }
        if v != w {
            assert(writer_pair_ok(pre.writers@[v], pre.writers@[w]));
            match pre.writers@[v] {
                WriterStep::Swapped { retiring: r3, neo: n3 } => {
                    assert(pre.installed(r3 as int));
                },
                WriterStep::Draining { retiring: r3, neo: n3 } => {
                    assert(pre.installed(r3 as int));
                },
                WriterStep::Quiesced { retiring: r3, neo: n3 } => {
                    assert(pre.installed(r3 as int));
                },
                WriterStep::MarkerMoved { retiring: r3, neo: n3 } => {
                    assert(pre.installed(r3 as int));
                },
                _ => {},
            }
        }
    }
    assert forall|w1: int, w2: int|
        0 <= w1 < post.writers@.len() && 0 <= w2 < post.writers@.len() && w1 != w2 implies writer_pair_ok(
        #[trigger] post.writers@[w1],
        #[trigger] post.writers@[w2],
    ) by {
        assert(writer_pair_ok(pre.writers@[w1], pre.writers@[w2]));
    }
    assert(post.gate <==> (exists|v: int|
        0 <= v < post.writers@.len() && gate_holder(#[trigger] post.writers@[v]))) by {
        if pre.gate {
            let v: int = choose|v: int|
                0 <= v < pre.writers@.len() && gate_holder(#[trigger] pre.writers@[v]);
            assert(v != w);
            assert(gate_holder(post.writers@[v]));
        } else {
            assert forall|v: int| 0 <= v < post.writers@.len() implies !gate_holder(
                #[trigger] post.writers@[v],
            ) by {
                if v != w {
                    assert(!gate_holder(pre.writers@[v]));
                }
            }
        }
    }
    if pre.prev_marker != pre.current {
        let v: int = choose|v: int|
            0 <= v < pre.writers@.len() && winner(#[trigger] pre.writers@[v]);
        assert(v != w);
        assert(winner(post.writers@[v]));
    }
        },
        _ => {},
    }
}

/// Every step of the protocol preserves the invariant.
pub proof fn lemma_gate_step_inv<T>(pre: GateRcu<T>, ev: GateEvent<T>, post: GateRcu<T>)
    requires
        pre.inv(),
        gate_step(pre, ev, post),
    ensures
        post.inv(),
{
    match ev {
        GateEvent::ReaderArrive { r, entered } => lemma_inv_reader_arrive(pre, r, entered, post),
        GateEvent::ReaderRegister { r } => lemma_inv_reader_register(pre, r, post),
        GateEvent::ReaderLoad { r } => lemma_inv_reader_load(pre, r, post),
        GateEvent::ReaderUnregister { r } => lemma_inv_reader_unregister(pre, r, post),
        GateEvent::WriterPrepare { w, value } => lemma_inv_writer_prepare(pre, w, value, post),
        GateEvent::WriterArm { w, entered } => lemma_inv_writer_arm(pre, w, entered, post),
        GateEvent::WriterSwap { w, won } => lemma_inv_writer_swap(pre, w, won, post),
        GateEvent::WriterCloseGate { w } => lemma_inv_writer_close_gate(pre, w, post),
        GateEvent::WriterObserve { w, quiet } => lemma_inv_writer_observe(pre, w, quiet, post),
        GateEvent::WriterMoveMarker { w } => lemma_inv_writer_move_marker(pre, w, post),
        GateEvent::WriterReclaim { w } => lemma_inv_writer_reclaim(pre, w, post),
        GateEvent::WriterOpenGate { w } => lemma_inv_writer_open_gate(pre, w, post),
        GateEvent::WriterDiscard { w } => lemma_inv_writer_discard(pre, w, post),
    }
}

impl<T> GateRcu<T> {
    /// Set up a cell holding `initial`, with `nreaders` reader threads and
    /// `nwriters` writer threads, all outside the protocol.
    pub fn new(initial: T, nreaders: usize, nwriters: usize) -> (m: Self)
        ensures
            m.inv(),
            m.num_gens() == 1,
            m.current == 0,
            m.value_of(0) == initial,
            m.quiescence == 0,
            m.gate == false,
            m.readers@.len() == nreaders,
            m.writers@.len() == nwriters,
            forall|r: int| 0 <= r < nreaders ==> (#[trigger] m.readers@[r]) is Outside,
            forall|w: int| 0 <= w < nwriters ==> (#[trigger] m.writers@[w]) is Outside,
            m.hist@ == seq![0int],
    {
        let mut gens: Vec<Option<T>> = Vec::new();
        gens.push(Some(initial));
        let mut readers: Vec<ReaderStep> = Vec::new();
        while readers.len() < nreaders
            invariant
                readers@.len() <= nreaders,
                forall|r: int| 0 <= r < readers@.len() ==> (#[trigger] readers@[r]) is Outside,
            decreases nreaders - readers.len(),
        {
            readers.push(ReaderStep::Outside);
        }
        let mut writers: Vec<WriterStep> = Vec::new();
        while writers.len() < nwriters
            invariant
                writers@.len() <= nwriters,
                forall|w: int| 0 <= w < writers@.len() ==> (#[trigger] writers@[w]) is Outside,
            decreases nwriters - writers.len(),
        {
            writers.push(WriterStep::Outside);
        }
        let ghost order: Seq<int> = seq![0int];
        let m = GateRcu {
            gens,
            current: 0,
            prev_marker: 0,
            quiescence: 0,
            gate: false,
            readers,
            writers,
            hist: Ghost(order),
        };
        proof {
            lemma_count_none(m.readers@, active_pred());
            assert(m.hist@[0] == 0);
        }
        m
    }

    /// The reader's gate check: enter the read protocol if the write gate
    /// stands open; otherwise stay outside (the caller retries, as the
    /// reader's spin loop does).
    pub fn reader_arrive(&mut self, r: usize) -> (entered: bool)
        requires
            old(self).inv(),
            (r as int) < old(self).readers@.len(),
            old(self).readers@[r as int] is Outside,
        ensures
            final(self).inv(),
            gate_step(*old(self), GateEvent::ReaderArrive { r: r as int, entered }, *final(self)),
    {
        if self.gate {
            false
        } else {
            self.readers.set(r, ReaderStep::Passed);
            proof {
                lemma_inv_reader_arrive(*old(self), r as int, true, *self);
            }
            true
        }
    }

    /// Register: count this reader into the quiescence counter.
    pub fn reader_register(&mut self, r: usize)
        requires
            old(self).inv(),
            (r as int) < old(self).readers@.len(),
            old(self).readers@[r as int] is Passed,
        ensures
            final(self).inv(),
            gate_step(*old(self), GateEvent::ReaderRegister { r: r as int }, *final(self)),
    {
        proof {
            lemma_count_lt_len(self.readers@, active_pred(), r as int);
            assert(self.readers@.len() == self.readers.len());
        }
        self.quiescence = self.quiescence + 1;
        self.readers.set(r, ReaderStep::Registered);
        proof {
            lemma_inv_reader_register(*old(self), r as int, *self);
        }
    }

    /// Load the cell's current generation and pin it.
    pub fn reader_load(&mut self, r: usize)
        requires
            old(self).inv(),
            (r as int) < old(self).readers@.len(),
            old(self).readers@[r as int] is Registered,
        ensures
            final(self).inv(),
            gate_step(*old(self), GateEvent::ReaderLoad { r: r as int }, *final(self)),
            final(self).readers@[r as int] == (ReaderStep::Pinned { gen: old(self).current }),
    {
        let g = self.current;
        self.readers.set(r, ReaderStep::Pinned { gen: g });
        proof {
            lemma_inv_reader_load(*old(self), r as int, *self);
        }
    }

    /// Unregister: release this reader's count.
    pub fn reader_unregister(&mut self, r: usize)
        requires
            old(self).inv(),
            (r as int) < old(self).readers@.len(),
            old(self).readers@[r as int] is Pinned,
        ensures
            final(self).inv(),
            gate_step(*old(self), GateEvent::ReaderUnregister { r: r as int }, *final(self)),
    {
        proof {
            lemma_count_pos(self.readers@, active_pred(), r as int);
        }
        self.quiescence = self.quiescence - 1;
        self.readers.set(r, ReaderStep::Outside);
        proof {
            lemma_inv_reader_unregister(*old(self), r as int, *self);
        }
    }

    /// The writer's first step: allocate the new generation and load the
    /// previous-generation marker. Allocation touches no shared state, so
    /// the two fold into one atomic action.
    pub fn writer_prepare(&mut self, w: usize, value: T)
        requires
            old(self).inv(),
            (w as int) < old(self).writers@.len(),
            old(self).writers@[w as int] is Outside,
        ensures
            final(self).inv(),
            gate_step(*old(self), GateEvent::WriterPrepare { w: w as int, value }, *final(self)),
    {
        let neo = self.gens.len();
        self.gens.push(Some(value));
        let e = self.prev_marker;
        self.writers.set(w, WriterStep::Ready { expected: e, neo });
        proof {
            lemma_inv_writer_prepare(*old(self), w as int, value, *self);
        }
    }

    /// The writer's gate check: proceed towards the compare-and-swap if the
    /// write gate stands open; otherwise wait (the caller retries).
    pub fn writer_arm(&mut self, w: usize) -> (entered: bool)
        requires
            old(self).inv(),
            (w as int) < old(self).writers@.len(),
            old(self).writers@[w as int] is Ready,
        ensures
            final(self).inv(),
            gate_step(*old(self), GateEvent::WriterArm { w: w as int, entered }, *final(self)),
    {
        if self.gate {
            false
        } else {
            let stp = self.writers[w];
            match stp {
                WriterStep::Ready { expected, neo } => {
                    self.writers.set(w, WriterStep::Armed { expected, neo });
                    proof {
                        lemma_inv_writer_arm(*old(self), w as int, true, *self);
                    }
                    true
                },
                _ => unreached(),
            }
        }
    }

    /// The compare-and-swap: if the cell's current generation still equals
    /// the loaded marker, install the new generation; otherwise the race is
    /// lost and the new generation is left to be discarded.
    pub fn writer_swap(&mut self, w: usize) -> (won: bool)
        requires
            old(self).inv(),
            (w as int) < old(self).writers@.len(),
            old(self).writers@[w as int] is Armed,
        ensures
            final(self).inv(),
            gate_step(*old(self), GateEvent::WriterSwap { w: w as int, won }, *final(self)),
    {
        let stp = self.writers[w];
        match stp {
            WriterStep::Armed { expected, neo } => {
                if expected == self.current {
                    let retiring = self.current;
                    self.current = neo;
                    proof {
                        self.hist@ = self.hist@.push(neo as int);
                    }
                    self.writers.set(w, WriterStep::Swapped { retiring, neo });
                    proof {
                        lemma_inv_writer_swap(*old(self), w as int, true, *self);
                    }
                    true
                } else {
                    self.writers.set(w, WriterStep::Rejected { neo });
                    proof {
                        lemma_inv_writer_swap(*old(self), w as int, false, *self);
                    }
                    false
                }
            },
            _ => unreached(),
        }
    }

    /// Close the write gate: from here no new reader may register until the
    /// superseded generation is reclaimed.
    pub fn writer_close_gate(&mut self, w: usize)
        requires
            old(self).inv(),
            (w as int) < old(self).writers@.len(),
            old(self).writers@[w as int] is Swapped,
        ensures
            final(self).inv(),
            gate_step(*old(self), GateEvent::WriterCloseGate { w: w as int }, *final(self)),
    {
        let stp = self.writers[w];
        match stp {
            WriterStep::Swapped { retiring, neo } => {
                self.gate = true;
                self.writers.set(w, WriterStep::Draining { retiring, neo });
                proof {
                    lemma_inv_writer_close_gate(*old(self), w as int, *self);
                }
            },
            _ => unreached(),
        }
    }

    /// Observe the quiescence counter: once it reads zero, every reader
    /// that could hold the superseded generation has finished.
    pub fn writer_observe(&mut self, w: usize) -> (quiet: bool)
        requires
            old(self).inv(),
            (w as int) < old(self).writers@.len(),
            old(self).writers@[w as int] is Draining,
        ensures
            final(self).inv(),
            gate_step(*old(self), GateEvent::WriterObserve { w: w as int, quiet }, *final(self)),
    {
        if self.quiescence == 0 {
            let stp = self.writers[w];
            match stp {
                WriterStep::Draining { retiring, neo } => {
                    self.writers.set(w, WriterStep::Quiesced { retiring, neo });
                    proof {
                        lemma_inv_writer_observe(*old(self), w as int, true, *self);
                    }
                    true
                },
                _ => unreached(),
            }
        } else {
            false
        }
    }

    /// Move the previous-generation marker onto the new generation, for
    /// future writers to compare against.
    pub fn writer_move_marker(&mut self, w: usize)
        requires
            old(self).inv(),
            (w as int) < old(self).writers@.len(),
            old(self).writers@[w as int] is Quiesced,
        ensures
            final(self).inv(),
            gate_step(*old(self), GateEvent::WriterMoveMarker { w: w as int }, *final(self)),
    {
        let stp = self.writers[w];
        match stp {
            WriterStep::Quiesced { retiring, neo } => {
                self.prev_marker = neo;
                self.writers.set(w, WriterStep::MarkerMoved { retiring, neo });
                proof {
                    lemma_inv_writer_move_marker(*old(self), w as int, *self);
                }
            },
            _ => unreached(),
        }
    }

    /// Reclaim the superseded generation: empty its slot. The invariant
    /// proves no reader pins it and it was not emptied before.
    pub fn writer_reclaim(&mut self, w: usize)
        requires
            old(self).inv(),
            (w as int) < old(self).writers@.len(),
            old(self).writers@[w as int] is MarkerMoved,
        ensures
            final(self).inv(),
            gate_step(*old(self), GateEvent::WriterReclaim { w: w as int }, *final(self)),
    {
        let stp = self.writers[w];
        match stp {
            WriterStep::MarkerMoved { retiring, neo } => {
                self.gens.set(retiring, None);
                self.writers.set(w, WriterStep::Freed { neo });
                proof {
                    lemma_inv_writer_reclaim(*old(self), w as int, *self);
                }
            },
            _ => unreached(),
        }
    }

    /// Reopen the write gate: the update is complete and counted as won.
    pub fn writer_open_gate(&mut self, w: usize)
        requires
            old(self).inv(),
            (w as int) < old(self).writers@.len(),
            old(self).writers@[w as int] is Freed,
        ensures
            final(self).inv(),
            gate_step(*old(self), GateEvent::WriterOpenGate { w: w as int }, *final(self)),
    {
        self.gate = false;
        self.writers.set(w, WriterStep::Outside);
        proof {
            lemma_inv_writer_open_gate(*old(self), w as int, *self);
        }
    }

    /// Discard the rejected generation of a lost swap: empty its slot. It
    /// was never installed, so nothing observable changes.
    pub fn writer_discard(&mut self, w: usize)
        requires
            old(self).inv(),
            (w as int) < old(self).writers@.len(),
            old(self).writers@[w as int] is Rejected,
        ensures
            final(self).inv(),
            gate_step(*old(self), GateEvent::WriterDiscard { w: w as int }, *final(self)),
    {
        let stp = self.writers[w];
        match stp {
            WriterStep::Rejected { neo } => {
                self.gens.set(neo, None);
                self.writers.set(w, WriterStep::Outside);
                proof {
                    lemma_inv_writer_discard(*old(self), w as int, *self);
                }
            },
            _ => unreached(),
        }
    }
}

/// The generation a pinned reader holds.
pub open spec fn pin_of(s: ReaderStep) -> int {
    match s {
        ReaderStep::Pinned { gen } => gen as int,
        _ => -1,
    }
}

impl<T: Clone> GateRcu<T> {
    /// The copy out of the pinned generation. The invariant proves the slot
    /// is still live: this is the read that can never observe a reclaimed
    /// value.
    pub fn reader_copy(&self, r: usize) -> (snapshot: T)
        requires
            self.inv(),
            (r as int) < self.readers@.len(),
            self.readers@[r as int] is Pinned,
        ensures
            cloned(self.value_of(pin_of(self.readers@[r as int])), snapshot),
            self.installed(pin_of(self.readers@[r as int])),
            !self.freed(pin_of(self.readers@[r as int])),
    {
        let stp = self.readers[r];
        match stp {
            ReaderStep::Pinned { gen } => {
                proof {
                    assert(self.reader_ok(self.readers@[r as int]));
                }
                self.gens[gen].as_ref().unwrap().clone()
            },
            _ => unreached(),
        }
    }
}

/// A run of the protocol: `states[0]` stepped through `evs`, one state per
/// step, under any interleaving of reader and writer actions.
pub open spec fn valid_run<T>(states: Seq<GateRcu<T>>, evs: Seq<GateEvent<T>>) -> bool {
    &&& states.len() == evs.len() + 1
    &&& forall|i: int| 0 <= i < evs.len() ==> #[trigger] gate_step(states[i], evs[i], states[i + 1])
}

/// Along a run that starts in an invariant state, every state satisfies the
/// invariant.
pub proof fn lemma_run_inv<T>(states: Seq<GateRcu<T>>, evs: Seq<GateEvent<T>>, i: int)
    requires
        valid_run(states, evs),
        states[0].inv(),
        0 <= i < states.len(),
    ensures
        states[i].inv(),
    decreases i,
{
    if i > 0 {
        lemma_run_inv(states, evs, i - 1);
        let k = i - 1;
        assert(gate_step(states[k], evs[k], states[k + 1]));
        lemma_gate_step_inv(states[k], evs[k], states[i]);
    }
}

/// No lost reads: in every reachable state a pinned reader holds a
/// generation that is still live and was installed — by `new` or by a
/// winning swap — so the copy it takes (`reader_copy`) is a complete value
/// that was the cell's at some instant, never a reclaimed or partial one.
pub proof fn lemma_no_lost_reads<T>(s: GateRcu<T>, r: int)
    requires
        s.inv(),
        0 <= r < s.readers@.len(),
        s.readers@[r] is Pinned,
    ensures
        0 <= pin_of(s.readers@[r]) < s.num_gens(),
        s.installed(pin_of(s.readers@[r])),
        !s.freed(pin_of(s.readers@[r])),
{
    assert(s.reader_ok(s.readers@[r]));
}

/// A step never grows smaller: the arena only gains slots.
proof fn lemma_step_arena_grows<T>(pre: GateRcu<T>, ev: GateEvent<T>, post: GateRcu<T>)
    requires
        gate_step(pre, ev, post),
    ensures
        pre.num_gens() <= post.num_gens(),
        post.readers@.len() == pre.readers@.len(),
{
    match ev {
        GateEvent::ReaderArrive { r, entered } => {},
        GateEvent::ReaderRegister { r } => {},
        GateEvent::ReaderLoad { r } => {},
        GateEvent::ReaderUnregister { r } => {},
        GateEvent::WriterPrepare { w, value } => {},
        GateEvent::WriterArm { w, entered } => {},
        GateEvent::WriterSwap { w, won } => {},
        GateEvent::WriterCloseGate { w } => {},
        GateEvent::WriterObserve { w, quiet } => {},
        GateEvent::WriterMoveMarker { w } => {},
        GateEvent::WriterReclaim { w } => {},
        GateEvent::WriterOpenGate { w } => {},
        GateEvent::WriterDiscard { w } => {},
    }
}

/// A step never rewrites a live slot: a generation's value is fixed from
/// creation until reclamation.
proof fn lemma_step_values_stable<T>(pre: GateRcu<T>, ev: GateEvent<T>, post: GateRcu<T>, g: int)
    requires
        gate_step(pre, ev, post),
        0 <= g < pre.num_gens(),
        !post.freed(g),
    ensures
        !pre.freed(g),
        post.value_of(g) == pre.value_of(g),
{
    match ev {
        GateEvent::ReaderArrive { r, entered } => {},
        GateEvent::ReaderRegister { r } => {},
        GateEvent::ReaderLoad { r } => {},
        GateEvent::ReaderUnregister { r } => {},
        GateEvent::WriterPrepare { w, value } => {},
        GateEvent::WriterArm { w, entered } => {},
        GateEvent::WriterSwap { w, won } => {},
        GateEvent::WriterCloseGate { w } => {},
        GateEvent::WriterObserve { w, quiet } => {},
        GateEvent::WriterMoveMarker { w } => {},
        GateEvent::WriterReclaim { w } => {},
        GateEvent::WriterOpenGate { w } => {},
        GateEvent::WriterDiscard { w } => {},
    }
}

/// Reclamation is forever: an emptied slot never comes back.
proof fn lemma_step_freed_monotone<T>(pre: GateRcu<T>, ev: GateEvent<T>, post: GateRcu<T>, g: int)
    requires
        gate_step(pre, ev, post),
        0 <= g < pre.num_gens(),
        pre.freed(g),
    ensures
        post.freed(g),
        g < post.num_gens(),
{
    match ev {
        GateEvent::ReaderArrive { r, entered } => {},
        GateEvent::ReaderRegister { r } => {},
        GateEvent::ReaderLoad { r } => {},
        GateEvent::ReaderUnregister { r } => {},
        GateEvent::WriterPrepare { w, value } => {},
        GateEvent::WriterArm { w, entered } => {},
        GateEvent::WriterSwap { w, won } => {},
        GateEvent::WriterCloseGate { w } => {},
        GateEvent::WriterObserve { w, quiet } => {},
        GateEvent::WriterMoveMarker { w } => {},
        GateEvent::WriterReclaim { w } => {},
        GateEvent::WriterOpenGate { w } => {},
        GateEvent::WriterDiscard { w } => {},
    }
}

/// Step `i` of a run reclaims generation `g`.
pub open spec fn reclaims_at<T>(states: Seq<GateRcu<T>>, i: int, g: int) -> bool {
    &&& 0 <= g < states[i].num_gens()
    &&& !states[i].freed(g)
    &&& states[i + 1].freed(g)
}

/// Once reclaimed, a generation stays reclaimed for the rest of the run.
pub proof fn lemma_freed_stays<T>(states: Seq<GateRcu<T>>, evs: Seq<GateEvent<T>>, i: int, j: int, g: int)
    requires
        valid_run(states, evs),
        0 <= i <= j < states.len(),
        0 <= g < states[i].num_gens(),
        states[i].freed(g),
    ensures
        g < states[j].num_gens(),
        states[j].freed(g),
    decreases j - i,
{
    if j > i {
        assert(gate_step(states[i], evs[i], states[i + 1]));
        lemma_step_freed_monotone(states[i], evs[i], states[i + 1], g);
        lemma_freed_stays(states, evs, i + 1, j, g);
    }
}

/// Each generation is reclaimed at most once along any run: after the step
/// that empties its slot, no later step can empty it again.
pub proof fn lemma_reclaimed_at_most_once<T>(
    states: Seq<GateRcu<T>>,
    evs: Seq<GateEvent<T>>,
    i: int,
    j: int,
    g: int,
)
    requires
        valid_run(states, evs),
        0 <= i < j < evs.len(),
        reclaims_at(states, i, g),
    ensures
        !reclaims_at(states, j, g),
{
    assert(gate_step(states[i], evs[i], states[i + 1]));
    lemma_step_arena_grows(states[i], evs[i], states[i + 1]);
    lemma_freed_stays(states, evs, i + 1, j, g);
}

/// A step only appends to the installation order.
proof fn lemma_step_order_extends<T>(pre: GateRcu<T>, ev: GateEvent<T>, post: GateRcu<T>)
    requires
        gate_step(pre, ev, post),
    ensures
        pre.hist@.is_prefix_of(post.hist@),
{
    assert(pre.hist@ =~= post.hist@.subrange(0, pre.hist@.len() as int));
}

/// The installation order at an earlier point of a run is a prefix of the
/// order at any later point: winning swaps form one total order that is
/// only ever extended.
pub proof fn lemma_run_order_prefix<T>(
    states: Seq<GateRcu<T>>,
    evs: Seq<GateEvent<T>>,
    i: int,
    j: int,
)
    requires
        valid_run(states, evs),
        0 <= i <= j < states.len(),
    ensures
        states[i].hist@.is_prefix_of(states[j].hist@),
    decreases j - i,
{
    if j > i {
        lemma_run_order_prefix(states, evs, i, j - 1);
        let k = j - 1;
        assert(gate_step(states[k], evs[k], states[k + 1]));
        lemma_step_order_extends(states[k], evs[k], states[j]);
        let a = states[i].hist@;
        let b = states[j - 1].hist@;
        let c = states[j].hist@;
        assert forall|k: int| 0 <= k < a.len() implies a[k] == c[k] by {
            assert(a[k] == b.subrange(0, a.len() as int)[k]);
            assert(b[k] == c.subrange(0, b.len() as int)[k]);
        }
        assert(a =~= c.subrange(0, a.len() as int));
    } else {
        assert(states[i].hist@ =~= states[j].hist@.subrange(0, states[i].hist@.len() as int));
    }
}

/// Reads are consistent with the total order of winning swaps: a later load
/// pins a generation that stands no earlier in the installation order than
/// what an earlier load pinned.
pub proof fn lemma_reads_follow_install_order<T>(
    states: Seq<GateRcu<T>>,
    evs: Seq<GateEvent<T>>,
    i: int,
    j: int,
)
    requires
        valid_run(states, evs),
        states[0].inv(),
        0 <= i <= j < evs.len(),
        evs[i] is ReaderLoad,
        evs[j] is ReaderLoad,
    ensures
        ({
            let ord = states[evs.len() as int].hist@;
            let g1 = states[i].current as int;
            let g2 = states[j].current as int;
            &&& ord.contains(g1)
            &&& ord.contains(g2)
            &&& ord.index_of(g1) <= ord.index_of(g2)
        }),
{
    let last = evs.len() as int;
    lemma_run_inv(states, evs, i);
    lemma_run_inv(states, evs, j);
    lemma_run_inv(states, evs, last);
    lemma_run_order_prefix(states, evs, i, j);
    lemma_run_order_prefix(states, evs, j, last);
    let ord = states[last].hist@;
    let hi = states[i].hist@;
    let hj = states[j].hist@;
    let g1 = states[i].current as int;
    let g2 = states[j].current as int;
    assert(hi[hi.len() - 1] == g1);
    assert(hj[hj.len() - 1] == g2);
    assert(ord[hi.len() - 1] == g1) by {
        lemma_run_order_prefix(states, evs, i, last);
        assert(hi[hi.len() - 1] == ord.subrange(0, hi.len() as int)[hi.len() - 1]);
    }
    assert(ord[hj.len() - 1] == g2) by {
        assert(hj[hj.len() - 1] == ord.subrange(0, hj.len() as int)[hj.len() - 1]);
    }
    assert(ord.contains(g1));
    assert(ord.contains(g2));
    // with no duplicate entries the positions are exactly the order lengths
    // at the two loads, and the earlier order is a prefix of the later one
    assert(ord.index_of(g1) == hi.len() - 1) by {
        let k = ord.index_of(g1);
        assert(0 <= k < ord.len() && ord[k] == g1);
    }
    assert(ord.index_of(g2) == hj.len() - 1) by {
        let k = ord.index_of(g2);
        assert(0 <= k < ord.len() && ord[k] == g2);
    }
    assert(hi.is_prefix_of(hj));
}

/// A lost compare-and-swap mutates nothing: the cell, the write gate, the
/// counter, every generation and the installation order are exactly as
/// before; only the losing writer's own position records the loss.
pub proof fn lemma_failed_swap_harmless<T>(pre: GateRcu<T>, w: int, post: GateRcu<T>)
    requires
        pre.inv(),
        rel_writer_swap(pre, w, false, post),
    ensures
        post.gens@ == pre.gens@,
        post.current == pre.current,
        post.prev_marker == pre.prev_marker,
        post.gate == pre.gate,
        post.quiescence == pre.quiescence,
        post.readers@ == pre.readers@,
        post.hist@ == pre.hist@,
{
}

/// The discard after a lost swap empties the rejected slot exactly once: the
/// slot was never installed, was still full, is empty afterwards, and no
/// other slot or cell observable changes.
pub proof fn lemma_discard_frees_rejected_once<T>(pre: GateRcu<T>, w: int, post: GateRcu<T>)
    requires
        pre.inv(),
        rel_writer_discard(pre, w, post),
    ensures
        ({
            let n = neo_of(pre.writers@[w]);
            &&& !pre.installed(n)
            &&& !pre.freed(n)
            &&& post.freed(n)
            &&& post.current == pre.current
            &&& post.prev_marker == pre.prev_marker
            &&& post.gate == pre.gate
            &&& post.quiescence == pre.quiescence
            &&& post.hist@ == pre.hist@
            &&& forall|g: int|
                0 <= g < pre.num_gens() && g != n ==> ((#[trigger] post.freed(g)) <==> pre.freed(g))
        }),
{
    assert(pre.writer_ok(pre.writers@[w]));
}

/// A reclamation really frees, exactly once: the retired slot was live
/// before the step, is empty after it, and no other slot changes.
pub proof fn lemma_reclaim_frees_once<T>(pre: GateRcu<T>, w: int, post: GateRcu<T>)
    requires
        pre.inv(),
        rel_writer_reclaim(pre, w, post),
    ensures
        pre.writers@[w] matches WriterStep::MarkerMoved { retiring, neo } ==> {
            &&& !pre.freed(retiring as int)
            &&& post.freed(retiring as int)
            &&& forall|g: int|
                0 <= g < pre.num_gens() && g != retiring as int ==> ((#[trigger] post.freed(g))
                    <==> pre.freed(g))
        },
{
    assert(pre.writer_ok(pre.writers@[w]));
}

/// While a reader stays pinned, the value of its generation never changes:
/// the copy it takes at the end is the value that was current at its load.
pub proof fn lemma_pinned_value_stable<T>(
    states: Seq<GateRcu<T>>,
    evs: Seq<GateEvent<T>>,
    i: int,
    j: int,
    r: int,
)
    requires
        valid_run(states, evs),
        states[0].inv(),
        0 <= i <= j < states.len(),
        0 <= r < states[i].readers@.len(),
        states[i].readers@[r] is Pinned,
        forall|k: int| i <= k <= j ==> states[k].readers@[r] == states[i].readers@[r],
    ensures
        states[j].readers@.len() == states[i].readers@.len(),
        !states[j].freed(pin_of(states[i].readers@[r])),
        states[j].value_of(pin_of(states[i].readers@[r])) == states[i].value_of(
            pin_of(states[i].readers@[r]),
        ),
    decreases j - i,
{
    let g = pin_of(states[i].readers@[r]);
    lemma_run_inv(states, evs, i);
    assert(states[i].reader_ok(states[i].readers@[r]));
    if j > i {
        lemma_pinned_value_stable(states, evs, i, j - 1, r);
        let k = j - 1;
        assert(gate_step(states[k], evs[k], states[k + 1]));
        lemma_step_arena_grows(states[k], evs[k], states[j]);
        lemma_run_inv(states, evs, j);
        assert(states[j].readers@[r] == states[i].readers@[r]);
        assert(states[j].reader_ok(states[j].readers@[r]));
        assert(!states[j].freed(g));
        lemma_run_inv(states, evs, k);
        assert(0 <= g < states[k].num_gens()) by {
            assert(states[k].readers@[r] == states[i].readers@[r]);
            assert(states[k].reader_ok(states[k].readers@[r]));
        }
        lemma_step_values_stable(states[k], evs[k], states[j], g);
    }
}
} // verus!\n