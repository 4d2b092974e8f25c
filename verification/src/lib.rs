//! A read-copy-update (RCU) synchronization primitive, modelled and verified.
//!
//! The cell keeps the protected value in an arena of *generations*: each
//! successful update installs one fresh generation and retires exactly one
//! old generation, and a retired generation is emptied only once no reader
//! can still observe it.
//!
//! Three views of the same protocol live here:
//!
//! - [`cell`] is the user-facing cell: `new`, `read`, `update`, `subscribe`.
//! - [`gate`] spells the reclamation protocol of the cell out one atomic
//!   action per method (reader registration, the writer's compare-and-swap,
//!   the write gate, the quiescence drain), so that every interleaving of
//!   those actions can be driven and reasoned about. The safety laws of the
//!   protocol are proved there.
//! - [`guard`] is the alternate reclamation strategy: a reference count per
//!   generation, where releasing the last guard frees the generation.

pub mod cell;
pub mod counting;
pub mod gate;
pub mod guard;
