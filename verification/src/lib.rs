//! Effectful logic as suspendable computations.
//!
//! A computation pauses where it needs something of its driver, hands out an
//! effect that says what, and goes on from that point once it is resumed with
//! the answer. Computations are composed with the combinators of
//! [`coroutine`], driven to a result by the protocols of [`handler`], and
//! multiplexed over timers by the [`scheduler`]. The modules [`exception`]
//! and [`state`] hold two ready-made policies, [`laws`] what is proved of the
//! combinators.

pub mod basic;
pub mod coroutine;
pub mod effect;
pub mod exception;
pub mod handler;
pub mod laws;
pub mod scheduler;
pub mod state;
