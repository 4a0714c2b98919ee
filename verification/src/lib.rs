//! Bounded, wait-free single-producer/single-consumer ring buffer.
//!
//! [`channel`](channel::channel) returns a [`Producer`](producer::Producer) /
//! [`Consumer`](consumer::Consumer) pair that share a fixed-size buffer. Each is
//! `Send` but not `Sync`, so the single-producer/single-consumer contract is checked at
//! compile time. No call waits for the other end: a counter is read as it is, and a slot
//! that is in use would be refused, which [`laws`] shows never to happen.
//!
//! The contracts of the endpoints say what a call does to the shared memory;
//! [`laws`] says what follows for every interleaving of two endpoints, [`queue`] what
//! follows while one of them is at rest, and [`history`] what follows of whole histories
//! of calls, in terms of what was given to them and what came back.
pub mod channel;
pub mod consumer;
pub mod execution;
pub mod history;
pub mod index;
pub mod laws;
mod memory;
pub mod producer;
pub mod protocol;
pub mod queue;
mod resting;
mod ring;
mod slots;
mod sync;

pub use crate::channel::channel;
pub use crate::consumer::Consumer;
pub use crate::producer::Producer;
