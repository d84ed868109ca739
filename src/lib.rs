//! A two-party transport for driving a reinforcement-learning environment from another
//! process: a tagged message codec, single-slot mailboxes under one shared token pair, and
//! the client and server protocol state machines that run over them.
use vstd::prelude::*;

pub mod backend;
pub mod envelope;
pub mod error;
pub mod mailbox;
pub mod mem_server;
pub mod transport;
pub mod wire;

verus! {

} // verus!
