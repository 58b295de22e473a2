//! The dispatch core of a "run this shell command" primitive that works the
//! same against the local machine and against a remote agent.
//!
//! The library performs no input or output. It decides what is to be done
//! next (run a program, put a request to the agent, stop with a result) and
//! is told what came of it; see [`command::dispatch`]. The bytes that cross
//! the wire are laid down in [`wire`], and every decoder is proved to be
//! the inverse of its encoder.

pub mod command;
pub mod errors;
pub mod host;
pub mod wire;
