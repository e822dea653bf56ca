//! A tail-and-broadcast file feed: clients name a starting position in a
//! growing file and are streamed every byte from there on.
//!
//! The library holds the decisions: parsing a client's header, resolving it
//! against the file's current bytes, and the per-client streaming state
//! machine. Reading the file, watching it and moving bytes to sockets happen
//! around it.

pub mod index;
pub mod session;
pub mod watch;
