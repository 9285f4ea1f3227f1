//! The decisions of the event loop: expiring keys, waking and timing out
//! blocked connections, and answering a connection's request.
pub mod admission;
pub mod blocking;
pub mod connection;
pub mod event;
pub mod expiry;
