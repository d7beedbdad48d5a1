//! Core logic of a small chat-bot service: a per-chat todo store and a
//! registered-users set with textual snapshots, the daily scheduler's
//! time arithmetic, and the broadcast fan-out, all verified.

pub mod broadcast;
pub mod codec;
pub mod num;
pub mod router;
pub mod schedule;
pub mod snapshot;
pub mod store;
