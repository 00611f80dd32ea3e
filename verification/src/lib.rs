//! Game rules and networking bookkeeping of a small multiplayer arena game:
//! id allocation, client registration, message queues, collision outcomes
//! and the reconciliation of a local world with the server's snapshot.

pub mod ids;
pub mod network;
pub mod client;
pub mod server;
pub mod shoot;
pub mod collisions;
pub mod sync;
pub mod shared;
pub mod input;
