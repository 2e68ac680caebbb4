//! The cores of a handful of small network servers, verified.
//!
//! The largest is a speed daemon: cameras report the plates they see,
//! the server works out who was speeding, and dispatchers are sent the tickets.
//! Its parts are the frames and their codec (`frame`, `roundtrip`), the read
//! side of a connection (`connection`), the store (`db`), the ticketing engine
//! (`ticketing`), the state machine of a connection (`session`, `heartbeat`),
//! what the listener decides (`server`), and what holds of all of it together
//! (`ledger`, `routing`, `system`).
//!
//! The others are a price service (`prices`), a chat room (`chat`), a prime
//! service (`prime`), a rewriting proxy (`proxy`) and a key-value service
//! (`kv`).
//!
//! Nothing here reads a socket or a clock. Every function takes plain values
//! and says in its contract what it gives back.
pub mod chat;
pub mod connection;
pub mod cursor;
pub mod db;
pub mod frame;
pub mod heartbeat;
pub mod kv;
pub mod ledger;
pub mod prices;
pub mod prime;
pub mod proxy;
pub mod roundtrip;
pub mod routing;
pub mod server;
pub mod session;
pub mod system;
pub mod ticketing;
pub mod wire;
