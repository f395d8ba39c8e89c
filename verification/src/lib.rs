//! Client-side core of a service bus: the frame codec that turns a byte
//! stream into typed messages and back, the connection handle that pairs
//! replies with calls, and the router that queues work while disconnected
//! and replays bindings on connect.
//!
//! Everything here is a pure state machine or a function on bytes; the
//! sockets, tasks and channels live with the caller.
//!
//! From the wire up: [`varint`] and [`text`] are the two primitives, [`wire`]
//! cuts bodies into tagged fields, [`record`] looks fields up, [`header`]
//! and [`gsb_api`] lay out the messages, [`decoder`] and [`encoder`] frame
//! them, [`connection`] and [`remote_router`] are the two state machines,
//! and [`ordering`] holds what the router guarantees over several steps.

pub mod buffer;
pub mod connection;
pub mod decoder;
pub mod encoder;
pub mod error;
pub mod gsb_api;
pub mod header;
pub mod ordering;
pub mod record;
pub mod remote_router;
pub mod text;
pub mod varint;
pub mod wire;
