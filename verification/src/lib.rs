//! Core of an authoritative real-time state server: length-prefixed message
//! framing, an event-sourced world simulation, a drift-corrected tick
//! scheduler, and the per-connection bookkeeping that the network reactor
//! drives. All I/O lives outside this crate; everything here is pure logic
//! over plain values.

pub mod codec;
pub mod conn;
pub mod frame;
pub mod pipeline;
pub mod schedule;
pub mod table;
pub mod wire;
pub mod world;
