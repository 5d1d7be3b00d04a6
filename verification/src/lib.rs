//! Authoritative client-server synchronization core for a real-time
//! interactive simulation under network latency.
//!
//! The crate models client-side prediction, server reconciliation and entity
//! interpolation, connected through a simulated delayed-but-reliable message
//! link.  All quantities are integers: simulated wall-clock time is measured
//! in milliseconds, and entity positions are measured in thousandths of a
//! display unit, so every state change is exact and verifiable.  The driver
//! that owns the crate advances the simulated clock, feeds raw key intents in
//! and renders entity positions out; everything in between is verified.
#![allow(non_snake_case)]

pub mod client;
pub mod network;
pub mod server;
pub mod world;
