//! Verified core of an RTTY telemetry receiver.
//!
//! - `baudot`: the ITA2 letters/figures tables and shift handling.
//! - `rtty`: the start/stop-bit framed bitstream decoder and its streaming
//!   state, with the law that feeding bits in pieces decodes as feeding them
//!   at once.
//! - `multistage`, `fir`, `decimate`: the decimating filter cascade: its
//!   power-of-two stage plan, tap and window counts, the layout of its
//!   carry-over buffer, and the streaming stage that hands out the input
//!   window of every output, with the law that splitting the stream does not
//!   change what the cascade computes.
//! - `window`: window functions used to design filter taps.
//! - `settings`: the `NAME = VALUE` settings format.
//! - `device`, `worker`, `memory_recycler`: small pieces shared with the
//!   receive worker.

pub mod baudot;
pub mod decimate;
pub mod device;
pub mod fir;
pub mod memory_recycler;
pub mod multistage;
pub mod rtty;
pub mod settings;
pub mod window;
pub mod worker;

mod vec_util;
