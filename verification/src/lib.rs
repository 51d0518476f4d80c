//! The verified core of a P25 receiver for RTL-SDR tuners.
//!
//! - `demod`: the symbol stage: shift registers that watch the dibit stream
//!   for the frame sync word as it looks under each carrier phase error, and
//!   the corrections they reveal.
//! - `pipeline`: the state of one channel: tuner frequency, channel offset,
//!   output path, and the buffers of its baseband and symbol stages.
//! - `command`: the line protocol on the control input and the replies.
//! - `control`: how a command changes the channels.
//! - `iq`: the tuner's raw sample format.
use vstd::prelude::*;

pub mod command;
pub mod control;
pub mod demod;
pub mod iq;
pub mod pipeline;

verus! {

} // verus!
