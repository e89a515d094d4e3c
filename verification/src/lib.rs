//! ACARS (Aircraft Communications Addressing and Reporting System) decoding:
//! the frame parser with its parity and CRC error correction, the label
//! table and OOOI label parsers, multi-block reassembly, per-channel
//! delivery, and the text and JSON records of decoded messages.
use vstd::prelude::*;

pub mod channel;
mod clock;
pub mod crc;
pub mod fec;
pub mod input;
pub mod frame;
pub mod json;
pub mod label;
pub mod label_parsers;
pub mod msk;
pub mod reassembly;
pub mod text_record;

pub use channel::ChannelLockState;
pub use frame::{AcarsMessage, FrameParser};
pub use label::lookup as lookup_label;
pub use label_parsers::{decode_label, Oooi};
pub use msk::IF_RATE_HZ;
pub use reassembly::{MessageAssembler, REASSEMBLY_TIMEOUT};

verus! {

} // verus!
