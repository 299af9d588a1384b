//! Decoder for the IEX-TP transport framing and the TOPS 1.6 market-data messages it carries.
//!
//! Every decoder is a pure function of the bytes it is given: it returns the decoded value
//! together with the bytes that follow it, or the kind of failure, and never a partial value.

pub mod bits;
pub mod error;
pub mod iex_tp;
pub mod message_protocol_ids;
pub mod time;
pub mod tops;
pub mod utils;
